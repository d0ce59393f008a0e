use vstd::prelude::*;

verus! {

/// What can go wrong in the ledger or in a simulation step.
#[derive(Clone, Copy, Debug, PartialEq, Eq, Structural)]
pub enum EngineError {
    /// The order or fill would cost more than the cash available.
    InsufficientCash,
    /// `step` was asked for after the last tick.
    SequenceExhausted,
    /// An exact arithmetic operation left the range of its integers.
    ArithmeticFault,
}

} // verus!
