use vstd::prelude::*;
use crate::rational::{Frac, Rational, frac_int, frac_mul};

verus! {

/// A holding of one asset, or one fill of it: signed lots at an average price per lot.
#[derive(Debug, Clone)]
pub struct Position {
    pub asset: String,
    pub lots: i64,
    pub costbasis: Rational,
}

impl Position {
    pub open spec fn wf(self) -> bool {
        self.costbasis.wf()
    }

    /// What the lots cost in all: cost basis times lots.
    pub open spec fn cost(self) -> Frac {
        frac_mul(self.costbasis.frac(), frac_int(self.lots as int))
    }
}

/// Where an order stands in its life.
#[derive(Clone, Copy, Debug, PartialEq, Eq, Structural)]
pub enum OrderState {
    Pending,
    Rejected,
    Executed,
}

/// A request to trade `lots` of `asset` (positive buys, negative sells). An executed order
/// carries its fill price until the account settles it.
#[derive(Debug, Clone)]
pub struct Order {
    pub state: OrderState,
    pub asset: String,
    pub lots: i64,
    pub costbasis: Option<Rational>,
}

impl Order {
    pub open spec fn wf(self) -> bool {
        match self.costbasis {
            Some(p) => self.state == OrderState::Executed && p.wf(),
            None => self.state != OrderState::Executed,
        }
    }

    /// The fill that settling this executed order applies.
    pub open spec fn fill(self) -> Position {
        Position { asset: self.asset, lots: self.lots, costbasis: self.costbasis.unwrap() }
    }
}

} // verus!
