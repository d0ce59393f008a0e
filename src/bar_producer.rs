use vstd::prelude::*;
use crate::bar::Tick;

verus! {

/// The ordered, fixed sequence of ticks a simulation replays, with the cursor at the next
/// tick to be processed.
pub struct BarProducer {
    pub ticks: Vec<Tick>,
    pub cursor: usize,
}

impl BarProducer {
    pub open spec fn wf(self) -> bool {
        &&& self.cursor <= self.ticks@.len()
        &&& forall|i: int| 0 <= i < self.ticks@.len() ==> #[trigger] self.ticks@[i].wf()
    }

    /// A producer at the start of `ticks`.
    pub fn new(ticks: Vec<Tick>) -> (r: BarProducer)
        requires
            forall|i: int| 0 <= i < ticks@.len() ==> #[trigger] ticks@[i].wf(),
        ensures
            r.wf(),
            r.ticks@ == ticks@,
            r.cursor == 0,
    {
        BarProducer { ticks, cursor: 0 }
    }

    /// The tick at the cursor, if any is left.
    pub fn current(&self) -> (r: Option<&Tick>)
        ensures
            r == (if self.cursor < self.ticks@.len() {
                Some(&self.ticks@[self.cursor as int])
            } else {
                None
            }),
    {
        if self.cursor < self.ticks.len() {
            Some(&self.ticks[self.cursor])
        } else {
            None
        }
    }
}

} // verus!
