use vstd::prelude::*;
use crate::rational::{Frac, Rational, add_fits, babs, div_fits, frac_add, frac_div, frac_int};

verus! {

/// One quote of an asset: when, what, and at which bid and ask. `timestamp` counts
/// microseconds since the Unix epoch, in UTC.
#[derive(Clone, Debug)]
pub struct Tick {
    pub timestamp: i64,
    pub asset: String,
    pub bid: Rational,
    pub ask: Rational,
}

impl Tick {
    pub open spec fn wf(self) -> bool {
        self.bid.wf() && self.ask.wf()
    }

    /// The midpoint of bid and ask.
    pub open spec fn mid(self) -> Frac {
        frac_div(frac_add(self.bid.frac(), self.ask.frac()), frac_int(2))
    }

    /// Computing the midpoint stays within `i64`: the sum of bid and ask, then its halving,
    /// judged on the unreduced sum.
    pub open spec fn mid_fits(self) -> bool {
        &&& add_fits(self.bid.frac(), self.ask.frac())
        &&& div_fits(frac_add(babs(self.bid.frac()), babs(self.ask.frac())), frac_int(2))
    }
}

/// Open, high, low and close prices over one interval that starts at `timestamp`
/// (microseconds since the Unix epoch, UTC).
#[derive(Clone, Copy, Debug, PartialEq, Eq, Structural)]
pub struct Bar {
    pub timestamp: i64,
    pub open: Rational,
    pub high: Rational,
    pub low: Rational,
    pub close: Rational,
}

impl Bar {
    pub open spec fn wf(self) -> bool {
        self.open.wf() && self.high.wf() && self.low.wf() && self.close.wf()
    }
}

} // verus!
