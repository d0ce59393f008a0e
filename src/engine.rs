use vstd::prelude::*;
use hashbrown::HashMap;
use crate::account::{
    Account, AccountBalance, no_positions, settle_faulted, settled,
};
use crate::bar::Tick;
use crate::bar_producer::BarProducer;
use crate::error::EngineError;
use crate::keys::lists_keys;
use crate::indicators::{Indicator, Indicators, no_indicators, step_faults, stepped};
use crate::position::{Order, OrderState, Position};
use crate::rational::{
    Frac, Rational, checked_add, checked_div, checked_mul, frac_add, frac_eq, frac_int, frac_lt,
    frac_div, frac_mul, lemma_add_congr, lemma_add_zero, lemma_div_congr_int, lemma_eq_trans,
    lemma_lt_congr, lemma_wf_ops, abs, add_fits, babs, div_fits, lemma_add_within,
    lemma_div_int_within, lemma_within_self, mul_fits, within,
};

verus! {

/// The last midpoint seen for each asset.
#[verifier::external_body]
pub struct PriceBook {
    map: HashMap<String, Rational>,
}

/// What a price book holds: asset name to price.
pub uninterp spec fn prices_view(b: PriceBook) -> Map<Seq<char>, Rational>;

/// The empty price book.
pub open spec fn no_prices() -> Map<Seq<char>, Rational> {
    Map::empty()
}

impl PriceBook {
    pub open spec fn view(self) -> Map<Seq<char>, Rational> {
        prices_view(self)
    }

    /// Relies on hashbrown's `HashMap::new`: an empty map.
    #[verifier::external_body]
    pub(crate) fn new() -> (r: PriceBook)
        ensures
            prices_view(r) == no_prices(),
    {
        PriceBook { map: HashMap::new() }
    }

    /// Relies on hashbrown's `HashMap::get`: the price under `asset`, if any.
    #[verifier::external_body]
    pub(crate) fn get(&self, asset: &String) -> (r: Option<Rational>)
        ensures
            match r {
                Some(p) => prices_view(*self).contains_key(asset@) && p == prices_view(
                    *self,
                )[asset@],
                None => !prices_view(*self).contains_key(asset@),
            },
    {
        self.map.get(asset).copied()
    }

    /// Relies on hashbrown's `HashMap::insert`: `price` stands under `asset` afterwards.
    #[verifier::external_body]
    pub(crate) fn insert(&mut self, asset: String, price: Rational)
        ensures
            prices_view(*final(self)) == prices_view(*old(self)).insert(asset@, price),
    {
        self.map.insert(asset, price);
    }
}

/// The mark of one position: its lots at the asset's last price, or nothing while the asset
/// has no price yet.
pub open spec fn mark(p: Position, prices: Map<Seq<char>, Rational>) -> Frac {
    if prices.contains_key(p.asset@) {
        frac_mul(prices[p.asset@].frac(), frac_int(p.lots as int))
    } else {
        frac_int(0)
    }
}

/// `cash` plus the mark of the position under each asset of `ks`, added in turn.
pub open spec fn marked_total(
    cash: Frac,
    ks: Seq<String>,
    positions: Map<Seq<char>, Position>,
    prices: Map<Seq<char>, Rational>,
) -> Frac
    decreases ks.len(),
{
    if ks.len() == 0 {
        cash
    } else {
        frac_add(
            marked_total(cash, ks.drop_last(), positions, prices),
            mark(positions[ks.last()@], prices),
        )
    }
}

/// A size bound on `marked_total`: the same sum taken over sizes.
pub open spec fn total_bound(
    cash: Frac,
    ks: Seq<String>,
    positions: Map<Seq<char>, Position>,
    prices: Map<Seq<char>, Rational>,
) -> Frac
    decreases ks.len(),
{
    if ks.len() == 0 {
        babs(cash)
    } else {
        frac_add(
            total_bound(cash, ks.drop_last(), positions, prices),
            babs(mark(positions[ks.last()@], prices)),
        )
    }
}

/// Each mark and each addition of `marked_total` fits in `i64`, judged on sizes.
pub open spec fn marks_fit(
    cash: Frac,
    ks: Seq<String>,
    positions: Map<Seq<char>, Position>,
    prices: Map<Seq<char>, Rational>,
) -> bool
    decreases ks.len(),
{
    if ks.len() == 0 {
        true
    } else {
        let p = positions[ks.last()@];
        &&& marks_fit(cash, ks.drop_last(), positions, prices)
        &&& prices.contains_key(p.asset@) ==> {
            &&& mul_fits(prices[p.asset@].frac(), frac_int(p.lots as int))
            &&& add_fits(
                total_bound(cash, ks.drop_last(), positions, prices),
                babs(mark(p, prices)),
            )
        }
    }
}

proof fn lemma_marks_fit_prefix(
    cash: Frac,
    ks: Seq<String>,
    positions: Map<Seq<char>, Position>,
    prices: Map<Seq<char>, Rational>,
    j: int,
)
    requires
        0 <= j <= ks.len(),
        marks_fit(cash, ks, positions, prices),
    ensures
        marks_fit(cash, ks.take(j), positions, prices),
    decreases ks.len() - j,
{
    if j == ks.len() {
        assert(ks.take(j) =~= ks);
    } else {
        lemma_marks_fit_prefix(cash, ks, positions, prices, j + 1);
        assert(ks.take(j + 1).drop_last() =~= ks.take(j));
    }
}

/// The price an order for `lots` fills at on `tick`: the ask for a buy, the bid otherwise.
pub open spec fn fill_price(tick: Tick, lots: i64) -> Rational {
    if lots > 0 {
        tick.ask
    } else {
        tick.bid
    }
}

/// The simulation: an account, the registered indicators, the ticks with their cursor, and
/// the last midpoint of each asset.
pub struct Engine {
    pub account: Account,
    pub indicators: Indicators,
    pub bars: BarProducer,
    pub last_price: PriceBook,
}

impl Engine {
    pub open spec fn wf(self) -> bool {
        &&& self.account.wf()
        &&& self.indicators.wf()
        &&& self.bars.wf()
        &&& forall|k: Seq<char>| #[trigger]
            self.last_price@.contains_key(k) ==> self.last_price@[k].wf()
    }

    /// `v` is the equity: the cash plus the mark of every open position.
    pub open spec fn equity_is(self, v: Rational) -> bool {
        &&& v.wf()
        &&& exists|ks: Seq<String>|
            lists_keys(ks, self.account.portfolio()) && frac_eq(
                v.frac(),
                marked_total(self.account.cash.frac(), ks, self.account.portfolio(), self.last_price@),
            )
    }

    /// A simulation over `ticks` that starts with `starting_cash` and nothing else.
    pub fn init_engine(ticks: Vec<Tick>, starting_cash: Rational) -> (r: Engine)
        requires
            forall|i: int| 0 <= i < ticks@.len() ==> #[trigger] ticks@[i].wf(),
            starting_cash.wf(),
        ensures
            r.wf(),
            r.account.cash == starting_cash,
            r.account.portfolio() == no_positions(),
            r.account.trades@ == Seq::<Position>::empty(),
            r.account.orders@ == Seq::<Order>::empty(),
            r.indicators@ == no_indicators(),
            r.bars.ticks@ == ticks@,
            r.bars.cursor == 0,
            r.last_price@ == no_prices(),
    {
        Engine {
            account: Account::new(starting_cash),
            indicators: Indicators::new(),
            bars: BarProducer::new(ticks),
            last_price: PriceBook::new(),
        }
    }

    /// A simulation with no ticks and a cash of 10000.
    pub fn new() -> (r: Engine)
        ensures
            r.wf(),
            r.account.cash == Rational::from_integer_spec(10000),
            r.account.portfolio() == no_positions(),
            r.account.trades@ == Seq::<Position>::empty(),
            r.account.orders@ == Seq::<Order>::empty(),
            r.indicators@ == no_indicators(),
            r.bars.ticks@.len() == 0,
            r.bars.cursor == 0,
            r.last_price@ == no_prices(),
    {
        Engine::init_engine(Vec::new(), Rational::from_integer(10000))
    }

    /// The last midpoint recorded for `asset`, if any.
    pub fn price_of(&self, asset: &String) -> (r: Option<Rational>)
        ensures
            r == (if self.last_price@.contains_key(asset@) {
                Some(self.last_price@[asset@])
            } else {
                None
            }),
    {
        self.last_price.get(asset)
    }

    /// Answers a balance request with the account's cash.
    pub fn handle(&self, msg: AccountBalance) -> (r: Rational)
        ensures
            r == self.account.cash,
    {
        self.account.handle(msg)
    }

    /// Registers `indicator` under its name, replacing one of that name.
    pub fn register_indicator(&mut self, indicator: Indicator)
        requires
            old(self).wf(),
            indicator.wf(),
        ensures
            final(self).wf(),
            final(self).indicators@ == old(self).indicators@.insert(indicator.name@, indicator),
            final(self).account == old(self).account,
            final(self).bars == old(self).bars,
            final(self).last_price == old(self).last_price,
    {
        self.indicators.register(indicator);
    }

    /// The value of the indicator called `name`; `None` where there is none or it is not ready.
    pub fn indicator_value(&self, name: &String) -> (r: Result<Option<Rational>, EngineError>)
        requires
            self.wf(),
        ensures
            match r {
                Ok(v) => if self.indicators@.contains_key(name@) {
                    self.indicators@[name@].value_is(v)
                } else {
                    v is None
                },
                Err(e) => e == EngineError::ArithmeticFault && self.indicators@.contains_key(name@)
                    && !self.indicators@[name@].value_fits(),
            },
    {
        self.indicators.value_of(name)
    }

    /// Submits an order for `lots` of `asset` (positive buys, negative sells) against the
    /// current tick: it executes at the ask for a buy and at the bid otherwise, and is
    /// rejected, changing nothing, when its cost exceeds the cash. The executed order waits in
    /// the account until the next step settles it.
    pub fn place_order(&mut self, asset: String, lots: i64) -> (r: Result<(), EngineError>)
        requires
            old(self).wf(),
        ensures
            final(self).wf(),
            old(self).bars.cursor >= old(self).bars.ticks@.len() ==> r == Err::<
                (),
                EngineError,
            >(EngineError::SequenceExhausted),
            r matches Err(_) ==> *final(self) == *old(self),
            old(self).bars.cursor < old(self).bars.ticks@.len() ==> {
                let price = fill_price(old(self).bars.ticks@[old(self).bars.cursor as int], lots);
                let cost = frac_mul(price.frac(), frac_int(lots as int));
                &&& r != Err::<(), EngineError>(EngineError::SequenceExhausted)
                &&& frac_lt(old(self).account.cash.frac(), cost) ==> r is Err
                &&& r == Err::<(), EngineError>(EngineError::InsufficientCash) ==> frac_lt(
                    old(self).account.cash.frac(),
                    cost,
                )
                &&& mul_fits(price.frac(), frac_int(lots as int)) ==> (r == Err::<(), EngineError>(
                    EngineError::InsufficientCash,
                ) <==> frac_lt(old(self).account.cash.frac(), cost))
                &&& mul_fits(price.frac(), frac_int(lots as int)) && !frac_lt(
                    old(self).account.cash.frac(),
                    cost,
                ) ==> r is Ok
                &&& r == Err::<(), EngineError>(EngineError::ArithmeticFault) ==> !mul_fits(
                    price.frac(),
                    frac_int(lots as int),
                )
                &&& r is Ok ==> {
                    &&& final(self).account.orders@ == old(self).account.orders@.push(
                        (Order {
                            state: OrderState::Executed,
                            asset: asset,
                            lots: lots,
                            costbasis: Some(price),
                        }),
                    )
                    &&& final(self).account.cash == old(self).account.cash
                    &&& final(self).account.positions == old(self).account.positions
                    &&& final(self).account.trades == old(self).account.trades
                    &&& final(self).indicators == old(self).indicators
                    &&& final(self).bars == old(self).bars
                    &&& final(self).last_price == old(self).last_price
                }
            },
    {
        let tick = match self.bars.current() {
            Some(t) => t,
            None => {
                return Err(EngineError::SequenceExhausted);
            },
        };
        assert(tick.wf());
        let price = if lots > 0 {
            tick.ask
        } else {
            tick.bid
        };
        let cost = match checked_mul(price, Rational::from_integer(lots)) {
            Some(c) => c,
            None => {
                return Err(EngineError::ArithmeticFault);
            },
        };
        proof {
            lemma_wf_ops(price.frac(), frac_int(lots as int));
            lemma_lt_congr(
                self.account.cash.frac(),
                cost.frac(),
                frac_mul(price.frac(), frac_int(lots as int)),
            );
        }
        if cost.gt(&self.account.cash) {
            return Err(EngineError::InsufficientCash);
        }
        self.account.orders.push(
            Order { state: OrderState::Executed, asset, lots, costbasis: Some(price) },
        );
        proof {
            let orders = self.account.orders@;
            assert forall|i: int| 0 <= i < orders.len() implies #[trigger] orders[i].wf() by {
                if i < orders.len() - 1 {
                    assert(orders[i] == old(self).account.orders@[i]);
                }
            }
            assert(self.account.portfolio() == old(self).account.portfolio());
        }
        Ok(())
    }

    /// The midpoint of `tick`'s bid and ask.
    fn midpoint(tick: &Tick) -> (r: Result<Rational, EngineError>)
        requires
            tick.wf(),
        ensures
            match r {
                Ok(m) => m.wf() && frac_eq(m.frac(), tick.mid()),
                Err(e) => e == EngineError::ArithmeticFault && !tick.mid_fits(),
            },
    {
        let sum = match checked_add(tick.bid, tick.ask) {
            Some(s) => s,
            None => {
                return Err(EngineError::ArithmeticFault);
            },
        };
        proof {
            let bound = frac_add(babs(tick.bid.frac()), babs(tick.ask.frac()));
            lemma_within_self(tick.bid.frac());
            lemma_within_self(tick.ask.frac());
            lemma_add_within(tick.bid.frac(), tick.ask.frac(), babs(tick.bid.frac()), babs(tick.ask.frac()));
            assert(within(sum.frac(), bound));
            lemma_div_int_within(sum.frac(), bound, 2);
            if div_fits(bound, frac_int(2)) {
                assert(abs(bound.n * 1) <= i64::MAX);
            }
        }
        if sum.numer == i64::MIN {
            return Err(EngineError::ArithmeticFault);
        }
        match checked_div(sum, Rational::from_integer(2)) {
            Some(m) => {
                proof {
                    lemma_wf_ops(tick.bid.frac(), tick.ask.frac());
                    lemma_div_congr_int(sum.frac(), frac_add(tick.bid.frac(), tick.ask.frac()), 2);
                    lemma_wf_ops(sum.frac(), frac_int(2));
                    lemma_wf_ops(frac_add(tick.bid.frac(), tick.ask.frac()), frac_int(2));
                    lemma_eq_trans(
                        m.frac(),
                        frac_div(sum.frac(), frac_int(2)),
                        tick.mid(),
                    );
                }
                Ok(m)
            },
            None => Err(EngineError::ArithmeticFault),
        }
    }

    /// Processes the tick at the cursor: every indicator takes its sample (the midpoint, or
    /// the value another indicator had before this step), the midpoint becomes the asset's
    /// last price, the orders in flight are reconciled, and the cursor moves on. After the
    /// last tick nothing changes and `SequenceExhausted` comes back. Where the midpoint or an
    /// indicator value does not fit in `i64`, nothing changes; where a fill does not, the
    /// indicators and the price have been updated, reconciliation stops at that order (see
    /// `settle_faulted`), and the cursor stays at the offending tick. Either way
    /// `ArithmeticFault` comes back.
    pub fn step(&mut self) -> (r: Result<(), EngineError>)
        requires
            old(self).wf(),
        ensures
            final(self).wf(),
            old(self).bars.cursor >= old(self).bars.ticks@.len() ==> r == Err::<
                (),
                EngineError,
            >(EngineError::SequenceExhausted) && *final(self) == *old(self),
            r matches Err(e) ==> e == EngineError::SequenceExhausted || e
                == EngineError::ArithmeticFault,
            r is Err ==> final(self).bars == old(self).bars,
            old(self).bars.cursor < old(self).bars.ticks@.len() ==> r != Err::<(), EngineError>(
                EngineError::SequenceExhausted,
            ),
            r == Err::<(), EngineError>(EngineError::ArithmeticFault) ==> {
                let tick = old(self).bars.ticks@[old(self).bars.cursor as int];
                ||| *final(self) == *old(self) && !tick.mid_fits()
                ||| *final(self) == *old(self) && step_faults(old(self).indicators@)
                ||| exists|mid: Rational|
                    {
                        &&& mid.wf()
                        &&& frac_eq(mid.frac(), tick.mid())
                        &&& final(self).last_price@ == old(self).last_price@.insert(
                            tick.asset@,
                            mid,
                        )
                        &&& stepped(old(self).indicators@, final(self).indicators@, mid)
                        &&& settle_faulted(old(self).account, final(self).account)
                    }
            },
            r is Ok ==> {
                let tick = old(self).bars.ticks@[old(self).bars.cursor as int];
                &&& old(self).bars.cursor < old(self).bars.ticks@.len()
                &&& final(self).bars.ticks == old(self).bars.ticks
                &&& final(self).bars.cursor == old(self).bars.cursor + 1
                &&& exists|mid: Rational|
                    {
                        &&& mid.wf()
                        &&& frac_eq(mid.frac(), tick.mid())
                        &&& final(self).last_price@ == old(self).last_price@.insert(
                            tick.asset@,
                            mid,
                        )
                        &&& stepped(old(self).indicators@, final(self).indicators@, mid)
                    }
                &&& settled(old(self).account, final(self).account)
            },
    {
        let tick = match self.bars.current() {
            Some(t) => t,
            None => {
                return Err(EngineError::SequenceExhausted);
            },
        };
        assert(tick.wf());
        let mid = match Engine::midpoint(tick) {
            Ok(m) => m,
            Err(e) => {
                return Err(e);
            },
        };
        let asset = tick.asset.clone();
        let cursor = self.bars.cursor;
        let len: usize = self.bars.ticks.len();
        assert(cursor < len);
        match self.indicators.step_all(mid) {
            Ok(()) => {},
            Err(e) => {
                return Err(e);
            },
        }
        let ghost prices = self.last_price@;
        assert(mid.wf());
        assert(forall|k: Seq<char>| #[trigger] prices.contains_key(k) ==> prices[k].wf());
        self.last_price.insert(asset, mid);
        assert forall|k: Seq<char>| #[trigger] self.last_price@.contains_key(k) implies self.last_price@[k].wf() by {
            if k != asset@ {
                assert(prices.contains_key(k));
            }
        }
        match self.account.settle_orders() {
            Ok(()) => {},
            Err(e) => {
                return Err(e);
            },
        }
        self.bars.cursor = cursor + 1;
        Ok(())
    }

    /// The equity: the cash plus, for each open position, its lots at the asset's last
    /// price (nothing for an asset not yet priced). With no open position it is the cash.
    pub fn equity(&self) -> (r: Result<Rational, EngineError>)
        requires
            self.wf(),
        ensures
            match r {
                Ok(v) => self.equity_is(v),
                Err(e) => e == EngineError::ArithmeticFault && exists|ks: Seq<String>|
                    lists_keys(ks, self.account.portfolio()) && !marks_fit(
                        self.account.cash.frac(),
                        ks,
                        self.account.portfolio(),
                        self.last_price@,
                    ),
            },
            self.account.portfolio() == no_positions() ==> r == Ok::<Rational, EngineError>(
                self.account.cash,
            ),
    {
        let ks = self.account.positions.assets();
        let cash = self.account.cash;
        let ghost m = self.account.portfolio();
        let ghost prices = self.last_price@;
        let mut total = cash;
        let mut i: usize = 0;
        while i < ks.len()
            invariant
                self.wf(),
                m == self.account.portfolio(),
                prices == self.last_price@,
                lists_keys(ks@, m),
                0 <= i <= ks@.len(),
                total.wf(),
                cash == self.account.cash,
                marked_total(cash.frac(), ks@.take(i as int), m, prices).wf(),
                frac_eq(total.frac(), marked_total(cash.frac(), ks@.take(i as int), m, prices)),
                i == 0 ==> total == cash,
                within(total.frac(), total_bound(cash.frac(), ks@.take(i as int), m, prices)),
            decreases ks@.len() - i,
        {
            assert(m.contains_key(ks@[i as int]@));
            let p = match self.account.positions.get(&ks[i]) {
                Some(p) => p,
                None => {
                    // every listed asset is held
                    proof {
                        assert(false);
                    }
                    return Err(EngineError::ArithmeticFault);
                },
            };
            assert(p.wf());
            let prev = Ghost(marked_total(cash.frac(), ks@.take(i as int), m, prices));
            assert(ks@.take(i + 1).drop_last() =~= ks@.take(i as int));
            assert(ks@.take(i + 1).last() == ks@[i as int]);
            let bound = Ghost(total_bound(cash.frac(), ks@.take(i as int), m, prices));
            assert(ks@.take(i + 1).last() == ks@[i as int]);
            assert(p == m[ks@[i as int]@]);
            match self.last_price.get(&p.asset) {
                Some(price) => {
                    let mk = match checked_mul(price, Rational::from_integer(p.lots)) {
                        Some(x) => x,
                        None => {
                            proof {
                                if marks_fit(cash.frac(), ks@, m, prices) {
                                    lemma_marks_fit_prefix(cash.frac(), ks@, m, prices, i + 1);
                                }
                            }
                            return Err(EngineError::ArithmeticFault);
                        },
                    };
                    proof {
                        lemma_add_within(total.frac(), mk.frac(), bound@, babs(mark(p, prices)));
                    }
                    let next = match checked_add(total, mk) {
                        Some(t) => t,
                        None => {
                            proof {
                                if marks_fit(cash.frac(), ks@, m, prices) {
                                    lemma_marks_fit_prefix(cash.frac(), ks@, m, prices, i + 1);
                                }
                            }
                            return Err(EngineError::ArithmeticFault);
                        },
                    };
                    proof {
                        let exact = frac_mul(price.frac(), frac_int(p.lots as int));
                        lemma_wf_ops(price.frac(), frac_int(p.lots as int));
                        lemma_add_congr(total.frac(), mk.frac(), prev@, exact);
                        lemma_wf_ops(total.frac(), mk.frac());
                        lemma_wf_ops(prev@, exact);
                        lemma_eq_trans(
                            next.frac(),
                            frac_add(total.frac(), mk.frac()),
                            frac_add(prev@, exact),
                        );
                    }
                    total = next;
                },
                None => {
                    proof {
                        lemma_add_zero(prev@);
                        lemma_wf_ops(prev@, frac_int(0));
                        lemma_eq_trans(total.frac(), prev@, frac_add(prev@, frac_int(0)));
                    }
                },
            }
            i = i + 1;
        }
        proof {
            assert(ks@.take(ks@.len() as int) =~= ks@);
            if m == no_positions() && ks@.len() > 0 {
                assert(m.contains_key(ks@[0]@));
            }
        }
        Ok(total)
    }
}

/// Right after construction, before any trade, the equity is the starting cash.
pub proof fn lemma_equity_at_start(e: Engine, starting_cash: Rational, v: Rational)
    requires
        e.wf(),
        e.account.cash == starting_cash,
        e.account.portfolio() == no_positions(),
        e.equity_is(v),
    ensures
        frac_eq(v.frac(), starting_cash.frac()),
{
    let ks = choose|ks: Seq<String>|
        lists_keys(ks, e.account.portfolio()) && frac_eq(
            v.frac(),
            marked_total(e.account.cash.frac(), ks, e.account.portfolio(), e.last_price@),
        );
    if ks.len() > 0 {
        assert(e.account.portfolio().contains_key(ks[0]@));
    }
}

} // verus!
