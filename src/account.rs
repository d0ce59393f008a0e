use vstd::prelude::*;
use hashbrown::HashMap;
use crate::error::EngineError;
use crate::keys::lists_keys;
use crate::position::{Order, OrderState, Position};
use crate::rational::{
    Frac, Rational, checked_add, checked_div, checked_mul, checked_sub, frac_add, frac_div,
    frac_eq, frac_int, frac_lt, frac_mul, frac_sub, lemma_div_mul_int,
    lemma_div_congr_int, lemma_eq_trans, lemma_mul_congr, lemma_mul_div_int, lemma_sub_self, lemma_sub_sub, lemma_lt_congr, lemma_wf_ops, lemma_add_congr, abs, add_fits, babs, div_fits, lemma_add_within,
    lemma_div_int_within, lemma_within_self, mul_fits, within,
};

verus! {

/// The open positions of an account, keyed by asset name.
#[verifier::external_body]
pub struct Portfolio {
    map: HashMap<String, Position>,
}

/// What a portfolio holds: asset name to position.
pub uninterp spec fn portfolio_view(p: Portfolio) -> Map<Seq<char>, Position>;

/// The empty portfolio.
pub open spec fn no_positions() -> Map<Seq<char>, Position> {
    Map::empty()
}

impl Portfolio {
    /// Relies on hashbrown's `HashMap::new`: an empty map.
    #[verifier::external_body]
    pub(crate) fn new() -> (r: Portfolio)
        ensures
            portfolio_view(r) == no_positions(),
    {
        Portfolio { map: HashMap::new() }
    }

    /// Relies on hashbrown's `HashMap::get`: the entry under `asset`, if any (cloned).
    #[verifier::external_body]
    pub(crate) fn get(&self, asset: &String) -> (r: Option<Position>)
        ensures
            match r {
                Some(p) => portfolio_view(*self).contains_key(asset@) && p == portfolio_view(
                    *self,
                )[asset@],
                None => !portfolio_view(*self).contains_key(asset@),
            },
    {
        self.map.get(asset).cloned()
    }

    /// Relies on hashbrown's `HashMap::insert`: `p` stands under its asset name afterwards,
    /// replacing what stood there.
    #[verifier::external_body]
    pub(crate) fn insert(&mut self, p: Position)
        ensures
            portfolio_view(*final(self)) == portfolio_view(*old(self)).insert(p.asset@, p),
    {
        self.map.insert(p.asset.clone(), p);
    }

    /// Relies on hashbrown's `HashMap::remove`: nothing stands under `asset` afterwards.
    #[verifier::external_body]
    pub(crate) fn remove(&mut self, asset: &String)
        ensures
            portfolio_view(*final(self)) == portfolio_view(*old(self)).remove(asset@),
    {
        self.map.remove(asset);
    }

    /// Relies on hashbrown's `HashMap::keys`: each asset name once, in the map's own order.
    #[verifier::external_body]
    pub(crate) fn assets(&self) -> (r: Vec<String>)
        ensures
            lists_keys(r@, portfolio_view(*self)),
    {
        self.map.keys().cloned().collect()
    }
}

/// A request for an account's cash balance.
#[derive(Clone, Copy, Debug, PartialEq, Eq, Structural)]
pub struct AccountBalance;

/// The ledger: cash, open positions by asset, the log of settled fills, and orders in flight.
pub struct Account {
    pub cash: Rational,
    pub positions: Portfolio,
    pub trades: Vec<Position>,
    pub orders: Vec<Order>,
}

/// The lots held in `asset` (zero when there is no position).
pub open spec fn lots_in(m: Map<Seq<char>, Position>, asset: Seq<char>) -> int {
    if m.contains_key(asset) {
        m[asset].lots as int
    } else {
        0
    }
}

/// What the position in `asset` cost in all (zero when there is none).
pub open spec fn equity_in(m: Map<Seq<char>, Position>, asset: Seq<char>) -> Frac {
    if m.contains_key(asset) {
        m[asset].cost()
    } else {
        frac_int(0)
    }
}

/// `new` is `old` after settling `fill`: the cost is debited, the fill logged, and the
/// position in its asset takes the summed lots at the lot-weighted average price, or
/// disappears when the lots sum to zero.
pub open spec fn fill_applied(old: Account, fill: Position, new: Account) -> bool {
    let k = fill.asset@;
    let before = old.portfolio();
    let after = new.portfolio();
    let lots = lots_in(before, k) + fill.lots;
    &&& frac_eq(new.cash.frac(), frac_sub(old.cash.frac(), fill.cost()))
    &&& new.trades@ == old.trades@.push(fill)
    &&& new.orders@ == old.orders@
    &&& after.remove(k) == before.remove(k)
    &&& lots == 0 ==> !after.contains_key(k)
    &&& lots != 0 ==> {
        &&& after.contains_key(k)
        &&& after[k].asset == fill.asset
        &&& after[k].lots == lots
        &&& frac_eq(
            after[k].costbasis.frac(),
            frac_div(frac_add(equity_in(before, k), fill.cost()), frac_int(lots)),
        )
    }
}

/// The ledger parts of two accounts agree: cash, portfolio and trade log.
pub open spec fn ledger_eq(a: Account, b: Account) -> bool {
    &&& a.cash == b.cash
    &&& a.portfolio() == b.portfolio()
    &&& a.trades@ == b.trades@
}

/// `b` is `a` after reconciling order `o`: an executed order's fill is settled, or skipped
/// when it costs more than the cash; any other order leaves the account as it is.
pub open spec fn settle_step(a: Account, o: Order, b: Account) -> bool {
    if o.state == OrderState::Executed {
        if frac_lt(a.cash.frac(), o.fill().cost()) {
            b == a
        } else {
            fill_applied(a, o.fill(), b)
        }
    } else {
        b == a
    }
}

/// Whether `o` is still waiting to be resolved.
pub open spec fn is_pending(o: Order) -> bool {
    o.state == OrderState::Pending
}

/// `accounts` are the ledgers while the first `n` orders of `old` are reconciled in turn.
pub open spec fn settle_prefix(accounts: Seq<Account>, old: Account, n: int) -> bool {
    &&& accounts.len() == n + 1
    &&& ledger_eq(accounts[0], old)
    &&& forall|i: int|
        0 <= i < n ==> #[trigger] settle_step(accounts[i], old.orders@[i], accounts[i + 1])
}

/// `new` is `old` after reconciling its orders in turn; only pending ones stay in flight.
pub open spec fn settled(old: Account, new: Account) -> bool {
    &&& exists|accounts: Seq<Account>|
        settle_prefix(accounts, old, old.orders@.len() as int) && ledger_eq(accounts.last(), new)
    &&& new.orders@ == old.orders@.filter(|o: Order| is_pending(o))
}

/// Reconciling `old` stopped at executed order `n`, whose fill does not fit in `i64`: `new`
/// holds the ledger after the first `n` orders, the pending ones among them, and the orders
/// from `n` on, still in flight.
pub open spec fn settle_faulted(old: Account, new: Account) -> bool {
    exists|accounts: Seq<Account>, n: int|
        {
            &&& 0 <= n < old.orders@.len()
            &&& settle_prefix(accounts, old, n)
            &&& ledger_eq(accounts.last(), new)
            &&& old.orders@[n].state == OrderState::Executed
            &&& !fill_fits(accounts.last(), old.orders@[n].fill())
            &&& new.orders@ == old.orders@.take(n).filter(|o: Order| is_pending(o)) + old.orders@.skip(
                n,
            )
        }
}

/// Every exact operation of settling `fill` into `a` stays within `i64`, judged on the
/// unreduced intermediates: the cost, the new cash, the summed lots and, where a position
/// stays open, what it cost, the total and the averaged price.
pub open spec fn fill_fits(a: Account, fill: Position) -> bool {
    let k = fill.asset@;
    let m = a.portfolio();
    let cost = babs(fill.cost());
    &&& mul_fits(fill.costbasis.frac(), frac_int(fill.lots as int))
    &&& add_fits(babs(a.cash.frac()), cost)
    &&& m.contains_key(k) ==> {
        let p = m[k];
        let lots = p.lots + fill.lots;
        &&& i64::MIN <= lots <= i64::MAX
        &&& lots != 0 ==> {
            &&& mul_fits(p.costbasis.frac(), frac_int(p.lots as int))
            &&& add_fits(babs(p.cost()), cost)
            &&& div_fits(frac_add(babs(p.cost()), cost), frac_int(lots))
        }
    }
}

impl Account {
    pub open spec fn portfolio(self) -> Map<Seq<char>, Position> {
        portfolio_view(self.positions)
    }

    pub open spec fn wf(self) -> bool {
        &&& self.cash.wf()
        &&& forall|k: Seq<char>| #[trigger]
            self.portfolio().contains_key(k) ==> {
                let p = self.portfolio()[k];
                p.asset@ == k && p.lots != 0 && p.wf()
            }
        &&& forall|i: int| 0 <= i < self.orders@.len() ==> #[trigger] self.orders@[i].wf()
    }

    /// An account holding `cash` and nothing else.
    pub fn new(cash: Rational) -> (r: Account)
        requires
            cash.wf(),
        ensures
            r.wf(),
            r.cash == cash,
            r.portfolio() == no_positions(),
            r.trades@ == Seq::<Position>::empty(),
            r.orders@ == Seq::<Order>::empty(),
    {
        Account { cash, positions: Portfolio::new(), trades: Vec::new(), orders: Vec::new() }
    }

    /// Answers a balance request with the cash held.
    pub fn handle(&self, _msg: AccountBalance) -> (r: Rational)
        ensures
            r == self.cash,
    {
        self.cash
    }

    /// The open position in `asset`, if any.
    pub fn position(&self, asset: &String) -> (r: Option<Position>)
        ensures
            r == (if self.portfolio().contains_key(asset@) {
                Some(self.portfolio()[asset@])
            } else {
                None
            }),
    {
        self.positions.get(asset)
    }

    /// Settles one fill into the ledger. It is refused with `InsufficientCash` when its cost
    /// exceeds the cash, and with `ArithmeticFault` when an exact operation overflows; a
    /// refused fill changes nothing.
    pub fn apply_fill(&mut self, fill: Position) -> (r: Result<(), EngineError>)
        requires
            old(self).wf(),
            fill.wf(),
        ensures
            final(self).wf(),
            match r {
                Ok(()) => fill_applied(*old(self), fill, *final(self)),
                Err(EngineError::InsufficientCash) => *final(self) == *old(self) && frac_lt(
                    old(self).cash.frac(),
                    fill.cost(),
                ),
                Err(EngineError::ArithmeticFault) => *final(self) == *old(self),
                Err(EngineError::SequenceExhausted) => false,
            },
            frac_lt(old(self).cash.frac(), fill.cost()) ==> r is Err,
            mul_fits(fill.costbasis.frac(), frac_int(fill.lots as int)) ==> (r == Err::<
                (),
                EngineError,
            >(EngineError::InsufficientCash) <==> frac_lt(old(self).cash.frac(), fill.cost())),
            fill_fits(*old(self), fill) && !frac_lt(old(self).cash.frac(), fill.cost()) ==> r is Ok,
            r == Err::<(), EngineError>(EngineError::ArithmeticFault) ==> !fill_fits(
                *old(self),
                fill,
            ),
    {
        let cost = match checked_mul(fill.costbasis, Rational::from_integer(fill.lots)) {
            Some(c) => c,
            None => {
                return Err(EngineError::ArithmeticFault);
            },
        };
        proof {
            lemma_wf_ops(fill.costbasis.frac(), frac_int(fill.lots as int));
            lemma_lt_congr(self.cash.frac(), cost.frac(), fill.cost());
        }
        if cost.gt(&self.cash) {
            return Err(EngineError::InsufficientCash);
        }
        proof {
            lemma_within_self(self.cash.frac());
            lemma_add_within(self.cash.frac(), cost.frac(), babs(self.cash.frac()), babs(fill.cost()));
        }
        let cash = match checked_sub(self.cash, cost) {
            Some(c) => c,
            None => {
                return Err(EngineError::ArithmeticFault);
            },
        };
        proof {
            lemma_add_congr(self.cash.frac(), cost.frac(), self.cash.frac(), fill.cost());
            lemma_wf_ops(self.cash.frac(), fill.costbasis.frac());
            lemma_wf_ops(self.cash.frac(), fill.cost());
            lemma_wf_ops(self.cash.frac(), cost.frac());
            lemma_eq_trans(
                cash.frac(),
                frac_sub(self.cash.frac(), cost.frac()),
                frac_sub(self.cash.frac(), fill.cost()),
            );
        }
        let k = Ghost(fill.asset@);
        let before = Ghost(self.portfolio());
        let held = self.positions.get(&fill.asset);
        match held {
            None => {
                self.cash = cash;
                if fill.lots != 0 {
                    proof {
                        lemma_new_position_basis(fill);
                    }
                    self.positions.insert(
                        Position {
                            asset: fill.asset.clone(),
                            lots: fill.lots,
                            costbasis: fill.costbasis,
                        },
                    );
                }
            },
            Some(p) => {
                let lots = match p.lots.checked_add(fill.lots) {
                    Some(l) => l,
                    None => {
                        return Err(EngineError::ArithmeticFault);
                    },
                };
                if lots == 0 {
                    self.cash = cash;
                    self.positions.remove(&fill.asset);
                } else {
                    let held_cost = match checked_mul(p.costbasis, Rational::from_integer(p.lots)) {
                        Some(c) => c,
                        None => {
                            return Err(EngineError::ArithmeticFault);
                        },
                    };
                    let bound_held = Ghost(babs(p.cost()));
                    let bound_total = Ghost(frac_add(bound_held@, babs(fill.cost())));
                    proof {
                        lemma_add_within(held_cost.frac(), cost.frac(), bound_held@, babs(fill.cost()));
                    }
                    let total = match checked_add(held_cost, cost) {
                        Some(t) => t,
                        None => {
                            return Err(EngineError::ArithmeticFault);
                        },
                    };
                    proof {
                        let t = frac_add(held_cost.frac(), cost.frac());
                        assert(within(total.frac(), bound_total@));
                        lemma_div_int_within(total.frac(), bound_total@, lots as int);
                        if div_fits(bound_total@, frac_int(lots as int)) {
                            assert(abs(bound_total@.n * 1) <= i64::MAX);
                            assert(abs(lots as int) <= i64::MAX) by (nonlinear_arith)
                                requires
                                    abs(bound_total@.d * lots) <= i64::MAX,
                                    bound_total@.d >= 1,
                            ;
                        }
                    }
                    if total.numer == i64::MIN || lots == i64::MIN {
                        return Err(EngineError::ArithmeticFault);
                    }
                    let basis = match checked_div(total, Rational::from_integer(lots)) {
                        Some(b) => b,
                        None => {
                            return Err(EngineError::ArithmeticFault);
                        },
                    };
                    proof {
                        lemma_weighted_basis(p, fill, held_cost, cost, total, basis, lots as int);
                    }
                    self.cash = cash;
                    self.positions.insert(
                        Position { asset: fill.asset.clone(), lots, costbasis: basis },
                    );
                }
            },
        }
        self.trades.push(fill);
        proof {
            assert(self.portfolio().remove(k@) =~= before@.remove(k@));
        }
        Ok(())
    }
    /// Reconciles the orders in flight, in order: each executed one is settled as a fill (and
    /// dropped when the cash no longer covers it), rejected ones are dropped, and pending ones
    /// stay. A fill that does not fit in `i64` stops the reconciliation there, with that order
    /// and the ones after it left in flight.
    pub fn settle_orders(&mut self) -> (r: Result<(), EngineError>)
        requires
            old(self).wf(),
        ensures
            final(self).wf(),
            match r {
                Ok(()) => settled(*old(self), *final(self)),
                Err(e) => e == EngineError::ArithmeticFault && settle_faulted(*old(self), *final(self)),
            },
    {
        let mut queue: Vec<Order> = Vec::new();
        std::mem::swap(&mut self.orders, &mut queue);
        assert(self.portfolio() == old(self).portfolio());
        let start = Ghost(*self);
        let mut accounts: Ghost<Seq<Account>> = Ghost(Seq::empty().push(*self));
        let mut kept: Vec<Order> = Vec::new();
        let mut i: usize = 0;
        while i < queue.len()
            invariant
                self.wf(),
                self.orders@ == Seq::<Order>::empty(),
                queue@ == old(self).orders@,
                ledger_eq(start@, *old(self)),
                forall|n: int| 0 <= n < queue@.len() ==> #[trigger] queue@[n].wf(),
                0 <= i <= queue@.len(),
                accounts@.len() == i + 1,
                accounts@[0] == start@,
                accounts@.last() == *self,
                forall|n: int|
                    0 <= n < i ==> #[trigger] settle_step(accounts@[n], queue@[n], accounts@[n + 1]),
                kept@ == queue@.take(i as int).filter(|o: Order| is_pending(o)),
                forall|n: int| 0 <= n < kept@.len() ==> #[trigger] kept@[n].wf(),
                settle_prefix(accounts@, *old(self), i as int),
            decreases queue@.len() - i,
        {
            let o = &queue[i];
            assert(o.wf());
            let before = Ghost(*self);
            if o.state == OrderState::Executed {
                let price = match o.costbasis {
                    Some(p) => p,
                    None => {
                        // an executed order carries its price
                        proof {
                            assert(false);
                        }
                        return Err(EngineError::ArithmeticFault);
                    },
                };
                let fill = Position { asset: o.asset.clone(), lots: o.lots, costbasis: price };
                assert(fill == o.fill());
                match self.apply_fill(fill) {
                    Ok(()) => {},
                    Err(EngineError::InsufficientCash) => {},
                    Err(e) => {
                        proof {
                            assert(!fill_fits(accounts@.last(), queue@[i as int].fill()));
                            assert(queue@.take(i as int).filter(|o: Order| is_pending(o)) == kept@);
                        }
                        let kept_len = Ghost(kept@.len() as int);
                        keep_rest(&mut kept, &queue, i);
                        self.orders = kept;
                        proof {
                            assert(settle_prefix(accounts@, *old(self), i as int));
                            assert forall|n: int|
                                0 <= n < self.orders@.len() implies #[trigger] self.orders@[n].wf() by {
                                if n >= kept_len@ {
                                    assert(self.orders@[n] == queue@[i + (n - kept_len@)]);
                                }
                            }
                            assert(self.cash.wf());
                            assert(self.portfolio() == before@.portfolio());
                            assert(before@.wf());
                            assert(self.wf());
                        }
                        return Err(e);
                    },
                }
            } else if o.state == OrderState::Pending {
                kept.push(
                    Order {
                        state: o.state,
                        asset: o.asset.clone(),
                        lots: o.lots,
                        costbasis: o.costbasis,
                    },
                );
            }
            proof {
                assert(queue@.take(i + 1).drop_last() =~= queue@.take(i as int));
                reveal(Seq::filter);
                let prev = accounts@;
                accounts@ = accounts@.push(*self);
                assert(settle_step(before@, queue@[i as int], *self));
                assert forall|n: int| 0 <= n < i + 1 implies #[trigger] settle_step(
                    accounts@[n],
                    queue@[n],
                    accounts@[n + 1],
                ) by {
                    if n < i {
                        assert(accounts@[n] == prev[n]);
                        assert(accounts@[n + 1] == prev[n + 1]);
                    }
                }
            }
            i = i + 1;
        }
        proof {
            assert(queue@.take(queue@.len() as int) =~= queue@);
        }
        self.orders = kept;
        proof {
            assert(ledger_eq(accounts@.last(), *self));
        }
        Ok(())
    }

}

/// Appends the orders of `queue` from `from` on to `kept`.
fn keep_rest(kept: &mut Vec<Order>, queue: &Vec<Order>, from: usize)
    requires
        from <= queue@.len(),
    ensures
        final(kept)@ == old(kept)@ + queue@.skip(from as int),
{
    let mut j: usize = from;
    while j < queue.len()
        invariant
            from <= j <= queue@.len(),
            kept@ == old(kept)@ + queue@.subrange(from as int, j as int),
        decreases queue@.len() - j,
    {
        let o = &queue[j];
        kept.push(
            Order { state: o.state, asset: o.asset.clone(), lots: o.lots, costbasis: o.costbasis },
        );
        assert(queue@.subrange(from as int, j + 1) =~= queue@.subrange(from as int, j as int).push(
            queue@[j as int],
        ));
        j = j + 1;
    }
    assert(queue@.subrange(from as int, queue@.len() as int) =~= queue@.skip(from as int));
}

/// A fresh position keeps the fill's price: `(0 + c * l) / l` is `c`.
proof fn lemma_new_position_basis(fill: Position)
    requires
        fill.wf(),
        fill.lots != 0,
    ensures
        frac_eq(
            fill.costbasis.frac(),
            frac_div(frac_add(frac_int(0), fill.cost()), frac_int(fill.lots as int)),
        ),
{
    let c = fill.costbasis.frac();
    let l = fill.lots as int;
    if l > 0 {
        assert(c.n * ((1 * c.d) * l) == (((0 * (c.d * 1)) + (c.n * l) * 1) * 1) * c.d)
            by (nonlinear_arith);
    } else {
        assert(c.n * (-((1 * c.d) * l)) == (-(((0 * (c.d * 1)) + (c.n * l) * 1) * 1)) * c.d)
            by (nonlinear_arith);
    }
}

/// The averaged price is what the lots cost in all, divided by the lots.
proof fn lemma_weighted_basis(
    p: Position,
    fill: Position,
    held_cost: Rational,
    cost: Rational,
    total: Rational,
    basis: Rational,
    lots: int,
)
    requires
        p.wf(),
        fill.wf(),
        held_cost.wf(),
        cost.wf(),
        total.wf(),
        basis.wf(),
        lots != 0,
        frac_eq(held_cost.frac(), p.cost()),
        frac_eq(cost.frac(), fill.cost()),
        frac_eq(total.frac(), frac_add(held_cost.frac(), cost.frac())),
        frac_eq(basis.frac(), frac_div(total.frac(), frac_int(lots))),
    ensures
        frac_eq(basis.frac(), frac_div(frac_add(p.cost(), fill.cost()), frac_int(lots))),
{
    lemma_wf_ops(p.costbasis.frac(), frac_int(p.lots as int));
    lemma_wf_ops(fill.costbasis.frac(), frac_int(fill.lots as int));
    lemma_wf_ops(held_cost.frac(), cost.frac());
    lemma_wf_ops(p.cost(), fill.cost());
    let sum = frac_add(p.cost(), fill.cost());
    lemma_add_congr(held_cost.frac(), cost.frac(), p.cost(), fill.cost());
    lemma_eq_trans(total.frac(), frac_add(held_cost.frac(), cost.frac()), sum);
    lemma_div_congr_int(total.frac(), sum, lots);
    lemma_wf_ops(total.frac(), frac_int(lots));
    lemma_wf_ops(sum, frac_int(lots));
    lemma_eq_trans(basis.frac(), frac_div(total.frac(), frac_int(lots)), frac_div(sum, frac_int(lots)));
}

/// The lots of a run of fills, summed.
pub open spec fn fills_lots(fills: Seq<Position>) -> int
    decreases fills.len(),
{
    if fills.len() == 0 {
        0
    } else {
        fills_lots(fills.drop_last()) + fills.last().lots
    }
}

/// What a run of fills costs in all: the sum of cost basis times lots.
pub open spec fn fills_cost(fills: Seq<Position>) -> Frac
    decreases fills.len(),
{
    if fills.len() == 0 {
        frac_int(0)
    } else {
        frac_add(fills_cost(fills.drop_last()), fills.last().cost())
    }
}

/// `accounts[i + 1]` is `accounts[i]` after settling `fills[i]`, every fill on `asset`.
pub open spec fn fill_run(accounts: Seq<Account>, fills: Seq<Position>, asset: Seq<char>) -> bool {
    &&& accounts.len() == fills.len() + 1
    &&& forall|i: int| 0 <= i < accounts.len() ==> #[trigger] accounts[i].wf()
    &&& forall|i: int|
        0 <= i < fills.len() ==> #[trigger] fills[i].wf() && fills[i].asset@ == asset
            && fill_applied(accounts[i], fills[i], accounts[i + 1])
}

proof fn lemma_fills_cost_wf(fills: Seq<Position>)
    requires
        forall|i: int| 0 <= i < fills.len() ==> #[trigger] fills[i].wf(),
    ensures
        fills_cost(fills).wf(),
    decreases fills.len(),
{
    if fills.len() > 0 {
        let last = fills.last();
        assert(last.wf()) by {
            assert(fills[fills.len() - 1].wf());
        }
        lemma_fills_cost_wf(fills.drop_last());
        lemma_wf_ops(last.costbasis.frac(), frac_int(last.lots as int));
        lemma_wf_ops(fills_cost(fills.drop_last()), last.cost());
    }
}

proof fn lemma_debit_prefix(accounts: Seq<Account>, fills: Seq<Position>, asset: Seq<char>, j: int)
    requires
        fill_run(accounts, fills, asset),
        0 <= j <= fills.len(),
    ensures
        frac_eq(
            frac_sub(accounts[0].cash.frac(), accounts[j].cash.frac()),
            fills_cost(fills.take(j)),
        ),
    decreases j,
{
    let c0 = accounts[0].cash.frac();
    assert(accounts[0].wf());
    if j == 0 {
        assert(fills.take(0) =~= Seq::<Position>::empty());
        lemma_sub_self(c0);
    } else {
        lemma_debit_prefix(accounts, fills, asset, j - 1);
        let f = fills[j - 1];
        assert(fills[j - 1].wf());
        assert(f.wf() && fill_applied(accounts[j - 1], f, accounts[j]));
        assert(accounts[j - 1].wf() && accounts[j].wf());
        assert(fills.take(j).drop_last() =~= fills.take(j - 1));
        let cj = accounts[j - 1].cash.frac();
        let cn = accounts[j].cash.frac();
        let prev = fills_cost(fills.take(j - 1));
        lemma_fills_cost_wf(fills.take(j - 1));
        lemma_wf_ops(f.costbasis.frac(), frac_int(f.lots as int));
        lemma_wf_ops(cj, f.cost());
        lemma_wf_ops(c0, cj);
        lemma_wf_ops(c0, cn);
        lemma_wf_ops(c0, frac_sub(cj, f.cost()));
        lemma_wf_ops(frac_sub(c0, cj), f.cost());
        lemma_wf_ops(prev, f.cost());
        // c0 - cn == c0 - (cj - cost) == (c0 - cj) + cost == prev + cost
        lemma_add_congr(c0, cn, c0, frac_sub(cj, f.cost()));
        lemma_sub_sub(c0, cj, f.cost());
        lemma_add_congr(frac_sub(c0, cj), f.cost(), prev, f.cost());
        lemma_eq_trans(
            frac_sub(c0, cn),
            frac_sub(c0, frac_sub(cj, f.cost())),
            frac_add(frac_sub(c0, cj), f.cost()),
        );
        lemma_eq_trans(
            frac_sub(c0, cn),
            frac_add(frac_sub(c0, cj), f.cost()),
            frac_add(prev, f.cost()),
        );
    }
}

/// Settling a run of fills on one asset, each of them accepted, takes from the cash exactly
/// what the fills cost in all: the sum of cost basis times lots.
pub proof fn lemma_fills_debit_total(accounts: Seq<Account>, fills: Seq<Position>, asset: Seq<char>)
    requires
        fill_run(accounts, fills, asset),
    ensures
        frac_eq(
            frac_sub(accounts[0].cash.frac(), accounts.last().cash.frac()),
            fills_cost(fills),
        ),
{
    lemma_debit_prefix(accounts, fills, asset, fills.len() as int);
    assert(fills.take(fills.len() as int) =~= fills);
}

proof fn lemma_average_prefix(
    accounts: Seq<Account>,
    fills: Seq<Position>,
    asset: Seq<char>,
    j: int,
)
    requires
        fill_run(accounts, fills, asset),
        !accounts[0].portfolio().contains_key(asset),
        forall|i: int| 1 <= i <= fills.len() ==> fills_lots(#[trigger] fills.take(i)) != 0,
        0 <= j <= fills.len(),
    ensures
        lots_in(accounts[j].portfolio(), asset) == fills_lots(fills.take(j)),
        equity_in(accounts[j].portfolio(), asset).wf(),
        frac_eq(equity_in(accounts[j].portfolio(), asset), fills_cost(fills.take(j))),
    decreases j,
{
    if j == 0 {
        assert(fills.take(0) =~= Seq::<Position>::empty());
    } else {
        lemma_average_prefix(accounts, fills, asset, j - 1);
        let f = fills[j - 1];
        assert(fills[j - 1].wf());
        assert(f.wf() && f.asset@ == asset && fill_applied(accounts[j - 1], f, accounts[j]));
        assert(accounts[j - 1].wf() && accounts[j].wf());
        assert(fills.take(j).drop_last() =~= fills.take(j - 1));
        let before = accounts[j - 1].portfolio();
        let after = accounts[j].portfolio();
        let lots = fills_lots(fills.take(j));
        let prev = fills_cost(fills.take(j - 1));
        let held = equity_in(before, asset);
        assert(lots != 0);
        assert(after.contains_key(asset));
        let p = after[asset];
        assert(p.wf());
        lemma_fills_cost_wf(fills.take(j - 1));
        lemma_wf_ops(f.costbasis.frac(), frac_int(f.lots as int));
        lemma_wf_ops(p.costbasis.frac(), frac_int(lots));
        lemma_wf_ops(held, f.cost());
        lemma_wf_ops(prev, f.cost());
        let sum = frac_add(held, f.cost());
        // p.cost() == (sum / lots) * lots == sum == prev + cost
        lemma_div_mul_int(sum, lots);
        lemma_wf_ops(frac_div(sum, frac_int(lots)), frac_int(lots));
        lemma_mul_congr(p.costbasis.frac(), frac_int(lots), frac_div(sum, frac_int(lots)), frac_int(lots));
        lemma_eq_trans(p.cost(), frac_mul(frac_div(sum, frac_int(lots)), frac_int(lots)), sum);
        lemma_add_congr(held, f.cost(), prev, f.cost());
        lemma_eq_trans(p.cost(), sum, frac_add(prev, f.cost()));
    }
}

/// Settling a run of fills on one asset that was not held, each of them accepted, and with
/// the running lot count never back at zero, leaves a position holding all their lots at the
/// lot-weighted average of their prices: what they cost in all, divided by their lots.
pub proof fn lemma_fills_weighted_average(
    accounts: Seq<Account>,
    fills: Seq<Position>,
    asset: Seq<char>,
)
    requires
        fill_run(accounts, fills, asset),
        fills.len() > 0,
        !accounts[0].portfolio().contains_key(asset),
        forall|i: int| 1 <= i <= fills.len() ==> fills_lots(#[trigger] fills.take(i)) != 0,
    ensures
        accounts.last().portfolio().contains_key(asset),
        accounts.last().portfolio()[asset].lots == fills_lots(fills),
        frac_eq(
            accounts.last().portfolio()[asset].costbasis.frac(),
            frac_div(fills_cost(fills), frac_int(fills_lots(fills))),
        ),
{
    let n = fills.len() as int;
    lemma_average_prefix(accounts, fills, asset, n);
    assert(fills.take(n) =~= fills);
    assert(fills_lots(fills.take(n)) != 0);
    let last = accounts[n];
    assert(last.wf());
    let lots = fills_lots(fills);
    let p = last.portfolio()[asset];
    lemma_fills_cost_wf(fills);
    lemma_mul_div_int(p.costbasis.frac(), fills_cost(fills), lots);
}

/// Opening a position on an asset that was not held and closing it with the opposite lots,
/// both fills accepted, removes the asset from the portfolio and leaves the rest of it as it
/// was; the cash falls by the difference of the two prices times the lots.
pub proof fn lemma_round_trip(
    start: Account,
    opened: Account,
    closed: Account,
    open: Position,
    close: Position,
)
    requires
        start.wf(),
        opened.wf(),
        closed.wf(),
        open.wf(),
        close.wf(),
        open.asset == close.asset,
        close.lots == -open.lots,
        !start.portfolio().contains_key(open.asset@),
        fill_applied(start, open, opened),
        fill_applied(opened, close, closed),
    ensures
        !closed.portfolio().contains_key(open.asset@),
        closed.portfolio() == start.portfolio(),
        frac_eq(
            frac_sub(start.cash.frac(), closed.cash.frac()),
            frac_mul(
                frac_sub(open.costbasis.frac(), close.costbasis.frac()),
                frac_int(open.lots as int),
            ),
        ),
{
    let k = open.asset@;
    let accounts = seq![start, opened, closed];
    let fills = seq![open, close];
    assert(fill_run(accounts, fills, k));
    lemma_fills_debit_total(accounts, fills, k);
    assert(fills.drop_last() =~= seq![open]);
    assert(fills.drop_last().drop_last() =~= Seq::<Position>::empty());
    assert(closed.portfolio() =~= start.portfolio()) by {
        assert(closed.portfolio().remove(k) =~= opened.portfolio().remove(k));
        assert(opened.portfolio().remove(k) =~= start.portfolio().remove(k));
        assert(start.portfolio().remove(k) =~= start.portfolio());
    }
    let a = open.costbasis.frac();
    let b = close.costbasis.frac();
    let l = open.lots as int;
    assert(open.wf() && close.wf());
    lemma_spread(a, b, l);
    lemma_fills_cost_wf(fills);
    lemma_wf_ops(start.cash.frac(), closed.cash.frac());
    lemma_wf_ops(a, b);
    lemma_wf_ops(frac_sub(a, b), frac_int(l));
    assert(fills_cost(fills.drop_last().drop_last()) == frac_int(0));
    assert(fills_cost(fills.drop_last()) == frac_add(frac_int(0), open.cost()));
    assert(fills_cost(fills) == frac_add(
        frac_add(frac_int(0), frac_mul(a, frac_int(l))),
        frac_mul(b, frac_int(-l)),
    ));
    lemma_eq_trans(
        frac_sub(start.cash.frac(), closed.cash.frac()),
        fills_cost(fills),
        frac_mul(frac_sub(a, b), frac_int(l)),
    );
}

proof fn lemma_spread(a: Frac, b: Frac, l: int)
    requires
        a.wf(),
        b.wf(),
    ensures
        frac_eq(
            frac_add(
                frac_add(frac_int(0), frac_mul(a, frac_int(l))),
                frac_mul(b, frac_int(-l)),
            ),
            frac_mul(frac_sub(a, b), frac_int(l)),
        ),
{
    let x = frac_add(frac_int(0), frac_mul(a, frac_int(l)));
    let y = frac_add(x, frac_mul(b, frac_int(-l)));
    let z = frac_mul(frac_sub(a, b), frac_int(l));
    assert(x.n == a.n * l && x.d == a.d) by (nonlinear_arith)
        requires
            x == frac_add(frac_int(0), frac_mul(a, frac_int(l))),
    ;
    assert(y.n == (a.n * l) * b.d - (b.n * l) * a.d && y.d == a.d * b.d) by (nonlinear_arith)
        requires
            x.n == a.n * l,
            x.d == a.d,
            y == frac_add(x, frac_mul(b, frac_int(-l))),
    ;
    assert(z.n == (a.n * b.d - b.n * a.d) * l && z.d == a.d * b.d) by (nonlinear_arith)
        requires
            z == frac_mul(frac_sub(a, b), frac_int(l)),
    ;
    assert(y.n == z.n) by (nonlinear_arith)
        requires
            y.n == (a.n * l) * b.d - (b.n * l) * a.d,
            z.n == (a.n * b.d - b.n * a.d) * l,
    ;
}

} // verus!
