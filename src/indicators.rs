use vstd::prelude::*;
use hashbrown::HashMap;
use crate::error::EngineError;
use crate::keys::lists_keys;
use crate::rational::{
    Frac, Rational, checked_add, checked_div, checked_sub, frac_add, frac_div, frac_eq, frac_int,
    frac_sub, lemma_add_congr, abs, add_fits, babs, div_fits, lemma_add_within,
    lemma_div_int_within, within, lemma_div_congr_int, lemma_eq_trans, lemma_wf_ops,
};

verus! {

/// The statistic an indicator computes over its window.
#[derive(Clone, Copy, Debug, PartialEq, Eq, Structural)]
pub enum IndicatorKind {
    /// The mean of the samples present in the window.
    MovingAverage,
    /// The oldest sample in the window minus the newest.
    Momentum,
}

/// The input token that selects the midpoint price rather than another indicator.
pub open spec fn price_token() -> Seq<char> {
    seq!['p', 'r', 'i', 'c', 'e']
}

/// A rolling statistic over the last `length` samples of its input: the midpoint price when
/// `input` is `"price"`, else the value of the indicator of that name. The window holds the
/// newest sample first; a sample is absent where its input had no value.
#[derive(Clone, Debug)]
pub struct Indicator {
    pub name: String,
    pub input: String,
    pub length: u64,
    pub kind: IndicatorKind,
    pub window: Vec<Option<Rational>>,
}

/// The samples present in `w`, summed.
pub open spec fn present_sum(w: Seq<Option<Rational>>) -> Frac
    decreases w.len(),
{
    if w.len() == 0 {
        frac_int(0)
    } else {
        match w.last() {
            Some(v) => frac_add(present_sum(w.drop_last()), v.frac()),
            None => present_sum(w.drop_last()),
        }
    }
}

/// How many samples are present in `w`.
pub open spec fn present_count(w: Seq<Option<Rational>>) -> int
    decreases w.len(),
{
    if w.len() == 0 {
        0
    } else {
        present_count(w.drop_last()) + if w.last() is Some {
            1int
        } else {
            0int
        }
    }
}

/// A size bound on `present_sum(w)`: the same sum taken over the sizes of the samples.
pub open spec fn sum_bound(w: Seq<Option<Rational>>) -> Frac
    decreases w.len(),
{
    if w.len() == 0 {
        frac_int(0)
    } else {
        match w.last() {
            Some(v) => frac_add(sum_bound(w.drop_last()), babs(v.frac())),
            None => sum_bound(w.drop_last()),
        }
    }
}

/// Each addition of `present_sum(w)` fits in `i64`, judged on the sizes of the samples.
pub open spec fn sum_fits(w: Seq<Option<Rational>>) -> bool
    decreases w.len(),
{
    if w.len() == 0 {
        true
    } else {
        sum_fits(w.drop_last()) && match w.last() {
            Some(v) => add_fits(sum_bound(w.drop_last()), babs(v.frac())),
            None => true,
        }
    }
}

proof fn lemma_sum_fits_prefix(w: Seq<Option<Rational>>, j: int)
    requires
        0 <= j <= w.len(),
        sum_fits(w),
    ensures
        sum_fits(w.take(j)),
    decreases w.len() - j,
{
    if j == w.len() {
        assert(w.take(j) =~= w);
    } else {
        lemma_sum_fits_prefix(w, j + 1);
        assert(w.take(j + 1).drop_last() =~= w.take(j));
    }
}

/// The window after `sample` arrives: it goes in front, and the oldest leaves once there are
/// more than `length`.
pub open spec fn window_after(w: Seq<Option<Rational>>, sample: Option<Rational>, length: int) -> Seq<
    Option<Rational>,
> {
    let pushed = seq![sample] + w;
    if pushed.len() > length {
        pushed.drop_last()
    } else {
        pushed
    }
}

impl Indicator {
    pub open spec fn wf(self) -> bool {
        &&& self.length >= 1
        &&& self.window@.len() <= self.length
        &&& forall|i: int|
            0 <= i < self.window@.len() ==> (#[trigger] self.window@[i] matches Some(v) ==> v.wf())
    }

    /// `r` is this indicator's value: `None` while it is not ready.
    pub open spec fn value_is(self, r: Option<Rational>) -> bool {
        let w = self.window@;
        match self.kind {
            IndicatorKind::MovingAverage => if present_count(w) == 0 {
                r is None
            } else {
                r matches Some(v) && v.wf() && frac_eq(
                    v.frac(),
                    frac_div(present_sum(w), frac_int(present_count(w))),
                )
            },
            IndicatorKind::Momentum => if w.len() == 0 || w.last() is None || w[0] is None {
                r is None
            } else {
                r matches Some(v) && v.wf() && frac_eq(
                    v.frac(),
                    frac_sub(w.last().unwrap().frac(), w[0].unwrap().frac()),
                )
            },
        }
    }

    /// Computing the value stays within `i64`, judged on the sizes of the samples: the sum
    /// and the division of a moving average, the difference of a momentum.
    pub open spec fn value_fits(self) -> bool {
        let w = self.window@;
        match self.kind {
            IndicatorKind::MovingAverage => sum_fits(w) && (present_count(w) > 0 ==> div_fits(
                sum_bound(w),
                frac_int(present_count(w)),
            )),
            IndicatorKind::Momentum => (w.len() > 0 && w.last() is Some && w[0] is Some)
                ==> add_fits(babs(w.last().unwrap().frac()), babs(w[0].unwrap().frac())),
        }
    }

    /// A new indicator with an empty window.
    pub fn new(name: String, kind: IndicatorKind, input: String, length: u64) -> (r: Indicator)
        requires
            length >= 1,
        ensures
            r.wf(),
            r.name == name,
            r.input == input,
            r.length == length,
            r.kind == kind,
            r.window@ == Seq::<Option<Rational>>::empty(),
    {
        Indicator { name, input, length, kind, window: Vec::new() }
    }

    /// Takes one sample into the window.
    pub fn update(&mut self, sample: Option<Rational>)
        requires
            old(self).wf(),
            sample matches Some(v) ==> v.wf(),
        ensures
            final(self).wf(),
            final(self).name == old(self).name,
            final(self).input == old(self).input,
            final(self).length == old(self).length,
            final(self).kind == old(self).kind,
            final(self).window@ == window_after(old(self).window@, sample, old(self).length as int),
    {
        self.window.insert(0, sample);
        if self.window.len() as u64 > self.length {
            self.window.pop();
        }
        proof {
            assert(self.window@ =~= window_after(
                old(self).window@,
                sample,
                old(self).length as int,
            ));
        }
    }

    /// The current value, or `None` while the window has nothing to compute it from.
    pub fn value(&self) -> (r: Result<Option<Rational>, EngineError>)
        requires
            self.wf(),
        ensures
            match r {
                Ok(v) => self.value_is(v),
                Err(e) => e == EngineError::ArithmeticFault && !self.value_fits(),
            },
    {
        match self.kind {
            IndicatorKind::MovingAverage => self.mean(),
            IndicatorKind::Momentum => {
                let n = self.window.len();
                if n == 0 {
                    return Ok(None);
                }
                match (self.window[n - 1], self.window[0]) {
                    (Some(oldest), Some(newest)) => {
                        proof {
                            assert(self.window@[n - 1 as int] matches Some(v) ==> v.wf());
                            assert(self.window@[0] matches Some(v) ==> v.wf());
                            lemma_add_within(
                                oldest.frac(),
                                newest.frac(),
                                babs(oldest.frac()),
                                babs(newest.frac()),
                            );
                        }
                        match checked_sub(oldest, newest) {
                            Some(v) => Ok(Some(v)),
                            None => Err(EngineError::ArithmeticFault),
                        }
                    },
                    _ => Ok(None),
                }
            },
        }
    }

    fn mean(&self) -> (r: Result<Option<Rational>, EngineError>)
        requires
            self.wf(),
            self.kind == IndicatorKind::MovingAverage,
        ensures
            match r {
                Ok(v) => self.value_is(v),
                Err(e) => e == EngineError::ArithmeticFault && !self.value_fits(),
            },
    {
        let w = Ghost(self.window@);
        let mut sum = Rational::from_integer(0);
        let mut count: u64 = 0;
        let mut i: usize = 0;
        while i < self.window.len()
            invariant
                w@ == self.window@,
                self.wf(),
                self.kind == IndicatorKind::MovingAverage,
                0 <= i <= w@.len(),
                sum.wf(),
                frac_eq(sum.frac(), present_sum(w@.take(i as int))),
                count as int == present_count(w@.take(i as int)),
                count <= i,
                within(sum.frac(), sum_bound(w@.take(i as int))),
            decreases w@.len() - i,
        {
            assert(w@.take(i + 1).drop_last() =~= w@.take(i as int));
            proof {
                lemma_present_sum_wf(w@.take(i as int), w@);
            }
            match self.window[i] {
                Some(v) => {
                    assert(w@[i as int] matches Some(x) ==> x.wf());
                    proof {
                        lemma_add_within(
                            sum.frac(),
                            v.frac(),
                            sum_bound(w@.take(i as int)),
                            babs(v.frac()),
                        );
                    }
                    let next = match checked_add(sum, v) {
                        Some(s) => s,
                        None => {
                            proof {
                                if sum_fits(w@) {
                                    lemma_sum_fits_prefix(w@, i + 1);
                                    assert(w@.take(i + 1).last() == Some(v));
                                    assert(sum_fits(w@.take(i + 1)));
                                    assert(add_fits(sum_bound(w@.take(i as int)), babs(v.frac())));
                                }

                            }
                            return Err(EngineError::ArithmeticFault);
                        },
                    };
                    proof {
                        lemma_add_congr(
                            sum.frac(),
                            v.frac(),
                            present_sum(w@.take(i as int)),
                            v.frac(),
                        );
                        lemma_wf_ops(sum.frac(), v.frac());
                        lemma_wf_ops(present_sum(w@.take(i as int)), v.frac());
                        lemma_eq_trans(
                            next.frac(),
                            frac_add(sum.frac(), v.frac()),
                            present_sum(w@.take(i + 1)),
                        );
                    }
                    sum = next;
                    count = count + 1;
                },
                None => {},
            }
            i = i + 1;
        }
        assert(w@.take(w@.len() as int) =~= w@);
        if count == 0 {
            return Ok(None);
        }
        proof {
            lemma_div_int_within(sum.frac(), sum_bound(w@), count as int);
            if div_fits(sum_bound(w@), frac_int(count as int)) {
                assert(abs(sum_bound(w@).n * 1) <= i64::MAX);
                assert(count <= i64::MAX) by (nonlinear_arith)
                    requires
                        abs(sum.denom * count) <= i64::MAX,
                        sum.denom >= 1,
                        count >= 0,
                ;
            }
        }
        if sum.numer == i64::MIN || count > i64::MAX as u64 {
            return Err(EngineError::ArithmeticFault);
        }
        let avg = match checked_div(sum, Rational::from_integer(count as i64)) {
            Some(a) => a,
            None => {
                return Err(EngineError::ArithmeticFault);
            },
        };
        proof {
            lemma_present_sum_wf(w@, w@);
            lemma_div_congr_int(sum.frac(), present_sum(w@), count as int);
            lemma_wf_ops(sum.frac(), frac_int(count as int));
            lemma_wf_ops(present_sum(w@), frac_int(count as int));
            lemma_eq_trans(
                avg.frac(),
                frac_div(sum.frac(), frac_int(count as int)),
                frac_div(present_sum(w@), frac_int(count as int)),
            );
        }
        Ok(Some(avg))
    }
}

proof fn lemma_present_sum_wf(w: Seq<Option<Rational>>, all: Seq<Option<Rational>>)
    requires
        w.len() <= all.len(),
        forall|i: int| 0 <= i < w.len() ==> w[i] == all[i],
        forall|i: int| 0 <= i < all.len() ==> (#[trigger] all[i] matches Some(v) ==> v.wf()),
    ensures
        present_sum(w).wf(),
    decreases w.len(),
{
    if w.len() > 0 {
        lemma_present_sum_wf(w.drop_last(), all);
        assert(all[w.len() - 1] matches Some(v) ==> v.wf());
        match w.last() {
            Some(v) => lemma_wf_ops(present_sum(w.drop_last()), v.frac()),
            None => {},
        }
    }
}

/// The registered indicators, keyed by name.
#[verifier::external_body]
pub struct Indicators {
    map: HashMap<String, Indicator>,
}

/// What an indicator registry holds: name to indicator.
pub uninterp spec fn indicators_view(m: Indicators) -> Map<Seq<char>, Indicator>;

/// The empty registry.
pub open spec fn no_indicators() -> Map<Seq<char>, Indicator> {
    Map::empty()
}

/// `s` is the sample that `ind` takes in a step whose midpoint is `mid`, with `m` the
/// registry as it stood before the step.
pub open spec fn sample_ok(
    m: Map<Seq<char>, Indicator>,
    ind: Indicator,
    mid: Rational,
    s: Option<Rational>,
) -> bool {
    if ind.input@ == price_token() {
        s == Some(mid)
    } else if m.contains_key(ind.input@) {
        m[ind.input@].value_is(s)
    } else {
        s is None
    }
}

/// Some indicator of `m` reads another whose value does not fit in `i64`.
pub open spec fn step_faults(m: Map<Seq<char>, Indicator>) -> bool {
    exists|k: Seq<char>|
        #[trigger] m.contains_key(k) && m[k].input@ != price_token() && m.contains_key(m[k].input@)
            && !m[m[k].input@].value_fits()
}

/// `new` is `old` after taking sample `s`: only the window changes.
pub open spec fn updated_with(old: Indicator, new: Indicator, s: Option<Rational>) -> bool {
    &&& new.name == old.name
    &&& new.input == old.input
    &&& new.length == old.length
    &&& new.kind == old.kind
    &&& new.window@ == window_after(old.window@, s, old.length as int)
}

/// Every indicator of `old` has taken its sample for a step at midpoint `mid`, each sample
/// computed from `old`.
pub open spec fn stepped(
    old: Map<Seq<char>, Indicator>,
    new: Map<Seq<char>, Indicator>,
    mid: Rational,
) -> bool {
    &&& forall|k: Seq<char>| #[trigger] new.contains_key(k) == old.contains_key(k)
    &&& forall|k: Seq<char>| #[trigger]
        old.contains_key(k) ==> exists|s: Option<Rational>|
            sample_ok(old, old[k], mid, s) && updated_with(old[k], new[k], s)
}

impl Indicators {
    pub open spec fn view(self) -> Map<Seq<char>, Indicator> {
        indicators_view(self)
    }

    pub open spec fn wf(self) -> bool {
        forall|k: Seq<char>| #[trigger]
            self@.contains_key(k) ==> self@[k].wf() && self@[k].name@ == k
    }

    /// Relies on hashbrown's `HashMap::new`: an empty map.
    #[verifier::external_body]
    pub(crate) fn new() -> (r: Indicators)
        ensures
            indicators_view(r) == no_indicators(),
    {
        Indicators { map: HashMap::new() }
    }

    /// Relies on hashbrown's `HashMap::get`: the entry under `name`, if any (cloned).
    #[verifier::external_body]
    pub(crate) fn get(&self, name: &String) -> (r: Option<Indicator>)
        ensures
            match r {
                Some(ind) => indicators_view(*self).contains_key(name@) && ind == indicators_view(
                    *self,
                )[name@],
                None => !indicators_view(*self).contains_key(name@),
            },
    {
        self.map.get(name).cloned()
    }

    /// Relies on hashbrown's `HashMap::insert`: `ind` stands under its name afterwards,
    /// replacing what stood there.
    #[verifier::external_body]
    pub(crate) fn insert(&mut self, ind: Indicator)
        ensures
            indicators_view(*final(self)) == indicators_view(*old(self)).insert(ind.name@, ind),
    {
        self.map.insert(ind.name.clone(), ind);
    }

    /// Relies on hashbrown's `HashMap::keys`: each name once, in the map's own order.
    #[verifier::external_body]
    pub(crate) fn names(&self) -> (r: Vec<String>)
        ensures
            lists_keys(r@, indicators_view(*self)),
    {
        self.map.keys().cloned().collect()
    }

    /// Registers `ind` under its name, replacing an indicator of that name.
    pub fn register(&mut self, ind: Indicator)
        requires
            old(self).wf(),
            ind.wf(),
        ensures
            final(self).wf(),
            final(self)@ == old(self)@.insert(ind.name@, ind),
    {
        self.insert(ind);
    }

    /// The current value of the indicator called `name`; `None` where there is none or it is
    /// not ready.
    pub fn value_of(&self, name: &String) -> (r: Result<Option<Rational>, EngineError>)
        requires
            self.wf(),
        ensures
            match r {
                Ok(v) => if self@.contains_key(name@) {
                    self@[name@].value_is(v)
                } else {
                    v is None
                },
                Err(e) => e == EngineError::ArithmeticFault && self@.contains_key(name@)
                    && !self@[name@].value_fits(),
            },
    {
        match self.get(name) {
            Some(ind) => ind.value(),
            None => Ok(None),
        }
    }

    /// The sample `ind` takes in a step at midpoint `mid`.
    fn sample_for(&self, ind: &Indicator, mid: Rational) -> (r: Result<
        Option<Rational>,
        EngineError,
    >)
        requires
            self.wf(),
            mid.wf(),
        ensures
            match r {
                Ok(s) => sample_ok(self@, *ind, mid, s) && (s matches Some(v) ==> v.wf()),
                Err(e) => e == EngineError::ArithmeticFault && ind.input@ != price_token()
                    && self@.contains_key(ind.input@) && !self@[ind.input@].value_fits(),
            },
    {
        let price = "price".to_owned();
        proof {
            reveal_strlit("price");
            assert(price@ =~= price_token());
        }
        if ind.input == price {
            Ok(Some(mid))
        } else {
            let r = self.value_of(&ind.input);
            proof {
                if self@.contains_key(ind.input@) {
                    assert(self@[ind.input@].wf());
                }
            }
            r
        }
    }

    /// Feeds every indicator its sample for a step at midpoint `mid`. Samples taken from
    /// other indicators are their values from before this step, so the order in which the
    /// indicators are visited does not matter. Where one reads a value that does not fit in
    /// `i64`, nothing changes and `ArithmeticFault` comes back.
    pub fn step_all(&mut self, mid: Rational) -> (r: Result<(), EngineError>)
        requires
            old(self).wf(),
            mid.wf(),
        ensures
            final(self).wf(),
            match r {
                Ok(()) => stepped(old(self)@, final(self)@, mid),
                Err(e) => e == EngineError::ArithmeticFault && *final(self) == *old(self)
                    && step_faults(old(self)@),
            },
    {
        let names = self.names();
        let before = Ghost(self@);
        let mut samples: Vec<Option<Rational>> = Vec::new();
        let mut i: usize = 0;
        while i < names.len()
            invariant
                self@ == before@,
                self.wf(),
                mid.wf(),
                0 <= i <= names@.len(),
                samples@.len() == i,
                forall|n: int| 0 <= n < names@.len() ==> before@.contains_key(#[trigger] names@[n]@),
                forall|n: int|
                    0 <= n < i ==> sample_ok(before@, before@[names@[n]@], mid, #[trigger] samples@[n])
                        && (samples@[n] matches Some(v) ==> v.wf()),
            decreases names@.len() - i,
        {
            let ind = match self.get(&names[i]) {
                Some(x) => x,
                None => {
                    // every listed name is registered
                    proof {
                        assert(false);
                    }
                    return Err(EngineError::ArithmeticFault);
                },
            };
            let s = match self.sample_for(&ind, mid) {
                Ok(s) => s,
                Err(e) => {
                    proof {
                        let k = names@[i as int]@;
                        assert(before@.contains_key(k) && before@[k] == ind);
                    }
                    return Err(e);
                },
            };
            samples.push(s);
            i = i + 1;
        }
        let mut j: usize = 0;
        while j < names.len()
            invariant
                before@ == indicators_view(*old(self)),
                self.wf(),
                0 <= j <= names@.len(),
                samples@.len() == names@.len(),
                forall|k: Seq<char>| #[trigger] self@.contains_key(k) == before@.contains_key(k),
                forall|n: int| 0 <= n < names@.len() ==> before@.contains_key(#[trigger] names@[n]@),
                forall|a: int, b: int|
                    0 <= a < b < names@.len() ==> #[trigger] names@[a]@ != #[trigger] names@[b]@,
                forall|n: int|
                    0 <= n < names@.len() ==> sample_ok(before@, before@[names@[n]@], mid, #[trigger] samples@[n])
                        && (samples@[n] matches Some(v) ==> v.wf()),
                forall|n: int|
                    0 <= n < j ==> updated_with(
                        before@[names@[n]@],
                        self@[names@[n]@],
                        #[trigger] samples@[n],
                    ),
                forall|k: Seq<char>|
                    #[trigger] self@.contains_key(k) && !(exists|n: int|
                        0 <= n < j && names@[n]@ == k) ==> self@[k] == before@[k],
            decreases names@.len() - j,
        {
            let mut ind = match self.get(&names[j]) {
                Some(x) => x,
                None => {
                    // every listed name is registered
                    proof {
                        assert(before@.contains_key(names@[j as int]@));
                        assert(false);
                    }
                    return Err(EngineError::ArithmeticFault);
                },
            };
            proof {
                assert(!(exists|n: int| 0 <= n < j && names@[n]@ == names@[j as int]@));
                assert(ind == before@[names@[j as int]@]);
            }
            ind.update(samples[j]);
            self.insert(ind);
            j = j + 1;
        }
        proof {
            assert forall|k: Seq<char>| #[trigger] before@.contains_key(k) implies exists|
                s: Option<Rational>,
            | sample_ok(before@, before@[k], mid, s) && updated_with(before@[k], self@[k], s) by {
                let n = choose|n: int| 0 <= n < names@.len() && names@[n]@ == k;
                assert(updated_with(before@[names@[n]@], self@[names@[n]@], samples@[n]));
            }
        }
        Ok(())
    }
}

/// A two-sample moving average over the price, started empty and fed the midpoints `m1`
/// and then `m2`, reports their mean `(m1 + m2) / 2`.
pub proof fn lemma_moving_average_of_two(
    start: Indicator,
    once: Indicator,
    twice: Indicator,
    m1: Rational,
    m2: Rational,
    v: Option<Rational>,
)
    requires
        start.kind == IndicatorKind::MovingAverage,
        start.length == 2,
        start.input@ == price_token(),
        start.window@.len() == 0,
        m1.wf(),
        m2.wf(),
        updated_with(start, once, Some(m1)),
        updated_with(once, twice, Some(m2)),
        twice.value_is(v),
    ensures
        v matches Some(x) && frac_eq(
            x.frac(),
            frac_div(frac_add(m1.frac(), m2.frac()), frac_int(2)),
        ),
{
    let w = twice.window@;
    assert(once.window@ =~= seq![Some(m1)]);
    assert(w =~= seq![Some(m2), Some(m1)]);
    assert(w.drop_last() =~= seq![Some(m2)]);
    assert(w.drop_last().drop_last() =~= Seq::<Option<Rational>>::empty());
    assert(w.drop_last().last() == Some(m2));
    assert(w.last() == Some(m1));
    assert(present_count(w.drop_last().drop_last()) == 0);
    assert(present_sum(w.drop_last().drop_last()) == frac_int(0));
    assert(present_count(w.drop_last()) == 1);
    assert(present_count(w) == 2);
    let sum = present_sum(w);
    assert(present_sum(w.drop_last()) == frac_add(frac_int(0), m2.frac()));
    assert(sum == frac_add(frac_add(frac_int(0), m2.frac()), m1.frac()));
    let a = m1.frac();
    let b = m2.frac();
    assert(sum.n == b.n * a.d + a.n * b.d && sum.d == b.d * a.d) by (nonlinear_arith)
        requires
            sum == frac_add(frac_add(frac_int(0), b), a),
    ;
    assert(frac_eq(sum, frac_add(a, b))) by (nonlinear_arith)
        requires
            sum.n == b.n * a.d + a.n * b.d,
            sum.d == b.d * a.d,
    ;
    lemma_div_congr_int(sum, frac_add(a, b), 2);
    let x = v.unwrap();
    lemma_wf_ops(a, b);
    lemma_wf_ops(frac_int(0), b);
    lemma_wf_ops(frac_add(frac_int(0), b), a);
    lemma_wf_ops(sum, frac_int(2));
    lemma_wf_ops(frac_add(a, b), frac_int(2));
    lemma_eq_trans(x.frac(), frac_div(sum, frac_int(2)), frac_div(frac_add(a, b), frac_int(2)));
}

} // verus!
