use vstd::prelude::*;
use num_rational::Ratio;
use num_traits::CheckedAdd;
use num_traits::CheckedDiv;
use num_traits::CheckedMul;
use num_traits::CheckedSub;

verus! {

/// An exact rational quantity in spec code: `n / d`, meaningful where `d != 0`.
pub struct Frac {
    pub n: int,
    pub d: int,
}

impl Frac {
    pub open spec fn wf(self) -> bool {
        self.d > 0
    }
}

/// `a` and `b` denote the same rational number.
pub open spec fn frac_eq(a: Frac, b: Frac) -> bool {
    a.n * b.d == b.n * a.d
}

/// `a < b`, for positive denominators.
pub open spec fn frac_lt(a: Frac, b: Frac) -> bool {
    a.n * b.d < b.n * a.d
}

pub open spec fn frac_int(k: int) -> Frac {
    Frac { n: k, d: 1 }
}

pub open spec fn frac_add(a: Frac, b: Frac) -> Frac {
    Frac { n: a.n * b.d + b.n * a.d, d: a.d * b.d }
}

pub open spec fn frac_sub(a: Frac, b: Frac) -> Frac {
    Frac { n: a.n * b.d - b.n * a.d, d: a.d * b.d }
}

pub open spec fn frac_mul(a: Frac, b: Frac) -> Frac {
    Frac { n: a.n * b.n, d: a.d * b.d }
}

/// `a / b`, kept with a positive denominator when `b.n != 0` and both denominators are positive.
pub open spec fn frac_div(a: Frac, b: Frac) -> Frac {
    if b.n >= 0 {
        Frac { n: a.n * b.d, d: a.d * b.n }
    } else {
        Frac { n: -(a.n * b.d), d: -(a.d * b.n) }
    }
}

pub proof fn lemma_wf_ops(a: Frac, b: Frac)
    requires
        a.wf(),
        b.wf(),
    ensures
        frac_add(a, b).wf(),
        frac_sub(a, b).wf(),
        frac_mul(a, b).wf(),
        b.n != 0 ==> frac_div(a, b).wf(),
{
    assert(a.d * b.d > 0) by (nonlinear_arith)
        requires
            a.d > 0,
            b.d > 0,
    ;
    if b.n > 0 {
        assert(a.d * b.n > 0) by (nonlinear_arith)
            requires
                a.d > 0,
                b.n > 0,
        ;
    } else if b.n < 0 {
        assert(a.d * b.n < 0) by (nonlinear_arith)
            requires
                a.d > 0,
                b.n < 0,
        ;
    }
}

pub proof fn lemma_eq_trans(a: Frac, b: Frac, c: Frac)
    requires
        a.wf(),
        b.wf(),
        c.wf(),
        frac_eq(a, b),
        frac_eq(b, c),
    ensures
        frac_eq(a, c),
{
    assert((a.n * c.d) * b.d == (c.n * a.d) * b.d) by (nonlinear_arith)
        requires
            a.n * b.d == b.n * a.d,
            b.n * c.d == c.n * b.d,
    ;
    assert(a.n * c.d == c.n * a.d) by (nonlinear_arith)
        requires
            (a.n * c.d) * b.d == (c.n * a.d) * b.d,
            b.d > 0,
    ;
}

pub proof fn lemma_add_congr(a: Frac, b: Frac, c: Frac, e: Frac)
    requires
        frac_eq(a, c),
        frac_eq(b, e),
    ensures
        frac_eq(frac_add(a, b), frac_add(c, e)),
        frac_eq(frac_sub(a, b), frac_sub(c, e)),
{
    assert((a.n * b.d) * (c.d * e.d) == (a.n * c.d) * (b.d * e.d)) by (nonlinear_arith);
    assert((b.n * a.d) * (c.d * e.d) == (b.n * e.d) * (a.d * c.d)) by (nonlinear_arith);
    assert((c.n * e.d) * (a.d * b.d) == (c.n * a.d) * (b.d * e.d)) by (nonlinear_arith);
    assert((e.n * c.d) * (a.d * b.d) == (e.n * b.d) * (a.d * c.d)) by (nonlinear_arith);
    assert((a.n * b.d + b.n * a.d) * (c.d * e.d) == (a.n * b.d) * (c.d * e.d) + (b.n * a.d) * (
    c.d * e.d)) by (nonlinear_arith);
    assert((c.n * e.d + e.n * c.d) * (a.d * b.d) == (c.n * e.d) * (a.d * b.d) + (e.n * c.d) * (
    a.d * b.d)) by (nonlinear_arith);
    assert((a.n * b.d - b.n * a.d) * (c.d * e.d) == (a.n * b.d) * (c.d * e.d) - (b.n * a.d) * (
    c.d * e.d)) by (nonlinear_arith);
    assert((c.n * e.d - e.n * c.d) * (a.d * b.d) == (c.n * e.d) * (a.d * b.d) - (e.n * c.d) * (
    a.d * b.d)) by (nonlinear_arith);
}

pub proof fn lemma_mul_congr(a: Frac, b: Frac, c: Frac, e: Frac)
    requires
        frac_eq(a, c),
        frac_eq(b, e),
    ensures
        frac_eq(frac_mul(a, b), frac_mul(c, e)),
{
    assert((a.n * b.n) * (c.d * e.d) == (c.n * e.n) * (a.d * b.d)) by (nonlinear_arith)
        requires
            a.n * c.d == c.n * a.d,
            b.n * e.d == e.n * b.d,
    ;
}

/// Dividing by a non-zero integer and multiplying back gives the value again.
pub proof fn lemma_div_mul_int(a: Frac, k: int)
    requires
        a.wf(),
        k != 0,
    ensures
        frac_eq(frac_mul(frac_div(a, frac_int(k)), frac_int(k)), a),
        frac_div(a, frac_int(k)).wf(),
{
    lemma_wf_ops(a, frac_int(k));
    let q = frac_div(a, frac_int(k));
    if k >= 0 {
        assert((a.n * 1 * k) * a.d == a.n * (a.d * k * 1)) by (nonlinear_arith);
    } else {
        assert((-(a.n * 1) * k) * a.d == a.n * (-(a.d * k) * 1)) by (nonlinear_arith);
    }
}

/// Comparison goes by value: `a < b` exactly when `a < c`, for `b` and `c` equal.
pub proof fn lemma_lt_congr(a: Frac, b: Frac, c: Frac)
    requires
        a.wf(),
        b.wf(),
        c.wf(),
        frac_eq(b, c),
    ensures
        frac_lt(a, b) == frac_lt(a, c),
{
    assert((a.n * b.d) * c.d == (a.n * c.d) * b.d) by (nonlinear_arith);
    assert((b.n * a.d) * c.d == (c.n * a.d) * b.d) by (nonlinear_arith)
        requires
            b.n * c.d == c.n * b.d,
    ;
    assert(frac_lt(a, b) ==> frac_lt(a, c)) by (nonlinear_arith)
        requires
            (a.n * b.d) * c.d == (a.n * c.d) * b.d,
            (b.n * a.d) * c.d == (c.n * a.d) * b.d,
            b.d > 0,
            c.d > 0,
    ;
    assert(frac_lt(a, c) ==> frac_lt(a, b)) by (nonlinear_arith)
        requires
            (a.n * b.d) * c.d == (a.n * c.d) * b.d,
            (b.n * a.d) * c.d == (c.n * a.d) * b.d,
            b.d > 0,
            c.d > 0,
    ;
}

/// Dividing equal values by the same non-zero integer gives equal values.
pub proof fn lemma_div_congr_int(a: Frac, b: Frac, k: int)
    requires
        frac_eq(a, b),
        k != 0,
    ensures
        frac_eq(frac_div(a, frac_int(k)), frac_div(b, frac_int(k))),
{
    if k >= 0 {
        assert((a.n * 1) * (b.d * k) == (b.n * 1) * (a.d * k)) by (nonlinear_arith)
            requires
                a.n * b.d == b.n * a.d,
        ;
    } else {
        assert((-(a.n * 1)) * (-(b.d * k)) == (-(b.n * 1)) * (-(a.d * k))) by (nonlinear_arith)
            requires
                a.n * b.d == b.n * a.d,
        ;
    }
}

/// Where `x * k` equals `s`, `x` equals `s / k`.
pub proof fn lemma_mul_div_int(x: Frac, s: Frac, k: int)
    requires
        x.wf(),
        s.wf(),
        k != 0,
        frac_eq(frac_mul(x, frac_int(k)), s),
    ensures
        frac_eq(x, frac_div(s, frac_int(k))),
{
    if k > 0 {
        assert(x.n * (s.d * k * 1) == (s.n * 1) * x.d) by (nonlinear_arith)
            requires
                (x.n * k) * s.d == s.n * (x.d * 1),
        ;
    } else {
        assert(x.n * (-(s.d * k)) == (-(s.n * 1)) * x.d) by (nonlinear_arith)
            requires
                (x.n * k) * s.d == s.n * (x.d * 1),
        ;
    }
}

/// `a - (b - c)` equals `(a - b) + c`.
pub proof fn lemma_sub_sub(a: Frac, b: Frac, c: Frac)
    ensures
        frac_eq(frac_sub(a, frac_sub(b, c)), frac_add(frac_sub(a, b), c)),
{
    let lhs = frac_sub(a, frac_sub(b, c));
    let rhs = frac_add(frac_sub(a, b), c);
    assert((b.n * c.d - c.n * b.d) * a.d == (b.n * c.d) * a.d - (c.n * b.d) * a.d)
        by (nonlinear_arith);
    assert((a.n * b.d - b.n * a.d) * c.d == (a.n * b.d) * c.d - (b.n * a.d) * c.d)
        by (nonlinear_arith);
    assert(a.n * (b.d * c.d) == (a.n * b.d) * c.d) by (nonlinear_arith);
    assert((b.n * c.d) * a.d == (b.n * a.d) * c.d) by (nonlinear_arith);
    assert((c.n * b.d) * a.d == c.n * (a.d * b.d)) by (nonlinear_arith);
    assert(lhs.n == rhs.n);
    assert((a.d * b.d) * c.d == a.d * (b.d * c.d)) by (nonlinear_arith);
    assert(lhs.d == rhs.d);
}

/// `a - a` is zero.
pub proof fn lemma_sub_self(a: Frac)
    ensures
        frac_eq(frac_sub(a, a), frac_int(0)),
{
    assert(a.n * a.d - a.n * a.d == 0);
}

/// `a + 0` is `a`.
pub proof fn lemma_add_zero(a: Frac)
    ensures
        frac_eq(frac_add(a, frac_int(0)), a),
{
    assert((a.n * 1 + 0 * a.d) * a.d == a.n * (a.d * 1)) by (nonlinear_arith);
}

proof fn lemma_i64_product_fits(x: int, y: int)
    requires
        i64::MIN <= x <= i64::MAX,
        i64::MIN <= y <= i64::MAX,
    ensures
        i128::MIN <= x * y <= i128::MAX,
{
    assert(-0x8000_0000_0000_0000 <= x <= 0x8000_0000_0000_0000);
    assert(-0x8000_0000_0000_0000 <= y <= 0x8000_0000_0000_0000);
    assert(-0x4000_0000_0000_0000_0000_0000_0000_0000 <= x * y <= 0x4000_0000_0000_0000_0000_0000_0000_0000)
        by (nonlinear_arith)
        requires
            -0x8000_0000_0000_0000 <= x <= 0x8000_0000_0000_0000,
            -0x8000_0000_0000_0000 <= y <= 0x8000_0000_0000_0000,
    ;
}

pub open spec fn abs(x: int) -> int {
    if x < 0 {
        -x
    } else {
        x
    }
}

/// `a` with its numerator made non-negative: a size bound rather than a value.
pub open spec fn babs(a: Frac) -> Frac {
    Frac { n: abs(a.n), d: a.d }
}

/// `x` is no larger than the bound `b`: its denominator and the size of its numerator are
/// at most those of `b`.
pub open spec fn within(x: Frac, b: Frac) -> bool {
    0 < x.d <= b.d && abs(x.n) <= b.n
}

/// The cross products of a sum or difference of `a` and `b` fit in `i64`.
pub open spec fn add_fits(a: Frac, b: Frac) -> bool {
    &&& a.d * b.d <= i64::MAX
    &&& abs(a.n * b.d) + abs(b.n * a.d) <= i64::MAX
}

/// The products of numerators and of denominators of `a` and `b` fit in `i64`.
pub open spec fn mul_fits(a: Frac, b: Frac) -> bool {
    &&& abs(a.n * b.n) <= i64::MAX
    &&& a.d * b.d <= i64::MAX
}

/// `b` is not zero and the cross products of `a / b` fit in `i64`.
pub open spec fn div_fits(a: Frac, b: Frac) -> bool {
    &&& b.n != 0
    &&& abs(a.n * b.d) <= i64::MAX
    &&& abs(a.d * b.n) <= i64::MAX
}

/// A value is within its own size.
pub proof fn lemma_within_self(x: Frac)
    requires
        x.wf(),
    ensures
        within(x, babs(x)),
{
}

/// Sizes bound sums and differences: they are within the sum of the bounds, and they fit
/// where the bounds do.
pub proof fn lemma_add_within(a: Frac, b: Frac, ba: Frac, bb: Frac)
    requires
        within(a, ba),
        within(b, bb),
    ensures
        within(frac_add(a, b), frac_add(ba, bb)),
        within(frac_sub(a, b), frac_add(ba, bb)),
        add_fits(ba, bb) ==> add_fits(a, b),
{
    lemma_abs_mul_le(a.n, b.d, ba.n, bb.d);
    lemma_abs_mul_le(b.n, a.d, bb.n, ba.d);
    lemma_abs_mul_le(a.d, b.d, ba.d, bb.d);
    assert(abs(a.n * b.d) == abs(a.n) * b.d) by (nonlinear_arith)
        requires
            b.d > 0,
    ;
    assert(abs(b.n * a.d) == abs(b.n) * a.d) by (nonlinear_arith)
        requires
            a.d > 0,
    ;
    assert(a.d * b.d > 0) by (nonlinear_arith)
        requires
            a.d > 0,
            b.d > 0,
    ;
    assert(abs(ba.n * bb.d) == ba.n * bb.d) by (nonlinear_arith)
        requires
            ba.n >= 0,
            bb.d > 0,
    ;
    assert(abs(bb.n * ba.d) == bb.n * ba.d) by (nonlinear_arith)
        requires
            bb.n >= 0,
            ba.d > 0,
    ;
}

/// Sizes bound products.
pub proof fn lemma_mul_within(a: Frac, b: Frac, ba: Frac, bb: Frac)
    requires
        within(a, ba),
        within(b, bb),
    ensures
        within(frac_mul(a, b), frac_mul(ba, bb)),
        mul_fits(ba, bb) ==> mul_fits(a, b),
{
    lemma_abs_mul_le(a.n, b.n, ba.n, bb.n);
    lemma_abs_mul_le(a.d, b.d, ba.d, bb.d);
    assert(a.d * b.d > 0) by (nonlinear_arith)
        requires
            a.d > 0,
            b.d > 0,
    ;
    assert(abs(ba.n * bb.n) == ba.n * bb.n) by (nonlinear_arith)
        requires
            ba.n >= 0,
            bb.n >= 0,
    ;
}

/// Sizes bound quotients by an integer.
pub proof fn lemma_div_int_within(a: Frac, ba: Frac, k: int)
    requires
        within(a, ba),
        k != 0,
    ensures
        within(frac_div(a, frac_int(k)), frac_div(ba, frac_int(abs(k)))),
        div_fits(ba, frac_int(k)) ==> div_fits(a, frac_int(k)),
{
    lemma_abs_mul_le(a.n, 1, ba.n, 1);
    lemma_abs_mul_le(a.d, k, ba.d, k);
    assert(abs(a.d * k) == a.d * abs(k)) by (nonlinear_arith)
        requires
            a.d > 0,
    ;
    assert(abs(ba.d * k) == ba.d * abs(k)) by (nonlinear_arith)
        requires
            ba.d > 0,
    ;
    assert(a.d * abs(k) > 0) by (nonlinear_arith)
        requires
            a.d > 0,
            k != 0,
    ;
    assert(a.n * 1 == a.n && ba.n * 1 == ba.n);
    assert(a.d * abs(k) <= ba.d * abs(k)) by (nonlinear_arith)
        requires
            a.d <= ba.d,
            abs(k) >= 0,
    ;
    if k >= 0 {
        assert(abs(k) == k);
    } else {
        assert(-(a.d * k) == a.d * abs(k)) by (nonlinear_arith)
            requires
                abs(k) == -k,
        ;
    }
}

proof fn lemma_abs_mul_le(x: int, y: int, bx: int, by: int)
    requires
        abs(x) <= abs(bx),
        abs(y) <= abs(by),
    ensures
        abs(x * y) <= abs(bx * by),
{
    assert(abs(x * y) == abs(x) * abs(y)) by (nonlinear_arith);
    assert(abs(bx * by) == abs(bx) * abs(by)) by (nonlinear_arith);
    assert(abs(x) * abs(y) <= abs(bx) * abs(by)) by (nonlinear_arith)
        requires
            0 <= abs(x) <= abs(bx),
            0 <= abs(y) <= abs(by),
    ;
}

/// An exact rational number: `numer / denom`, well formed when `denom > 0`.
#[derive(Clone, Copy, Debug, PartialEq, Eq, Structural)]
pub struct Rational {
    pub numer: i64,
    pub denom: i64,
}

impl Rational {
    pub open spec fn wf(self) -> bool {
        self.denom > 0
    }

    pub open spec fn frac(self) -> Frac {
        Frac { n: self.numer as int, d: self.denom as int }
    }

    /// The integer `k` as a rational.
    pub open spec fn from_integer_spec(k: i64) -> Rational {
        Rational { numer: k, denom: 1 }
    }

    /// The integer `k` as a rational.
    pub fn from_integer(k: i64) -> (r: Rational)
        ensures
            r.wf(),
            r.frac() == frac_int(k as int),
            r == Rational::from_integer_spec(k),
    {
        Rational { numer: k, denom: 1 }
    }

    /// `numer / denom`, in lowest terms.
    pub fn new(numer: i64, denom: i64) -> (r: Rational)
        requires
            denom != 0,
            numer != i64::MIN,
            denom != i64::MIN,
        ensures
            r.wf(),
            frac_eq(r.frac(), Frac { n: numer as int, d: denom as int }),
    {
        ratio_new(numer, denom)
    }

    /// Whether `self` is strictly greater than `other`.
    pub fn gt(&self, other: &Rational) -> (r: bool)
        requires
            self.wf(),
            other.wf(),
        ensures
            r == frac_lt(other.frac(), self.frac()),
    {
        proof {
            lemma_i64_product_fits(other.numer as int, self.denom as int);
            lemma_i64_product_fits(self.numer as int, other.denom as int);
        }
        let lhs: i128 = (other.numer as i128) * (self.denom as i128);
        let rhs: i128 = (self.numer as i128) * (other.denom as i128);
        lhs < rhs
    }
}

/// Relies on `Ratio::new` of num_rational: the same value in lowest terms, with a positive
/// denominator. It panics on a zero denominator, and negating `i64::MIN` may overflow.
#[verifier::external_body]
fn ratio_new(numer: i64, denom: i64) -> (r: Rational)
    requires
        denom != 0,
        numer != i64::MIN,
        denom != i64::MIN,
    ensures
        r.wf(),
        frac_eq(r.frac(), Frac { n: numer as int, d: denom as int }),
{
    let (numer, denom) = Ratio::new(numer, denom).into_raw();
    Rational { numer, denom }
}

/// Relies on `CheckedAdd::checked_add` for `Ratio<i64>` of num_rational: the exact sum in
/// lowest terms with a positive denominator, or `None` where an intermediate value
/// overflows. Its intermediates (the lcm of the denominators, both scaled numerators and
/// their sum) are no larger than the cross products that `add_fits` bounds.
#[verifier::external_body]
pub(crate) fn checked_add(a: Rational, b: Rational) -> (r: Option<Rational>)
    requires
        a.wf(),
        b.wf(),
    ensures
        add_fits(a.frac(), b.frac()) ==> r is Some,
        r matches Some(v) ==> v.wf() && frac_eq(v.frac(), frac_add(a.frac(), b.frac())) && within(
            v.frac(),
            babs(frac_add(a.frac(), b.frac())),
        ),
{
    Ratio::new_raw(a.numer, a.denom).checked_add(&Ratio::new_raw(b.numer, b.denom)).map(
        |v: Ratio<i64>|
            {
                let (numer, denom) = v.into_raw();
                Rational { numer, denom }
            },
    )
}

/// Relies on `CheckedSub::checked_sub` for `Ratio<i64>` of num_rational: the exact difference
/// in lowest terms with a positive denominator, or `None` where an intermediate value
/// overflows; as for the sum, none does within `add_fits`.
#[verifier::external_body]
pub(crate) fn checked_sub(a: Rational, b: Rational) -> (r: Option<Rational>)
    requires
        a.wf(),
        b.wf(),
    ensures
        add_fits(a.frac(), b.frac()) ==> r is Some,
        r matches Some(v) ==> v.wf() && frac_eq(v.frac(), frac_sub(a.frac(), b.frac())) && within(
            v.frac(),
            babs(frac_sub(a.frac(), b.frac())),
        ),
{
    Ratio::new_raw(a.numer, a.denom).checked_sub(&Ratio::new_raw(b.numer, b.denom)).map(
        |v: Ratio<i64>|
            {
                let (numer, denom) = v.into_raw();
                Rational { numer, denom }
            },
    )
}

/// Relies on `CheckedMul::checked_mul` for `Ratio<i64>` of num_rational: the exact product
/// in lowest terms with a positive denominator, or `None` where an intermediate value
/// overflows. It multiplies numerators and denominators after dividing out common factors,
/// so no product overflows within `mul_fits`.
#[verifier::external_body]
pub(crate) fn checked_mul(a: Rational, b: Rational) -> (r: Option<Rational>)
    requires
        a.wf(),
        b.wf(),
    ensures
        mul_fits(a.frac(), b.frac()) ==> r is Some,
        r matches Some(v) ==> v.wf() && frac_eq(v.frac(), frac_mul(a.frac(), b.frac())) && within(
            v.frac(),
            babs(frac_mul(a.frac(), b.frac())),
        ),
{
    Ratio::new_raw(a.numer, a.denom).checked_mul(&Ratio::new_raw(b.numer, b.denom)).map(
        |v: Ratio<i64>|
            {
                let (numer, denom) = v.into_raw();
                Rational { numer, denom }
            },
    )
}

/// Relies on `CheckedDiv::checked_div` for `Ratio<i64>` of num_rational: the exact quotient
/// in lowest terms with a positive denominator, or `None` on a zero divisor or where an
/// intermediate value overflows; the cross products it forms after dividing out common
/// factors stay within `div_fits`. Its gcd of two numerators would overflow on `i64::MIN`,
/// which is left out.
#[verifier::external_body]
pub(crate) fn checked_div(a: Rational, b: Rational) -> (r: Option<Rational>)
    requires
        a.wf(),
        b.wf(),
        a.numer != i64::MIN,
        b.numer != i64::MIN,
    ensures
        div_fits(a.frac(), b.frac()) ==> r is Some,
        r matches Some(v) ==> b.numer != 0 && v.wf() && frac_eq(
            v.frac(),
            frac_div(a.frac(), b.frac()),
        ) && within(v.frac(), babs(frac_div(a.frac(), b.frac()))),
{
    Ratio::new_raw(a.numer, a.denom).checked_div(&Ratio::new_raw(b.numer, b.denom)).map(
        |v: Ratio<i64>|
            {
                let (numer, denom) = v.into_raw();
                Rational { numer, denom }
            },
    )
}

} // verus!
