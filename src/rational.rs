//! Arbitrary-precision rationals in lowest terms.

use crate::integer::{int_cmp, int_gcd, Integer};
use num_bigint::BigInt;
use num_rational::Ratio;
use num_traits::Pow;
use vstd::arithmetic::div_mod::*;
use vstd::arithmetic::mul::*;
use vstd::arithmetic::power::pow;
use vstd::prelude::*;

verus! {

#[verifier::external_type_specification]
#[verifier::external_body]
#[verifier::reject_recursive_types(T)]
pub struct ExRatio<T>(Ratio<T>);

/// Whether `n * e` is a multiple of `d`.
pub open spec fn scaled_multiple(n: int, e: int, d: int) -> bool {
    (n * e) % d == 0
}

/// `n / d` is in lowest terms: `d` is positive and no smaller positive
/// denominator can express the same value.
pub open spec fn lowest_terms(n: int, d: int) -> bool {
    &&& d > 0
    &&& forall|e: int| 0 < e < d ==> !#[trigger] scaled_multiple(n, e, d)
}

/// Two fractions (numerator, nonzero denominator) denote the same value.
pub open spec fn same_value(a: (int, int), b: (int, int)) -> bool {
    a.0 * b.1 == b.0 * a.1
}

pub open spec fn q_add(a: (int, int), b: (int, int)) -> (int, int) {
    (a.0 * b.1 + b.0 * a.1, a.1 * b.1)
}

pub open spec fn q_sub(a: (int, int), b: (int, int)) -> (int, int) {
    (a.0 * b.1 - b.0 * a.1, a.1 * b.1)
}

pub open spec fn q_mul(a: (int, int), b: (int, int)) -> (int, int) {
    (a.0 * b.0, a.1 * b.1)
}

pub open spec fn q_div(a: (int, int), b: (int, int)) -> (int, int) {
    (a.0 * b.1, a.1 * b.0)
}

/// `a` raised to the integer power `e`.
pub open spec fn q_pow(a: (int, int), e: int) -> (int, int) {
    if e >= 0 {
        (pow(a.0, e as nat), pow(a.1, e as nat))
    } else {
        (pow(a.1, (-e) as nat), pow(a.0, (-e) as nat))
    }
}

/// The fraction in lowest terms with the value of `x`.
pub open spec fn canon(x: (int, int)) -> (int, int) {
    choose|c: (int, int)| lowest_terms(c.0, c.1) && same_value(c, x)
}

/// A fraction in lowest terms is the only such fraction for its value.
pub proof fn lemma_lowest_terms_unique(a: (int, int), b: (int, int))
    requires
        lowest_terms(a.0, a.1),
        lowest_terms(b.0, b.1),
        same_value(a, b),
    ensures
        a == b,
{
    if a.1 < b.1 {
        lemma_mod_multiples_basic(a.0, b.1);
        lemma_mul_is_commutative(a.0, b.1);
        assert(scaled_multiple(b.0, a.1, b.1));
    } else if b.1 < a.1 {
        lemma_mod_multiples_basic(b.0, a.1);
        lemma_mul_is_commutative(b.0, a.1);
        assert(scaled_multiple(a.0, b.1, a.1));
    } else {
        lemma_mul_is_commutative(a.0, a.1);
        lemma_mul_is_commutative(b.0, a.1);
        lemma_mul_equality_converse(a.1, a.0, b.0);
    }
}

/// A rational number `numer / denom`, kept in lowest terms.
#[derive(Debug)]
pub struct Rational {
    numer: Integer,
    denom: Integer,
}

impl View for Rational {
    type V = (int, int);

    closed spec fn view(&self) -> (int, int) {
        (self.numer@, self.denom@)
    }
}

impl Clone for Rational {
    fn clone(&self) -> (r: Rational)
        ensures
            r@ == self@,
    {
        Rational { numer: self.numer.clone(), denom: self.denom.clone() }
    }
}

impl Rational {
    /// The fraction is in lowest terms with a positive denominator.
    pub open spec fn wf(&self) -> bool {
        lowest_terms(self@.0, self@.1)
    }

    /// Converts to num-rational's ratio; only the wrappers below use it.
    #[verifier::external_body]
    fn to_ratio(&self) -> Ratio<BigInt> {
        Ratio::new_raw(self.numer.to_big(), self.denom.to_big())
    }

    /// Converts from num-rational's ratio; only the wrappers below use it.
    #[verifier::external_body]
    fn from_ratio(r: Ratio<BigInt>) -> Rational {
        let (numer, denom) = r.into_raw();
        Rational { numer: Integer::from_big(numer), denom: Integer::from_big(denom) }
    }

    /// The rational with the value of the integer `n`.
    pub fn from_integer(n: Integer) -> (r: Rational)
        ensures
            r.wf(),
            r@ == (n@, 1int),
    {
        Rational { numer: n, denom: Integer::from_i64(1) }
    }

    /// The fraction `n / d` in lowest terms; `d` must not be zero.
    pub fn new(n: &Integer, d: &Integer) -> (r: Rational)
        requires
            d@ != 0,
        ensures
            r.wf(),
            same_value(r@, (n@, d@)),
    {
        rat_new(n, d)
    }

    /// The rational zero.
    pub fn zero() -> (r: Rational)
        ensures
            r.wf(),
            r@ == (0int, 1int),
    {
        Rational::from_integer(Integer::zero())
    }

    /// The numerator, which carries the sign.
    pub fn numer(&self) -> (r: &Integer)
        ensures
            r@ == self@.0,
    {
        &self.numer
    }

    /// The denominator, positive for a well-formed value.
    pub fn denom(&self) -> (r: &Integer)
        ensures
            r@ == self@.1,
    {
        &self.denom
    }

    /// Whether the value is zero.
    pub fn is_zero(&self) -> (r: bool)
        ensures
            r == (self@.0 == 0),
    {
        self.numer.is_zero()
    }

    /// Whether the value is above zero.
    pub fn is_positive(&self) -> (r: bool)
        ensures
            r == (self@.0 > 0),
    {
        self.numer.is_positive()
    }

    /// Whether the value is one.
    pub fn is_one(&self) -> (r: bool)
        requires
            self.wf(),
        ensures
            r == (self@ == (1int, 1int)),
    {
        self.numer.equals(&self.denom) && self.denom.equals(&Integer::from_i64(1))
    }

    /// Whether the value is at most one.
    pub fn at_most_one(&self) -> (r: bool)
        requires
            self.wf(),
        ensures
            r == (self@.0 <= self@.1),
    {
        !matches!(int_cmp(&self.numer, &self.denom), core::cmp::Ordering::Greater)
    }

    /// Whether two well-formed rationals have the same value.
    pub fn equals(&self, other: &Rational) -> (r: bool)
        ensures
            r == (self@ == other@),
    {
        self.numer.equals(&other.numer) && self.denom.equals(&other.denom)
    }

    /// The value with its sign flipped.
    pub fn neg(&self) -> (r: Rational)
        requires
            self.wf(),
        ensures
            r.wf(),
            r@ == (-self@.0, self@.1),
    {
        let r = Rational { numer: self.numer.neg(), denom: self.denom.clone() };
        proof {
            let (n, d) = self@;
            assert forall|e: int| 0 < e < d implies !#[trigger] scaled_multiple(-n, e, d) by {
                assert(!scaled_multiple(n, e, d));
                lemma_mul_unary_negation(n, e);
                if (-n * e) % d == 0 {
                    lemma_mod_neg_zero(n * e, d);
                }
            }
        }
        r
    }

    /// The absolute value.
    pub fn abs(&self) -> (r: Rational)
        requires
            self.wf(),
        ensures
            r.wf(),
            r@ == (if self@.0 < 0 { -self@.0 } else { self@.0 }, self@.1),
    {
        if self.numer.is_negative() {
            self.neg()
        } else {
            self.clone()
        }
    }
}

impl PartialEq for Rational {
    fn eq(&self, other: &Rational) -> (r: bool)
        ensures
            r == (self@ == other@),
    {
        self.equals(other)
    }
}

impl vstd::std_specs::cmp::PartialEqSpecImpl for Rational {
    open spec fn obeys_eq_spec() -> bool {
        true
    }

    open spec fn eq_spec(&self, other: &Rational) -> bool {
        self@ == other@
    }
}

/// `-x` is a multiple of `d` when `x` is.
proof fn lemma_mod_neg_zero(x: int, d: int)
    requires
        d > 0,
        (-x) % d == 0,
    ensures
        x % d == 0,
{
    lemma_fundamental_div_mod(-x, d);
    let q = (-x) / d;
    assert(x == (-q) * d) by (nonlinear_arith)
        requires
            -x == d * q + 0,
    ;
    lemma_mod_multiples_basic(-q, d);
}

/// Relies on `Ratio::new` (num-rational): reduces `n / d` to lowest terms with
/// a positive denominator; it panics on a zero denominator.
#[verifier::external_body]
pub(crate) fn rat_new(n: &Integer, d: &Integer) -> (r: Rational)
    requires
        d@ != 0,
    ensures
        r.wf(),
        same_value(r@, (n@, d@)),
{
    Rational::from_ratio(Ratio::new(n.to_big(), d.to_big()))
}

/// Relies on `Ratio + Ratio` (num-rational): the exact sum in lowest terms.
#[verifier::external_body]
pub(crate) fn rat_add(a: &Rational, b: &Rational) -> (r: Rational)
    requires
        a.wf(),
        b.wf(),
    ensures
        r.wf(),
        same_value(r@, q_add(a@, b@)),
{
    Rational::from_ratio(a.to_ratio() + b.to_ratio())
}

/// Relies on `Ratio - Ratio` (num-rational): the exact difference in lowest terms.
#[verifier::external_body]
pub(crate) fn rat_sub(a: &Rational, b: &Rational) -> (r: Rational)
    requires
        a.wf(),
        b.wf(),
    ensures
        r.wf(),
        same_value(r@, q_sub(a@, b@)),
{
    Rational::from_ratio(a.to_ratio() - b.to_ratio())
}

/// Relies on `Ratio * Ratio` (num-rational): the exact product in lowest terms.
#[verifier::external_body]
pub(crate) fn rat_mul(a: &Rational, b: &Rational) -> (r: Rational)
    requires
        a.wf(),
        b.wf(),
    ensures
        r.wf(),
        same_value(r@, q_mul(a@, b@)),
{
    Rational::from_ratio(a.to_ratio() * b.to_ratio())
}

/// Relies on `Ratio / Ratio` (num-rational): the exact quotient in lowest terms;
/// it panics on a zero divisor.
#[verifier::external_body]
pub(crate) fn rat_div(a: &Rational, b: &Rational) -> (r: Rational)
    requires
        a.wf(),
        b.wf(),
        b@.0 != 0,
    ensures
        r.wf(),
        same_value(r@, q_div(a@, b@)),
{
    Rational::from_ratio(a.to_ratio() / b.to_ratio())
}

/// Relies on `Pow<i32>` of num-rational's `Ratio`: the exact power in lowest
/// terms; a negative power takes the reciprocal, which panics on zero.
#[verifier::external_body]
pub(crate) fn rat_pow(a: &Rational, e: i32) -> (r: Rational)
    requires
        a.wf(),
        e < 0 ==> a@.0 != 0,
    ensures
        r.wf(),
        same_value(r@, q_pow(a@, e as int)),
{
    Rational::from_ratio(Pow::pow(a.to_ratio(), e))
}

} // verus!

verus! {

/// Denoting the same value is transitive.
pub proof fn lemma_same_value_trans(a: (int, int), b: (int, int), c: (int, int))
    requires
        b.1 != 0,
        same_value(a, b),
        same_value(b, c),
    ensures
        same_value(a, c),
{
    assert((a.0 * c.1) * b.1 == (c.0 * a.1) * b.1) by (nonlinear_arith)
        requires
            a.0 * b.1 == b.0 * a.1,
            b.0 * c.1 == c.0 * b.1,
    ;
    vstd::arithmetic::mul::lemma_mul_is_commutative(a.0 * c.1, b.1);
    vstd::arithmetic::mul::lemma_mul_is_commutative(c.0 * a.1, b.1);
    vstd::arithmetic::mul::lemma_mul_equality_converse(b.1, a.0 * c.1, c.0 * a.1);
}

/// Sums, differences and products of fractions with positive denominators
/// have positive denominators.
pub proof fn lemma_den_positive(a: (int, int), b: (int, int))
    requires
        a.1 > 0,
        b.1 > 0,
    ensures
        q_add(a, b).1 > 0,
        q_sub(a, b).1 > 0,
        q_mul(a, b).1 > 0,
{
    vstd::arithmetic::mul::lemma_mul_strictly_positive(a.1, b.1);
}

/// Subtracting values that agree from values that agree gives values that agree.
pub proof fn lemma_sub_congruent(a: (int, int), a2: (int, int), b: (int, int), b2: (int, int))
    requires
        same_value(a, a2),
        same_value(b, b2),
    ensures
        same_value(q_sub(a, b), q_sub(a2, b2)),
{
    lemma_sub_is_add_neg(a, b);
    lemma_sub_is_add_neg(a2, b2);
    assert(same_value((-b.0, b.1), (-b2.0, b2.1))) by (nonlinear_arith)
        requires
            b.0 * b2.1 == b2.0 * b.1,
    ;
    lemma_add_congruent(a, a2, (-b.0, b.1), (-b2.0, b2.1));
}

/// Moving `x` from one summand to the other keeps the sum: `(a + x) + (b - x)`
/// has the value of `a + b`.
pub proof fn lemma_add_shift(a: (int, int), x: (int, int), b: (int, int))
    ensures
        same_value(q_add(q_add(a, x), q_sub(b, x)), q_add(a, b)),
{
    let l = q_add(q_add(a, x), q_sub(b, x));
    let r = q_add(a, b);
    let (a0, a1, b0, b1, x0, x1) = (a.0, a.1, b.0, b.1, x.0, x.1);
    assert((a0 * x1 + x0 * a1) * (b1 * x1) == a0 * b1 * (x1 * x1) + x0 * a1 * b1 * x1) by (nonlinear_arith);
    assert((b0 * x1) * (a1 * x1) == b0 * a1 * (x1 * x1)) by (nonlinear_arith);
    assert((x0 * b1) * (a1 * x1) == x0 * a1 * b1 * x1) by (nonlinear_arith);
    vstd::arithmetic::mul::lemma_mul_is_distributive_sub_other_way(a1 * x1, b0 * x1, x0 * b1);
    assert(l.0 == (a0 * b1 + b0 * a1) * (x1 * x1)) by (nonlinear_arith)
        requires
            l.0 == a0 * b1 * (x1 * x1) + x0 * a1 * b1 * x1 + (b0 * a1 * (x1 * x1) - x0 * a1 * b1 * x1),
    ;
    assert(l.1 == (a1 * b1) * (x1 * x1)) by (nonlinear_arith)
        requires
            l.1 == (a1 * x1) * (b1 * x1),
    ;
    let k = x1 * x1;
    assert(l.0 * r.1 == r.0 * l.1) by (nonlinear_arith)
        requires
            l.0 == r.0 * k,
            l.1 == r.1 * k,
    ;
}

/// Sums of values that agree agree.
pub proof fn lemma_add_congruent(a: (int, int), a2: (int, int), b: (int, int), b2: (int, int))
    requires
        same_value(a, a2),
        same_value(b, b2),
    ensures
        same_value(q_add(a, b), q_add(a2, b2)),
{
    let x = a.0 * a2.1;
    let y = b.0 * b2.1;
    assert((a.0 * b.1) * (a2.1 * b2.1) == x * (b.1 * b2.1)) by (nonlinear_arith)
        requires
            x == a.0 * a2.1,
    ;
    assert((a2.0 * b2.1) * (a.1 * b.1) == (a2.0 * a.1) * (b.1 * b2.1)) by (nonlinear_arith);
    assert((b.0 * a.1) * (a2.1 * b2.1) == y * (a.1 * a2.1)) by (nonlinear_arith)
        requires
            y == b.0 * b2.1,
    ;
    assert((b2.0 * a2.1) * (a.1 * b.1) == (b2.0 * b.1) * (a.1 * a2.1)) by (nonlinear_arith);
    assert((a.0 * b.1 + b.0 * a.1) * (a2.1 * b2.1) == (a.0 * b.1) * (a2.1 * b2.1) + (b.0 * a.1) * (
    a2.1 * b2.1)) by (nonlinear_arith);
    assert((a2.0 * b2.1 + b2.0 * a2.1) * (a.1 * b.1) == (a2.0 * b2.1) * (a.1 * b.1) + (b2.0 * a2.1)
        * (a.1 * b.1)) by (nonlinear_arith);
}

/// Products of values that agree agree.
pub proof fn lemma_mul_congruent(a: (int, int), a2: (int, int), b: (int, int), b2: (int, int))
    requires
        same_value(a, a2),
        same_value(b, b2),
    ensures
        same_value(q_mul(a, b), q_mul(a2, b2)),
{
    assert((a.0 * b.0) * (a2.1 * b2.1) == (a2.0 * b2.0) * (a.1 * b.1)) by (nonlinear_arith)
        requires
            a.0 * a2.1 == a2.0 * a.1,
            b.0 * b2.1 == b2.0 * b.1,
    ;
}

/// Adding zero keeps the value.
pub proof fn lemma_add_zero(a: (int, int))
    ensures
        same_value(q_add(a, (0, 1)), a),
        same_value(q_add((0, 1), a), a),
{
}

/// Subtracting is adding the negation.
pub proof fn lemma_sub_is_add_neg(a: (int, int), b: (int, int))
    ensures
        q_sub(a, b) == q_add(a, (-b.0, b.1)),
{
    vstd::arithmetic::mul::lemma_mul_unary_negation(b.0, a.1);
}

/// `(a + b) - b` has the value of `a`.
pub proof fn lemma_add_sub_cancel(a: (int, int), b: (int, int))
    requires
        a.1 != 0,
        b.1 != 0,
    ensures
        same_value(q_sub(q_add(a, b), b), a),
{
    assert(((a.0 * b.1 + b.0 * a.1) * b.1 - b.0 * (a.1 * b.1)) * a.1 == a.0 * ((a.1 * b.1) * b.1))
        by (nonlinear_arith);
}

/// Multiplying by zero gives zero.
pub proof fn lemma_mul_zero(a: (int, int))
    requires
        a.1 != 0,
    ensures
        same_value(q_mul((0, 1), a), (0, 1)),
{
}

} // verus!
