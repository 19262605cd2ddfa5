//! Single terms `coeff * x^degree`.

use crate::integer::{int_mul, Integer};
use crate::rational::{q_div, q_mul, q_pow, rat_div, rat_mul, rat_pow, same_value, Rational};
use vstd::prelude::*;

verus! {

/// A term `coeff * x^degree` with a rational coefficient and an integer degree.
#[derive(Debug)]
pub struct Monomial {
    /// The coefficient, never zero.
    pub coeff: Rational,
    /// The degree, possibly negative.
    pub degree: Integer,
}

impl Clone for Monomial {
    fn clone(&self) -> (r: Monomial)
        ensures
            r.term() == self.term(),
    {
        Monomial { coeff: self.coeff.clone(), degree: self.degree.clone() }
    }
}

impl Monomial {
    /// The coefficient is a nonzero fraction in lowest terms.
    pub open spec fn wf(&self) -> bool {
        self.coeff.wf() && self.coeff@.0 != 0
    }

    /// The coefficient and the degree as mathematical values.
    pub open spec fn term(&self) -> ((int, int), int) {
        (self.coeff@, self.degree@)
    }

    /// A term of the given coefficient and degree; the coefficient must not be zero.
    pub fn new(coeff: Rational, degree: Integer) -> (r: Monomial)
        requires
            coeff.wf(),
            coeff@.0 != 0,
        ensures
            r.wf(),
            r.term() == (coeff@, degree@),
    {
        Monomial { coeff, degree }
    }

    /// A constant term; the coefficient must not be zero.
    pub fn constant(coeff: Rational) -> (r: Monomial)
        requires
            coeff.wf(),
            coeff@.0 != 0,
        ensures
            r.wf(),
            r.term() == (coeff@, 0int),
    {
        Monomial::new(coeff, Integer::zero())
    }

    /// A term of degree one; the coefficient must not be zero.
    pub fn linear(coeff: Rational) -> (r: Monomial)
        requires
            coeff.wf(),
            coeff@.0 != 0,
        ensures
            r.wf(),
            r.term() == (coeff@, 1int),
    {
        Monomial::new(coeff, Integer::from_i64(1))
    }

    /// The term with its coefficient negated.
    pub fn neg(&self) -> (r: Monomial)
        requires
            self.wf(),
        ensures
            r.wf(),
            r.term() == ((-self.coeff@.0, self.coeff@.1), self.degree@),
    {
        Monomial { coeff: self.coeff.neg(), degree: self.degree.clone() }
    }

    /// The product of two terms: coefficients multiply, degrees add.
    pub fn mul(&self, rhs: &Monomial) -> (r: Monomial)
        requires
            self.wf(),
            rhs.wf(),
        ensures
            r.wf(),
            same_value(r.coeff@, q_mul(self.coeff@, rhs.coeff@)),
            r.degree@ == self.degree@ + rhs.degree@,
    {
        let coeff = rat_mul(&self.coeff, &rhs.coeff);
        proof {
            lemma_nonzero_product(coeff@, self.coeff@, rhs.coeff@);
        }
        Monomial { coeff, degree: self.degree.add(&rhs.degree) }
    }

    /// The quotient of two terms: coefficients divide, degrees subtract.
    pub fn div(&self, rhs: &Monomial) -> (r: Monomial)
        requires
            self.wf(),
            rhs.wf(),
        ensures
            r.wf(),
            same_value(r.coeff@, q_div(self.coeff@, rhs.coeff@)),
            r.degree@ == self.degree@ - rhs.degree@,
    {
        let coeff = rat_div(&self.coeff, &rhs.coeff);
        proof {
            let (c, a, b) = (coeff@, self.coeff@, rhs.coeff@);
            assert(c.0 * (a.1 * b.0) == a.0 * b.1 * c.1);
            if c.0 == 0 {
                assert(a.0 * b.1 * c.1 == 0) by (nonlinear_arith)
                    requires
                        c.0 == 0,
                        c.0 * (a.1 * b.0) == a.0 * b.1 * c.1,
                ;
                assert(false) by (nonlinear_arith)
                    requires
                        a.0 != 0,
                        b.1 > 0,
                        c.1 > 0,
                        a.0 * b.1 * c.1 == 0,
                ;
            }
        }
        Monomial { coeff, degree: self.degree.sub(&rhs.degree) }
    }

    /// The term raised to the power `e`: the coefficient is raised, the degree scaled.
    pub fn pow(&self, e: i32) -> (r: Monomial)
        requires
            self.wf(),
        ensures
            r.wf(),
            same_value(r.coeff@, q_pow(self.coeff@, e as int)),
            r.degree@ == self.degree@ * e,
    {
        let coeff = rat_pow(&self.coeff, e);
        proof {
            lemma_nonzero_power(coeff@, self.coeff@, e as int);
        }
        Monomial { coeff, degree: int_mul(&self.degree, &Integer::from_i64(e as i64)) }
    }
}

/// A product of nonzero values is nonzero.
pub proof fn lemma_nonzero_product(c: (int, int), a: (int, int), b: (int, int))
    requires
        c.1 > 0,
        a.1 > 0,
        b.1 > 0,
        a.0 != 0,
        b.0 != 0,
        same_value(c, q_mul(a, b)),
    ensures
        c.0 != 0,
{
    assert(c.0 * (a.1 * b.1) == a.0 * b.0 * c.1);
    if c.0 == 0 {
        assert(a.0 * b.0 * c.1 != 0) by (nonlinear_arith)
            requires
                a.0 != 0,
                b.0 != 0,
                c.1 > 0,
        ;
    }
}

/// A power of a nonzero integer is nonzero.
pub proof fn lemma_pow_nonzero(b: int, e: nat)
    requires
        b != 0,
    ensures
        vstd::arithmetic::power::pow(b, e) != 0,
    decreases e,
{
    reveal(vstd::arithmetic::power::pow);
    if e > 0 {
        lemma_pow_nonzero(b, (e - 1) as nat);
        let p = vstd::arithmetic::power::pow(b, (e - 1) as nat);
        assert(b * p != 0) by (nonlinear_arith)
            requires
                b != 0,
                p != 0,
        ;
    }
}

/// A power of a nonzero value is nonzero.
pub proof fn lemma_nonzero_power(c: (int, int), a: (int, int), e: int)
    requires
        c.1 > 0,
        a.1 > 0,
        a.0 != 0,
        same_value(c, q_pow(a, e)),
    ensures
        c.0 != 0,
{
    let p = q_pow(a, e);
    let k: nat = if e >= 0 { e as nat } else { (-e) as nat };
    lemma_pow_nonzero(a.0, k);
    vstd::arithmetic::power::lemma_pow_positive(a.1, k);
    assert(p.0 != 0 && p.1 != 0);
    assert(c.0 * p.1 == p.0 * c.1);
    if c.0 == 0 {
        assert(p.0 * c.1 != 0) by (nonlinear_arith)
            requires
                p.0 != 0,
                c.1 > 0,
        ;
    }
}

} // verus!
