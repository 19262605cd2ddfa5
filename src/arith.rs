//! Sums, differences and products of polynomials, and building them from terms.

use crate::monomial::Monomial;
use crate::rational::Rational;
use crate::polynomial::{canonical, coeff_of, lemma_coeff_of, Polynomial, Term};
use crate::rational::{
    lemma_add_congruent, lemma_add_zero, lemma_den_positive, lemma_same_value_trans, lemma_sub_is_add_neg, q_add,
    q_mul, q_sub, same_value,
};
use vstd::prelude::*;

verus! {

/// Some term among the first `k` of `s` has degree `d`.
pub open spec fn in_prefix(s: Seq<Term>, k: int, d: int) -> bool {
    exists|i: int| 0 <= i < k && #[trigger] s[i].1 == d
}

/// The sum, per degree, of the coefficients of terms in any order.
pub open spec fn sum_terms(ms: Seq<Term>, d: int) -> (int, int)
    decreases ms.len(),
{
    if ms.len() == 0 {
        (0, 1)
    } else if ms.last().1 == d {
        q_add(sum_terms(ms.drop_last(), d), ms.last().0)
    } else {
        sum_terms(ms.drop_last(), d)
    }
}

/// The coefficient of `x^d` in `p * q`, summed over the terms of `q`.
pub open spec fn product_coeff(p: Seq<Term>, q: Seq<Term>, d: int) -> (int, int)
    decreases q.len(),
{
    if q.len() == 0 {
        (0, 1)
    } else {
        q_add(product_coeff(p, q.drop_last(), d), q_mul(coeff_of(p, d - q.last().1), q.last().0))
    }
}

/// `r` is the sum of `p` and `q`, degree by degree.
pub open spec fn is_sum(r: Seq<Term>, p: Seq<Term>, q: Seq<Term>) -> bool {
    forall|d: int| same_value(#[trigger] coeff_of(r, d), q_add(coeff_of(p, d), coeff_of(q, d)))
}

/// `r` is the difference of `p` and `q`, degree by degree.
pub open spec fn is_difference(r: Seq<Term>, p: Seq<Term>, q: Seq<Term>) -> bool {
    forall|d: int| same_value(#[trigger] coeff_of(r, d), q_sub(coeff_of(p, d), coeff_of(q, d)))
}

/// `r` is the product of `p` and `q`.
pub open spec fn is_product(r: Seq<Term>, p: Seq<Term>, q: Seq<Term>) -> bool {
    forall|d: int| same_value(#[trigger] coeff_of(r, d), product_coeff(p, q, d))
}

/// Adding a polynomial and then subtracting it again gives back the
/// polynomial one started from: `(p + q) - q == p`.
pub proof fn law_add_sub_inverse(p: Seq<Term>, q: Seq<Term>, s: Seq<Term>, r: Seq<Term>)
    requires
        canonical(p),
        canonical(q),
        canonical(s),
        canonical(r),
        is_sum(s, p, q),
        is_difference(r, s, q),
    ensures
        r == p,
{
    assert forall|d: int| #[trigger] coeff_of(r, d) == coeff_of(p, d) by {
        let (pd, qd, sd, rd) = (coeff_of(p, d), coeff_of(q, d), coeff_of(s, d), coeff_of(r, d));
        lemma_coeff_of(p, d);
        lemma_coeff_of(q, d);
        lemma_coeff_of(s, d);
        lemma_coeff_of(r, d);
        assert(same_value(rd, q_sub(sd, qd)));
        assert(same_value(sd, q_add(pd, qd)));
        lemma_sub_is_add_neg(sd, qd);
        lemma_sub_is_add_neg(q_add(pd, qd), qd);
        lemma_add_congruent(sd, q_add(pd, qd), (-qd.0, qd.1), (-qd.0, qd.1));
        lemma_den_positive(sd, qd);
        lemma_den_positive(pd, qd);
        lemma_den_positive(q_add(pd, qd), qd);
        lemma_same_value_trans(rd, q_sub(sd, qd), q_sub(q_add(pd, qd), qd));
        crate::rational::lemma_add_sub_cancel(pd, qd);
        lemma_same_value_trans(rd, q_sub(q_add(pd, qd), qd), pd);
        crate::rational::lemma_lowest_terms_unique(rd, pd);
    }
    crate::polynomial::lemma_canonical_unique(r, p);
}

impl Monomial {
    /// The sum of two terms, a polynomial of one or two terms, or zero.
    pub fn add(&self, rhs: &Monomial) -> (r: Polynomial)
        requires
            self.wf(),
            rhs.wf(),
        ensures
            r.wf(),
            is_sum(r@, seq![self.term()], seq![rhs.term()]),
    {
        Polynomial::from_monomial(self.clone()).add(&Polynomial::from_monomial(rhs.clone()))
    }

    /// The difference of two terms, a polynomial of one or two terms, or zero.
    pub fn sub(&self, rhs: &Monomial) -> (r: Polynomial)
        requires
            self.wf(),
            rhs.wf(),
        ensures
            r.wf(),
            is_difference(r@, seq![self.term()], seq![rhs.term()]),
    {
        Polynomial::from_monomial(self.clone()).sub(&Polynomial::from_monomial(rhs.clone()))
    }
}

impl Polynomial {
    /// The constant polynomial `c`: zero when `c` is zero.
    pub fn from_rational(c: Rational) -> (r: Polynomial)
        requires
            c.wf(),
        ensures
            r.wf(),
            c@.0 == 0 ==> r@.len() == 0,
            c@.0 != 0 ==> r@ == seq![(c@, 0int)],
    {
        if c.is_zero() {
            Polynomial::zero()
        } else {
            Polynomial::from_monomial(Monomial::constant(c))
        }
    }

    /// The polynomial of the one term `m`.
    pub fn from_monomial(m: Monomial) -> (r: Polynomial)
        requires
            m.wf(),
        ensures
            r.wf(),
            r@ == seq![m.term()],
    {
        let mut r = Polynomial::zero();
        let ghost t = m.term();
        let ghost z = r;
        r.add_term(m);
        proof {
            lemma_coeff_of(r@, t.1);
            lemma_add_zero(t.0);
            lemma_den_positive((0, 1), t.0);
            lemma_same_value_trans(coeff_of(r@, t.1), q_add((0, 1), t.0), t.0);
            crate::rational::lemma_lowest_terms_unique(coeff_of(r@, t.1), t.0);
            let u = seq![t];
            assert(canonical(u));
            assert forall|d: int| #[trigger] coeff_of(r@, d) == coeff_of(u, d) by {
                lemma_coeff_of(u, d);
                lemma_coeff_of(r@, d);
                assert(u[0] == t);
                assert(coeff_of(z@, d) == (0int, 1int));
                if d != t.1 {
                    assert(coeff_of(r@, d) == coeff_of(z@, d));
                }
            }
            crate::polynomial::lemma_canonical_unique(r@, u);
        }
        r
    }

    /// Builds the canonical polynomial of any sequence of nonzero terms, summing
    /// terms of equal degree and dropping those that cancel.
    pub fn new(monomials: Vec<Monomial>) -> (r: Polynomial)
        requires
            forall|i: int| 0 <= i < monomials@.len() ==> (#[trigger] monomials@[i]).wf(),
        ensures
            r.wf(),
            forall|d: int|
                same_value(
                    #[trigger] coeff_of(r@, d),
                    sum_terms(monomials@.map_values(|m: Monomial| m.term()), d),
                ),
    {
        let ghost ms = monomials@.map_values(|m: Monomial| m.term());
        let mut r = Polynomial::zero();
        let mut k: usize = 0;
        while k < monomials.len()
            invariant
                k <= monomials@.len(),
                ms == monomials@.map_values(|m: Monomial| m.term()),
                forall|i: int| 0 <= i < monomials@.len() ==> (#[trigger] monomials@[i]).wf(),
                r.wf(),
                forall|d: int| same_value(#[trigger] coeff_of(r@, d), sum_terms(ms.take(k as int), d)),
            decreases monomials@.len() - k,
        {
            let m = monomials[k].clone();
            let ghost old_r = r;
            let ghost e = m.degree@;
            r.add_term(m);
            proof {
                let pre = ms.take(k as int);
                let next = ms.take(k + 1);
                assert(next.drop_last() =~= pre);
                assert(next.last() == m.term());
                assert forall|d: int| same_value(#[trigger] coeff_of(r@, d), sum_terms(next, d)) by {
                    assert(same_value(coeff_of(old_r@, d), sum_terms(pre, d)));
                    if d == e {
                        lemma_add_congruent(coeff_of(old_r@, d), sum_terms(pre, d), m.coeff@, m.coeff@);
                        lemma_coeff_of(old_r@, d);
                        lemma_den_positive(coeff_of(old_r@, d), m.coeff@);
                        lemma_same_value_trans(
                            coeff_of(r@, d),
                            q_add(coeff_of(old_r@, d), m.coeff@),
                            q_add(sum_terms(pre, d), m.coeff@),
                        );
                    }
                }
            }
            k = k + 1;
        }
        assert(ms.take(monomials@.len() as int) =~= ms);
        r
    }

    /// The sum of two polynomials.
    pub fn add(&self, rhs: &Polynomial) -> (r: Polynomial)
        requires
            self.wf(),
            rhs.wf(),
        ensures
            r.wf(),
            is_sum(r@, self@, rhs@),
    {
        let mut r = self.clone();
        let mut k: usize = 0;
        while k < rhs.len()
            invariant
                self.wf(),
                rhs.wf(),
                r.wf(),
                k <= rhs@.len(),
                forall|d: int|
                    same_value(
                        #[trigger] coeff_of(r@, d),
                        if in_prefix(rhs@, k as int, d) {
                            q_add(coeff_of(self@, d), coeff_of(rhs@, d))
                        } else {
                            coeff_of(self@, d)
                        },
                    ),
            decreases rhs@.len() - k,
        {
            let m = rhs.term(k).clone();
            let ghost old_r = r;
            let ghost e = m.degree@;
            proof {
                assert(crate::polynomial::nonzero_coeff(rhs@[k as int].0));
                lemma_coeff_of(rhs@, e);
                lemma_coeff_of(old_r@, e);
                lemma_coeff_of(self@, e);
            }
            r.add_term(m);
            proof {
                assert forall|d: int|
                    same_value(
                        #[trigger] coeff_of(r@, d),
                        if in_prefix(rhs@, k + 1, d) {
                            q_add(coeff_of(self@, d), coeff_of(rhs@, d))
                        } else {
                            coeff_of(self@, d)
                        },
                    ) by {
                    if d == e {
                        assert(in_prefix(rhs@, k + 1, d)) by {
                            assert(rhs@[k as int].1 == d);
                        }
                        assert(!in_prefix(rhs@, k as int, d)) by {
                            if in_prefix(rhs@, k as int, d) {
                                let i = choose|i: int| 0 <= i < k && #[trigger] rhs@[i].1 == d;
                                assert(rhs@[i].1 > rhs@[k as int].1);
                            }
                        }
                        lemma_add_congruent(coeff_of(old_r@, d), coeff_of(self@, d), m.coeff@, m.coeff@);
                        lemma_den_positive(coeff_of(old_r@, d), m.coeff@);
                        lemma_same_value_trans(
                            coeff_of(r@, d),
                            q_add(coeff_of(old_r@, d), m.coeff@),
                            q_add(coeff_of(self@, d), m.coeff@),
                        );
                    } else {
                        assert(in_prefix(rhs@, k + 1, d) == in_prefix(rhs@, k as int, d)) by {
                            if in_prefix(rhs@, k + 1, d) {
                                let i = choose|i: int| 0 <= i < k + 1 && #[trigger] rhs@[i].1 == d;
                                assert(i != k);
                            }
                        }
                    }
                }
            }
            k = k + 1;
        }
        proof {
            assert forall|d: int| same_value(#[trigger] coeff_of(r@, d), q_add(coeff_of(self@, d), coeff_of(rhs@, d))) by {
                if !in_prefix(rhs@, rhs@.len() as int, d) {
                    lemma_coeff_of(rhs@, d);
                    lemma_coeff_of(self@, d);
                    lemma_add_zero(coeff_of(self@, d));
                    lemma_same_value_trans(coeff_of(r@, d), coeff_of(self@, d), q_add(coeff_of(self@, d), (0, 1)));
                }
            }
            assert forall|d: int| same_value(#[trigger] coeff_of(r@, d), q_add(coeff_of(self@, d), coeff_of(rhs@, d))) by {
                assert(same_value(coeff_of(r@, d), q_add(coeff_of(self@, d), coeff_of(rhs@, d))));
            }
        }
        r
    }

    /// The difference of two polynomials.
    pub fn sub(&self, rhs: &Polynomial) -> (r: Polynomial)
        requires
            self.wf(),
            rhs.wf(),
        ensures
            r.wf(),
            is_difference(r@, self@, rhs@),
    {
        let n = rhs.neg();
        let r = self.add(&n);
        proof {
            assert forall|d: int| same_value(#[trigger] coeff_of(r@, d), q_sub(coeff_of(self@, d), coeff_of(rhs@, d))) by {
                lemma_sub_is_add_neg(coeff_of(self@, d), coeff_of(rhs@, d));
                assert(coeff_of(n@, d) == (-coeff_of(rhs@, d).0, coeff_of(rhs@, d).1));
                assert(same_value(coeff_of(r@, d), q_add(coeff_of(self@, d), coeff_of(n@, d))));
            }
            assert forall|d: int| same_value(#[trigger] coeff_of(r@, d), q_sub(coeff_of(self@, d), coeff_of(rhs@, d))) by {
                assert(same_value(coeff_of(r@, d), q_sub(coeff_of(self@, d), coeff_of(rhs@, d))));
            }
        }
        r
    }

    /// The product of two polynomials: the sum, over the terms of `rhs`, of
    /// `self` multiplied by that term.
    pub fn mul(&self, rhs: &Polynomial) -> (r: Polynomial)
        requires
            self.wf(),
            rhs.wf(),
        ensures
            r.wf(),
            is_product(r@, self@, rhs@),
    {
        let mut r = Polynomial::zero();
        let mut k: usize = 0;
        while k < rhs.len()
            invariant
                self.wf(),
                rhs.wf(),
                r.wf(),
                k <= rhs@.len(),
                forall|d: int| same_value(#[trigger] coeff_of(r@, d), product_coeff(self@, rhs@.take(k as int), d)),
            decreases rhs@.len() - k,
        {
            let m = rhs.term(k);
            proof {
                assert(crate::polynomial::nonzero_coeff(rhs@[k as int].0));
            }
            let part = self.mul_monomial(m);
            let next_r = r.add(&part);
            proof {
                let pre = rhs@.take(k as int);
                let next = rhs@.take(k + 1);
                assert(next.drop_last() =~= pre);
                assert(next.last() == m.term());
                assert forall|d: int| same_value(#[trigger] coeff_of(next_r@, d), product_coeff(self@, next, d)) by {
                    lemma_add_congruent(
                        coeff_of(r@, d),
                        product_coeff(self@, pre, d),
                        coeff_of(part@, d),
                        q_mul(coeff_of(self@, d - m.degree@), m.coeff@),
                    );
                    lemma_coeff_of(r@, d);
                    lemma_coeff_of(part@, d);
                    assert(same_value(coeff_of(next_r@, d), q_add(coeff_of(r@, d), coeff_of(part@, d))));
                    lemma_den_positive(coeff_of(r@, d), coeff_of(part@, d));
                    lemma_same_value_trans(
                        coeff_of(next_r@, d),
                        q_add(coeff_of(r@, d), coeff_of(part@, d)),
                        product_coeff(self@, next, d),
                    );
                }
            }
            r = next_r;
            k = k + 1;
        }
        assert(rhs@.take(rhs@.len() as int) =~= rhs@);
        assert forall|d: int| same_value(#[trigger] coeff_of(r@, d), product_coeff(self@, rhs@, d)) by {
            assert(same_value(coeff_of(r@, d), product_coeff(self@, rhs@.take(rhs@.len() as int), d)));
        }
        r
    }
}

} // verus!
