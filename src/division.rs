//! Long division of polynomials, greatest common divisors, common factors and
//! monic normalisation.

use crate::arith::{is_difference, is_product, product_coeff};
use crate::integer::{abs, gcd, int_gcd, int_lcm, lcm, Integer};
use crate::monomial::Monomial;
use crate::polynomial::{canonical, coeff_of, lemma_coeff_of, lemma_zero_lowest, nonzero_coeff, Polynomial, Term};
use crate::rational::{
    lemma_add_congruent, lemma_add_shift, lemma_den_positive, lemma_same_value_trans,
    lemma_sub_congruent, lowest_terms, q_add, q_div, q_mul, q_sub, rat_new, same_value, canon,
    Rational,
};
use vstd::prelude::*;

verus! {

/// `q` and `r` are the quotient and remainder of dividing `d` by the nonzero
/// `v`: `d == v * q + r`, every degree of `r` is below the degree of `v`, and
/// no degree of `q` is negative.
pub open spec fn is_division(d: Seq<Term>, v: Seq<Term>, q: Seq<Term>, r: Seq<Term>) -> bool {
    &&& v.len() > 0
    &&& forall|e: int| same_value(#[trigger] coeff_of(d, e), q_add(product_coeff(v, q, e), coeff_of(r, e)))
    &&& forall|i: int| 0 <= i < r.len() ==> #[trigger] r[i].1 < v[0].1
    &&& forall|i: int| 0 <= i < q.len() ==> #[trigger] q[i].1 >= 0
}

/// No degree of `s` is below `l`.
pub open spec fn low_bound(s: Seq<Term>, l: int) -> bool {
    forall|i: int| 0 <= i < s.len() ==> #[trigger] s[i].1 >= l
}

/// Dropping the last term keeps a polynomial canonical.
pub proof fn lemma_drop_last_canonical(q: Seq<Term>)
    requires
        canonical(q),
        q.len() > 0,
    ensures
        canonical(q.drop_last()),
{
    let q1 = q.drop_last();
    assert forall|i: int, j: int| 0 <= i < j < q1.len() implies #[trigger] q1[i].1 > #[trigger] q1[j].1 by {
        assert(q[i].1 > q[j].1);
    }
    assert forall|i: int| 0 <= i < q1.len() implies nonzero_coeff(#[trigger] q1[i].0) by {
        assert(nonzero_coeff(q[i].0));
    }
}

/// Coefficients of products of canonical polynomials have positive denominators.
pub proof fn lemma_product_den(p: Seq<Term>, q: Seq<Term>, d: int)
    requires
        canonical(p),
        canonical(q),
    ensures
        product_coeff(p, q, d).1 > 0,
    decreases q.len(),
{
    if q.len() > 0 {
        let q1 = q.drop_last();
        assert(canonical(q1)) by {
            assert forall|i: int, j: int| 0 <= i < j < q1.len() implies #[trigger] q1[i].1 > #[trigger] q1[j].1 by {
                assert(q[i].1 > q[j].1);
            }
            assert forall|i: int| 0 <= i < q1.len() implies nonzero_coeff(#[trigger] q1[i].0) by {
                assert(nonzero_coeff(q[i].0));
            }
        }
        lemma_product_den(p, q1, d);
        lemma_coeff_of(p, d - q.last().1);
        assert(nonzero_coeff(q[q.len() - 1].0));
        lemma_den_positive(coeff_of(p, d - q.last().1), q.last().0);
        lemma_den_positive(product_coeff(p, q1, d), q_mul(coeff_of(p, d - q.last().1), q.last().0));
    }
}

/// Where neither `w` nor the shifted `v` has a term of degree `e`, neither
/// has `w - v * x`.
proof fn lemma_cancel_absent(w: Seq<Term>, v: Seq<Term>, vt: Seq<Term>, next_w: Seq<Term>, x: Term, e: int)
    requires
        canonical(w),
        canonical(v),
        canonical(vt),
        canonical(next_w),
        x.0.1 > 0,
        forall|i: int| 0 <= i < w.len() ==> #[trigger] w[i].1 != e,
        forall|i: int| 0 <= i < v.len() ==> #[trigger] v[i].1 != e - x.1,
        forall|k: int| same_value(#[trigger] coeff_of(vt, k), q_mul(coeff_of(v, k - x.1), x.0)),
        forall|k: int| same_value(#[trigger] coeff_of(next_w, k), q_sub(coeff_of(w, k), coeff_of(vt, k))),
    ensures
        coeff_of(next_w, e) == (0int, 1int),
{
    lemma_coeff_of(w, e);
    lemma_coeff_of(v, e - x.1);
    lemma_coeff_of(vt, e);
    lemma_coeff_of(next_w, e);
    let vte = coeff_of(vt, e);
    let nwe = coeff_of(next_w, e);
    assert(same_value(vte, q_mul(coeff_of(v, e - x.1), x.0)));
    assert(same_value(nwe, q_sub(coeff_of(w, e), vte)));
    assert(vte.0 * (1 * x.0.1) == (0 * x.0.0) * vte.1);
    assert(vte.0 == 0) by (nonlinear_arith)
        requires
            vte.0 * (1 * x.0.1) == (0 * x.0.0) * vte.1,
            x.0.1 > 0,
    ;
    assert(nwe.0 * (1 * vte.1) == (0 * vte.1 - vte.0 * 1) * nwe.1);
    assert(nwe.0 == 0) by (nonlinear_arith)
        requires
            nwe.0 * (1 * vte.1) == (0 * vte.1 - vte.0 * 1) * nwe.1,
            vte.0 == 0,
            vte.1 > 0,
    ;
    lemma_zero_lowest(nwe);
}

impl Polynomial {
    /// Divides in place, leaving the quotient, and returns the remainder; `None`
    /// when the divisor is zero, leaving `self` unchanged.
    #[verifier::rlimit(80)]
    pub fn div_rem_mut(&mut self, divisor: &Polynomial) -> (r: Option<Polynomial>)
        requires
            old(self).wf(),
            divisor.wf(),
        ensures
            r is None <==> divisor@.len() == 0,
            r is None ==> final(self)@ == old(self)@,
            r matches Some(rem) ==> final(self).wf() && rem.wf()
                && is_division(old(self)@, divisor@, final(self)@, rem@),
            r matches Some(rem) ==> (old(self)@.len() == 0 ==> final(self)@.len() == 0 && rem@.len() == 0),
            r matches Some(rem) ==> forall|l: int|
                #[trigger] low_bound(old(self)@, l) && low_bound(divisor@, l) ==> low_bound(rem@, l),
    {
        if divisor.is_zero() {
            return None;
        }
        let lead = divisor.term(0);
        let n = &lead.degree;
        let ghost d = self@;
        let ghost v = divisor@;
        let ghost nn = n@;
        proof {
            assert(nonzero_coeff(v[0].0));
        }
        let mut w = self.clone();
        let mut quo = Polynomial::zero();
        proof {
            assert forall|e: int| same_value(#[trigger] coeff_of(d, e), q_add(product_coeff(v, quo@, e), coeff_of(w@, e))) by {
                lemma_coeff_of(d, e);
                crate::rational::lemma_add_zero(coeff_of(d, e));
            }
        }
        while w.reaches(n)
            invariant
                divisor.wf(),
                divisor@ == v,
                v.len() > 0,
                lead.term() == v[0],
                n@ == nn,
                nn == v[0].1,
                nonzero_coeff(v[0].0),
                canonical(d),
                w.wf(),
                quo.wf(),
                forall|e: int| same_value(#[trigger] coeff_of(d, e), q_add(product_coeff(v, quo@, e), coeff_of(w@, e))),
                forall|i: int| 0 <= i < quo@.len() ==> #[trigger] quo@[i].1 >= 0,
                forall|i: int, j: int| 0 <= i < quo@.len() && 0 <= j < w@.len() ==> #[trigger] quo@[i].1 + nn > #[trigger] w@[j].1,
                d.len() == 0 ==> w@.len() == 0,
                d.len() == 0 ==> quo@.len() == 0,
                forall|l: int| #[trigger] low_bound(d, l) && low_bound(v, l) ==> low_bound(w@, l),
            decreases (if w@.len() > 0 && w@[0].1 >= nn { w@[0].1 - nn + 1 } else { 0 }),
        {
            let top = w.term(0);
            let ghost top_deg = w@[0].1;
            proof {
                assert(nonzero_coeff(w@[0].0));
            }
            let t = top.div(lead);
            let vt = divisor.mul_monomial(&t);
            let next_w = w.sub(&vt);
            let ghost old_quo = quo@;
            let ghost x = t.term();
            proof {
                assert forall|i: int| 0 <= i < quo@.len() implies #[trigger] quo@[i].1 > x.1 by {
                    assert(quo@[i].1 + nn > w@[0].1);
                }
            }
            quo.push_lowest(t);
            proof {
                let nq = quo@;
                assert(nq.drop_last() =~= old_quo);
                assert(nq.last() == x);
                // the identity is kept
                assert forall|e: int| same_value(#[trigger] coeff_of(d, e), q_add(product_coeff(v, nq, e), coeff_of(next_w@, e))) by {
                    let pe = product_coeff(v, old_quo, e);
                    let xe = q_mul(coeff_of(v, e - x.1), x.0);
                    let we = coeff_of(w@, e);
                    let vte = coeff_of(vt@, e);
                    lemma_coeff_of(v, e - x.1);
                    lemma_coeff_of(w@, e);
                    lemma_coeff_of(vt@, e);
                    lemma_coeff_of(next_w@, e);
                    lemma_coeff_of(d, e);
                    lemma_product_den(v, old_quo, e);
                    lemma_den_positive(coeff_of(v, e - x.1), x.0);
                    assert(same_value(vte, xe));
                    assert(same_value(coeff_of(next_w@, e), q_sub(we, vte)));
                    lemma_sub_congruent(we, we, vte, xe);
                    lemma_den_positive(we, vte);
                    lemma_same_value_trans(coeff_of(next_w@, e), q_sub(we, vte), q_sub(we, xe));
                    assert(product_coeff(v, nq, e) == q_add(pe, xe));
                    lemma_add_congruent(q_add(pe, xe), q_add(pe, xe), coeff_of(next_w@, e), q_sub(we, xe));
                    lemma_add_shift(pe, xe, we);
                    lemma_den_positive(pe, xe);
                    lemma_den_positive(we, xe);
                    lemma_den_positive(q_add(pe, xe), q_sub(we, xe));
                    lemma_same_value_trans(
                        q_add(q_add(pe, xe), coeff_of(next_w@, e)),
                        q_add(q_add(pe, xe), q_sub(we, xe)),
                        q_add(pe, we),
                    );
                    lemma_den_positive(pe, we);
                    assert(same_value(coeff_of(d, e), q_add(pe, we)));
                    lemma_same_value_trans(coeff_of(d, e), q_add(pe, we), q_add(q_add(pe, xe), coeff_of(next_w@, e)));
                }
                // every degree at or above the old top is gone
                assert forall|j: int| 0 <= j < next_w@.len() implies #[trigger] next_w@[j].1 < top_deg by {
                    let e = next_w@[j].1;
                    lemma_coeff_of(next_w@, e);
                    assert(nonzero_coeff(next_w@[j].0));
                    if e >= top_deg {
                        self.lemma_top_cancels(w@, v, vt@, next_w@, x, e);
                    }
                }
                assert forall|l: int| #[trigger] low_bound(d, l) && low_bound(v, l) implies low_bound(next_w@, l) by {
                    assert(low_bound(w@, l));
                    assert forall|j: int| 0 <= j < next_w@.len() implies #[trigger] next_w@[j].1 >= l by {
                        let e = next_w@[j].1;
                        lemma_coeff_of(next_w@, e);
                        assert(nonzero_coeff(next_w@[j].0));
                        if e < l {
                            assert forall|i: int| 0 <= i < w@.len() implies #[trigger] w@[i].1 != e by {
                                assert(w@[i].1 >= l);
                            }
                            assert forall|i: int| 0 <= i < v.len() implies #[trigger] v[i].1 != e - x.1 by {
                                assert(v[i].1 >= l);
                            }
                            lemma_cancel_absent(w@, v, vt@, next_w@, x, e);
                        }
                    }
                }
            }
            w = next_w;
        }
        proof {
            assert forall|i: int| 0 <= i < w@.len() implies #[trigger] w@[i].1 < v[0].1 by {
                if i > 0 {
                    assert(w@[0].1 > w@[i].1);
                }
            }
        }
        *self = quo;
        Some(w)
    }

    /// The coefficient of `next_w = w - v * x` vanishes at every degree from
    /// the top of `w` up, when `x` is the top of `w` divided by the top of `v`.
    proof fn lemma_top_cancels(&self, w: Seq<Term>, v: Seq<Term>, vt: Seq<Term>, next_w: Seq<Term>, x: Term, e: int)
        requires
            canonical(w),
            canonical(v),
            canonical(vt),
            canonical(next_w),
            w.len() > 0,
            v.len() > 0,
            e >= w[0].1,
            x.1 == w[0].1 - v[0].1,
            x.0.1 > 0,
            same_value(x.0, q_div(w[0].0, v[0].0)),
            forall|k: int| same_value(#[trigger] coeff_of(vt, k), q_mul(coeff_of(v, k - x.1), x.0)),
            forall|k: int| same_value(#[trigger] coeff_of(next_w, k), q_sub(coeff_of(w, k), coeff_of(vt, k))),
        ensures
            coeff_of(next_w, e) == (0int, 1int),
    {
        lemma_coeff_of(w, e);
        lemma_coeff_of(v, e - x.1);
        lemma_coeff_of(vt, e);
        lemma_coeff_of(next_w, e);
        assert(nonzero_coeff(w[0].0));
        assert(nonzero_coeff(v[0].0));
        let ve = coeff_of(v, e - x.1);
        let vte = coeff_of(vt, e);
        let nwe = coeff_of(next_w, e);
        let we = coeff_of(w, e);
        if e == w[0].1 {
            assert(ve == v[0].0);
            assert(we == w[0].0);
            let (a, c, q) = (w[0].0, v[0].0, x.0);
            assert(q.0 * (a.1 * c.0) == a.0 * c.1 * q.1);
            assert(vte.0 * (c.1 * q.1) == c.0 * q.0 * vte.1);
            assert(nwe.0 * (a.1 * vte.1) == (a.0 * vte.1 - vte.0 * a.1) * nwe.1);
            let (a0, a1, c0, c1, q0, q1, u0, u1) = (a.0, a.1, c.0, c.1, q.0, q.1, vte.0, vte.1);
            let k = c1 * q1;
            assert(u0 * a1 * k == a1 * (u0 * k)) by (nonlinear_arith);
            assert(a1 * (c0 * q0 * u1) == u1 * (q0 * (a1 * c0))) by (nonlinear_arith);
            assert(u1 * (a0 * c1 * q1) == a0 * u1 * k) by (nonlinear_arith)
                requires
                    k == c1 * q1,
            ;
            assert(u0 * a1 * k == a0 * u1 * k);
            vstd::arithmetic::mul::lemma_mul_is_distributive_sub_other_way(k, a0 * u1, u0 * a1);
            assert((a.0 * vte.1 - vte.0 * a.1) * (c.1 * q.1) == 0);
            assert(nwe.0 == 0) by (nonlinear_arith)
                requires
                    nwe.0 * (a.1 * vte.1) == (a.0 * vte.1 - vte.0 * a.1) * nwe.1,
                    (a.0 * vte.1 - vte.0 * a.1) * (c.1 * q.1) == 0,
                    a.1 > 0,
                    vte.1 > 0,
                    nwe.1 > 0,
                    c.1 > 0,
                    q.1 > 0,
            ;
        } else {
            assert forall|i: int| 0 <= i < w.len() implies #[trigger] w[i].1 != e by {
                if i > 0 {
                    assert(w[0].1 > w[i].1);
                }
            }
            assert forall|i: int| 0 <= i < v.len() implies #[trigger] v[i].1 != e - x.1 by {
                if i > 0 {
                    assert(v[0].1 > v[i].1);
                }
            }
            lemma_cancel_absent(w, v, vt, next_w, x, e);
        }
        lemma_zero_lowest(nwe);
    }

    /// The quotient of division with remainder; the divisor must not be zero.
    pub fn div(&self, divisor: &Polynomial) -> (q: Polynomial)
        requires
            self.wf(),
            divisor.wf(),
            divisor@.len() > 0,
        ensures
            q.wf(),
            exists|r: Seq<Term>| #[trigger] is_division(self@, divisor@, q@, r),
    {
        let mut q = self.clone();
        let rem = q.div_rem_mut(divisor);
        proof {
            let r = rem->Some_0@;
            assert(is_division(self@, divisor@, q@, r));
        }
        q
    }

    /// The remainder of division; the divisor must not be zero.
    pub fn rem(&self, divisor: &Polynomial) -> (r: Polynomial)
        requires
            self.wf(),
            divisor.wf(),
            divisor@.len() > 0,
        ensures
            r.wf(),
            exists|q: Seq<Term>| #[trigger] is_division(self@, divisor@, q, r@),
    {
        let mut q = self.clone();
        match q.div_rem_mut(divisor) {
            Some(r) => {
                proof {
                    assert(is_division(self@, divisor@, q@, r@));
                }
                r
            },
            None => {
                proof {
                    assert(false);
                }
                Polynomial::zero()
            },
        }
    }

    /// Divides with remainder: `Some((quotient, remainder))`, or `None` when the
    /// divisor is zero.
    pub fn div_rem(self, divisor: &Polynomial) -> (r: Option<(Polynomial, Polynomial)>)
        requires
            self.wf(),
            divisor.wf(),
        ensures
            r is None <==> divisor@.len() == 0,
            r matches Some((q, rem)) ==> q.wf() && rem.wf() && is_division(self@, divisor@, q@, rem@),
            r matches Some((q, rem)) ==> (self@.len() == 0 ==> q@.len() == 0 && rem@.len() == 0),
    {
        let mut q = self;
        match q.div_rem_mut(divisor) {
            Some(rem) => Some((q, rem)),
            None => None,
        }
    }
}

} // verus!

verus! {

/// `g` is `p` with every coefficient divided by `c`.
pub open spec fn scaled_down(g: Seq<Term>, p: Seq<Term>, c: (int, int)) -> bool {
    forall|d: int| same_value(#[trigger] coeff_of(g, d), q_div(coeff_of(p, d), c))
}

/// Monic: zero, or a leading coefficient of one.
pub open spec fn is_monic(s: Seq<Term>) -> bool {
    s.len() == 0 || s[0].0 == (1int, 1int)
}

/// The common factor of the coefficients: the greatest common divisor of the
/// numerators over the least common multiple of the denominators, zero when
/// there is no term.
pub open spec fn coeff_gcd(s: Seq<Term>) -> (int, int)
    decreases s.len(),
{
    if s.len() == 0 {
        (0, 1)
    } else {
        let g = coeff_gcd(s.drop_last());
        let c = s.last().0;
        canon((gcd(abs(g.0), abs(c.0)) as int, lcm(abs(g.1), abs(c.1)) as int))
    }
}

/// Dividing every coefficient of a canonical `p` by a nonzero `c` keeps the
/// degrees, and the leading coefficient becomes the leading one divided by `c`.
proof fn lemma_scaled_top(g: Seq<Term>, p: Seq<Term>, c: (int, int))
    requires
        canonical(g),
        canonical(p),
        p.len() > 0,
        c.1 > 0,
        c.0 != 0,
        scaled_down(g, p, c),
    ensures
        g.len() > 0,
        g[0].1 == p[0].1,
        same_value(g[0].0, q_div(p[0].0, c)),
{
    let e = p[0].1;
    lemma_coeff_of(p, e);
    lemma_coeff_of(g, e);
    assert(nonzero_coeff(p[0].0));
    let a = p[0].0;
    let ge = coeff_of(g, e);
    assert(same_value(ge, q_div(a, c)));
    if ge.0 == 0 {
        assert(a.0 * c.1 * ge.1 == 0) by (nonlinear_arith)
            requires
                ge.0 * (a.1 * c.0) == a.0 * c.1 * ge.1,
                ge.0 == 0,
        ;
        assert(a.0 * c.1 * ge.1 != 0) by (nonlinear_arith)
            requires
                a.0 != 0,
                c.1 > 0,
                ge.1 > 0,
        ;
    }
    assert(exists|i: int| 0 <= i < g.len() && #[trigger] g[i].1 == e);
    let i = choose|i: int| 0 <= i < g.len() && #[trigger] g[i].1 == e;
    if i > 0 {
        let f = g[0].1;
        assert(g[0].1 > g[i].1);
        lemma_coeff_of(g, f);
        lemma_coeff_of(p, f);
        assert(nonzero_coeff(g[0].0));
        assert forall|j: int| 0 <= j < p.len() implies #[trigger] p[j].1 != f by {
            if j > 0 {
                assert(p[0].1 > p[j].1);
            }
        }
        let gf = coeff_of(g, f);
        assert(same_value(gf, q_div((0int, 1int), c)));
        assert(gf.0 == 0) by (nonlinear_arith)
            requires
                gf.0 * (1 * c.0) == (0 * c.1) * gf.1,
                c.0 != 0,
        ;
    }
}

impl Polynomial {
    /// Divides every coefficient by the leading one, in place. Returns that
    /// coefficient, or `None` when the polynomial is zero or already monic.
    pub fn monic_mut(&mut self) -> (r: Option<Rational>)
        requires
            old(self).wf(),
        ensures
            final(self).wf(),
            is_monic(final(self)@),
            r is None <==> is_monic(old(self)@),
            r is None ==> final(self)@ == old(self)@,
            r matches Some(f) ==> f@ == old(self)@[0].0 && scaled_down(final(self)@, old(self)@, f@),
    {
        if self.is_zero() {
            return None;
        }
        let lead = self.term(0);
        let factor = lead.coeff.clone();
        proof {
            assert(nonzero_coeff(self@[0].0));
        }
        if factor.is_one() {
            return None;
        }
        let unit = Monomial::constant(factor.clone());
        let ghost old_s = self@;
        let scaled = self.div_monomial(&unit);
        proof {
            assert forall|d: int| same_value(#[trigger] coeff_of(scaled@, d), q_div(coeff_of(old_s, d), factor@)) by {
                assert(same_value(coeff_of(scaled@, d), q_div(coeff_of(old_s, d + 0), factor@)));
            }
            lemma_scaled_top(scaled@, old_s, factor@);
            let t = scaled@[0].0;
            let a = factor@;
            assert(nonzero_coeff(t));
            assert(t.0 * (a.1 * a.0) == a.0 * a.1 * t.1);
            assert(t.0 == t.1) by (nonlinear_arith)
                requires
                    t.0 * (a.1 * a.0) == a.0 * a.1 * t.1,
                    a.0 != 0,
                    a.1 > 0,
            ;
            crate::rational::lemma_lowest_terms_unique(t, (1, 1));
        }
        *self = scaled;
        Some(factor)
    }

    /// The monic form and the leading coefficient it was divided by, or `None`
    /// when the polynomial is zero or already monic.
    pub fn monic(self) -> (r: Option<(Rational, Polynomial)>)
        requires
            self.wf(),
        ensures
            r is None <==> is_monic(self@),
            r matches Some((f, p)) ==> p.wf() && is_monic(p@) && f@ == self@[0].0
                && scaled_down(p@, self@, f@),
    {
        let mut p = self;
        match p.monic_mut() {
            Some(f) => Some((f, p)),
            None => None,
        }
    }

    /// Divides out the common factor of all coefficients, in place, and returns
    /// it; `None` when the polynomial is zero or that factor is at most one.
    pub fn factor_mut(&mut self) -> (r: Option<Rational>)
        requires
            old(self).wf(),
        ensures
            final(self).wf(),
            r is None <==> coeff_gcd(old(self)@).0 <= coeff_gcd(old(self)@).1,
            r is None ==> final(self)@ == old(self)@,
            r matches Some(f) ==> f@ == coeff_gcd(old(self)@) && scaled_down(final(self)@, old(self)@, f@),
    {
        let ghost s = self@;
        let mut factor = Rational::zero();
        let mut k: usize = 0;
        while k < self.len()
            invariant
                self@ == s,
                canonical(s),
                k <= s.len(),
                factor.wf(),
                factor@ == coeff_gcd(s.take(k as int)),
            decreases s.len() - k,
        {
            let c = &self.term(k).coeff;
            proof {
                assert(nonzero_coeff(s[k as int].0));
            }
            let n = int_gcd(factor.numer(), c.numer());
            let d = int_lcm(factor.denom(), c.denom());
            let next = rat_new(&n, &d);
            proof {
                let pre = s.take(k as int);
                let nx = s.take(k + 1);
                assert(nx.drop_last() =~= pre);
                assert(nx.last() == s[k as int]);
                let pair = (n@, d@);
                assert(lowest_terms(next@.0, next@.1) && same_value(next@, pair));
                let cn = canon(pair);
                assert(lowest_terms(cn.0, cn.1) && same_value(cn, pair));
                crate::rational::lemma_same_value_trans(cn, pair, next@);
                crate::rational::lemma_lowest_terms_unique(cn, next@);
            }
            factor = next;
            k = k + 1;
        }
        proof {
            assert(s.take(s.len() as int) =~= s);
        }
        if factor.at_most_one() {
            return None;
        }
        let unit = Monomial::constant(factor.clone());
        let scaled = self.div_monomial(&unit);
        proof {
            assert forall|d: int| same_value(#[trigger] coeff_of(scaled@, d), q_div(coeff_of(s, d), factor@)) by {
                assert(same_value(coeff_of(scaled@, d), q_div(coeff_of(s, d + 0), factor@)));
            }
        }
        *self = scaled;
        Some(factor)
    }

    /// The common factor of all coefficients and what is left after dividing
    /// it out, or `None` when the polynomial is zero or that factor is at most one.
    pub fn factor(self) -> (r: Option<(Rational, Polynomial)>)
        requires
            self.wf(),
        ensures
            r is None <==> coeff_gcd(self@).0 <= coeff_gcd(self@).1,
            r matches Some((f, p)) ==> p.wf() && f@ == coeff_gcd(self@) && scaled_down(p@, self@, f@),
    {
        let mut p = self;
        match p.factor_mut() {
            Some(f) => Some((f, p)),
            None => None,
        }
    }
}

} // verus!

verus! {

/// Some quotient divides `a` by `b` leaving the remainder `r`.
pub open spec fn leaves_remainder(a: Seq<Term>, b: Seq<Term>, r: Seq<Term>) -> bool {
    exists|q: Seq<Term>| is_division(a, b, q, r)
}

/// Element `i + 2` of `rs` is the remainder of element `i` divided by element `i + 1`.
pub open spec fn euclid_step(rs: Seq<Seq<Term>>, i: int) -> bool {
    leaves_remainder(rs[i], rs[i + 1], rs[i + 2])
}

/// `rs` is a run of Euclid's algorithm on `a` and `b`: it starts with `a` and
/// `b`, each further element is the remainder of the two before it, the last
/// is zero and none between the first and the last is.
pub open spec fn euclid_run(rs: Seq<Seq<Term>>, a: Seq<Term>, b: Seq<Term>) -> bool {
    &&& rs.len() >= 2
    &&& rs[0] == a
    &&& rs[1] == b
    &&& rs.last().len() == 0
    &&& forall|i: int| 1 <= i < rs.len() - 1 ==> #[trigger] rs[i].len() > 0
    &&& forall|i: int| 0 <= i < rs.len() - 2 ==> #[trigger] euclid_step(rs, i)
}

/// `g` is the monic form of `p`: zero for zero, else `p` divided by its
/// leading coefficient.
pub open spec fn monic_form(g: Seq<Term>, p: Seq<Term>) -> bool {
    &&& is_monic(g)
    &&& p.len() == 0 ==> g.len() == 0
    &&& p.len() > 0 ==> scaled_down(g, p, p[0].0)
}

/// The lowest degree present, zero for the zero polynomial.
pub open spec fn lowest_degree(s: Seq<Term>) -> int {
    if s.len() == 0 {
        0
    } else {
        s.last().1
    }
}

proof fn lemma_lowest_degree(s: Seq<Term>, l: int)
    requires
        canonical(s),
        l <= lowest_degree(s),
    ensures
        low_bound(s, l),
{
    assert forall|i: int| 0 <= i < s.len() implies #[trigger] s[i].1 >= l by {
        if i < s.len() - 1 {
            assert(s[i].1 > s[s.len() - 1].1);
        }
    }
}

impl Polynomial {
    /// The greatest common divisor in monic form, by Euclid's algorithm:
    /// `(a, b)` becomes `(b, a mod b)` until `b` is zero.
    pub fn gcd(self, other: Polynomial) -> (g: Polynomial)
        requires
            self.wf(),
            other.wf(),
        ensures
            g.wf(),
            exists|rs: Seq<Seq<Term>>| euclid_run(rs, self@, other@) && monic_form(g@, #[trigger] rs[rs.len() - 2]),
    {
        let ghost a0 = self@;
        let ghost b0 = other@;
        let ghost l = if lowest_degree(a0) < lowest_degree(b0) { lowest_degree(a0) } else { lowest_degree(b0) };
        let mut a = self;
        let mut b = other;
        let ghost mut rs = seq![a0, b0];
        proof {
            lemma_lowest_degree(a0, l);
            lemma_lowest_degree(b0, l);
        }
        while !b.is_zero()
            invariant
                a.wf(),
                b.wf(),
                rs.len() >= 2,
                rs[0] == a0,
                rs[1] == b0,
                rs[rs.len() - 2] == a@,
                rs[rs.len() - 1] == b@,
                forall|i: int| 1 <= i < rs.len() - 1 ==> #[trigger] rs[i].len() > 0,
                forall|i: int| 0 <= i < rs.len() - 2 ==> #[trigger] euclid_step(rs, i),
                low_bound(a@, l),
                low_bound(b@, l),
            decreases (if b@.len() > 0 { b@[0].1 - l + 1 } else { 0 }),
        {
            let ghost old_a = a@;
            let ghost old_rs = rs;
            let mut q = a;
            match q.div_rem_mut(&b) {
                Some(rem) => {
                    proof {
                        assert(is_division(old_a, b@, q@, rem@));
                        assert(low_bound(old_a, l));
                        assert(low_bound(rem@, l));
                        rs = rs.push(rem@);
                        assert(euclid_step(rs, rs.len() - 3)) by {
                            assert(rs[rs.len() - 3] == old_a);
                            assert(rs[rs.len() - 2] == b@);
                            assert(rs[rs.len() - 1] == rem@);
                        }
                        assert forall|i: int| 0 <= i < rs.len() - 2 implies #[trigger] euclid_step(rs, i) by {
                            if i < rs.len() - 3 {
                                assert(euclid_step(old_rs, i));
                                assert(rs[i] == old_rs[i] && rs[i + 1] == old_rs[i + 1] && rs[i + 2] == old_rs[i + 2]);
                            }
                        }
                        assert forall|i: int| 1 <= i < rs.len() - 1 implies #[trigger] rs[i].len() > 0 by {
                            assert(rs[i] == old_rs[i]);
                        }
                        if rem@.len() > 0 {
                            assert(rem@[0].1 < b@[0].1);
                            assert(rem@[0].1 >= l);
                        }
                        assert(b@[0].1 >= l);
                    }
                    a = b;
                    b = rem;
                },
                None => {
                    proof {
                        assert(false);
                    }
                    a = q;
                },
            }
        }
        let ghost last = a@;
        a.monic_mut();
        proof {
            assert(rs[rs.len() - 2] == last);
            if last.len() > 0 && is_monic(last) {
                assert forall|d: int| same_value(#[trigger] coeff_of(a@, d), q_div(coeff_of(last, d), last[0].0)) by {
                    let x = coeff_of(last, d);
                    assert(x.0 * (x.1 * 1) == (x.0 * 1) * x.1) by (nonlinear_arith);
                }
            }
            assert(euclid_run(rs, a0, b0));
        }
        a
    }
}

} // verus!

verus! {

/// `s2 == s0 - q * s1`: the cofactor update of the extended algorithm.
pub open spec fn cofactor_step(s0: Seq<Term>, q: Seq<Term>, s1: Seq<Term>, s2: Seq<Term>) -> bool {
    exists|p: Seq<Term>| canonical(p) && #[trigger] is_product(p, q, s1) && is_difference(s2, s0, p)
}

/// Step `i` of the extended algorithm: the quotient and remainder of `rs[i]`
/// by `rs[i + 1]`, and the cofactors updated with that quotient.
pub open spec fn ext_step(
    rs: Seq<Seq<Term>>,
    qs: Seq<Seq<Term>>,
    ss: Seq<Seq<Term>>,
    ts: Seq<Seq<Term>>,
    i: int,
) -> bool {
    &&& is_division(rs[i], rs[i + 1], qs[i], rs[i + 2])
    &&& canonical(qs[i])
    &&& canonical(ss[i + 2])
    &&& canonical(ts[i + 2])
    &&& cofactor_step(ss[i], qs[i], ss[i + 1], ss[i + 2])
    &&& cofactor_step(ts[i], qs[i], ts[i + 1], ts[i + 2])
}

/// The polynomial one.
pub open spec fn one_terms() -> Seq<Term> {
    seq![((1int, 1int), 0int)]
}

/// `rs`, `qs`, `ss` and `ts` are a run of the extended Euclidean algorithm on
/// `a` and `b`: remainders, quotients, and the cofactors of `a` and of `b`,
/// starting from `(1, 0)` and `(0, 1)`.
pub open spec fn ext_euclid_run(
    rs: Seq<Seq<Term>>,
    qs: Seq<Seq<Term>>,
    ss: Seq<Seq<Term>>,
    ts: Seq<Seq<Term>>,
    a: Seq<Term>,
    b: Seq<Term>,
) -> bool {
    &&& rs.len() >= 2
    &&& qs.len() == rs.len() - 2
    &&& ss.len() == rs.len()
    &&& ts.len() == rs.len()
    &&& rs[0] == a
    &&& rs[1] == b
    &&& rs.last().len() == 0
    &&& forall|i: int| 1 <= i < rs.len() - 1 ==> #[trigger] rs[i].len() > 0
    &&& ss[0] == one_terms() && ss[1].len() == 0
    &&& ts[0].len() == 0 && ts[1] == one_terms()
    &&& forall|i: int| 0 <= i < rs.len() - 2 ==> #[trigger] ext_step(rs, qs, ss, ts, i)
}

/// The result `(s, t, g)` of the extended algorithm from its last nonzero
/// remainder `r` and the cofactors `s0` and `t0` beside it: all three divided
/// by the leading coefficient of `r`, which makes `g` monic.
pub open spec fn ext_result(
    s: Seq<Term>,
    t: Seq<Term>,
    g: Seq<Term>,
    r: Seq<Term>,
    s0: Seq<Term>,
    t0: Seq<Term>,
) -> bool {
    &&& monic_form(g, r)
    &&& r.len() == 0 ==> s == s0 && t == t0
    &&& r.len() > 0 ==> scaled_down(s, s0, r[0].0) && scaled_down(t, t0, r[0].0)
}

impl Polynomial {
    /// The polynomial one.
    pub fn one() -> (r: Polynomial)
        ensures
            r.wf(),
            r@ == one_terms(),
    {
        let c = Rational::from_integer(Integer::from_i64(1));
        Polynomial::from_monomial(Monomial::constant(c))
    }

    /// The extended Euclidean algorithm: `(s, t, g)` with `g` the monic greatest
    /// common divisor and `s * self + t * other == g`.
    #[verifier::rlimit(80)]
    pub fn gcd_ext(self, other: Polynomial) -> (r: (Polynomial, Polynomial, Polynomial))
        requires
            self.wf(),
            other.wf(),
        ensures
            r.0.wf(),
            r.1.wf(),
            r.2.wf(),
            exists|rs: Seq<Seq<Term>>, qs: Seq<Seq<Term>>, ss: Seq<Seq<Term>>, ts: Seq<Seq<Term>>|
                #[trigger] ext_euclid_run(rs, qs, ss, ts, self@, other@) && ext_result(
                    r.0@,
                    r.1@,
                    r.2@,
                    rs[rs.len() - 2],
                    ss[rs.len() - 2],
                    ts[rs.len() - 2],
                ),
    {
        let ghost a0 = self@;
        let ghost b0 = other@;
        let ghost l = if lowest_degree(a0) < lowest_degree(b0) { lowest_degree(a0) } else { lowest_degree(b0) };
        let mut r0 = self;
        let mut r1 = other;
        let mut s0 = Polynomial::one();
        let mut s1 = Polynomial::zero();
        let mut t0 = Polynomial::zero();
        let mut t1 = Polynomial::one();
        let ghost mut rs = seq![a0, b0];
        let ghost mut qs = Seq::<Seq<Term>>::empty();
        let ghost mut ss = seq![s0@, s1@];
        let ghost mut ts = seq![t0@, t1@];
        proof {
            lemma_lowest_degree(a0, l);
            lemma_lowest_degree(b0, l);
        }
        while !r1.is_zero()
            invariant
                r0.wf(),
                r1.wf(),
                s0.wf(),
                s1.wf(),
                t0.wf(),
                t1.wf(),
                rs.len() >= 2,
                qs.len() == rs.len() - 2,
                ss.len() == rs.len(),
                ts.len() == rs.len(),
                rs[0] == a0,
                rs[1] == b0,
                rs[rs.len() - 2] == r0@,
                rs[rs.len() - 1] == r1@,
                ss[ss.len() - 2] == s0@,
                ss[ss.len() - 1] == s1@,
                ts[ts.len() - 2] == t0@,
                ts[ts.len() - 1] == t1@,
                ss[0] == one_terms() && ss[1].len() == 0,
                ts[0].len() == 0 && ts[1] == one_terms(),
                forall|i: int| 1 <= i < rs.len() - 1 ==> #[trigger] rs[i].len() > 0,
                forall|i: int| 0 <= i < rs.len() - 2 ==> #[trigger] ext_step(rs, qs, ss, ts, i),
                low_bound(r0@, l),
                low_bound(r1@, l),
            decreases (if r1@.len() > 0 { r1@[0].1 - l + 1 } else { 0 }),
        {
            let ghost old_r0 = r0@;
            let ghost (ors, oqs, oss, ots) = (rs, qs, ss, ts);
            let mut q = r0;
            match q.div_rem_mut(&r1) {
                Some(rem) => {
                    let qs1 = q.mul(&s1);
                    let s2 = s0.sub(&qs1);
                    let qt1 = q.mul(&t1);
                    let t2 = t0.sub(&qt1);
                    proof {
                        assert(is_division(old_r0, r1@, q@, rem@));
                        assert(low_bound(old_r0, l));
                        assert(low_bound(rem@, l));
                        rs = rs.push(rem@);
                        qs = qs.push(q@);
                        ss = ss.push(s2@);
                        ts = ts.push(t2@);
                        let k = rs.len() - 3;
                        assert(ext_step(rs, qs, ss, ts, k)) by {
                            assert(rs[k] == old_r0 && rs[k + 1] == r1@ && rs[k + 2] == rem@);
                            assert(qs[k] == q@);
                            assert(ss[k] == s0@ && ss[k + 1] == s1@ && ss[k + 2] == s2@);
                            assert(ts[k] == t0@ && ts[k + 1] == t1@ && ts[k + 2] == t2@);
                            assert(is_product(qs1@, q@, s1@));
                            assert(is_product(qt1@, q@, t1@));
                        }
                        assert forall|i: int| 0 <= i < rs.len() - 2 implies #[trigger] ext_step(rs, qs, ss, ts, i) by {
                            if i < k {
                                assert(ext_step(ors, oqs, oss, ots, i));
                                assert(rs[i] == ors[i] && rs[i + 1] == ors[i + 1] && rs[i + 2] == ors[i + 2]);
                                assert(qs[i] == oqs[i]);
                                assert(ss[i] == oss[i] && ss[i + 1] == oss[i + 1] && ss[i + 2] == oss[i + 2]);
                                assert(ts[i] == ots[i] && ts[i + 1] == ots[i + 1] && ts[i + 2] == ots[i + 2]);
                            }
                        }
                        assert forall|i: int| 1 <= i < rs.len() - 1 implies #[trigger] rs[i].len() > 0 by {
                            assert(rs[i] == ors[i]);
                        }
                        if rem@.len() > 0 {
                            assert(rem@[0].1 < r1@[0].1);
                            assert(rem@[0].1 >= l);
                        }
                        assert(r1@[0].1 >= l);
                    }
                    r0 = r1;
                    r1 = rem;
                    s0 = s1;
                    s1 = s2;
                    t0 = t1;
                    t1 = t2;
                },
                None => {
                    proof {
                        assert(false);
                    }
                    r0 = q;
                },
            }
        }
        let ghost last = r0@;
        let ghost (ls, lt) = (s0@, t0@);
        match r0.monic_mut() {
            Some(f) => {
                let unit = Monomial::constant(f);
                let s = s0.div_monomial(&unit);
                let t = t0.div_monomial(&unit);
                proof {
                    assert forall|d: int| same_value(#[trigger] coeff_of(s@, d), q_div(coeff_of(ls, d), last[0].0)) by {
                        assert(same_value(coeff_of(s@, d), q_div(coeff_of(ls, d + 0), last[0].0)));
                    }
                    assert forall|d: int| same_value(#[trigger] coeff_of(t@, d), q_div(coeff_of(lt, d), last[0].0)) by {
                        assert(same_value(coeff_of(t@, d), q_div(coeff_of(lt, d + 0), last[0].0)));
                    }
                    assert(ext_euclid_run(rs, qs, ss, ts, a0, b0));
                    assert(ext_result(s@, t@, r0@, rs[rs.len() - 2], ss[rs.len() - 2], ts[rs.len() - 2]));
                }
                (s, t, r0)
            },
            None => {
                proof {
                    if last.len() > 0 {
                        assert forall|d: int| same_value(#[trigger] coeff_of(r0@, d), q_div(coeff_of(last, d), last[0].0)) by {
                            let x = coeff_of(last, d);
                            assert(x.0 * (x.1 * 1) == (x.0 * 1) * x.1) by (nonlinear_arith);
                        }
                        assert forall|d: int| same_value(#[trigger] coeff_of(s0@, d), q_div(coeff_of(ls, d), last[0].0)) by {
                            let x = coeff_of(ls, d);
                            assert(x.0 * (x.1 * 1) == (x.0 * 1) * x.1) by (nonlinear_arith);
                        }
                        assert forall|d: int| same_value(#[trigger] coeff_of(t0@, d), q_div(coeff_of(lt, d), last[0].0)) by {
                            let x = coeff_of(lt, d);
                            assert(x.0 * (x.1 * 1) == (x.0 * 1) * x.1) by (nonlinear_arith);
                        }
                    }
                    assert(ext_euclid_run(rs, qs, ss, ts, a0, b0));
                    assert(ext_result(s0@, t0@, r0@, rs[rs.len() - 2], ss[rs.len() - 2], ts[rs.len() - 2]));
                }
                (s0, t0, r0)
            },
        }
    }
}

} // verus!
