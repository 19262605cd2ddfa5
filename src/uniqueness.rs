//! Multiplying and then dividing by the same polynomial gives back the
//! polynomial one started from.

use crate::arith::{is_product, product_coeff};
use crate::division::{is_division, lemma_drop_last_canonical, lemma_product_den};
use crate::laws::law_product_commutes;
use crate::polynomial::{canonical, coeff_of, lemma_canonical_unique, lemma_coeff_of, nonzero_coeff, Term};
use crate::rational::{
    lemma_add_congruent, lemma_add_zero, lemma_den_positive, lemma_same_value_trans, q_add, q_mul,
    same_value,
};
use vstd::prelude::*;

verus! {

proof fn lemma_subrange_canonical(s: Seq<Term>, i: int, j: int)
    requires
        canonical(s),
        0 <= i <= j <= s.len(),
    ensures
        canonical(s.subrange(i, j)),
{
    let t = s.subrange(i, j);
    assert forall|a: int, b: int| 0 <= a < b < t.len() implies #[trigger] t[a].1 > #[trigger] t[b].1 by {
        assert(s[i + a].1 > s[i + b].1);
    }
    assert forall|a: int| 0 <= a < t.len() implies nonzero_coeff(#[trigger] t[a].0) by {
        assert(nonzero_coeff(s[i + a].0));
    }
}

/// The product splits over the terms of the right factor.
proof fn lemma_product_concat(v: Seq<Term>, x: Seq<Term>, y: Seq<Term>, e: int)
    requires
        canonical(v),
        canonical(x),
        canonical(y),
        canonical(x + y),
    ensures
        same_value(product_coeff(v, x + y, e), q_add(product_coeff(v, x, e), product_coeff(v, y, e))),
    decreases y.len(),
{
    lemma_product_den(v, x, e);
    if y.len() == 0 {
        assert(x + y =~= x);
        lemma_add_zero(product_coeff(v, x, e));
    } else {
        let y1 = y.drop_last();
        let t = y.last();
        lemma_drop_last_canonical(y);
        assert((x + y).drop_last() =~= x + y1);
        assert((x + y).last() == t);
        lemma_drop_last_canonical(x + y);
        lemma_product_concat(v, x, y1, e);
        let px = product_coeff(v, x, e);
        let py1 = product_coeff(v, y1, e);
        let pxy1 = product_coeff(v, x + y1, e);
        lemma_coeff_of(v, e - t.1);
        assert(nonzero_coeff(y[y.len() - 1].0));
        let m = q_mul(coeff_of(v, e - t.1), t.0);
        lemma_den_positive(coeff_of(v, e - t.1), t.0);
        lemma_product_den(v, y1, e);
        lemma_product_den(v, x + y1, e);
        lemma_add_congruent(pxy1, q_add(px, py1), m, m);
        crate::laws::lemma_add_assoc(px, py1, m);
        lemma_den_positive(px, py1);
        lemma_den_positive(q_add(px, py1), m);
        lemma_same_value_trans(q_add(pxy1, m), q_add(q_add(px, py1), m), q_add(px, q_add(py1, m)));
    }
}

/// Against terms of degree at most `k`, the coefficient of `x^(n + k)` in the
/// product is the top coefficient of `v` times the coefficient of `x^k`.
proof fn lemma_product_low(v: Seq<Term>, y: Seq<Term>, k: int)
    requires
        canonical(v),
        v.len() > 0,
        canonical(y),
        forall|i: int| 0 <= i < y.len() ==> #[trigger] y[i].1 <= k,
    ensures
        same_value(product_coeff(v, y, v[0].1 + k), q_mul(v[0].0, coeff_of(y, k))),
    decreases y.len(),
{
    let n = v[0].1;
    let e = n + k;
    assert(nonzero_coeff(v[0].0));
    lemma_coeff_of(y, k);
    if y.len() == 0 {
        assert(same_value((0int, 1int), q_mul(v[0].0, (0int, 1int)))) by (nonlinear_arith);
    } else {
        let y1 = y.drop_last();
        let t = y.last();
        lemma_drop_last_canonical(y);
        assert(nonzero_coeff(y[y.len() - 1].0));
        lemma_product_low(v, y1, k);
        lemma_product_den(v, y1, k + n);
        let p1 = product_coeff(v, y1, e);
        lemma_coeff_of(v, e - t.1);
        lemma_coeff_of(y1, k);
        let c = coeff_of(v, e - t.1);
        let m = q_mul(c, t.0);
        assert forall|i: int| 0 <= i < y1.len() implies #[trigger] y1[i].1 > t.1 by {
            assert(y[i].1 > y[y.len() - 1].1);
        }
        assert(y1.insert(y1.len() as int, t) =~= y);
        crate::polynomial::lemma_insert(y1, y1.len() as int, t);
        if t.1 == k {
            assert(y1.len() == 0) by {
                if y1.len() > 0 {
                    assert(y[0].1 <= k);
                    assert(y1[0] == y[0]);
                }
            }
            assert(c == v[0].0);
            assert(coeff_of(y, k) == t.0);
            lemma_add_zero(m);
        } else {
            assert(t.1 < k) by {
                assert(y[y.len() - 1].1 <= k);
            }
            assert forall|i: int| 0 <= i < v.len() implies #[trigger] v[i].1 != e - t.1 by {
                if i > 0 {
                    assert(v[0].1 > v[i].1);
                }
            }
            assert(c == (0int, 1int));
            assert(coeff_of(y, k) == coeff_of(y1, k));
            assert(same_value(q_add(p1, m), p1)) by (nonlinear_arith)
                requires
                    m == q_mul((0int, 1int), t.0),
                    t.0.1 > 0,
                    p1.1 > 0,
            ;
            lemma_coeff_of(y1, k);
            lemma_den_positive(v[0].0, coeff_of(y1, k));
            lemma_same_value_trans(q_add(p1, m), p1, q_mul(v[0].0, coeff_of(y, k)));
        }
    }
}

/// Terms in front with other degrees do not change a coefficient.
proof fn lemma_coeff_skip(a: Seq<Term>, b: Seq<Term>, x: int)
    requires
        forall|i: int| 0 <= i < a.len() ==> #[trigger] a[i].1 != x,
    ensures
        coeff_of(a + b, x) == coeff_of(b, x),
    decreases a.len(),
{
    if a.len() > 0 {
        assert((a + b)[0] == a[0]);
        assert((a + b).drop_first() =~= a.drop_first() + b);
        assert forall|i: int| 0 <= i < a.drop_first().len() implies #[trigger] a.drop_first()[i].1 != x by {
            assert(a.drop_first()[i] == a[i + 1]);
        }
        lemma_coeff_skip(a.drop_first(), b, x);
    } else {
        assert(a + b =~= b);
    }
}

/// The length of the longest common beginning of two sequences.
pub open spec fn common_len(a: Seq<Term>, b: Seq<Term>) -> nat
    decreases a.len(),
{
    if a.len() == 0 || b.len() == 0 || a[0] != b[0] {
        0
    } else {
        1 + common_len(a.drop_first(), b.drop_first())
    }
}

proof fn lemma_common_len(a: Seq<Term>, b: Seq<Term>)
    ensures
        common_len(a, b) <= a.len(),
        common_len(a, b) <= b.len(),
        a.subrange(0, common_len(a, b) as int) == b.subrange(0, common_len(a, b) as int),
        common_len(a, b) < a.len() && common_len(a, b) < b.len() ==> a[common_len(a, b) as int]
            != b[common_len(a, b) as int],
    decreases a.len(),
{
    let j = common_len(a, b);
    if a.len() == 0 || b.len() == 0 || a[0] != b[0] {
        assert(a.subrange(0, 0) =~= b.subrange(0, 0));
    } else {
        lemma_common_len(a.drop_first(), b.drop_first());
        let j1 = common_len(a.drop_first(), b.drop_first());
        assert(a.subrange(0, j as int) =~= seq![a[0]] + a.drop_first().subrange(0, j1 as int));
        assert(b.subrange(0, j as int) =~= seq![b[0]] + b.drop_first().subrange(0, j1 as int));
        if j < a.len() && j < b.len() {
            assert(a[j as int] == a.drop_first()[j1 as int]);
            assert(b[j as int] == b.drop_first()[j1 as int]);
        }
    }
}

/// Nonzero multiples that agree come from values that agree.
proof fn lemma_mul_cancel(c: (int, int), a: (int, int), b: (int, int))
    requires
        c.0 != 0,
        c.1 != 0,
        a.1 != 0,
        b.1 != 0,
        same_value(q_mul(c, a), q_mul(c, b)),
    ensures
        same_value(a, b),
{
    assert((c.0 * c.1) * (a.0 * b.1) == (c.0 * c.1) * (b.0 * a.1)) by (nonlinear_arith)
        requires
            (c.0 * a.0) * (c.1 * b.1) == (c.0 * b.0) * (c.1 * a.1),
    ;
    assert(c.0 * c.1 != 0) by (nonlinear_arith)
        requires
            c.0 != 0,
            c.1 != 0,
    ;
    vstd::arithmetic::mul::lemma_mul_equality_converse(c.0 * c.1, a.0 * b.1, b.0 * a.1);
}

/// Sums with a common first summand that agree have second summands that agree.
proof fn lemma_add_cancel(p: (int, int), x: (int, int), y: (int, int))
    requires
        p.1 != 0,
        x.1 != 0,
        y.1 != 0,
        same_value(q_add(p, x), q_add(p, y)),
    ensures
        same_value(x, y),
{
    let (p0, p1, x0, x1, y0, y1) = (p.0, p.1, x.0, x.1, y.0, y.1);
    assert((p0 * x1 + x0 * p1) * (p1 * y1) == (p0 * y1 + y0 * p1) * (p1 * x1));
    assert((p0 * x1) * (p1 * y1) == (p0 * y1) * (p1 * x1)) by (nonlinear_arith);
    vstd::arithmetic::mul::lemma_mul_is_distributive_add_other_way(p1 * y1, p0 * x1, x0 * p1);
    vstd::arithmetic::mul::lemma_mul_is_distributive_add_other_way(p1 * x1, p0 * y1, y0 * p1);
    assert((x0 * p1) * (p1 * y1) == (y0 * p1) * (p1 * x1));
    assert((p1 * p1) * (x0 * y1) == (p1 * p1) * (y0 * x1)) by (nonlinear_arith)
        requires
            (x0 * p1) * (p1 * y1) == (y0 * p1) * (p1 * x1),
    ;
    assert(p1 * p1 != 0) by (nonlinear_arith)
        requires
            p1 != 0,
    ;
    vstd::arithmetic::mul::lemma_mul_equality_converse(p1 * p1, x0 * y1, y0 * x1);
}

} // verus!

verus! {

/// `v * a` and `v * b + r` agree at every degree.
pub open spec fn agrees_with(v: Seq<Term>, a: Seq<Term>, b: Seq<Term>, r: Seq<Term>) -> bool {
    forall|e: int| same_value(#[trigger] product_coeff(v, a, e), q_add(product_coeff(v, b, e), coeff_of(r, e)))
}

proof fn lemma_identity(p: Seq<Term>, q: Seq<Term>, m: Seq<Term>, quo: Seq<Term>, rem: Seq<Term>)
    requires
        canonical(p),
        canonical(q),
        canonical(m),
        canonical(quo),
        canonical(rem),
        is_product(m, p, q),
        is_division(m, q, quo, rem),
    ensures
        agrees_with(q, p, quo, rem),
{
    assert forall|e: int| same_value(#[trigger] product_coeff(q, p, e), q_add(product_coeff(q, quo, e), coeff_of(rem, e))) by {
        law_product_commutes(q, p, e);
        lemma_product_den(p, q, e);
        lemma_product_den(q, p, e);
        lemma_coeff_of(m, e);
        assert(same_value(coeff_of(m, e), product_coeff(p, q, e)));
        lemma_same_value_trans(product_coeff(q, p, e), product_coeff(p, q, e), coeff_of(m, e));
        assert(same_value(coeff_of(m, e), q_add(product_coeff(q, quo, e), coeff_of(rem, e))));
        lemma_same_value_trans(product_coeff(q, p, e), coeff_of(m, e), q_add(product_coeff(q, quo, e), coeff_of(rem, e)));
    }
}

/// Where `v * a == v * b + r` with the degrees of `r` below those of `v` and
/// no negative degree in `a` or `b`, the polynomials `a` and `b` are equal.
#[verifier::rlimit(80)]
proof fn lemma_no_difference(a: Seq<Term>, v: Seq<Term>, b: Seq<Term>, r: Seq<Term>)
    requires
        canonical(a),
        canonical(v),
        canonical(b),
        canonical(r),
        v.len() > 0,
        forall|i: int| 0 <= i < a.len() ==> #[trigger] a[i].1 >= 0,
        forall|i: int| 0 <= i < b.len() ==> #[trigger] b[i].1 >= 0,
        forall|i: int| 0 <= i < r.len() ==> #[trigger] r[i].1 < v[0].1,
        agrees_with(v, a, b, r),
    ensures
        a == b,
{
    if a != b {
        lemma_common_len(a, b);
        let j = common_len(a, b) as int;
        assert(j < a.len() || j < b.len()) by {
            if j == a.len() && j == b.len() {
                assert(a.subrange(0, j) =~= a);
                assert(b.subrange(0, j) =~= b);
            }
        }
        let k = if j < a.len() && j < b.len() {
            if a[j].1 >= b[j].1 { a[j].1 } else { b[j].1 }
        } else if j < a.len() {
            a[j].1
        } else {
            b[j].1
        };
        let head = a.subrange(0, j);
        let (al, bl) = (a.subrange(j, a.len() as int), b.subrange(j, b.len() as int));
        assert(a =~= head + al);
        assert(b =~= head + bl);
        lemma_subrange_canonical(a, 0, j);
        lemma_subrange_canonical(a, j, a.len() as int);
        lemma_subrange_canonical(b, j, b.len() as int);
        assert(k >= 0) by {
            if j < a.len() {
                assert(a[j].1 >= 0);
            } else {
                assert(b[j].1 >= 0);
            }
        }
        assert forall|i: int| 0 <= i < al.len() implies #[trigger] al[i].1 <= k by {
            if i > 0 {
                assert(a[j].1 > a[j + i].1);
            }
            assert(al[i] == a[j + i]);
        }
        assert forall|i: int| 0 <= i < bl.len() implies #[trigger] bl[i].1 <= k by {
            if i > 0 {
                assert(b[j].1 > b[j + i].1);
            }
            assert(bl[i] == b[j + i]);
        }
        assert forall|i: int| 0 <= i < head.len() implies #[trigger] head[i].1 != k by {
            assert(head[i] == a[i]);
            assert(b.subrange(0, j)[i] == b[i]);
            if j < a.len() {
                assert(a[i].1 > a[j].1);
            }
            if j < b.len() {
                assert(b[i].1 > b[j].1);
            }
        }
        lemma_coeff_skip(head, al, k);
        lemma_coeff_skip(head, bl, k);
        lemma_coeff_of(al, k);
        lemma_coeff_of(bl, k);
        let (ak, bk) = (coeff_of(al, k), coeff_of(bl, k));
        // the coefficients at k differ
        assert(ak != bk) by {
            if j < a.len() && j < b.len() {
                assert(al[0] == a[j] && bl[0] == b[j]);
                assert(nonzero_coeff(a[j].0) && nonzero_coeff(b[j].0));
                if a[j].1 == b[j].1 {
                    assert(ak == a[j].0 && bk == b[j].0);
                } else if a[j].1 > b[j].1 {
                    assert(ak == a[j].0);
                    assert forall|i: int| 0 <= i < bl.len() implies #[trigger] bl[i].1 != k by {
                        assert(bl[i].1 <= b[j].1) by {
                            if i > 0 {
                                assert(b[j].1 > b[j + i].1);
                            }
                            assert(bl[i] == b[j + i]);
                        }
                    }
                } else {
                    assert(bk == b[j].0);
                    assert forall|i: int| 0 <= i < al.len() implies #[trigger] al[i].1 != k by {
                        assert(al[i].1 <= a[j].1) by {
                            if i > 0 {
                                assert(a[j].1 > a[j + i].1);
                            }
                            assert(al[i] == a[j + i]);
                        }
                    }
                }
            } else if j < a.len() {
                assert(al[0] == a[j]);
                assert(nonzero_coeff(a[j].0));
                assert(ak == a[j].0);
                assert(bl.len() == 0);
            } else {
                assert(bl[0] == b[j]);
                assert(nonzero_coeff(b[j].0));
                assert(bk == b[j].0);
                assert(al.len() == 0);
            }
        }
        let n = v[0].1;
        let e = n + k;
        lemma_coeff_of(r, e);
        assert forall|i: int| 0 <= i < r.len() implies #[trigger] r[i].1 != e by {
            assert(r[i].1 < n);
        }
        assert(coeff_of(r, e) == (0int, 1int));
        lemma_product_concat(v, head, al, e);
        lemma_product_concat(v, head, bl, e);
        lemma_product_low(v, al, k);
        lemma_product_low(v, bl, k);
        assert(nonzero_coeff(v[0].0));
        let ph = product_coeff(v, head, e);
        let (pa, pb) = (product_coeff(v, al, e), product_coeff(v, bl, e));
        let (xa, xb) = (q_mul(v[0].0, ak), q_mul(v[0].0, bk));
        lemma_product_den(v, head, e);
        lemma_product_den(v, al, e);
        lemma_product_den(v, bl, e);
        lemma_product_den(v, a, e);
        lemma_product_den(v, b, e);
        lemma_den_positive(v[0].0, ak);
        lemma_den_positive(v[0].0, bk);
        // v*a ~ ph + xa
        lemma_add_congruent(ph, ph, pa, xa);
        lemma_den_positive(ph, pa);
        lemma_same_value_trans(product_coeff(v, a, e), q_add(ph, pa), q_add(ph, xa));
        // v*b ~ ph + xb
        lemma_add_congruent(ph, ph, pb, xb);
        lemma_den_positive(ph, pb);
        lemma_same_value_trans(product_coeff(v, b, e), q_add(ph, pb), q_add(ph, xb));
        // v*a ~ v*b + 0 ~ v*b
        assert(same_value(product_coeff(v, a, e), q_add(product_coeff(v, b, e), (0int, 1int))));
        lemma_add_zero(product_coeff(v, b, e));
        lemma_den_positive(product_coeff(v, b, e), (0int, 1int));
        lemma_same_value_trans(product_coeff(v, a, e), q_add(product_coeff(v, b, e), (0int, 1int)), product_coeff(v, b, e));
        lemma_same_value_trans(q_add(ph, xa), product_coeff(v, a, e), product_coeff(v, b, e));
        lemma_same_value_trans(q_add(ph, xa), product_coeff(v, b, e), q_add(ph, xb));
        lemma_add_cancel(ph, xa, xb);
        lemma_mul_cancel(v[0].0, ak, bk);
        crate::rational::lemma_lowest_terms_unique(ak, bk);
    }
}

/// Multiplying by a nonzero `q` and then dividing by it gives back `p`, with
/// no remainder, when `p` has no negative degree: `m` is `p * q`, and `quo`
/// and `rem` are the quotient and remainder of `m` by `q`.
pub proof fn law_mul_div_inverse(p: Seq<Term>, q: Seq<Term>, m: Seq<Term>, quo: Seq<Term>, rem: Seq<Term>)
    requires
        canonical(p),
        canonical(q),
        canonical(m),
        canonical(quo),
        canonical(rem),
        q.len() > 0,
        forall|i: int| 0 <= i < p.len() ==> #[trigger] p[i].1 >= 0,
        is_product(m, p, q),
        is_division(m, q, quo, rem),
    ensures
        quo == p,
        rem.len() == 0,
{
    lemma_identity(p, q, m, quo, rem);
    lemma_no_difference(p, q, quo, rem);
    if rem.len() > 0 {
        let e = rem[0].1;
        lemma_coeff_of(rem, e);
        assert(nonzero_coeff(rem[0].0));
        let x = product_coeff(q, p, e);
        let c = coeff_of(rem, e);
        lemma_product_den(q, p, e);
        assert(same_value(x, q_add(x, c)));
        assert(c.0 == 0) by (nonlinear_arith)
            requires
                x.0 * (x.1 * c.1) == (x.0 * c.1 + c.0 * x.1) * x.1,
                x.1 > 0,
                c.1 > 0,
        ;
    }
}

} // verus!
