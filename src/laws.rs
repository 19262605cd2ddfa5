//! Algebraic laws of the polynomial operations.

use crate::arith::{is_product, product_coeff};
use crate::division::{is_division, lemma_product_den};
use crate::polynomial::{canonical, coeff_of, lemma_coeff_of, nonzero_coeff, Term};
use crate::rational::{
    lemma_add_congruent, lemma_den_positive, lemma_mul_congruent, lemma_same_value_trans, q_add,
    q_mul, same_value,
};
use crate::text::{
    coeff_text, decimal, decimal_places, digit_char, digits_value, finite_decimal, is_digit,
    is_digits, lemma_first_index, magnitude_text, multiplicity, number_value, strip_factor,
    unsigned_value, zeros,
};
use vstd::arithmetic::power::pow;
use vstd::prelude::*;

verus! {

pub proof fn lemma_add_assoc(a: (int, int), b: (int, int), c: (int, int))
    ensures
        q_add(q_add(a, b), c) == q_add(a, q_add(b, c)),
{
    let (a0, a1, b0, b1, c0, c1) = (a.0, a.1, b.0, b.1, c.0, c.1);
    vstd::arithmetic::mul::lemma_mul_is_distributive_add_other_way(c1, a0 * b1, b0 * a1);
    vstd::arithmetic::mul::lemma_mul_is_distributive_add_other_way(a1, b0 * c1, c0 * b1);
    assert((a0 * b1) * c1 == a0 * (b1 * c1)) by (nonlinear_arith);
    assert((b0 * a1) * c1 == (b0 * c1) * a1) by (nonlinear_arith);
    assert(c0 * (a1 * b1) == (c0 * b1) * a1) by (nonlinear_arith);
    assert((a.1 * b.1) * c.1 == a.1 * (b.1 * c.1)) by (nonlinear_arith);
}

proof fn lemma_add_comm(a: (int, int), b: (int, int))
    ensures
        q_add(a, b) == q_add(b, a),
{
    assert(a.0 * b.1 + b.0 * a.1 == b.0 * a.1 + a.0 * b.1);
    assert(a.1 * b.1 == b.1 * a.1) by (nonlinear_arith);
}

proof fn lemma_mul_comm(a: (int, int), b: (int, int))
    ensures
        q_mul(a, b) == q_mul(b, a),
{
    assert(a.0 * b.0 == b.0 * a.0) by (nonlinear_arith);
    assert(a.1 * b.1 == b.1 * a.1) by (nonlinear_arith);
}

/// `(a + b) * c` has the value of `a * c + b * c`.
proof fn lemma_distribute(a: (int, int), b: (int, int), c: (int, int))
    ensures
        same_value(q_mul(q_add(a, b), c), q_add(q_mul(a, c), q_mul(b, c))),
{
    let l = q_mul(q_add(a, b), c);
    let r = q_add(q_mul(a, c), q_mul(b, c));
    assert(l.0 == (a.0 * b.1 + b.0 * a.1) * c.0);
    assert(l.1 == (a.1 * b.1) * c.1);
    assert(r.0 == (a.0 * c.0) * (b.1 * c.1) + (b.0 * c.0) * (a.1 * c.1));
    assert(r.1 == (a.1 * c.1) * (b.1 * c.1));
    vstd::arithmetic::mul::lemma_mul_is_distributive_add_other_way(c.0, a.0 * b.1, b.0 * a.1);
    vstd::arithmetic::mul::lemma_mul_is_distributive_add_other_way(c.1, (a.0 * b.1) * c.0, (b.0 * a.1) * c.0);
    assert((a.0 * c.0) * (b.1 * c.1) == ((a.0 * b.1) * c.0) * c.1) by (nonlinear_arith);
    assert((b.0 * c.0) * (a.1 * c.1) == ((b.0 * a.1) * c.0) * c.1) by (nonlinear_arith);
    assert(r.0 == l.0 * c.1);
    assert(r.1 == l.1 * c.1) by (nonlinear_arith)
        requires
            l.1 == (a.1 * b.1) * c.1,
            r.1 == (a.1 * c.1) * (b.1 * c.1),
    ;
    assert(l.0 * r.1 == r.0 * l.1) by (nonlinear_arith)
        requires
            r.0 == l.0 * c.1,
            r.1 == l.1 * c.1,
    ;
}

/// `(a + b) + (c + e)` is `(a + c) + (b + e)`.
proof fn lemma_add_swap(a: (int, int), b: (int, int), c: (int, int), e: (int, int))
    ensures
        q_add(q_add(a, b), q_add(c, e)) == q_add(q_add(a, c), q_add(b, e)),
{
    lemma_add_assoc(a, b, q_add(c, e));
    lemma_add_assoc(b, c, e);
    lemma_add_comm(b, c);
    lemma_add_assoc(c, b, e);
    lemma_add_assoc(a, c, q_add(b, e));
}

/// Coefficient of `x^d` in `p` times the coefficient of `x^(e - d)` in the
/// one-term polynomial `t`, summed over the terms of `p`: the coefficient of
/// `p` at `e - t.degree` times that of `t`.
pub open spec fn single_coeff(t: Term, x: int) -> (int, int) {
    if x == t.1 {
        t.0
    } else {
        (0, 1)
    }
}

/// `product_coeff` against a one-term polynomial picks out one coefficient.
#[verifier::rlimit(80)]
proof fn lemma_product_single(t: Term, p: Seq<Term>, d: int)
    requires
        canonical(p),
        canonical(seq![t]),
    ensures
        same_value(product_coeff(seq![t], p, d), q_mul(coeff_of(p, d - t.1), t.0)),
    decreases p.len(),
{
    lemma_coeff_of(seq![t], d);
    assert(nonzero_coeff(seq![t][0].0));
    if p.len() == 0 {
        assert(coeff_of(p, d - t.1) == (0int, 1int));
        assert(same_value((0int, 1int), q_mul((0int, 1int), t.0))) by (nonlinear_arith);
    } else {
        let p_init = p.drop_last();
        let s = p.last();
        crate::division::lemma_drop_last_canonical(p);
        lemma_product_single(t, p_init, d);
        assert(nonzero_coeff(p[p.len() - 1].0));
        let ts = seq![t];
        let c = coeff_of(ts, d - s.1);
        lemma_coeff_of(ts, d - s.1);
        lemma_coeff_of(p, d - t.1);
        lemma_coeff_of(p_init, d - t.1);
        let prev = product_coeff(ts, p_init, d);
        lemma_product_den(ts, p_init, d);
        let term = q_mul(c, s.0);
        // product_coeff(ts, p, d) == q_add(prev, term)
        if s.1 == d - t.1 {
            assert(ts[0].1 == d - s.1);
            assert(c == t.0);
            // p_init has no term of degree d - t.1
            assert forall|i: int| 0 <= i < p_init.len() implies #[trigger] p_init[i].1 != d - t.1 by {
                assert(p[i].1 > p[p.len() - 1].1);
            }
            assert(coeff_of(p_init, d - t.1) == (0int, 1int));
            assert(coeff_of(p, d - t.1) == s.0);
            // prev ~ 0
            assert(same_value(prev, q_mul((0int, 1int), t.0)));
            assert(prev.0 == 0) by (nonlinear_arith)
                requires
                    prev.0 * (1 * t.0.1) == (0 * t.0.0) * prev.1,
                    t.0.1 > 0,
            ;
            lemma_mul_comm(t.0, s.0);
            assert(same_value(q_add(prev, term), term)) by (nonlinear_arith)
                requires
                    prev.0 == 0,
                    prev.1 > 0,
            ;
        } else {
            assert(c == (0int, 1int)) by {
                assert forall|i: int| 0 <= i < ts.len() implies #[trigger] ts[i].1 != d - s.1 by {}
            }
            assert(coeff_of(p, d - t.1) == coeff_of(p_init, d - t.1)) by {
                if exists|i: int| 0 <= i < p.len() && #[trigger] p[i].1 == d - t.1 {
                    let i = choose|i: int| 0 <= i < p.len() && #[trigger] p[i].1 == d - t.1;
                    assert(i != p.len() - 1);
                    assert(p_init[i] == p[i]);
                } else {
                    assert forall|i: int| 0 <= i < p_init.len() implies #[trigger] p_init[i].1 != d - t.1 by {
                        assert(p_init[i] == p[i]);
                    }
                }
            }
            assert(same_value(q_add(prev, term), prev)) by (nonlinear_arith)
                requires
                    term == q_mul((0int, 1int), s.0),
                    s.0.1 > 0,
                    prev.1 > 0,
            ;
            lemma_den_positive(coeff_of(p, d - t.1), t.0);
            lemma_same_value_trans(q_add(prev, term), prev, q_mul(coeff_of(p, d - t.1), t.0));
        }
    }
}

} // verus!

verus! {

/// `a ~ b`, `b ~ c` with positive denominators throughout.
proof fn lemma_chain(a: (int, int), b: (int, int), c: (int, int))
    requires
        b.1 > 0,
        same_value(a, b),
        same_value(b, c),
    ensures
        same_value(a, c),
{
    lemma_same_value_trans(a, b, c);
}

/// The product with the zero polynomial on the left is zero.
proof fn lemma_product_zero_left(p: Seq<Term>, d: int)
    requires
        canonical(p),
    ensures
        same_value(product_coeff(Seq::<Term>::empty(), p, d), (0, 1)),
    decreases p.len(),
{
    if p.len() > 0 {
        crate::division::lemma_drop_last_canonical(p);
        lemma_product_zero_left(p.drop_last(), d);
        let prev = product_coeff(Seq::<Term>::empty(), p.drop_last(), d);
        lemma_product_den(Seq::<Term>::empty(), p.drop_last(), d);
        assert(nonzero_coeff(p[p.len() - 1].0));
        let s = p.last();
        assert(coeff_of(Seq::<Term>::empty(), d - s.1) == (0int, 1int));
        assert(same_value(q_add(prev, q_mul((0, 1), s.0)), (0, 1))) by (nonlinear_arith)
            requires
                prev.0 * 1 == 0 * prev.1,
                prev.1 > 0,
                s.0.1 > 0,
        ;
    }
}

/// Adding a lowest term `t` to `g` adds the product of `t` with `p`.
#[verifier::rlimit(80)]
proof fn lemma_product_push(g: Seq<Term>, t: Term, p: Seq<Term>, d: int)
    requires
        canonical(g),
        canonical(g.push(t)),
        canonical(p),
    ensures
        same_value(
            product_coeff(g.push(t), p, d),
            q_add(product_coeff(g, p, d), product_coeff(seq![t], p, d)),
        ),
    decreases p.len(),
{
    let f = g.push(t);
    let ts = seq![t];
    assert(nonzero_coeff(f[f.len() - 1].0));
    assert(canonical(ts)) by {
        assert(ts[0] == t);
    }
    if p.len() == 0 {
        assert(same_value((0int, 1int), q_add((0int, 1int), (0int, 1int))));
    } else {
        let p_init = p.drop_last();
        let s = p.last();
        crate::division::lemma_drop_last_canonical(p);
        lemma_product_push(g, t, p_init, d);
        assert(nonzero_coeff(p[p.len() - 1].0));
        let x = d - s.1;
        // the coefficient of f at x is that of g plus that of t
        assert forall|i: int| 0 <= i < g.len() implies #[trigger] g[i].1 > t.1 by {
            assert(f[i].1 > f[f.len() - 1].1);
        }
        assert(g.insert(g.len() as int, t) =~= f);
        crate::polynomial::lemma_insert(g, g.len() as int, t);
        lemma_coeff_of(g, x);
        lemma_coeff_of(f, x);
        lemma_coeff_of(ts, x);
        let (fx, gx, tx) = (coeff_of(f, x), coeff_of(g, x), coeff_of(ts, x));
        assert(same_value(fx, q_add(gx, tx))) by {
            if x == t.1 {
                assert(ts[0].1 == x);
                assert(gx == (0int, 1int));
                assert(fx == t.0 && tx == t.0);
                crate::rational::lemma_add_zero(t.0);
            } else {
                assert forall|i: int| 0 <= i < ts.len() implies #[trigger] ts[i].1 != x by {}
                assert(tx == (0int, 1int));
                assert(fx == gx);
                crate::rational::lemma_add_zero(gx);
            }
        }
        let (pf, pg, pt) = (product_coeff(f, p_init, d), product_coeff(g, p_init, d), product_coeff(ts, p_init, d));
        lemma_product_den(f, p_init, d);
        lemma_product_den(g, p_init, d);
        lemma_product_den(ts, p_init, d);
        let (mf, mg, mt) = (q_mul(fx, s.0), q_mul(gx, s.0), q_mul(tx, s.0));
        lemma_mul_congruent(fx, q_add(gx, tx), s.0, s.0);
        lemma_distribute(gx, tx, s.0);
        lemma_den_positive(gx, tx);
        lemma_den_positive(q_add(gx, tx), s.0);
        lemma_chain(mf, q_mul(q_add(gx, tx), s.0), q_add(mg, mt));
        lemma_add_congruent(pf, q_add(pg, pt), mf, q_add(mg, mt));
        lemma_add_swap(pg, pt, mg, mt);
        assert(product_coeff(f, p, d) == q_add(pf, mf));
        assert(product_coeff(g, p, d) == q_add(pg, mg));
        assert(product_coeff(ts, p, d) == q_add(pt, mt));
    }
}

/// Multiplication of polynomials is commutative: every coefficient of `p * q`
/// has the value of the same coefficient of `q * p`.
pub proof fn law_product_commutes(p: Seq<Term>, q: Seq<Term>, d: int)
    requires
        canonical(p),
        canonical(q),
    ensures
        same_value(product_coeff(p, q, d), product_coeff(q, p, d)),
    decreases q.len(),
{
    if q.len() == 0 {
        assert(q =~= Seq::<Term>::empty());
        lemma_product_zero_left(p, d);
        assert(same_value(product_coeff(p, q, d), (0int, 1int)));
        lemma_product_den(q, p, d);
        assert(same_value((0int, 1int), product_coeff(q, p, d))) by (nonlinear_arith)
            requires
                product_coeff(q, p, d).0 * 1 == 0 * product_coeff(q, p, d).1,
        ;
    } else {
        let q1 = q.drop_last();
        let t = q.last();
        crate::division::lemma_drop_last_canonical(q);
        law_product_commutes(p, q1, d);
        assert(q1.push(t) =~= q);
        lemma_product_push(q1, t, p, d);
        assert(nonzero_coeff(q[q.len() - 1].0));
        assert(canonical(seq![t])) by {
            assert(seq![t][0] == t);
        }
        lemma_product_single(t, p, d);
        let a = product_coeff(p, q1, d);
        let b = product_coeff(q1, p, d);
        let m = q_mul(coeff_of(p, d - t.1), t.0);
        let st = product_coeff(seq![t], p, d);
        lemma_product_den(p, q1, d);
        lemma_product_den(q1, p, d);
        lemma_product_den(seq![t], p, d);
        lemma_coeff_of(p, d - t.1);
        lemma_den_positive(coeff_of(p, d - t.1), t.0);
        // product_coeff(p, q, d) == a + m ~ b + st ~ product_coeff(q, p, d)
        lemma_add_congruent(a, b, m, st);
        lemma_den_positive(b, st);
        assert(same_value(q_add(b, st), product_coeff(q, p, d)));
        lemma_chain(q_add(a, m), q_add(b, st), product_coeff(q, p, d));
    }
}

/// Division with remainder, in the order the law is usually written: when `q`
/// and `r` are the quotient and remainder of `d` by `v`, then `q * v + r == d`
/// degree by degree, and the remainder's degrees are below the divisor's.
pub proof fn law_division_identity(d: Seq<Term>, v: Seq<Term>, q: Seq<Term>, r: Seq<Term>, e: int)
    requires
        canonical(d),
        canonical(v),
        canonical(q),
        canonical(r),
        is_division(d, v, q, r),
    ensures
        same_value(q_add(product_coeff(q, v, e), coeff_of(r, e)), coeff_of(d, e)),
        forall|i: int| 0 <= i < r.len() ==> #[trigger] r[i].1 < v[0].1,
{
    law_product_commutes(q, v, e);
    lemma_coeff_of(r, e);
    lemma_coeff_of(d, e);
    lemma_product_den(q, v, e);
    lemma_product_den(v, q, e);
    lemma_add_congruent(product_coeff(q, v, e), product_coeff(v, q, e), coeff_of(r, e), coeff_of(r, e));
    lemma_den_positive(product_coeff(v, q, e), coeff_of(r, e));
    assert(same_value(coeff_of(d, e), q_add(product_coeff(v, q, e), coeff_of(r, e))));
    lemma_chain(
        q_add(product_coeff(q, v, e), coeff_of(r, e)),
        q_add(product_coeff(v, q, e), coeff_of(r, e)),
        coeff_of(d, e),
    );
}

} // verus!

verus! {


/// The decimal digits of `n` are digits and read back as `n`.
proof fn lemma_decimal(n: nat)
    ensures
        is_digits(decimal(n)),
        digits_value(decimal(n)) == n,
    decreases n,
{
    if n < 10 {
        let t = decimal(n);
        assert(t.drop_last() =~= Seq::<char>::empty());
        assert(digit_char(n) as int == '0' as int + n);
        assert(digits_value(Seq::<char>::empty()) == 0);
        assert(digits_value(t) == digits_value(t.drop_last()) * 10 + ((t.last() as int - '0' as int) as nat));
    } else {
        lemma_decimal(n / 10);
        let t = decimal(n);
        let h = decimal(n / 10);
        assert(t.drop_last() =~= h);
        assert(t.last() == digit_char(n % 10));
        assert(digit_char(n % 10) as int == '0' as int + n % 10);
        assert(digits_value(t) == digits_value(h) * 10 + ((t.last() as int - '0' as int) as nat));
        vstd::arithmetic::div_mod::lemma_fundamental_div_mod(n as int, 10);
        assert forall|i: int| 0 <= i < t.len() implies is_digit(#[trigger] t[i]) by {
            if i < h.len() {
                assert(t[i] == h[i]);
            }
        }
    }
}

/// Digits read across a cut: the digits before it scaled past those after it.
proof fn lemma_digits_concat(a: Seq<char>, b: Seq<char>)
    ensures
        digits_value(a + b) == digits_value(a) * pow(10, b.len()) + digits_value(b),
    decreases b.len(),
{
    reveal(pow);
    if b.len() == 0 {
        assert(a + b =~= a);
    } else {
        let b1 = b.drop_last();
        lemma_digits_concat(a, b1);
        assert((a + b).drop_last() =~= a + b1);
        assert((a + b).last() == b.last());
        assert(pow(10, b.len()) == 10 * pow(10, b1.len()));
        let x = digits_value(a);
        let y = digits_value(b1);
        let p = pow(10, b1.len());
        assert((x * p + y) * 10 == x * (10 * p) + y * 10) by (nonlinear_arith);
    }
}

/// Leading zeros read as zero.
proof fn lemma_zeros(k: nat)
    ensures
        digits_value(zeros(k)) == 0,
        forall|i: int| 0 <= i < k ==> is_digit(#[trigger] zeros(k)[i]),
    decreases k,
{
    if k > 0 {
        lemma_zeros((k - 1) as nat);
        assert(zeros(k).drop_last() =~= zeros((k - 1) as nat));
    }
}

/// `d` is `p` to its multiplicity times what is left when `p` is divided out.
proof fn lemma_strip(d: nat, p: nat)
    requires
        d > 0,
        p > 1,
    ensures
        d == pow(p as int, multiplicity(d, p)) * strip_factor(d, p),
    decreases d,
{
    reveal(pow);
    if d % p == 0 {
        vstd::arithmetic::div_mod::lemma_div_decreases(d as int, p as int);
        vstd::arithmetic::div_mod::lemma_fundamental_div_mod(d as int, p as int);
        let q = d / p;
        assert(q > 0) by (nonlinear_arith)
            requires
                d == p * q + 0,
                d > 0,
                p > 1,
        ;
        lemma_strip(q, p);
        let m = multiplicity(q, p);
        assert(pow(p as int, m + 1) == p * pow(p as int, m));
        assert(d == p * (pow(p as int, m) * strip_factor(q, p))) by (nonlinear_arith)
            requires
                d == p * q,
                q == pow(p as int, m) * strip_factor(q, p),
        ;
        assert(p * (pow(p as int, m) * strip_factor(q, p)) == (p * pow(p as int, m)) * strip_factor(q, p))
            by (nonlinear_arith);
    }
}

/// A denominator with no prime factor but 2 and 5 divides `10^k` for its
/// number of decimal places `k`.
proof fn lemma_divides_power_of_ten(d: nat)
    requires
        d > 0,
        finite_decimal(d),
    ensures
        pow(10, decimal_places(d)) % (d as int) == 0,
{
    let a = multiplicity(d, 2);
    let s2 = strip_factor(d, 2);
    lemma_strip(d, 2);
    assert(s2 > 0) by (nonlinear_arith)
        requires
            d == pow(2, a) * s2,
            d > 0,
            s2 >= 0,
    ;
    let b = multiplicity(s2, 5);
    lemma_strip(s2, 5);
    let k = decimal_places(d);
    assert(d == pow(2, a) * pow(5, b));
    vstd::arithmetic::power::lemma_pow_adds(2, a, (k - a) as nat);
    vstd::arithmetic::power::lemma_pow_adds(5, b, (k - b) as nat);
    vstd::arithmetic::power::lemma_pow_distributes(2, 5, k);
    let w = pow(2, (k - a) as nat) * pow(5, (k - b) as nat);
    assert(pow(10, k) == (d as int) * w) by (nonlinear_arith)
        requires
            pow(10, k) == pow(2, k) * pow(5, k),
            pow(2, k) == pow(2, a) * pow(2, (k - a) as nat),
            pow(5, k) == pow(5, b) * pow(5, (k - b) as nat),
            d == pow(2, a) * pow(5, b),
            w == pow(2, (k - a) as nat) * pow(5, (k - b) as nat),
    ;
    vstd::arithmetic::div_mod::lemma_mod_multiples_basic(w, d as int);
    vstd::arithmetic::mul::lemma_mul_is_commutative(w, d as int);
}

/// A finite decimal reads back as a fraction of the same value.
#[verifier::rlimit(80)]
proof fn lemma_finite_round_trip(n: nat, d: nat)
    requires
        lowest_terms_nat(n, d),
        d != 1,
        finite_decimal(d),
    ensures
        unsigned_value(magnitude_text(n, d)) is Some,
        same_value(unsigned_value(magnitude_text(n, d))->Some_0, (n as int, d as int)),
        unsigned_value(magnitude_text(n, d))->Some_0.1 > 0,
        magnitude_text(n, d).len() > 0 && is_digit(magnitude_text(n, d)[0]),
{
    reveal(unsigned_value);
    let t = magnitude_text(n, d);
        let k = decimal_places(d);
        lemma_divides_power_of_ten(d);
        vstd::arithmetic::power::lemma_pow_positive(10, k);
        let m = (n * pow(10, k) as nat / d) as nat;
        let digits = decimal(m);
        lemma_decimal(m);
        // m * d == n * 10^k
        let w = pow(10, k) / (d as int);
        vstd::arithmetic::div_mod::lemma_fundamental_div_mod(pow(10, k), d as int);
        assert(n * pow(10, k) == (d as int) * (n * w)) by (nonlinear_arith)
            requires
                pow(10, k) == (d as int) * w,
        ;
        vstd::arithmetic::div_mod::lemma_div_multiples_vanish((n * w) as int, d as int);
        assert(m == n * w);
        assert(m * d == n * pow(10, k)) by (nonlinear_arith)
            requires
                m == n * w,
                pow(10, k) == (d as int) * w,
        ;
        assert(k > 0) by {
            if k == 0 {
                assert(multiplicity(d, 2) == 0);
                assert(strip_factor(d, 2) == d);
                assert(multiplicity(d, 5) == 0);
                assert(strip_factor(d, 5) == d);
            }
        }
        assert(digits.len() > 0);
        if k >= digits.len() {
            let z = zeros((k - digits.len()) as nat);
            lemma_zeros((k - digits.len()) as nat);
            assert(t =~= seq!['0', '.'] + (z + digits));
            let b = z + digits;
            lemma_first_index(t, '.', 1);
            assert(t.subrange(0, 1) =~= seq!['0']);
            assert(t.subrange(2, t.len() as int) =~= b);
            assert(seq!['0'].drop_last() =~= Seq::<char>::empty());
            assert(seq!['0'].last() == '0');
            assert(digits_value(Seq::<char>::empty()) == 0);
            assert(digits_value(seq!['0']) == 0);
            lemma_digits_concat(z, digits);
            assert forall|i: int| 0 <= i < b.len() implies is_digit(#[trigger] b[i]) by {
                if i < z.len() {
                    assert(b[i] == z[i]);
                } else {
                    assert(b[i] == digits[i - z.len()]);
                }
            }
            assert(b.len() == k);
            assert(t[1] == '.');
            assert(t.contains('.'));
            assert(t.subrange(0, 1) == seq!['0']);
            assert(is_digits(seq!['0']));
            assert(0 * pow(10, b.len()) == 0) by (nonlinear_arith);
            assert(digits_value(b) == m) by (nonlinear_arith)
                requires
                    digits_value(b) == digits_value(z) * pow(10, digits.len()) + digits_value(digits),
                    digits_value(z) == 0,
                    digits_value(digits) == m,
            ;
            assert(unsigned_value(t) == Some((m as int, pow(10, k))));
        } else {
            let cut = digits.len() - k;
            let (a, b) = (digits.subrange(0, cut), digits.subrange(cut, digits.len() as int));
            assert(t =~= a + seq!['.'] + b);
            lemma_first_index(t, '.', cut);
            assert(t.subrange(0, cut) =~= a);
            assert(t.subrange(cut + 1, t.len() as int) =~= b);
            assert(a + b =~= digits);
            lemma_digits_concat(a, b);
            assert forall|i: int| 0 <= i < a.len() implies is_digit(#[trigger] a[i]) by {
                assert(a[i] == digits[i]);
            }
            assert forall|i: int| 0 <= i < b.len() implies is_digit(#[trigger] b[i]) by {
                assert(b[i] == digits[cut + i]);
            }
            assert(b.len() == k);
            assert(t[cut] == '.');
            assert(t.contains('.'));
            assert(unsigned_value(t) == Some((m as int, pow(10, k))));
        }
        assert(t.contains('.')) by {
            if k >= digits.len() {
                assert(t[1] == '.');
            } else {
                assert(t[digits.len() - k] == '.');
            }
        }
        let v = unsigned_value(t)->Some_0;
        assert(v == (m as int, pow(10, k)));
        assert(same_value(v, (n as int, d as int)));
        assert(is_digit(t[0])) by {
            if k < digits.len() {
                assert(t[0] == digits[0]);
            }
        }
}

/// The text of a nonnegative fraction in lowest terms reads back as a fraction
/// of the same value.
#[verifier::rlimit(80)]
proof fn lemma_magnitude_round_trip(n: nat, d: nat)
    requires
        lowest_terms_nat(n, d),
    ensures
        unsigned_value(magnitude_text(n, d)) is Some,
        same_value(unsigned_value(magnitude_text(n, d))->Some_0, (n as int, d as int)),
        unsigned_value(magnitude_text(n, d))->Some_0.1 > 0,
        magnitude_text(n, d).len() > 0 && is_digit(magnitude_text(n, d)[0]),
{
    reveal(unsigned_value);
    let t = magnitude_text(n, d);
    lemma_decimal(n);
    if d == 1 {
        assert(!t.contains('.') && !t.contains('/'));
        assert(is_digit(t[0]));
    } else if finite_decimal(d) {
        lemma_finite_round_trip(n, d);
    } else {
        let dd = decimal(d);
        lemma_decimal(d);
        let a = decimal(n);
        assert(t =~= a + seq!['/'] + dd);
        assert(!t.contains('.')) by {
            if t.contains('.') {
                let i = choose|i: int| 0 <= i < t.len() && t[i] == '.';
                if i < a.len() {
                    assert(t[i] == a[i]);
                } else if i > a.len() {
                    assert(t[i] == dd[i - a.len() - 1]);
                }
            }
        }
        assert(t[a.len() as int] == '/');
        assert(!t.subrange(0, a.len() as int).contains('/')) by {
            if t.subrange(0, a.len() as int).contains('/') {
                let i = choose|i: int| 0 <= i < a.len() && t.subrange(0, a.len() as int)[i] == '/';
                assert(t[i] == a[i]);
            }
        }
        lemma_first_index(t, '/', a.len() as int);
        assert(t.subrange(0, a.len() as int) =~= a);
        assert(t.subrange(a.len() as int + 1, t.len() as int) =~= dd);
        assert(t[0] == a[0]);
    }
}

/// `n / d` in lowest terms, for a numerator that is not negative.
pub open spec fn lowest_terms_nat(n: nat, d: nat) -> bool {
    crate::rational::lowest_terms(n as int, d as int)
}

/// The text of a coefficient in lowest terms reads back as that coefficient:
/// the step of the text round trip that concerns numbers.
#[verifier::rlimit(80)]
pub proof fn law_coeff_text_round_trip(c: (int, int))
    requires
        crate::rational::lowest_terms(c.0, c.1),
    ensures
        number_value(coeff_text(c)) is Some,
        same_value(number_value(coeff_text(c))->Some_0, c),
{
    let n: nat = if c.0 < 0 { (-c.0) as nat } else { c.0 as nat };
    let d = c.1 as nat;
    assert(lowest_terms_nat(n, d)) by {
        if c.0 < 0 {
            assert forall|e: int| 0 < e < c.1 implies !#[trigger] crate::rational::scaled_multiple(n as int, e, c.1) by {
                assert(!crate::rational::scaled_multiple(c.0, e, c.1));
                crate::polynomial::lemma_neg_multiple(c.0, e, c.1);
            }
        }
    }
    lemma_magnitude_round_trip(n, d);
    let m = magnitude_text(n, d);
    let t = coeff_text(c);
    if c.0 < 0 {
        assert(t =~= seq!['-'] + m);
        assert(t.drop_first() =~= m);
        let v = unsigned_value(m)->Some_0;
        assert(number_value(t) == Some((-v.0, v.1)));
        assert(same_value((-v.0, v.1), c)) by (nonlinear_arith)
            requires
                v.0 * c.1 == (n as int) * v.1,
                n == -c.0,
        ;
    } else {
        assert(t == m);
        assert(!(m[0] == '-' || m[0] == '+'));
    }
}

} // verus!

verus! {

/// Every character of a coefficient's text is a digit, `.`, `/` or `-`.
pub open spec fn number_char(c: char) -> bool {
    is_digit(c) || c == '.' || c == '/' || c == '-'
}

/// A character of the text of a nonnegative coefficient.
pub open spec fn magnitude_char(c: char) -> bool {
    is_digit(c) || c == '.' || c == '/'
}

#[verifier::rlimit(80)]
pub proof fn lemma_magnitude_chars(n: nat, d: nat)
    requires
        lowest_terms_nat(n, d),
    ensures
        forall|i: int| 0 <= i < magnitude_text(n, d).len() ==> magnitude_char(#[trigger] magnitude_text(n, d)[i]),
        magnitude_text(n, d).len() > 0,
        is_digit(magnitude_text(n, d).last()),
{
    let m = magnitude_text(n, d);
    lemma_decimal(n);
    lemma_decimal(d);
    assert forall|i: int| 0 <= i < m.len() implies magnitude_char(#[trigger] m[i]) by {
        if d == 1 {
        } else if crate::text::finite_decimal(d) {
            let k = decimal_places(d);
            let digits = decimal((n * pow(10, k) as nat / d) as nat);
            lemma_decimal((n * pow(10, k) as nat / d) as nat);
            if k == 0 {
            } else if k >= digits.len() {
                let z = zeros((k - digits.len()) as nat);
                lemma_zeros((k - digits.len()) as nat);
                assert(m =~= seq!['0', '.'] + (z + digits));
                if i >= 2 {
                    if i - 2 < z.len() {
                        assert(m[i] == z[i - 2]);
                    } else {
                        assert(m[i] == digits[i - 2 - z.len()]);
                    }
                }
            } else {
                let cut = digits.len() - k;
                assert(m =~= digits.subrange(0, cut) + seq!['.'] + digits.subrange(cut, digits.len() as int));
                if i < cut {
                    assert(m[i] == digits[i]);
                } else if i > cut {
                    assert(m[i] == digits[i - 1]);
                }
            }
        } else {
            let a = decimal(n);
            assert(m =~= a + seq!['/'] + decimal(d));
            if i < a.len() {
                assert(m[i] == a[i]);
            } else if i > a.len() {
                assert(m[i] == decimal(d)[i - a.len() - 1]);
            }
        }
    }
    if d == 1 {
    } else if crate::text::finite_decimal(d) {
        let k = decimal_places(d);
        let digits = decimal((n * pow(10, k) as nat / d) as nat);
        lemma_decimal((n * pow(10, k) as nat / d) as nat);
        if k == 0 {
        } else if k >= digits.len() {
            let z = zeros((k - digits.len()) as nat);
            assert(m =~= seq!['0', '.'] + (z + digits));
            assert(m.last() == digits.last());
        } else {
            let cut = digits.len() - k;
            assert(m =~= digits.subrange(0, cut) + seq!['.'] + digits.subrange(cut, digits.len() as int));
            assert(m.last() == digits.last());
        }
    } else {
        let a = decimal(n);
        assert(m =~= a + seq!['/'] + decimal(d));
        assert(m.last() == decimal(d).last());
    }
}

proof fn lemma_coeff_chars(c: (int, int))
    requires
        crate::rational::lowest_terms(c.0, c.1),
    ensures
        forall|i: int| 0 <= i < coeff_text(c).len() ==> number_char(#[trigger] coeff_text(c)[i]),
        coeff_text(c).len() > 0,
{
    let n: nat = if c.0 < 0 { (-c.0) as nat } else { c.0 as nat };
    let d = c.1 as nat;
    let m = magnitude_text(n, d);
    lemma_decimal(n);
    lemma_decimal(d);
    assert forall|i: int| 0 <= i < m.len() implies number_char(#[trigger] m[i]) by {
        if d == 1 {
        } else if crate::text::finite_decimal(d) {
            let k = decimal_places(d);
            let digits = decimal((n * pow(10, k) as nat / d) as nat);
            lemma_decimal((n * pow(10, k) as nat / d) as nat);
            if k == 0 {
            } else if k >= digits.len() {
                let z = zeros((k - digits.len()) as nat);
                lemma_zeros((k - digits.len()) as nat);
                assert(m =~= seq!['0', '.'] + (z + digits));
                if i >= 2 {
                    if i - 2 < z.len() {
                        assert(m[i] == z[i - 2]);
                    } else {
                        assert(m[i] == digits[i - 2 - z.len()]);
                    }
                }
            } else {
                let cut = digits.len() - k;
                assert(m =~= digits.subrange(0, cut) + seq!['.'] + digits.subrange(cut, digits.len() as int));
                if i < cut {
                    assert(m[i] == digits[i]);
                } else if i > cut {
                    assert(m[i] == digits[i - 1]);
                }
            }
        } else {
            let a = decimal(n);
            assert(m =~= a + seq!['/'] + decimal(d));
            if i < a.len() {
                assert(m[i] == a[i]);
            } else if i > a.len() {
                assert(m[i] == decimal(d)[i - a.len() - 1]);
            }
        }
    }
    let t = coeff_text(c);
    if c.0 < 0 {
        assert(t =~= seq!['-'] + m);
        assert forall|i: int| 0 <= i < t.len() implies number_char(#[trigger] t[i]) by {
            if i > 0 {
                assert(t[i] == m[i - 1]);
            }
        }
    }
    if d == 1 {
    } else if crate::text::finite_decimal(d) {
        let k = decimal_places(d);
        lemma_decimal((n * pow(10, k) as nat / d) as nat);
    }
}

/// The text of a signed integer: digits, after a `-` when negative.
pub proof fn lemma_int_text_chars(d: int)
    ensures
        crate::text::int_text(d).len() > 0,
        is_digit(crate::text::int_text(d).last()),
        forall|i: int| 0 <= i < crate::text::int_text(d).len() ==> is_digit(#[trigger] crate::text::int_text(d)[i]) || (i == 0 && crate::text::int_text(d)[i] == '-'),
{
    let t = crate::text::int_text(d);
    if d < 0 {
        lemma_decimal((-d) as nat);
        let dd = decimal((-d) as nat);
        assert(t =~= seq!['-'] + dd);
        assert forall|i: int| 0 <= i < t.len() implies is_digit(#[trigger] t[i]) || (i == 0 && t[i] == '-') by {
            if i > 0 {
                assert(t[i] == dd[i - 1]);
            }
        }
        assert(t.last() == dd.last());
    } else {
        lemma_decimal(d as nat);
    }
}

/// The text of a signed integer reads back as that integer.
proof fn lemma_int_text(d: int)
    ensures
        crate::parse::int_value(crate::text::int_text(d)) == Some(d),
{
    let t = crate::text::int_text(d);
    if d < 0 {
        lemma_decimal((-d) as nat);
        assert(t.drop_first() =~= decimal((-d) as nat));
    } else {
        lemma_decimal(d as nat);
        assert(is_digit(t[0]));
    }
}

/// The coefficient part of a term's text at a degree other than zero.
pub open spec fn head_text(c: (int, int)) -> Seq<char> {
    if c == (1int, 1int) {
        Seq::<char>::empty()
    } else if c == (-1int, 1int) {
        seq!['-']
    } else {
        coeff_text(c)
    }
}

proof fn lemma_head(c: (int, int))
    requires
        crate::rational::lowest_terms(c.0, c.1),
        c.0 != 0,
    ensures
        forall|i: int| 0 <= i < head_text(c).len() ==> #[trigger] head_text(c)[i] != 'x',
        forall|i: int| 0 <= i < coeff_text(c).len() ==> #[trigger] coeff_text(c)[i] != 'x',
        number_value(coeff_text(c)) is Some,
        same_value(number_value(coeff_text(c))->Some_0, c),
        number_value(coeff_text(c))->Some_0.0 != 0,
        coeff_text(c).len() > 0,
        c != (1int, 1int) && c != (-1int, 1int) ==> head_text(c) != Seq::<char>::empty() && head_text(c)
            != seq!['+'] && head_text(c) != seq!['-'],
{
    reveal(unsigned_value);
    let ct = coeff_text(c);
    lemma_coeff_chars(c);
    law_coeff_text_round_trip(c);
    let v = number_value(ct)->Some_0;
    crate::text::lemma_number_den(ct);
    if v.0 == 0 {
        assert(c.0 * v.1 == 0);
        assert(c.0 == 0) by (nonlinear_arith)
            requires
                c.0 * v.1 == 0,
                v.1 > 0,
        ;
    }
    assert forall|i: int| 0 <= i < ct.len() implies #[trigger] ct[i] != 'x' by {
        assert(number_char(ct[i]));
    }
    if c != (1int, 1int) && c != (-1int, 1int) {
        assert(head_text(c) == ct);
        if ct == seq!['+'] {
            assert(number_char(ct[0]));
        }
        if ct == seq!['-'] {
            assert(number_value(ct) is None) by {
                assert(ct.drop_first() =~= Seq::<char>::empty());
            }
        }
    }
}

proof fn lemma_term_parts(c: (int, int), d: int)
    requires
        crate::rational::lowest_terms(c.0, c.1),
        c.0 != 0,
    ensures
        crate::parse::term_parts(crate::format::term_text(c, d)) == (if d == 0 {
            (coeff_text(c), None::<Seq<char>>, 0int)
        } else if d == 1 {
            (head_text(c), None::<Seq<char>>, 1int)
        } else {
            (head_text(c), Some(crate::text::int_text(d)), 0int)
        }),
{
    reveal(crate::parse::term_parts);
    let s = crate::format::term_text(c, d);
    let head = head_text(c);
    lemma_head(c);
    if d == 0 {
        assert(s == coeff_text(c));
        assert(!s.contains('x')) by {
            if s.contains('x') {
                let i = choose|i: int| 0 <= i < s.len() && s[i] == 'x';
                assert(s[i] == coeff_text(c)[i]);
            }
        }
    } else {
        let hl = head.len() as int;
        if d == 1 {
            assert(s =~= head + seq!['x']);
        } else {
            assert(s =~= head + seq!['x', '^'] + crate::text::int_text(d));
        }
        assert(s[hl] == 'x');
        assert(!s.subrange(0, hl).contains('x')) by {
            if s.subrange(0, hl).contains('x') {
                let i = choose|i: int| 0 <= i < hl && s.subrange(0, hl)[i] == 'x';
                assert(s[i] == head[i]);
            }
        }
        crate::text::lemma_first_index(s, 'x', hl);
        assert(s.subrange(0, hl) =~= head);
        if d != 1 {
            assert(s[hl + 1] == '^');
            assert(s.subrange(hl + 2, s.len() as int) =~= crate::text::int_text(d));
        }
    }
}

/// The text of a term reads back as a term of the same coefficient and degree:
/// the step of the text round trip that concerns single terms.
#[verifier::rlimit(80)]
pub proof fn law_term_text_round_trip(c: (int, int), d: int)
    requires
        crate::rational::lowest_terms(c.0, c.1),
        c.0 != 0,
    ensures
        crate::parse::term_value(crate::format::term_text(c, d)) is Ok,
        same_value(crate::parse::term_value(crate::format::term_text(c, d))->Ok_0.0, c),
        crate::parse::term_value(crate::format::term_text(c, d))->Ok_0.1 == d,
{
    let s = crate::format::term_text(c, d);
    lemma_head(c);
    lemma_term_parts(c, d);
    lemma_int_text(d);
    assert(s.len() > 0) by {
        if d == 0 {
            assert(s == coeff_text(c));
        } else {
            assert(s[head_text(c).len() as int] == 'x') by {
                if d == 1 {
                    assert(s =~= head_text(c) + seq!['x']);
                } else {
                    assert(s =~= head_text(c) + seq!['x', '^'] + crate::text::int_text(d));
                }
            }
        }
    }
    if c == (1int, 1int) || c == (-1int, 1int) {
        assert(seq!['-'] != Seq::<char>::empty());
        assert(seq!['-'] != seq!['+']) by {
            assert(seq!['-'][0] != seq!['+'][0]);
        }
    }
    reveal(crate::parse::term_value);
}

} // verus!
