//! Writing a polynomial and reading the text back gives the same polynomial.

use crate::arith::sum_terms;
use crate::format::{later_term_text, later_terms_text, poly_text, term_text};
use crate::laws::{law_term_text_round_trip, magnitude_char};
use crate::parse::{is_space, parse_segments, polynomial_terms, split_terms, term_value, without_spaces};
use crate::polynomial::{canonical, coeff_of, lemma_coeff_of, lemma_canonical_unique, nonzero_coeff, Term};
use crate::rational::{lemma_add_congruent, lemma_den_positive, lemma_same_value_trans, lowest_terms, q_add, same_value};
use crate::text::{coeff_text, int_text, is_digit, magnitude_text, unsigned_value};
use vstd::prelude::*;

verus! {

/// A piece of text that cutting at signs leaves whole: not empty, no `+`, no
/// whitespace, a `-` only right after `^`, and no `^` at the end.
pub open spec fn whole_piece(u: Seq<char>) -> bool {
    &&& u.len() > 0
    &&& u.last() != '^'
    &&& forall|j: int| 0 <= j < u.len() ==> #[trigger] u[j] != '+' && !is_space(u[j])
    &&& forall|j: int| 0 <= j < u.len() && #[trigger] u[j] == '-' ==> j >= 1 && u[j - 1] == '^'
}

proof fn lemma_positive_term_whole(c: (int, int), d: int)
    requires
        lowest_terms(c.0, c.1),
        c.0 > 0,
    ensures
        whole_piece(term_text(c, d)),
{
    let u = term_text(c, d);
    let n = c.0 as nat;
    let dd = c.1 as nat;
    crate::laws::lemma_magnitude_chars(n, dd);
    let ct = coeff_text(c);
    assert(ct == magnitude_text(n, dd));
    let head = if c == (1int, 1int) { Seq::<char>::empty() } else { ct };
    assert(c != (-1int, 1int));
    assert forall|j: int| 0 <= j < head.len() implies magnitude_char(#[trigger] head[j]) by {}
    if d == 0 {
        assert(u == ct);
    } else if d == 1 {
        assert(u =~= head + seq!['x']);
        assert forall|j: int| 0 <= j < u.len() implies #[trigger] u[j] != '+' && !is_space(u[j]) && u[j] != '-' by {
            if j < head.len() {
                assert(u[j] == head[j]);
            }
        }
    } else {
        let it = int_text(d);
        crate::laws::lemma_int_text_chars(d);
        assert(u =~= head + seq!['x', '^'] + it);
        let hl = head.len() as int;
        assert forall|j: int| 0 <= j < u.len() implies #[trigger] u[j] != '+' && !is_space(u[j]) by {
            if j < hl {
                assert(u[j] == head[j]);
            } else if j >= hl + 2 {
                assert(u[j] == it[j - hl - 2]);
            }
        }
        assert forall|j: int| 0 <= j < u.len() && #[trigger] u[j] == '-' implies j >= 1 && u[j - 1] == '^' by {
            if j < hl {
                assert(u[j] == head[j]);
            } else if j >= hl + 2 {
                assert(u[j] == it[j - hl - 2]);
                assert(j - hl - 2 == 0);
            }
        }
        assert(u.last() == it.last());
    }
}

/// The text of a term with a negative coefficient is `-` and the text of the
/// term negated.
proof fn lemma_negative_term_text(c: (int, int), d: int)
    requires
        c.0 < 0,
    ensures
        term_text(c, d) == seq!['-'] + term_text((-c.0, c.1), d),
{
    let p = (-c.0, c.1);
    assert(coeff_text(c) == seq!['-'] + coeff_text(p));
    if d == 0 {
    } else if c == (-1int, 1int) {
        assert(p == (1int, 1int));
        if d == 1 {
            assert(term_text(c, d) =~= seq!['-'] + term_text(p, d));
        } else {
            assert(term_text(c, d) =~= seq!['-'] + term_text(p, d));
        }
    } else {
        assert(p != (1int, 1int));
        assert(p != (-1int, 1int));
        if d == 1 {
            assert(term_text(c, d) =~= seq!['-'] + term_text(p, d));
        } else {
            assert(term_text(c, d) =~= seq!['-'] + term_text(p, d));
        }
    }
}

proof fn lemma_without_spaces_concat(a: Seq<char>, b: Seq<char>)
    ensures
        without_spaces(a + b) == without_spaces(a) + without_spaces(b),
    decreases b.len(),
{
    if b.len() == 0 {
        assert(a + b =~= a);
        assert(without_spaces(a) + without_spaces(b) =~= without_spaces(a));
    } else {
        lemma_without_spaces_concat(a, b.drop_last());
        assert((a + b).drop_last() =~= a + b.drop_last());
        assert((a + b).last() == b.last());
        if !is_space(b.last()) {
            assert(without_spaces(a) + without_spaces(b.drop_last()).push(b.last()) =~= (without_spaces(a)
                + without_spaces(b.drop_last())).push(b.last()));
        }
    }
}

proof fn lemma_without_spaces_none(u: Seq<char>)
    requires
        forall|j: int| 0 <= j < u.len() ==> !is_space(#[trigger] u[j]),
    ensures
        without_spaces(u) == u,
    decreases u.len(),
{
    if u.len() > 0 {
        lemma_without_spaces_none(u.drop_last());
        assert(u.drop_last().push(u.last()) =~= u);
    }
}

/// Appending a whole piece extends the last piece of the cut.
proof fn lemma_split_append(a: Seq<char>, u: Seq<char>)
    requires
        forall|j: int| 0 <= j < u.len() ==> #[trigger] u[j] != '+',
        forall|j: int| 0 <= j < u.len() && #[trigger] u[j] == '-' ==> j >= 1 && u[j - 1] == '^',
    ensures
        split_terms(a + u) == split_terms(a).update(
            split_terms(a).len() - 1,
            split_terms(a).last() + u,
        ),
    decreases u.len(),
{
    crate::parse::lemma_split_terms_len(a);
    let sa = split_terms(a);
    if u.len() == 0 {
        assert(a + u =~= a);
        assert(sa.update(sa.len() - 1, sa.last() + u) =~= sa);
    } else {
        let u1 = u.drop_last();
        let c = u.last();
        lemma_split_append(a, u1);
        let t = a + u;
        assert(t.drop_last() =~= a + u1);
        assert(t.last() == c);
        assert(c != '+');
        if c == '-' {
            assert(u[u.len() - 2] == '^');
            assert(t[t.len() - 2] == u[u.len() - 2]);
        }
        let s1 = split_terms(a + u1);
        crate::parse::lemma_split_terms_len(a + u1);
        assert(s1 == sa.update(sa.len() - 1, sa.last() + u1));
        assert(split_terms(t) == s1.update(s1.len() - 1, s1.last().push(c)));
        assert(s1.last() == sa.last() + u1);
        assert((sa.last() + u1).push(c) =~= sa.last() + u);
        assert(s1.update(s1.len() - 1, s1.last().push(c)) =~= sa.update(sa.len() - 1, sa.last() + u));
    }
}

/// The later terms with the spaces taken out: a sign and the term's magnitude.
pub open spec fn compact_later(s: Seq<Term>) -> Seq<char>
    decreases s.len(),
{
    if s.len() == 0 {
        Seq::empty()
    } else {
        compact_later(s.drop_last()) + compact_term(s.last())
    }
}

pub open spec fn compact_term(t: Term) -> Seq<char> {
    if t.0.0 > 0 {
        seq!['+'] + term_text(t.0, t.1)
    } else {
        seq!['-'] + term_text((-t.0.0, t.0.1), t.1)
    }
}

/// The piece of text each later term is cut into.
pub open spec fn later_piece(t: Term) -> Seq<char> {
    if t.0.0 > 0 {
        term_text(t.0, t.1)
    } else {
        seq!['-'] + term_text((-t.0.0, t.0.1), t.1)
    }
}

pub open spec fn all_nonzero(s: Seq<Term>) -> bool {
    forall|i: int| 0 <= i < s.len() ==> nonzero_coeff(#[trigger] s[i].0)
}

#[verifier::rlimit(80)]
proof fn lemma_compact_later(s: Seq<Term>)
    requires
        all_nonzero(s),
    ensures
        without_spaces(later_terms_text(s)) == compact_later(s),
    decreases s.len(),
{
    if s.len() > 0 {
        let s1 = s.drop_last();
        assert(all_nonzero(s1)) by {
            assert forall|i: int| 0 <= i < s1.len() implies nonzero_coeff(#[trigger] s1[i].0) by {
                assert(s1[i] == s[i]);
            }
        }
        lemma_compact_later(s1);
        let t = s.last();
        assert(nonzero_coeff(s[s.len() - 1].0));
        lemma_without_spaces_concat(later_terms_text(s1), later_term_text(t));
        let p = if t.0.0 > 0 { t.0 } else { (-t.0.0, t.0.1) };
        if t.0.0 < 0 {
            crate::polynomial::lemma_neg_lowest(t.0);
        }
        lemma_positive_term_whole(p, t.1);
        let u = term_text(p, t.1);
        lemma_without_spaces_none(u);
        let sign = if t.0.0 > 0 { '+' } else { '-' };
        assert(later_term_text(t) =~= seq![' ', sign, ' '] + u);
        lemma_without_spaces_concat(seq![' ', sign, ' '], u);
        assert(without_spaces(seq![' ', sign, ' ']) =~= seq![sign]) by {
            let w = seq![' ', sign, ' '];
            let w2 = seq![' ', sign];
            let w1 = seq![' '];
            assert(w.drop_last() =~= w2);
            assert(w2.drop_last() =~= w1);
            assert(w1.drop_last() =~= Seq::<char>::empty());
            assert(without_spaces(Seq::<char>::empty()) == Seq::<char>::empty());
            assert(without_spaces(w1) == without_spaces(Seq::<char>::empty()));
            assert(without_spaces(w2) == without_spaces(w1).push(sign));
            assert(without_spaces(w) == without_spaces(w2));
        }
        assert(compact_term(t) =~= seq![sign] + u);
    }
}

/// Cutting the first term's magnitude and the later terms gives one piece per term.
#[verifier::rlimit(80)]
proof fn lemma_split_body(u0: Seq<char>, s: Seq<Term>)
    requires
        whole_piece(u0),
        all_nonzero(s),
    ensures
        split_terms(u0 + compact_later(s)) == seq![u0] + s.map_values(|t: Term| later_piece(t)),
    decreases s.len(),
{
    if s.len() == 0 {
        assert(u0 + compact_later(s) =~= Seq::<char>::empty() + u0);
        lemma_split_append(Seq::<char>::empty(), u0);
        assert(split_terms(Seq::<char>::empty()) == seq![Seq::<char>::empty()]);
        assert(seq![Seq::<char>::empty()].update(0, Seq::<char>::empty() + u0) =~= seq![u0] + s.map_values(
            |t: Term| later_piece(t),
        ));
    } else {
        let s1 = s.drop_last();
        let t = s.last();
        assert(all_nonzero(s1)) by {
            assert forall|i: int| 0 <= i < s1.len() implies nonzero_coeff(#[trigger] s1[i].0) by {
                assert(s1[i] == s[i]);
            }
        }
        lemma_split_body(u0, s1);
        assert(nonzero_coeff(s[s.len() - 1].0));
        let x = u0 + compact_later(s1);
        let p = if t.0.0 > 0 { t.0 } else { (-t.0.0, t.0.1) };
        if t.0.0 < 0 {
            crate::polynomial::lemma_neg_lowest(t.0);
        }
        lemma_positive_term_whole(p, t.1);
        let u = term_text(p, t.1);
        let sign = if t.0.0 > 0 { '+' } else { '-' };
        assert(compact_term(t) =~= seq![sign] + u);
        assert(u0 + compact_later(s) =~= x.push(sign) + u);
        // x does not end with '^'
        assert(x.last() != '^') by {
            if s1.len() == 0 {
                assert(x =~= u0);
            } else {
                let t1 = s1.last();
                assert(nonzero_coeff(s[s.len() - 2].0));
                let p1 = if t1.0.0 > 0 { t1.0 } else { (-t1.0.0, t1.0.1) };
                if t1.0.0 < 0 {
                    crate::polynomial::lemma_neg_lowest(t1.0);
                }
                lemma_positive_term_whole(p1, t1.1);
                let sign1 = if t1.0.0 > 0 { '+' } else { '-' };
                assert(compact_term(t1) =~= seq![sign1] + term_text(p1, t1.1));
                assert(compact_later(s1) == compact_later(s1.drop_last()) + compact_term(t1));
                assert(x.last() == term_text(p1, t1.1).last());
            }
        }
        let xs = x.push(sign);
        assert(xs.drop_last() =~= x);
        assert(xs.last() == sign);
        crate::parse::lemma_split_terms_len(x);
        let sx = split_terms(x);
        let sxs = split_terms(xs);
        if sign == '+' {
            assert(sxs == sx.push(Seq::<char>::empty()));
        } else {
            assert(xs[xs.len() - 2] == x.last());
            assert(sxs == sx.push(seq!['-']));
        }
        lemma_split_append(xs, u);
        let piece = if sign == '+' { Seq::<char>::empty() + u } else { seq!['-'] + u };
        assert(later_piece(t) =~= piece);
        assert(split_terms(xs + u) =~= seq![u0] + s.map_values(|t: Term| later_piece(t)));
    }
}

} // verus!

verus! {

/// The terms read back agree with the terms written: same degrees, and
/// coefficients of the same value with nonzero denominators.
pub open spec fn terms_agree(ts: Seq<Term>, s: Seq<Term>) -> bool {
    &&& ts.len() == s.len()
    &&& forall|i: int| 0 <= i < s.len() ==> (#[trigger] ts[i]).1 == s[i].1 && same_value(ts[i].0, s[i].0) && ts[i].0.1 != 0
}

/// The magnitude of a term's coefficient.
pub open spec fn abs_term(t: Term) -> (int, int) {
    if t.0.0 < 0 {
        (-t.0.0, t.0.1)
    } else {
        t.0
    }
}

/// The pieces of a polynomial's text: the first term's magnitude, then each
/// later term with its sign.
pub open spec fn pieces(s: Seq<Term>, k: int) -> Seq<Seq<char>> {
    seq![term_text(abs_term(s[0]), s[0].1)] + s.subrange(1, k).map_values(|t: Term| later_piece(t))
}

#[verifier::rlimit(80)]
proof fn lemma_parse_pieces(s: Seq<Term>, k: int)
    requires
        all_nonzero(s),
        1 <= k <= s.len(),
    ensures
        parse_segments(pieces(s, k), s[0].0.0 < 0) is Ok,
        terms_agree(parse_segments(pieces(s, k), s[0].0.0 < 0)->Ok_0, s.subrange(0, k)),
    decreases k,
{
    let neg = s[0].0.0 < 0;
    let segs = pieces(s, k);
    assert(nonzero_coeff(s[0].0));
    if k == 1 {
        assert(segs =~= seq![term_text(abs_term(s[0]), s[0].1)]);
        assert(segs.drop_last() =~= Seq::<Seq<char>>::empty());
        let c0 = abs_term(s[0]);
        if neg {
            crate::polynomial::lemma_neg_lowest(s[0].0);
        }
        law_term_text_round_trip(c0, s[0].1);
        assert(segs.last() == term_text(c0, s[0].1));
        assert(segs.len() == 1);
        crate::parse::lemma_term_den(segs.last());
        let t = term_value(segs.last())->Ok_0;
        assert(term_value(segs.last()) == Ok::<((int, int), int), crate::error::ParseError>(t));
        assert(parse_segments(segs.drop_last(), neg) == Ok::<Seq<Term>, crate::error::ParseError>(Seq::empty()));
        let first = if neg { ((-t.0.0, t.0.1), t.1) } else { t };
        assert(parse_segments(segs, neg) == Ok::<Seq<Term>, crate::error::ParseError>(Seq::<Term>::empty().push(first)));
        let ts = parse_segments(segs, neg)->Ok_0;
        assert(ts =~= seq![first]);
        if neg {
            assert(same_value((-t.0.0, t.0.1), s[0].0)) by (nonlinear_arith)
                requires
                    t.0.0 * c0.1 == c0.0 * t.0.1,
                    c0 == (-s[0].0.0, s[0].0.1),
            ;
        }
        assert(terms_agree(ts, s.subrange(0, 1)));
    } else {
        lemma_parse_pieces(s, k - 1);
        let prev = pieces(s, k - 1);
        assert(segs.drop_last() =~= prev);
        let t = s[k - 1];
        assert(segs.last() == later_piece(t));
        assert(nonzero_coeff(s[k - 1].0));
        if t.0.0 < 0 {
            lemma_negative_term_text(t.0, t.1);
        }
        assert(later_piece(t) == term_text(t.0, t.1));
        law_term_text_round_trip(t.0, t.1);
        crate::parse::lemma_term_den(later_piece(t));
        let tsp = parse_segments(prev, neg)->Ok_0;
        let tv = term_value(later_piece(t))->Ok_0;
        assert(segs.len() == k);
        let ts = parse_segments(segs, neg)->Ok_0;
        assert(ts == tsp.push(tv));
        assert forall|i: int| 0 <= i < k implies (#[trigger] ts[i]).1 == s.subrange(0, k)[i].1 && same_value(ts[i].0, s.subrange(0, k)[i].0) && ts[i].0.1 != 0 by {
            if i < k - 1 {
                assert(ts[i] == tsp[i]);
                assert(s.subrange(0, k)[i] == s.subrange(0, k - 1)[i]);
            }
        }
    }
}

/// Summing terms that agree with a canonical polynomial gives its coefficients.
#[verifier::rlimit(80)]
proof fn lemma_sum_agrees(ts: Seq<Term>, s: Seq<Term>, d: int)
    requires
        canonical(s),
        terms_agree(ts, s),
    ensures
        same_value(sum_terms(ts, d), coeff_of(s, d)),
        sum_terms(ts, d).1 != 0,
    decreases s.len(),
{
    if s.len() > 0 {
        let (ts1, s1) = (ts.drop_last(), s.drop_last());
        crate::division::lemma_drop_last_canonical(s);
        assert(terms_agree(ts1, s1)) by {
            assert forall|i: int| 0 <= i < s1.len() implies (#[trigger] ts1[i]).1 == s1[i].1 && same_value(ts1[i].0, s1[i].0) && ts1[i].0.1 != 0 by {
                assert(ts1[i] == ts[i] && s1[i] == s[i]);
            }
        }
        lemma_sum_agrees(ts1, s1, d);
        let x = s.last();
        let tx = ts.last();
        assert(tx == ts[ts.len() - 1] && x == s[s.len() - 1]);
        assert(nonzero_coeff(s[s.len() - 1].0));
        assert forall|j: int| 0 <= j < s1.len() implies #[trigger] s1[j].1 > x.1 by {
            assert(s[j].1 > s[s.len() - 1].1);
        }
        assert(s1.insert(s1.len() as int, x) =~= s);
        crate::polynomial::lemma_insert(s1, s1.len() as int, x);
        lemma_coeff_of(s1, d);
        let prev = sum_terms(ts1, d);
        if tx.1 == d {
            assert(coeff_of(s1, d) == (0int, 1int));
            assert(coeff_of(s, d) == x.0);
            // prev ~ 0, so prev + tx ~ tx ~ x
            assert(prev.0 == 0) by (nonlinear_arith)
                requires
                    prev.0 * 1 == 0 * prev.1,
            ;
            assert(same_value(q_add(prev, tx.0), tx.0)) by (nonlinear_arith)
                requires
                    prev.0 == 0,
                    prev.1 != 0,
            ;
            assert(q_add(prev, tx.0).1 != 0) by (nonlinear_arith)
                requires
                    prev.1 != 0,
                    tx.0.1 != 0,
            ;
            lemma_same_value_trans(q_add(prev, tx.0), tx.0, x.0);
        } else {
            assert(coeff_of(s, d) == coeff_of(s1, d));
        }
    }
}

/// The text of a nonzero polynomial, read back, is cut into its pieces.
#[verifier::rlimit(80)]
proof fn lemma_text_pieces(s: Seq<Term>)
    requires
        canonical(s),
        s.len() > 0,
    ensures
        polynomial_terms(poly_text(s)) == parse_segments(pieces(s, s.len() as int), s[0].0.0 < 0),
{
    let text = poly_text(s);
    let t = without_spaces(text);
    let rest = s.subrange(1, s.len() as int);
    let c0 = s[0].0;
    let d0 = s[0].1;
    assert(nonzero_coeff(s[0].0));
    assert(all_nonzero(rest)) by {
        assert forall|i: int| 0 <= i < rest.len() implies nonzero_coeff(#[trigger] rest[i].0) by {
            assert(rest[i] == s[i + 1]);
            assert(nonzero_coeff(s[i + 1].0));
        }
    }
    let u0 = term_text(abs_term(s[0]), d0);
    if c0.0 < 0 {
        crate::polynomial::lemma_neg_lowest(c0);
        lemma_negative_term_text(c0, d0);
    }
    lemma_positive_term_whole(abs_term(s[0]), d0);
    lemma_without_spaces_none(u0);
    lemma_compact_later(rest);
    let first = term_text(c0, d0);
    assert(text == first + later_terms_text(rest));
    lemma_without_spaces_concat(first, later_terms_text(rest));
    let neg = c0.0 < 0;
    if neg {
        lemma_without_spaces_concat(seq!['-'], u0);
        assert(without_spaces(seq!['-']) == seq!['-']) by {
            assert(seq!['-'].drop_last() =~= Seq::<char>::empty());
            assert(without_spaces(Seq::<char>::empty()) == Seq::<char>::empty());
        }
        assert(t =~= seq!['-'] + (u0 + compact_later(rest)));
        assert(t.drop_first() =~= u0 + compact_later(rest));
    } else {
        assert(t =~= u0 + compact_later(rest));
        assert(u0[0] != '-');
    }
    let body = u0 + compact_later(rest);
    lemma_not_lone_zero(s, t, u0, neg);
    lemma_split_body(u0, rest);
    assert(split_terms(body) =~= pieces(s, s.len() as int));
}

/// The spaceless text of a nonzero polynomial is not `0`.
#[verifier::rlimit(80)]
proof fn lemma_not_lone_zero(s: Seq<Term>, t: Seq<char>, u0: Seq<char>, neg: bool)
    requires
        canonical(s),
        s.len() > 0,
        neg == (s[0].0.0 < 0),
        u0 == term_text(abs_term(s[0]), s[0].1),
        neg ==> t == seq!['-'] + (u0 + compact_later(s.subrange(1, s.len() as int))),
        !neg ==> t == u0 + compact_later(s.subrange(1, s.len() as int)),
    ensures
        t != seq!['0'],
{
    reveal(crate::parse::term_parts);
    reveal(unsigned_value);
    if t == seq!['0'] {
        assert(t[0] == '0');
        assert(!neg);
        assert(u0.len() >= 1) by {
            lemma_positive_term_whole(abs_term(s[0]), s[0].1);
        }
        assert(u0 =~= seq!['0']) by {
            assert(u0[0] == t[0]);
        }
        assert(nonzero_coeff(s[0].0));
        law_term_text_round_trip(s[0].0, s[0].1);
        reveal(term_value);
        assert(seq!['0'].drop_last() =~= Seq::<char>::empty());
        assert(!seq!['0'].contains('x'));
        assert(!seq!['0'].contains('.'));
        assert(!seq!['0'].contains('/'));
        assert(crate::text::digits_value(Seq::<char>::empty()) == 0);
        assert(crate::text::digits_value(seq!['0']) == 0);
    }
}

/// Writing a canonical polynomial as text and reading the text back gives the
/// same polynomial: `r`, read from the text of `s` as `Polynomial::from_str`
/// reads it, equals `s`.
#[verifier::rlimit(80)]
pub proof fn law_text_round_trip(s: Seq<Term>, r: Seq<Term>)
    requires
        canonical(s),
        canonical(r),
        polynomial_terms(poly_text(s)) matches Ok(ts) ==> forall|d: int|
            same_value(#[trigger] coeff_of(r, d), sum_terms(ts, d)),
    ensures
        polynomial_terms(poly_text(s)) is Ok,
        r == s,
{
    let text = poly_text(s);
    if s.len() == 0 {
        let t = without_spaces(text);
        assert(text == seq!['0']);
        assert(seq!['0'].drop_last() =~= Seq::<char>::empty());
        assert(without_spaces(Seq::<char>::empty()) == Seq::<char>::empty());
        assert(t =~= seq!['0']);
        assert(polynomial_terms(text) == Ok::<Seq<Term>, crate::error::ParseError>(Seq::empty()));
        assert forall|d: int| #[trigger] coeff_of(r, d) == coeff_of(s, d) by {
            let c = coeff_of(r, d);
            assert(same_value(c, sum_terms(Seq::<Term>::empty(), d)));
            assert(c.0 == 0) by (nonlinear_arith)
                requires
                    c.0 * 1 == 0 * c.1,
            ;
            lemma_coeff_of(r, d);
            crate::polynomial::lemma_zero_lowest(c);
        }
        lemma_canonical_unique(r, s);
    } else {
        lemma_text_pieces(s);
        let neg = s[0].0.0 < 0;
        lemma_parse_pieces(s, s.len() as int);
        assert(s.subrange(0, s.len() as int) =~= s);
        let ts = parse_segments(pieces(s, s.len() as int), neg)->Ok_0;
        assert forall|d: int| #[trigger] coeff_of(r, d) == coeff_of(s, d) by {
            lemma_sum_agrees(ts, s, d);
            lemma_coeff_of(r, d);
            lemma_coeff_of(s, d);
            assert(same_value(coeff_of(r, d), sum_terms(ts, d)));
            lemma_same_value_trans(coeff_of(r, d), sum_terms(ts, d), coeff_of(s, d));
            crate::rational::lemma_lowest_terms_unique(coeff_of(r, d), coeff_of(s, d));
        }
        lemma_canonical_unique(r, s);
    }
}

} // verus!
