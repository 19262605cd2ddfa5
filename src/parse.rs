//! Reading terms and polynomials from text.

use crate::arith::sum_terms;
use crate::error::ParseError;
use crate::integer::Integer;
use crate::monomial::Monomial;
use crate::polynomial::{coeff_of, lemma_coeff_of, Polynomial, Term};
use crate::rational::{
    lemma_add_congruent, lemma_den_positive, lemma_same_value_trans, q_add, same_value, Rational,
};
use crate::text::{
    all_digits, chars_of, digits_value, first_index, find_char, int_from_text, is_digits,
    number_value, parse_number, slice,
};
use vstd::prelude::*;

verus! {

/// The value of a signed integer `[+|-] digits`, if the text is one.
pub open spec fn int_value(s: Seq<char>) -> Option<int> {
    let neg = s.len() > 0 && s[0] == '-';
    let body = if s.len() > 0 && (s[0] == '-' || s[0] == '+') { s.drop_first() } else { s };
    if is_digits(body) {
        Some(if neg { -(digits_value(body) as int) } else { digits_value(body) as int })
    } else {
        None
    }
}

/// A term split into the text of its coefficient and its degree: `init "x^"
/// degree`, `init "x"` (degree one) or `init` (degree zero), by the first `x`.
#[verifier::opaque]
pub open spec fn term_parts(s: Seq<char>) -> (Seq<char>, Option<Seq<char>>, int) {
    if s.contains('x') {
        let i = first_index(s, 'x');
        if i + 1 < s.len() && s[i + 1] == '^' {
            (s.subrange(0, i), Some(s.subrange(i + 2, s.len() as int)), 0)
        } else if i + 1 == s.len() {
            (s.subrange(0, i), None, 1)
        } else {
            (s, None, 0)
        }
    } else {
        (s, None, 0)
    }
}

/// The coefficient and degree read from the text of one term, spaces already
/// removed: an empty text is `InvalidSyntax`, a degree that is not an integer
/// `ParseInt`, a coefficient that is not a number `ParseRational`, and a zero
/// coefficient `InvalidValue`. Without digits, `x` has the coefficient one and
/// `-x` minus one.
#[verifier::opaque]
pub open spec fn term_value(s: Seq<char>) -> Result<((int, int), int), ParseError> {
    let (init, dtext, d1) = term_parts(s);
    let degree = match dtext {
        Some(t) => int_value(t),
        None => Some(d1),
    };
    if s.len() == 0 {
        Err(ParseError::InvalidSyntax)
    } else if degree is None {
        Err(ParseError::ParseInt)
    } else {
        let d = degree->Some_0;
        let c = if d != 0 && (init == Seq::<char>::empty() || init == seq!['+']) {
            Some((1int, 1int))
        } else if d != 0 && init == seq!['-'] {
            Some((-1int, 1int))
        } else {
            number_value(init)
        };
        match c {
            None => Err(ParseError::ParseRational),
            Some(v) => if v.0 == 0 {
                Err(ParseError::InvalidValue)
            } else {
                Ok((v, d))
            },
        }
    }
}

/// A term read from text has a nonzero denominator.
pub proof fn lemma_term_den(s: Seq<char>)
    requires
        term_value(s) is Ok,
    ensures
        term_value(s)->Ok_0.0.1 != 0,
{
    reveal(term_value);
    let (init, dtext, d1) = term_parts(s);
    if number_value(init) is Some {
        crate::text::lemma_number_den(init);
    }
}

/// Reads a signed integer `[+|-] digits`.
fn parse_int(s: &Vec<char>) -> (r: Result<Integer, ParseError>)
    ensures
        match int_value(s@) {
            Some(v) => r matches Ok(i) && i@ == v,
            None => r == Err::<Integer, ParseError>(ParseError::ParseInt),
        },
{
    let len = s.len();
    let neg = len > 0 && s[0] == '-';
    let start: usize = if len > 0 && (s[0] == '-' || s[0] == '+') { 1 } else { 0 };
    let body = slice(s, start, len);
    proof {
        let b = if s@.len() > 0 && (s@[0] == '-' || s@[0] == '+') { s@.drop_first() } else { s@ };
        assert(body@ =~= b);
    }
    if !all_digits(&body) {
        return Err(ParseError::ParseInt);
    }
    let v = int_from_text(&body);
    if neg {
        Ok(v.neg())
    } else {
        Ok(v)
    }
}

impl Monomial {
    /// Reads one term, such as `-2.5x^4`, `x`, `3/7x^-2` or `12`.
    #[verifier::rlimit(80)]
    pub fn parse_chars(s: &Vec<char>) -> (r: Result<Monomial, ParseError>)
        ensures
            match term_value(s@) {
                Ok(t) => r matches Ok(m) && m.wf() && same_value(m.coeff@, t.0) && m.degree@ == t.1,
                Err(e) => r == Err::<Monomial, ParseError>(e),
            },
    {
        reveal(term_value);
        reveal(term_parts);
        if s.len() == 0 {
            return Err(ParseError::InvalidSyntax);
        }
        let len = s.len();
        let (init, degree) = match find_char(s, 'x') {
            Some(i) => {
                proof {
                    crate::text::lemma_first_index(s@, 'x', i as int);
                }
                if i + 1 < len && s[i + 1] == '^' {
                    let d = parse_int(&slice(s, i + 2, len))?;
                    (slice(s, 0, i), d)
                } else if i + 1 == len {
                    (slice(s, 0, i), Integer::from_i64(1))
                } else {
                    (s.clone(), Integer::zero())
                }
            },
            None => (s.clone(), Integer::zero()),
        };
        proof {
            assert(init@ == term_parts(s@).0);
        }
        let unit = !degree.is_zero() && (init.len() == 0 || (init.len() == 1 && init[0] == '+'));
        let minus = !degree.is_zero() && init.len() == 1 && init[0] == '-';
        proof {
            if init@.len() == 0 {
                assert(init@ =~= Seq::<char>::empty());
            }
            if init@.len() == 1 && init@[0] == '+' {
                assert(init@ =~= seq!['+']);
            }
            if init@.len() == 1 && init@[0] == '-' {
                assert(init@ =~= seq!['-']);
            }
            assert(seq!['+'].len() == 1 && seq!['+'][0] == '+');
            assert(seq!['-'].len() == 1 && seq!['-'][0] == '-');
            assert(unit == (degree@ != 0 && (init@ == Seq::<char>::empty() || init@ == seq!['+'])));
            assert(minus == (degree@ != 0 && init@ == seq!['-']));
        }
        let ghost v: (int, int) = if unit {
            (1, 1)
        } else if minus {
            (-1, 1)
        } else {
            number_value(init@)->Some_0
        };
        let coeff = if unit {
            Rational::from_integer(Integer::from_i64(1))
        } else if minus {
            Rational::from_integer(Integer::from_i64(-1))
        } else {
            parse_number(&init)?
        };
        proof {
            assert(same_value(coeff@, v));
            assert(v.1 != 0) by {
                if !unit && !minus {
                    crate::text::lemma_number_den(init@);
                }
            }
        }
        if coeff.is_zero() {
            proof {
                assert(v.0 * coeff@.1 == 0) by (nonlinear_arith)
                    requires
                        coeff@.0 * v.1 == v.0 * coeff@.1,
                        coeff@.0 == 0,
                ;
                assert(v.0 == 0) by (nonlinear_arith)
                    requires
                        v.0 * coeff@.1 == 0,
                        coeff@.1 > 0,
                ;
            }
            return Err(ParseError::InvalidValue);
        }
        proof {
            if v.0 == 0 {
                assert(coeff@.0 * v.1 == 0);
                assert(coeff@.0 == 0) by (nonlinear_arith)
                    requires
                        coeff@.0 * v.1 == 0,
                        v.1 != 0,
                ;
            }
        }
        Ok(Monomial::new(coeff, degree))
    }

    /// Reads one term from text, as `parse_chars` does.
    pub fn from_str(s: &str) -> (r: Result<Monomial, ParseError>)
        ensures
            match term_value(s@) {
                Ok(t) => r matches Ok(m) && m.wf() && same_value(m.coeff@, t.0) && m.degree@ == t.1,
                Err(e) => r == Err::<Monomial, ParseError>(e),
            },
    {
        Monomial::parse_chars(&chars_of(s))
    }
}

} // verus!

verus! {

/// The ASCII whitespace characters.
pub open spec fn is_space(c: char) -> bool {
    c == ' ' || c == '\t' || c == '\n' || c == '\r' || c == '\x0C'
}

/// The text with its whitespace removed.
pub open spec fn without_spaces(s: Seq<char>) -> Seq<char>
    decreases s.len(),
{
    if s.len() == 0 {
        s
    } else if is_space(s.last()) {
        without_spaces(s.drop_last())
    } else {
        without_spaces(s.drop_last()).push(s.last())
    }
}

/// The text cut into terms: at every `+`, which is dropped, and before every
/// `-` that does not follow `^`, which stays with the term it starts.
pub open spec fn split_terms(t: Seq<char>) -> Seq<Seq<char>>
    decreases t.len(),
{
    if t.len() == 0 {
        seq![Seq::empty()]
    } else {
        let segs = split_terms(t.drop_last());
        let c = t.last();
        if c == '+' {
            segs.push(Seq::empty())
        } else if c == '-' && !(t.len() >= 2 && t[t.len() - 2] == '^') {
            segs.push(seq!['-'])
        } else {
            segs.update(segs.len() - 1, segs.last().push(c))
        }
    }
}

pub proof fn lemma_split_terms_len(t: Seq<char>)
    ensures
        split_terms(t).len() >= 1,
    decreases t.len(),
{
    if t.len() > 0 {
        lemma_split_terms_len(t.drop_last());
    }
}

/// The terms read from the pieces of text in order, the first negated when
/// `neg_first`; the error of the first piece that is not a term.
pub open spec fn parse_segments(segs: Seq<Seq<char>>, neg_first: bool) -> Result<Seq<Term>, ParseError>
    decreases segs.len(),
{
    if segs.len() == 0 {
        Ok(Seq::empty())
    } else {
        match parse_segments(segs.drop_last(), neg_first) {
            Err(e) => Err(e),
            Ok(ts) => match term_value(segs.last()) {
                Err(e) => Err(e),
                Ok(t) => Ok(ts.push(
                    if segs.len() == 1 && neg_first {
                        ((-t.0.0, t.0.1), t.1)
                    } else {
                        t
                    },
                )),
            },
        }
    }
}

/// The terms of a polynomial read from text: none for `0`; otherwise, with
/// whitespace removed and a leading `-` kept apart for the first term, the
/// pieces between the signs.
pub open spec fn polynomial_terms(s: Seq<char>) -> Result<Seq<Term>, ParseError> {
    let t = without_spaces(s);
    if t == seq!['0'] {
        Ok(Seq::empty())
    } else {
        let neg = t.len() > 0 && t[0] == '-';
        let body = if neg { t.drop_first() } else { t };
        parse_segments(split_terms(body), neg)
    }
}

proof fn lemma_parse_segments_err(segs: Seq<Seq<char>>, neg: bool, j: int, e: ParseError)
    requires
        0 <= j <= segs.len(),
        parse_segments(segs.take(j), neg) == Err::<Seq<Term>, ParseError>(e),
    ensures
        parse_segments(segs, neg) == Err::<Seq<Term>, ParseError>(e),
    decreases segs.len() - j,
{
    if j < segs.len() {
        assert(segs.take(j + 1).drop_last() =~= segs.take(j));
        lemma_parse_segments_err(segs, neg, j + 1, e);
    } else {
        assert(segs.take(j) =~= segs);
    }
}

/// The characters with the whitespace removed.
fn strip_spaces(chars: &Vec<char>) -> (t: Vec<char>)
    ensures
        t@ == without_spaces(chars@),
{
    let mut t: Vec<char> = Vec::new();
    let mut i: usize = 0;
    while i < chars.len()
        invariant
            i <= chars@.len(),
            t@ == without_spaces(chars@.take(i as int)),
        decreases chars@.len() - i,
    {
        let c = chars[i];
        proof {
            assert(chars@.take(i + 1).drop_last() =~= chars@.take(i as int));
        }
        if !(c == ' ' || c == '\t' || c == '\n' || c == '\r' || c == '\x0C') {
            t.push(c);
        }
        i = i + 1;
    }
    proof {
        assert(chars@.take(chars@.len() as int) =~= chars@);
    }
    t
}

/// The pieces of text between the signs.
fn split_pieces(body: &Vec<char>) -> (r: Vec<Vec<char>>)
    ensures
        r@.len() == split_terms(body@).len(),
        forall|j: int| 0 <= j < r@.len() ==> #[trigger] r@[j]@ == split_terms(body@)[j],
{
    let mut done: Vec<Vec<char>> = Vec::new();
    let mut cur: Vec<char> = Vec::new();
    let ghost mut pieces: Seq<Seq<char>> = Seq::empty();
    let mut k: usize = 0;
    while k < body.len()
        invariant
            k <= body@.len(),
            done@.len() == pieces.len(),
            forall|j: int| 0 <= j < pieces.len() ==> #[trigger] done@[j]@ == pieces[j],
            pieces.push(cur@) == split_terms(body@.take(k as int)),
        decreases body@.len() - k,
    {
        let c = body[k];
        let ghost prev = body@.take(k as int);
        proof {
            assert(body@.take(k + 1).drop_last() =~= prev);
            assert(body@.take(k + 1).last() == c);
            if k >= 1 {
                assert(body@.take(k + 1)[k - 1] == body@[k - 1]);
            }
        }
        if c == '+' {
            let piece = cur;
            done.push(piece);
            cur = Vec::new();
            proof {
                pieces = pieces.push(piece@);
                assert(pieces.push(cur@) =~= split_terms(prev).push(Seq::empty()));
            }
        } else if c == '-' && !(k >= 1 && body[k - 1] == '^') {
            let piece = cur;
            done.push(piece);
            cur = Vec::new();
            cur.push('-');
            proof {
                pieces = pieces.push(piece@);
                assert(pieces.push(cur@) =~= split_terms(prev).push(seq!['-']));
            }
        } else {
            cur.push(c);
            proof {
                let segs = split_terms(prev);
                assert(pieces.push(cur@) =~= segs.update(segs.len() - 1, segs.last().push(c)));
            }
        }
        k = k + 1;
    }
    let ghost last = cur@;
    done.push(cur);
    proof {
        assert(body@.take(body@.len() as int) =~= body@);
        let segs = split_terms(body@);
        assert(segs == pieces.push(last));
        assert forall|j: int| 0 <= j < done@.len() implies #[trigger] done@[j]@ == segs[j] by {
            if j < pieces.len() {
                assert(done@[j]@ == pieces[j]);
            }
        }
    }
    done
}

/// Negating values that agree gives values that agree.
proof fn lemma_neg_congruent(a: (int, int), b: (int, int))
    requires
        same_value(a, b),
    ensures
        same_value((-a.0, a.1), (-b.0, b.1)),
{
    assert((-a.0) * b.1 == (-b.0) * a.1) by (nonlinear_arith)
        requires
            a.0 * b.1 == b.0 * a.1,
    ;
}

/// The term read from a piece, negated when `negate`.
pub open spec fn signed_term(t: Term, negate: bool) -> Term {
    if negate {
        ((-t.0.0, t.0.1), t.1)
    } else {
        t
    }
}

/// Reads one piece and adds its term.
#[verifier::rlimit(80)]
fn add_piece(p: &mut Polynomial, piece: &Vec<char>, negate: bool) -> (r: Result<(), ParseError>)
    requires
        old(p).wf(),
    ensures
        match term_value(piece@) {
            Err(e) => r == Err::<(), ParseError>(e),
            Ok(tv) => r is Ok && final(p).wf() && ({
                let t = signed_term(tv, negate);
                &&& forall|d: int| d != t.1 ==> #[trigger] coeff_of(final(p)@, d) == coeff_of(old(p)@, d)
                &&& same_value(coeff_of(final(p)@, t.1), q_add(coeff_of(old(p)@, t.1), t.0))
            }),
        },
{
    let m = Monomial::parse_chars(piece)?;
    let ghost tv = term_value(piece@)->Ok_0;
    let ghost c0 = m.coeff@;
    let m = if negate { m.neg() } else { m };
    proof {
        if negate {
            lemma_neg_congruent(c0, tv.0);
        }
    }
    let ghost old_p = *p;
    let ghost t = signed_term(tv, negate);
    p.add_term(m);
    proof {
        let e = t.1;
        lemma_coeff_of(old_p@, e);
        crate::rational::lemma_add_congruent(coeff_of(old_p@, e), coeff_of(old_p@, e), m.coeff@, t.0);
        lemma_den_positive(coeff_of(old_p@, e), m.coeff@);
        lemma_same_value_trans(
            coeff_of(p@, e),
            q_add(coeff_of(old_p@, e), m.coeff@),
            q_add(coeff_of(old_p@, e), t.0),
        );
    }
    Ok(())
}

proof fn lemma_sum_step(old_p: Seq<Term>, new_p: Seq<Term>, ts: Seq<Term>, t: Term)
    requires
        crate::polynomial::canonical(old_p),
        t.0.1 != 0,
        forall|d: int| same_value(#[trigger] coeff_of(old_p, d), sum_terms(ts, d)),
        forall|d: int| d != t.1 ==> #[trigger] coeff_of(new_p, d) == coeff_of(old_p, d),
        same_value(coeff_of(new_p, t.1), q_add(coeff_of(old_p, t.1), t.0)),
    ensures
        forall|d: int| same_value(#[trigger] coeff_of(new_p, d), sum_terms(ts.push(t), d)),
{
    let nts = ts.push(t);
    assert(nts.drop_last() =~= ts);
    assert(nts.last() == t);
    assert forall|d: int| same_value(#[trigger] coeff_of(new_p, d), sum_terms(nts, d)) by {
        if d == t.1 {
            lemma_coeff_of(old_p, d);
            lemma_add_congruent(coeff_of(old_p, d), sum_terms(ts, d), t.0, t.0);
            lemma_den_positive(coeff_of(old_p, d), (t.0.0, if t.0.1 > 0 { t.0.1 } else { -t.0.1 }));
            assert(q_add(coeff_of(old_p, d), t.0).1 != 0) by (nonlinear_arith)
                requires
                    coeff_of(old_p, d).1 > 0,
                    t.0.1 != 0,
            ;
            lemma_same_value_trans(
                coeff_of(new_p, d),
                q_add(coeff_of(old_p, d), t.0),
                q_add(sum_terms(ts, d), t.0),
            );
        }
    }
}

impl Polynomial {
    /// Reads a polynomial such as `-2x^4 - 2.5x + 1`; terms of equal degree are
    /// summed.
    #[verifier::rlimit(80)]
    pub fn from_str(s: &str) -> (r: Result<Polynomial, ParseError>)
        ensures
            match polynomial_terms(s@) {
                Ok(ts) => r matches Ok(p) && p.wf() && forall|d: int|
                    same_value(#[trigger] coeff_of(p@, d), sum_terms(ts, d)),
                Err(e) => r == Err::<Polynomial, ParseError>(e),
            },
    {
        let t = strip_spaces(&chars_of(s));
        if t.len() == 1 && t[0] == '0' {
            proof {
                assert(t@ =~= seq!['0']);
            }
            return Ok(Polynomial::zero());
        }
        proof {
            assert(seq!['0'].len() == 1 && seq!['0'][0] == '0');
        }
        let neg = t.len() > 0 && t[0] == '-';
        let body = if neg { slice(&t, 1, t.len()) } else { t.clone() };
        proof {
            if neg {
                assert(body@ =~= t@.drop_first());
            } else {
                assert(body@ =~= t@);
            }
        }
        let done = split_pieces(&body);
        let ghost segs = split_terms(body@);
        proof {
            assert(t@ != seq!['0']);
            assert(polynomial_terms(s@) == parse_segments(segs, neg));
        }
        let mut p = Polynomial::zero();
        let mut j: usize = 0;
        let ghost mut ts: Seq<Term> = Seq::empty();
        proof {
            assert(segs.take(0) =~= Seq::<Seq<char>>::empty());
        }
        while j < done.len()
            invariant
                j <= done@.len(),
                done@.len() == segs.len(),
                polynomial_terms(s@) == parse_segments(segs, neg),
                forall|x: int| 0 <= x < segs.len() ==> #[trigger] done@[x]@ == segs[x],
                parse_segments(segs.take(j as int), neg) == Ok::<Seq<Term>, ParseError>(ts),
                p.wf(),
                forall|d: int| same_value(#[trigger] coeff_of(p@, d), sum_terms(ts, d)),
            decreases done@.len() - j,
        {
            proof {
                assert(segs.take(j + 1).drop_last() =~= segs.take(j as int));
                assert(segs.take(j + 1).last() == segs[j as int]);
                assert(done@[j as int]@ == segs[j as int]);
            }
            let ghost old_p = p@;
            let negate = j == 0 && neg;
            match add_piece(&mut p, &done[j], negate) {
                Ok(()) => {},
                Err(e) => {
                    proof {
                        assert(term_value(done@[j as int]@) is Err);
                        assert(term_value(segs[j as int]) == Err::<((int, int), int), ParseError>(e));
                        assert(parse_segments(segs.take(j + 1), neg) == Err::<Seq<Term>, ParseError>(e));
                        lemma_parse_segments_err(segs, neg, j + 1, e);
                    }
                    return Err(e);
                },
            }
            proof {
                let tv = term_value(segs[j as int])->Ok_0;
                let t = signed_term(tv, negate);
                lemma_term_den(segs[j as int]);
                lemma_sum_step(old_p, p@, ts, t);
                ts = ts.push(t);
            }
            j = j + 1;
        }
        proof {
            assert(segs.take(segs.len() as int) =~= segs);
        }
        Ok(p)
    }
}

} // verus!
