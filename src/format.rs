//! Writing terms and polynomials as text.

use crate::integer::Integer;
use crate::monomial::Monomial;
use crate::polynomial::{Polynomial, Term};
use crate::text::{coeff_text, coeff_to_text, int_text, int_to_text, push_all, string_of};
use vstd::prelude::*;

verus! {

/// The text of a term: the coefficient alone at degree zero; otherwise `x`
/// with `^degree` unless the degree is one, after the coefficient, which is
/// left out when it is one and written `-` when it is minus one.
pub open spec fn term_text(c: (int, int), d: int) -> Seq<char> {
    if d == 0 {
        coeff_text(c)
    } else {
        let head = if c == (1int, 1int) {
            Seq::<char>::empty()
        } else if c == (-1int, 1int) {
            seq!['-']
        } else {
            coeff_text(c)
        };
        if d == 1 {
            head + seq!['x']
        } else {
            head + seq!['x', '^'] + int_text(d)
        }
    }
}

/// A term after the first: ` + ` and the term, or ` - ` and the term negated.
pub open spec fn later_term_text(t: Term) -> Seq<char> {
    if t.0.0 > 0 {
        seq![' ', '+', ' '] + term_text(t.0, t.1)
    } else {
        seq![' ', '-', ' '] + term_text((-t.0.0, t.0.1), t.1)
    }
}

/// The text of the terms after the first.
pub open spec fn later_terms_text(s: Seq<Term>) -> Seq<char>
    decreases s.len(),
{
    if s.len() == 0 {
        Seq::empty()
    } else {
        later_terms_text(s.drop_last()) + later_term_text(s.last())
    }
}

/// The text of a polynomial: `0`, or its terms from the highest degree down.
pub open spec fn poly_text(s: Seq<Term>) -> Seq<char> {
    if s.len() == 0 {
        seq!['0']
    } else {
        term_text(s[0].0, s[0].1) + later_terms_text(s.subrange(1, s.len() as int))
    }
}

/// The characters of a term.
fn term_chars(m: &Monomial) -> (r: Vec<char>)
    requires
        m.wf(),
    ensures
        r@ == term_text(m.coeff@, m.degree@),
{
    if m.degree.is_zero() {
        return coeff_to_text(&m.coeff);
    }
    let one = Integer::from_i64(1);
    let mut out: Vec<char> = Vec::new();
    if m.coeff.is_one() {
    } else if m.coeff.numer().equals(&Integer::from_i64(-1)) && m.coeff.denom().equals(&one) {
        out.push('-');
    } else {
        out = coeff_to_text(&m.coeff);
    }
    proof {
        assert(out@ =~= (if m.coeff@ == (1int, 1int) {
            Seq::<char>::empty()
        } else if m.coeff@ == (-1int, 1int) {
            seq!['-']
        } else {
            coeff_text(m.coeff@)
        }));
    }
    out.push('x');
    if !m.degree.equals(&one) {
        out.push('^');
        push_all(&mut out, &int_to_text(&m.degree));
    }
    proof {
        let head = if m.coeff@ == (1int, 1int) {
            Seq::<char>::empty()
        } else if m.coeff@ == (-1int, 1int) {
            seq!['-']
        } else {
            coeff_text(m.coeff@)
        };
        if m.degree@ == 1 {
            assert(out@ =~= head + seq!['x']);
        } else {
            assert(out@ =~= head + seq!['x', '^'] + int_text(m.degree@));
        }
    }
    out
}

impl Monomial {
    /// The text of the term, such as `2.5x^4`, `-x` or `7`.
    pub fn to_string(&self) -> (r: String)
        requires
            self.wf(),
        ensures
            r@ == term_text(self.coeff@, self.degree@),
    {
        string_of(&term_chars(self))
    }
}

impl Polynomial {
    /// The text of the polynomial, such as `2.5x^4 + 5x - 2`, or `0`.
    pub fn to_string(&self) -> (r: String)
        requires
            self.wf(),
        ensures
            r@ == poly_text(self@),
    {
        if self.is_zero() {
            let mut z: Vec<char> = Vec::new();
            z.push('0');
            assert(z@ =~= seq!['0']);
            return string_of(&z);
        }
        let ghost s = self@;
        let first = self.term(0);
        proof {
            assert(crate::polynomial::nonzero_coeff(s[0].0));
        }
        let mut out = term_chars(first);
        let mut i: usize = 1;
        proof {
            assert(s.subrange(1, 1) =~= Seq::<Term>::empty());
            assert(out@ =~= term_text(s[0].0, s[0].1) + later_terms_text(s.subrange(1, 1)));
        }
        while i < self.len()
            invariant
                self.wf(),
                s == self@,
                1 <= i <= s.len(),
                out@ == term_text(s[0].0, s[0].1) + later_terms_text(s.subrange(1, i as int)),
            decreases s.len() - i,
        {
            let m = self.term(i);
            proof {
                assert(crate::polynomial::nonzero_coeff(s[i as int].0));
            }
            let ghost before = out@;
            if m.coeff.is_positive() {
                out.push(' ');
                out.push('+');
                out.push(' ');
                push_all(&mut out, &term_chars(m));
            } else {
                out.push(' ');
                out.push('-');
                out.push(' ');
                push_all(&mut out, &term_chars(&m.neg()));
            }
            proof {
                let next = s.subrange(1, i + 1);
                assert(next.drop_last() =~= s.subrange(1, i as int));
                assert(next.last() == s[i as int]);
                assert(out@ =~= before + later_term_text(s[i as int]));
            }
            i = i + 1;
        }
        proof {
            assert(out@ =~= poly_text(s));
        }
        string_of(&out)
    }
}

} // verus!
