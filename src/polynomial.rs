//! Polynomials as canonical sparse sequences of terms, highest degree first.

use crate::integer::Integer;
use crate::monomial::Monomial;
use crate::monomial::lemma_nonzero_product;
use crate::rational::{lowest_terms, q_add, q_div, q_mul, rat_add, same_value, scaled_multiple, Rational};
use vstd::prelude::*;

verus! {

/// A coefficient (numerator, denominator) paired with a degree.
pub type Term = ((int, int), int);

/// The coefficient is a nonzero fraction in lowest terms.
pub open spec fn nonzero_coeff(c: (int, int)) -> bool {
    lowest_terms(c.0, c.1) && c.0 != 0
}

/// Canonical form: nonzero coefficients in lowest terms, degrees strictly descending.
pub open spec fn canonical(s: Seq<Term>) -> bool {
    &&& forall|i: int| 0 <= i < s.len() ==> nonzero_coeff(#[trigger] s[i].0)
    &&& forall|i: int, j: int| 0 <= i < j < s.len() ==> #[trigger] s[i].1 > #[trigger] s[j].1
}

/// The coefficient of `x^d`, zero (as `0 / 1`) where no term has that degree.
pub open spec fn coeff_of(s: Seq<Term>, d: int) -> (int, int)
    decreases s.len(),
{
    if s.len() == 0 {
        (0, 1)
    } else if s[0].1 == d {
        s[0].0
    } else {
        coeff_of(s.drop_first(), d)
    }
}

/// Zero in lowest terms is `0 / 1`.
pub proof fn lemma_zero_lowest(c: (int, int))
    requires
        lowest_terms(c.0, c.1),
        c.0 == 0,
    ensures
        c == (0int, 1int),
{
    if c.1 > 1 {
        assert((0 * 1int) % c.1 == 0) by (nonlinear_arith)
            requires
                c.1 > 1,
        ;
        assert(scaled_multiple(c.0, 1, c.1));
    }
}

/// Where a term has degree `d`, its coefficient is the one of `x^d`; where none
/// has, that coefficient is zero.
pub proof fn lemma_coeff_of(s: Seq<Term>, d: int)
    requires
        canonical(s),
    ensures
        forall|i: int| 0 <= i < s.len() && #[trigger] s[i].1 == d ==> coeff_of(s, d) == s[i].0,
        (forall|i: int| 0 <= i < s.len() ==> #[trigger] s[i].1 != d) ==> coeff_of(s, d) == (0int, 1int),
        lowest_terms(coeff_of(s, d).0, coeff_of(s, d).1),
    decreases s.len(),
{
    if s.len() > 0 {
        let t = s.drop_first();
        assert(canonical(t)) by {
            assert forall|i: int, j: int| 0 <= i < j < t.len() implies #[trigger] t[i].1 > #[trigger] t[j].1 by {
                assert(s[i + 1].1 > s[j + 1].1);
            }
            assert forall|i: int| 0 <= i < t.len() implies nonzero_coeff(#[trigger] t[i].0) by {
                assert(nonzero_coeff(s[i + 1].0));
            }
        }
        lemma_coeff_of(t, d);
        assert forall|i: int| 0 <= i < s.len() && #[trigger] s[i].1 == d implies coeff_of(s, d) == s[i].0 by {
            if i > 0 {
                assert(s[0].1 > s[i].1);
                assert(t[i - 1] == s[i]);
            }
        }
        if forall|i: int| 0 <= i < s.len() ==> #[trigger] s[i].1 != d {
            assert forall|i: int| 0 <= i < t.len() implies #[trigger] t[i].1 != d by {
                assert(s[i + 1].1 != d);
            }
        }
        assert(nonzero_coeff(s[0].0));
    } else {
        assert(scaled_multiple(0, 1, 1) || true);
    }
}

/// Two canonical sequences with the same coefficient at every degree are equal.
pub proof fn lemma_canonical_unique(s: Seq<Term>, t: Seq<Term>)
    requires
        canonical(s),
        canonical(t),
        forall|d: int| #[trigger] coeff_of(s, d) == coeff_of(t, d),
    ensures
        s == t,
    decreases s.len() + t.len(),
{
    if s.len() == 0 && t.len() == 0 {
        assert(s =~= t);
    } else if s.len() == 0 {
        lemma_coeff_of(t, t[0].1);
        assert(coeff_of(s, t[0].1) == coeff_of(t, t[0].1));
        assert(nonzero_coeff(t[0].0));
    } else if t.len() == 0 {
        lemma_coeff_of(s, s[0].1);
        assert(coeff_of(s, s[0].1) == coeff_of(t, s[0].1));
        assert(nonzero_coeff(s[0].0));
    } else {
        lemma_coeff_of(s, s[0].1);
        lemma_coeff_of(t, s[0].1);
        lemma_coeff_of(s, t[0].1);
        lemma_coeff_of(t, t[0].1);
        assert(coeff_of(s, s[0].1) == coeff_of(t, s[0].1));
        assert(coeff_of(s, t[0].1) == coeff_of(t, t[0].1));
        assert(nonzero_coeff(s[0].0));
        assert(nonzero_coeff(t[0].0));
        if s[0].1 > t[0].1 {
            assert forall|i: int| 0 <= i < t.len() implies #[trigger] t[i].1 != s[0].1 by {
                if i > 0 {
                    assert(t[0].1 > t[i].1);
                }
            }
        } else if t[0].1 > s[0].1 {
            assert forall|i: int| 0 <= i < s.len() implies #[trigger] s[i].1 != t[0].1 by {
                if i > 0 {
                    assert(s[0].1 > s[i].1);
                }
            }
        } else {
            let (s1, t1) = (s.drop_first(), t.drop_first());
            lemma_drop_first_canonical(s);
            lemma_drop_first_canonical(t);
            assert forall|d: int| #[trigger] coeff_of(s1, d) == coeff_of(t1, d) by {
                assert(coeff_of(s, d) == coeff_of(t, d));
                if d == s[0].1 {
                    lemma_coeff_of(s1, d);
                    lemma_coeff_of(t1, d);
                    assert forall|i: int| 0 <= i < s1.len() implies #[trigger] s1[i].1 != d by {
                        assert(s[0].1 > s[i + 1].1);
                    }
                    assert forall|i: int| 0 <= i < t1.len() implies #[trigger] t1[i].1 != d by {
                        assert(t[0].1 > t[i + 1].1);
                    }
                }
            }
            lemma_canonical_unique(s1, t1);
            assert(s =~= seq![s[0]] + s1);
            assert(t =~= seq![t[0]] + t1);
        }
    }
}

pub proof fn lemma_drop_first_canonical(s: Seq<Term>)
    requires
        canonical(s),
        s.len() > 0,
    ensures
        canonical(s.drop_first()),
{
    let t = s.drop_first();
    assert forall|i: int, j: int| 0 <= i < j < t.len() implies #[trigger] t[i].1 > #[trigger] t[j].1 by {
        assert(s[i + 1].1 > s[j + 1].1);
    }
    assert forall|i: int| 0 <= i < t.len() implies nonzero_coeff(#[trigger] t[i].0) by {
        assert(nonzero_coeff(s[i + 1].0));
    }
}

/// A polynomial in one variable with rational coefficients: its terms sorted by
/// degree, highest first, each degree at most once, no zero coefficient.
#[derive(Debug)]
pub struct Polynomial {
    terms: Vec<Monomial>,
}

impl View for Polynomial {
    type V = Seq<Term>;

    closed spec fn view(&self) -> Seq<Term> {
        self.terms@.map_values(|m: Monomial| m.term())
    }
}

impl Clone for Polynomial {
    fn clone(&self) -> (r: Polynomial)
        ensures
            r@ == self@,
    {
        let mut terms: Vec<Monomial> = Vec::new();
        let mut k: usize = 0;
        while k < self.terms.len()
            invariant
                k <= self.terms@.len(),
                terms@.len() == k,
                forall|i: int| 0 <= i < k ==> #[trigger] terms@[i].term() == self.terms@[i].term(),
            decreases self.terms@.len() - k,
        {
            terms.push(self.terms[k].clone());
            k = k + 1;
        }
        let r = Polynomial { terms };
        assert(r@ =~= self@);
        r
    }
}

impl PartialEq for Polynomial {
    fn eq(&self, other: &Polynomial) -> (r: bool)
        ensures
            r == (self@ == other@),
    {
        if self.terms.len() != other.terms.len() {
            return false;
        }
        let mut k: usize = 0;
        while k < self.terms.len()
            invariant
                self@.len() == other@.len(),
                k <= self@.len(),
                forall|i: int| 0 <= i < k ==> #[trigger] self@[i] == other@[i],
            decreases self@.len() - k,
        {
            let (a, b) = (&self.terms[k], &other.terms[k]);
            assert(a.term() == self@[k as int] && b.term() == other@[k as int]);
            if !a.coeff.equals(&b.coeff) || !a.degree.equals(&b.degree) {
                return false;
            }
            k = k + 1;
        }
        assert(self@ =~= other@);
        true
    }
}

impl vstd::std_specs::cmp::PartialEqSpecImpl for Polynomial {
    open spec fn obeys_eq_spec() -> bool {
        true
    }

    open spec fn eq_spec(&self, other: &Polynomial) -> bool {
        self@ == other@
    }
}

impl Polynomial {
    /// The terms are in canonical form.
    pub open spec fn wf(&self) -> bool {
        canonical(self@)
    }

    /// The coefficient of `x^d`.
    pub open spec fn coeff(&self, d: int) -> (int, int) {
        coeff_of(self@, d)
    }

    /// The polynomial with no terms.
    pub fn zero() -> (r: Polynomial)
        ensures
            r.wf(),
            r@ == Seq::<Term>::empty(),
    {
        let r = Polynomial { terms: Vec::new() };
        assert(r@ =~= Seq::<Term>::empty());
        r
    }

    /// The number of terms.
    pub fn len(&self) -> (r: usize)
        ensures
            r == self@.len(),
    {
        self.terms.len()
    }

    /// Whether this is the zero polynomial.
    pub fn is_zero(&self) -> (r: bool)
        ensures
            r == (self@.len() == 0),
    {
        self.terms.len() == 0
    }

    /// The term at position `i`, highest degree first.
    pub fn term(&self, i: usize) -> (r: &Monomial)
        requires
            i < self@.len(),
        ensures
            r.term() == self@[i as int],
    {
        &self.terms[i]
    }

    /// The terms, highest degree first.
    pub fn monomials(&self) -> (r: &Vec<Monomial>)
        ensures
            r@.map_values(|m: Monomial| m.term()) == self@,
    {
        &self.terms
    }

    /// Searches for the term of the given degree: `Ok` with its position, or
    /// `Err` with the position where it would be inserted.
    fn find(&self, degree: &Integer) -> (r: Result<usize, usize>)
        requires
            self.wf(),
        ensures
            r matches Ok(i) ==> i < self@.len() && self@[i as int].1 == degree@,
            r matches Err(i) ==> i <= self@.len()
                && (forall|j: int| 0 <= j < i ==> #[trigger] self@[j].1 > degree@)
                && (forall|j: int| i <= j < self@.len() ==> #[trigger] self@[j].1 < degree@),
    {
        let mut lo: usize = 0;
        let mut hi: usize = self.terms.len();
        while lo < hi
            invariant
                0 <= lo <= hi <= self@.len(),
                self.wf(),
                forall|j: int| 0 <= j < lo ==> #[trigger] self@[j].1 > degree@,
                forall|j: int| hi <= j < self@.len() ==> #[trigger] self@[j].1 < degree@,
            decreases hi - lo,
        {
            let mid = lo + (hi - lo) / 2;
            assert(self@[mid as int].1 == self.terms@[mid as int].degree@);
            match self.terms[mid].degree.compare(degree) {
                core::cmp::Ordering::Equal => {
                    return Ok(mid);
                },
                core::cmp::Ordering::Greater => {
                    assert forall|j: int| 0 <= j < mid + 1 implies #[trigger] self@[j].1 > degree@ by {
                        if j < mid {
                            assert(self@[j].1 > self@[mid as int].1);
                        }
                    }
                    lo = mid + 1;
                },
                core::cmp::Ordering::Less => {
                    assert forall|j: int| mid <= j < self@.len() implies #[trigger] self@[j].1 < degree@ by {
                        if j > mid {
                            assert(self@[mid as int].1 > self@[j].1);
                        }
                    }
                    hi = mid;
                },
            }
        }
        Err(lo)
    }

    /// Returns the term of the given degree, if there is one.
    pub fn get(&self, degree: &Integer) -> (r: Option<&Monomial>)
        requires
            self.wf(),
        ensures
            r matches Some(m) ==> m.term() == (coeff_of(self@, degree@), degree@),
            r is None ==> coeff_of(self@, degree@) == (0int, 1int),
    {
        proof {
            lemma_coeff_of(self@, degree@);
        }
        match self.find(degree) {
            Ok(i) => Some(&self.terms[i]),
            Err(_) => None,
        }
    }

    /// Returns the highest degree, or `None` for the zero polynomial.
    pub fn degree(&self) -> (r: Option<&Integer>)
        ensures
            r matches Some(d) ==> self@.len() > 0 && d@ == self@[0].1,
            r is None ==> self@.len() == 0,
    {
        if self.terms.len() == 0 {
            None
        } else {
            Some(&self.terms[0].degree)
        }
    }

    /// Adds one term, combining it with the term of equal degree and dropping
    /// the result where it cancels.
    pub fn add_term(&mut self, m: Monomial)
        requires
            old(self).wf(),
            m.wf(),
        ensures
            final(self).wf(),
            forall|d: int| d != m.degree@ ==> #[trigger] coeff_of(final(self)@, d) == coeff_of(old(self)@, d),
            same_value(coeff_of(final(self)@, m.degree@), q_add(coeff_of(old(self)@, m.degree@), m.coeff@)),
    {
        let ghost s = self@;
        let ghost e = m.degree@;
        proof {
            lemma_coeff_of(s, e);
        }
        match self.find(&m.degree) {
            Ok(i) => {
                let c = rat_add(&self.terms[i].coeff, &m.coeff);
                assert(self.terms@[i as int].term() == s[i as int]);
                if c.is_zero() {
                    self.terms.remove(i);
                    proof {
                        lemma_zero_lowest(c@);
                        assert(self@ =~= s.remove(i as int));
                        self.lemma_remove(s, i as int);
                    }
                } else {
                    let deg = self.terms[i].degree.clone();
                    self.terms.set(i, Monomial { coeff: c, degree: deg });
                    proof {
                        assert(self@ =~= s.update(i as int, (c@, e)));
                        lemma_update(s, i as int, (c@, e));
                    }
                }
            },
            Err(i) => {
                let ghost t = m.term();
                self.terms.insert(i, m);
                proof {
                    assert(self@ =~= s.insert(i as int, t));
                    lemma_insert(s, i as int, t);
                    assert(q_add((0int, 1int), t.0) == (t.0.0, t.0.1));
                }
            },
        }
    }

    /// The polynomial with every coefficient negated.
    pub fn neg(&self) -> (r: Polynomial)
        requires
            self.wf(),
        ensures
            r.wf(),
            forall|d: int| #[trigger] coeff_of(r@, d) == (-coeff_of(self@, d).0, coeff_of(self@, d).1),
    {
        let mut terms: Vec<Monomial> = Vec::new();
        let mut k: usize = 0;
        while k < self.terms.len()
            invariant
                self.wf(),
                k <= self@.len(),
                terms@.len() == k,
                forall|i: int| 0 <= i < k ==> #[trigger] terms@[i].term() == ((-self@[i].0.0, self@[i].0.1), self@[i].1),
            decreases self@.len() - k,
        {
            assert(self.terms@[k as int].term() == self@[k as int]);
            assert(nonzero_coeff(self@[k as int].0));
            terms.push(self.terms[k].neg());
            k = k + 1;
        }
        let r = Polynomial { terms };
        proof {
            let (s, t) = (self@, r@);
            assert(t.len() == s.len());
            assert forall|i: int| 0 <= i < t.len() implies #[trigger] t[i] == ((-s[i].0.0, s[i].0.1), s[i].1) by {
                assert(t[i] == terms@[i].term());
            }
            assert forall|i: int| 0 <= i < t.len() implies nonzero_coeff(#[trigger] t[i].0) by {
                assert(nonzero_coeff(s[i].0));
                assert forall|e: int| 0 < e < s[i].0.1 implies !#[trigger] scaled_multiple(-s[i].0.0, e, s[i].0.1) by {
                    assert(!scaled_multiple(s[i].0.0, e, s[i].0.1));
                    lemma_neg_multiple(s[i].0.0, e, s[i].0.1);
                }
            }
            assert forall|i: int, j: int| 0 <= i < j < t.len() implies #[trigger] t[i].1 > #[trigger] t[j].1 by {
                assert(s[i].1 > s[j].1);
            }
            assert forall|d: int| #[trigger] coeff_of(t, d) == (-coeff_of(s, d).0, coeff_of(s, d).1) by {
                lemma_coeff_of(s, d);
                lemma_coeff_of(t, d);
                if exists|i: int| 0 <= i < s.len() && #[trigger] s[i].1 == d {
                    let i = choose|i: int| 0 <= i < s.len() && #[trigger] s[i].1 == d;
                    assert(t[i].1 == d);
                } else {
                    assert forall|i: int| 0 <= i < t.len() implies #[trigger] t[i].1 != d by {
                        assert(s[i].1 != d);
                    }
                }
            }
        }
        r
    }

    /// The product with one term: every coefficient is multiplied by its
    /// coefficient and every degree shifted by its degree.
    pub fn mul_monomial(&self, m: &Monomial) -> (r: Polynomial)
        requires
            self.wf(),
            m.wf(),
        ensures
            r.wf(),
            forall|d: int| same_value(#[trigger] coeff_of(r@, d), q_mul(coeff_of(self@, d - m.degree@), m.coeff@)),
    {
        let mut terms: Vec<Monomial> = Vec::new();
        let mut k: usize = 0;
        while k < self.terms.len()
            invariant
                self.wf(),
                m.wf(),
                k <= self@.len(),
                terms@.len() == k,
                forall|i: int| 0 <= i < k ==> (#[trigger] terms@[i]).wf(),
                forall|i: int| 0 <= i < k ==> same_value(#[trigger] terms@[i].coeff@, q_mul(self@[i].0, m.coeff@)),
                forall|i: int| 0 <= i < k ==> #[trigger] terms@[i].degree@ == self@[i].1 + m.degree@,
            decreases self@.len() - k,
        {
            assert(self.terms@[k as int].term() == self@[k as int]);
            assert(nonzero_coeff(self@[k as int].0));
            terms.push(self.terms[k].mul(m));
            k = k + 1;
        }
        let r = Polynomial { terms };
        proof {
            let (s, t, e, c) = (self@, r@, m.degree@, m.coeff@);
            assert(t.len() == s.len());
            assert forall|i: int| 0 <= i < t.len() implies #[trigger] t[i] == terms@[i].term() by {}
            assert forall|i: int| 0 <= i < t.len() implies nonzero_coeff(#[trigger] t[i].0) by {
                assert(t[i] == terms@[i].term());
                assert(terms@[i].wf());
            }
            assert forall|i: int, j: int| 0 <= i < j < t.len() implies #[trigger] t[i].1 > #[trigger] t[j].1 by {
                assert(t[i] == terms@[i].term());
                assert(t[j] == terms@[j].term());
                assert(s[i].1 > s[j].1);
            }
            assert forall|d: int| same_value(#[trigger] coeff_of(t, d), q_mul(coeff_of(s, d - e), c)) by {
                lemma_coeff_of(s, d - e);
                lemma_coeff_of(t, d);
                if exists|i: int| 0 <= i < s.len() && #[trigger] s[i].1 == d - e {
                    let i = choose|i: int| 0 <= i < s.len() && #[trigger] s[i].1 == d - e;
                    assert(t[i] == terms@[i].term());
                    assert(t[i].1 == d);
                    assert(coeff_of(t, d) == terms@[i].coeff@);
                    assert(coeff_of(s, d - e) == s[i].0);
                    assert(same_value(terms@[i].coeff@, q_mul(s[i].0, c)));
                } else {
                    assert forall|i: int| 0 <= i < t.len() implies #[trigger] t[i].1 != d by {
                        assert(t[i] == terms@[i].term());
                        assert(s[i].1 != d - e);
                    }
                    assert(coeff_of(t, d) == (0int, 1int));
                    assert(coeff_of(s, d - e) == (0int, 1int));
                    crate::rational::lemma_mul_zero(c);
                }
            }
        }
        r
    }

    /// The quotient by one term: every coefficient is divided by its
    /// coefficient and every degree shifted down by its degree.
    pub fn div_monomial(&self, m: &Monomial) -> (r: Polynomial)
        requires
            self.wf(),
            m.wf(),
        ensures
            r.wf(),
            forall|d: int| same_value(#[trigger] coeff_of(r@, d), q_div(coeff_of(self@, d + m.degree@), m.coeff@)),
    {
        let mut terms: Vec<Monomial> = Vec::new();
        let mut k: usize = 0;
        while k < self.terms.len()
            invariant
                self.wf(),
                m.wf(),
                k <= self@.len(),
                terms@.len() == k,
                forall|i: int| 0 <= i < k ==> (#[trigger] terms@[i]).wf(),
                forall|i: int| 0 <= i < k ==> same_value(#[trigger] terms@[i].coeff@, q_div(self@[i].0, m.coeff@)),
                forall|i: int| 0 <= i < k ==> #[trigger] terms@[i].degree@ == self@[i].1 - m.degree@,
            decreases self@.len() - k,
        {
            assert(self.terms@[k as int].term() == self@[k as int]);
            assert(nonzero_coeff(self@[k as int].0));
            terms.push(self.terms[k].div(m));
            k = k + 1;
        }
        let r = Polynomial { terms };
        proof {
            let (s, t, e, c) = (self@, r@, m.degree@, m.coeff@);
            assert(t.len() == s.len());
            assert forall|i: int| 0 <= i < t.len() implies #[trigger] t[i] == terms@[i].term() by {}
            assert forall|i: int| 0 <= i < t.len() implies nonzero_coeff(#[trigger] t[i].0) by {
                assert(t[i] == terms@[i].term());
                assert(terms@[i].wf());
            }
            assert forall|i: int, j: int| 0 <= i < j < t.len() implies #[trigger] t[i].1 > #[trigger] t[j].1 by {
                assert(t[i] == terms@[i].term());
                assert(t[j] == terms@[j].term());
                assert(s[i].1 > s[j].1);
            }
            assert forall|d: int| same_value(#[trigger] coeff_of(t, d), q_div(coeff_of(s, d + e), c)) by {
                lemma_coeff_of(s, d + e);
                lemma_coeff_of(t, d);
                if exists|i: int| 0 <= i < s.len() && #[trigger] s[i].1 == d + e {
                    let i = choose|i: int| 0 <= i < s.len() && #[trigger] s[i].1 == d + e;
                    assert(t[i] == terms@[i].term());
                    assert(t[i].1 == d);
                    assert(coeff_of(t, d) == terms@[i].coeff@);
                    assert(coeff_of(s, d + e) == s[i].0);
                    assert(same_value(terms@[i].coeff@, q_div(s[i].0, c)));
                } else {
                    assert forall|i: int| 0 <= i < t.len() implies #[trigger] t[i].1 != d by {
                        assert(t[i] == terms@[i].term());
                        assert(s[i].1 != d + e);
                    }
                    assert(coeff_of(t, d) == (0int, 1int));
                    assert(coeff_of(s, d + e) == (0int, 1int));
                    assert(q_div((0int, 1int), c) == (0 * c.1, 1 * c.0));
                    assert(0int * (1 * c.0) == (0 * c.1) * 1int) by (nonlinear_arith);
                }
            }
        }
        r
    }

    /// Appends a term of lower degree than every present one.
    pub(crate) fn push_lowest(&mut self, m: Monomial)
        requires
            old(self).wf(),
            m.wf(),
            forall|i: int| 0 <= i < old(self)@.len() ==> #[trigger] old(self)@[i].1 > m.degree@,
        ensures
            final(self).wf(),
            final(self)@ == old(self)@.push(m.term()),
    {
        let ghost s = self@;
        let ghost t = m.term();
        self.terms.push(m);
        proof {
            assert(self@ =~= s.insert(s.len() as int, t));
            assert(s.insert(s.len() as int, t) =~= s.push(t));
            lemma_insert(s, s.len() as int, t);
        }
    }

    /// Whether the polynomial has a term of degree `n` or above.
    pub fn reaches(&self, n: &Integer) -> (r: bool)
        requires
            self.wf(),
        ensures
            r == (self@.len() > 0 && self@[0].1 >= n@),
    {
        if self.terms.len() == 0 {
            false
        } else {
            assert(self.terms@[0].term() == self@[0]);
            !matches!(self.terms[0].degree.compare(n), core::cmp::Ordering::Less)
        }
    }

    proof fn lemma_remove(&self, s: Seq<Term>, i: int)
        requires
            canonical(s),
            0 <= i < s.len(),
            self@ == s.remove(i),
        ensures
            self.wf(),
            forall|d: int| d != s[i].1 ==> #[trigger] coeff_of(self@, d) == coeff_of(s, d),
            coeff_of(self@, s[i].1) == (0int, 1int),
    {
        let t = s.remove(i);
        assert(canonical(t)) by {
            assert forall|a: int, b: int| 0 <= a < b < t.len() implies #[trigger] t[a].1 > #[trigger] t[b].1 by {
                let a1 = if a < i { a } else { a + 1 };
                let b1 = if b < i { b } else { b + 1 };
                assert(s[a1].1 > s[b1].1);
            }
            assert forall|a: int| 0 <= a < t.len() implies nonzero_coeff(#[trigger] t[a].0) by {
                let a1 = if a < i { a } else { a + 1 };
                assert(nonzero_coeff(s[a1].0));
            }
        }
        assert forall|d: int| d != s[i].1 implies #[trigger] coeff_of(self@, d) == coeff_of(s, d) by {
            lemma_coeff_of(s, d);
            lemma_coeff_of(t, d);
            if exists|j: int| 0 <= j < s.len() && #[trigger] s[j].1 == d {
                let j = choose|j: int| 0 <= j < s.len() && #[trigger] s[j].1 == d;
                let j1 = if j < i { j } else { j - 1 };
                assert(t[j1] == s[j]);
            } else {
                assert forall|a: int| 0 <= a < t.len() implies #[trigger] t[a].1 != d by {
                    let a1 = if a < i { a } else { a + 1 };
                    assert(s[a1].1 != d);
                }
            }
        }
        lemma_coeff_of(t, s[i].1);
        assert forall|a: int| 0 <= a < t.len() implies #[trigger] t[a].1 != s[i].1 by {
            let a1 = if a < i { a } else { a + 1 };
            assert(a1 != i);
            if a1 < i {
                assert(s[a1].1 > s[i].1);
            } else {
                assert(s[i].1 > s[a1].1);
            }
        }
    }
}

/// `n * e` and `-n * e` are multiples of `d` together.
pub proof fn lemma_neg_multiple(n: int, e: int, d: int)
    requires
        d > 0,
    ensures
        scaled_multiple(-n, e, d) == scaled_multiple(n, e, d),
{
    vstd::arithmetic::mul::lemma_mul_unary_negation(n, e);
    let x = n * e;
    vstd::arithmetic::div_mod::lemma_fundamental_div_mod(x, d);
    vstd::arithmetic::div_mod::lemma_fundamental_div_mod(-x, d);
    if x % d == 0 {
        vstd::arithmetic::div_mod::lemma_mod_multiples_basic(-(x / d), d);
        assert(-(x / d) * d == -x) by (nonlinear_arith)
            requires
                x == d * (x / d) + 0,
        ;
    }
    if (-x) % d == 0 {
        vstd::arithmetic::div_mod::lemma_mod_multiples_basic(-((-x) / d), d);
        assert(-((-x) / d) * d == x) by (nonlinear_arith)
            requires
                -x == d * ((-x) / d) + 0,
        ;
    }
}

/// Negating a fraction in lowest terms keeps it in lowest terms.
pub proof fn lemma_neg_lowest(c: (int, int))
    requires
        lowest_terms(c.0, c.1),
    ensures
        lowest_terms(-c.0, c.1),
{
    assert forall|e: int| 0 < e < c.1 implies !#[trigger] scaled_multiple(-c.0, e, c.1) by {
        assert(!scaled_multiple(c.0, e, c.1));
        lemma_neg_multiple(c.0, e, c.1);
    }
}

proof fn lemma_update(s: Seq<Term>, i: int, x: Term)
    requires
        canonical(s),
        0 <= i < s.len(),
        x.1 == s[i].1,
        nonzero_coeff(x.0),
    ensures
        canonical(s.update(i, x)),
        forall|d: int| d != x.1 ==> #[trigger] coeff_of(s.update(i, x), d) == coeff_of(s, d),
        coeff_of(s.update(i, x), x.1) == x.0,
{
    let t = s.update(i, x);
    assert(canonical(t)) by {
        assert forall|a: int, b: int| 0 <= a < b < t.len() implies #[trigger] t[a].1 > #[trigger] t[b].1 by {
            assert(s[a].1 > s[b].1);
        }
        assert forall|a: int| 0 <= a < t.len() implies nonzero_coeff(#[trigger] t[a].0) by {
            if a != i {
                assert(nonzero_coeff(s[a].0));
            }
        }
    }
    assert forall|d: int| d != x.1 implies #[trigger] coeff_of(t, d) == coeff_of(s, d) by {
        lemma_coeff_of(s, d);
        lemma_coeff_of(t, d);
        if exists|j: int| 0 <= j < s.len() && #[trigger] s[j].1 == d {
            let j = choose|j: int| 0 <= j < s.len() && #[trigger] s[j].1 == d;
            assert(t[j] == s[j]);
        } else {
            assert forall|a: int| 0 <= a < t.len() implies #[trigger] t[a].1 != d by {
                assert(s[a].1 != d || a == i);
            }
        }
    }
    lemma_coeff_of(t, x.1);
    assert(t[i].1 == x.1);
}

pub proof fn lemma_insert(s: Seq<Term>, i: int, x: Term)
    requires
        canonical(s),
        0 <= i <= s.len(),
        nonzero_coeff(x.0),
        forall|j: int| 0 <= j < i ==> #[trigger] s[j].1 > x.1,
        forall|j: int| i <= j < s.len() ==> #[trigger] s[j].1 < x.1,
    ensures
        canonical(s.insert(i, x)),
        forall|d: int| d != x.1 ==> #[trigger] coeff_of(s.insert(i, x), d) == coeff_of(s, d),
        coeff_of(s.insert(i, x), x.1) == x.0,
        coeff_of(s, x.1) == (0int, 1int),
{
    let t = s.insert(i, x);
    assert(canonical(t)) by {
        assert forall|a: int, b: int| 0 <= a < b < t.len() implies #[trigger] t[a].1 > #[trigger] t[b].1 by {
            if a < i && b < i {
                assert(s[a].1 > s[b].1);
            } else if a < i && b == i {
            } else if a < i {
                assert(s[a].1 > s[b - 1].1);
            } else if a == i {
                assert(s[b - 1].1 < x.1);
            } else {
                assert(s[a - 1].1 > s[b - 1].1);
            }
        }
        assert forall|a: int| 0 <= a < t.len() implies nonzero_coeff(#[trigger] t[a].0) by {
            if a < i {
                assert(nonzero_coeff(s[a].0));
            } else if a > i {
                assert(nonzero_coeff(s[a - 1].0));
            }
        }
    }
    assert forall|d: int| d != x.1 implies #[trigger] coeff_of(t, d) == coeff_of(s, d) by {
        lemma_coeff_of(s, d);
        lemma_coeff_of(t, d);
        if exists|j: int| 0 <= j < s.len() && #[trigger] s[j].1 == d {
            let j = choose|j: int| 0 <= j < s.len() && #[trigger] s[j].1 == d;
            let j1 = if j < i { j } else { j + 1 };
            assert(t[j1] == s[j]);
        } else {
            assert forall|a: int| 0 <= a < t.len() implies #[trigger] t[a].1 != d by {
                if a < i {
                    assert(s[a].1 != d);
                } else if a > i {
                    assert(s[a - 1].1 != d);
                }
            }
        }
    }
    lemma_coeff_of(t, x.1);
    assert(t[i].1 == x.1);
    lemma_coeff_of(s, x.1);
    assert forall|a: int| 0 <= a < s.len() implies #[trigger] s[a].1 != x.1 by {
        if a < i {
            assert(s[a].1 > x.1);
        } else {
            assert(s[a].1 < x.1);
        }
    }
}

} // verus!
