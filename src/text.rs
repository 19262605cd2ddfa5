//! Decimal text of integers and rationals, read and written exactly.

use crate::error::ParseError;
use crate::integer::{int_add, int_cmp, int_div_rem, int_mul, int_sub, Integer};
use crate::rational::{rat_new, same_value, Rational};
use num_bigint::BigInt;
use vstd::arithmetic::power::pow;
use vstd::prelude::*;

verus! {

pub open spec fn is_digit(c: char) -> bool {
    '0' <= c && c <= '9'
}

/// A nonempty run of decimal digits.
pub open spec fn is_digits(s: Seq<char>) -> bool {
    s.len() > 0 && forall|i: int| 0 <= i < s.len() ==> is_digit(#[trigger] s[i])
}

/// The value of a run of decimal digits, most significant first.
pub open spec fn digits_value(s: Seq<char>) -> nat
    decreases s.len(),
{
    if s.len() == 0 {
        0
    } else {
        digits_value(s.drop_last()) * 10 + ((s.last() as int - '0' as int) as nat)
    }
}

/// The decimal digits of `n`, most significant first, without leading zeros.
pub open spec fn decimal(n: nat) -> Seq<char>
    decreases n,
{
    if n < 10 {
        seq![digit_char(n)]
    } else {
        decimal(n / 10).push(digit_char(n % 10))
    }
}

pub open spec fn digit_char(n: nat) -> char {
    (('0' as int) + n) as char
}

/// The decimal text of an integer, with a leading `-` when negative.
pub open spec fn int_text(n: int) -> Seq<char> {
    if n < 0 {
        seq!['-'] + decimal((-n) as nat)
    } else {
        decimal(n as nat)
    }
}

/// Relies on `str::parse::<BigInt>` (num-bigint): a run of decimal digits is
/// read as its value.
#[verifier::external_body]
pub(crate) fn int_from_text(s: &Vec<char>) -> (r: Integer)
    requires
        is_digits(s@),
    ensures
        r@ == digits_value(s@),
{
    Integer::from_big(s.iter().collect::<String>().parse::<BigInt>().unwrap())
}

/// Relies on `ToString` of num-bigint's `BigInt`: the decimal text, with `-`
/// before a negative value.
#[verifier::external_body]
pub(crate) fn int_to_text(a: &Integer) -> (r: Vec<char>)
    ensures
        r@ == int_text(a@),
{
    a.to_big().to_string().chars().collect()
}

/// Relies on `FromIterator<char>` for `String`: the characters in order.
#[verifier::external_body]
pub(crate) fn string_of(v: &Vec<char>) -> (r: String)
    ensures
        r@ == v@,
{
    v.iter().collect()
}

/// Relies on `str::chars`: the characters in order.
#[verifier::external_body]
pub(crate) fn chars_of(s: &str) -> (r: Vec<char>)
    ensures
        r@ == s@,
{
    s.chars().collect()
}

/// Whether every character is a decimal digit, and there is at least one.
pub fn all_digits(s: &Vec<char>) -> (r: bool)
    ensures
        r == is_digits(s@),
{
    if s.len() == 0 {
        return false;
    }
    let mut i: usize = 0;
    while i < s.len()
        invariant
            i <= s@.len(),
            forall|j: int| 0 <= j < i ==> is_digit(#[trigger] s@[j]),
        decreases s@.len() - i,
    {
        if !('0' <= s[i] && s[i] <= '9') {
            return false;
        }
        i = i + 1;
    }
    true
}

/// The characters `s[from..to]`.
pub fn slice(s: &Vec<char>, from: usize, to: usize) -> (r: Vec<char>)
    requires
        from <= to <= s@.len(),
    ensures
        r@ == s@.subrange(from as int, to as int),
{
    let mut r: Vec<char> = Vec::new();
    let mut i = from;
    while i < to
        invariant
            from <= i <= to <= s@.len(),
            r@ == s@.subrange(from as int, i as int),
        decreases to - i,
    {
        r.push(s[i]);
        i = i + 1;
        assert(r@ =~= s@.subrange(from as int, i as int));
    }
    r
}

/// Appends the characters of `t`.
pub fn push_all(out: &mut Vec<char>, t: &Vec<char>)
    ensures
        final(out)@ == old(out)@ + t@,
{
    let ghost start = out@;
    let mut i: usize = 0;
    while i < t.len()
        invariant
            i <= t@.len(),
            out@ == start + t@.subrange(0, i as int),
        decreases t@.len() - i,
    {
        out.push(t[i]);
        i = i + 1;
        assert(out@ =~= start + t@.subrange(0, i as int));
    }
    assert(t@.subrange(0, t@.len() as int) =~= t@);
}

/// The first position of `c` in `s`, if any.
pub fn find_char(s: &Vec<char>, c: char) -> (r: Option<usize>)
    ensures
        r matches Some(i) ==> i < s@.len() && s@[i as int] == c && !s@.subrange(0, i as int).contains(c),
        r is None ==> !s@.contains(c),
{
    let mut i: usize = 0;
    while i < s.len()
        invariant
            i <= s@.len(),
            forall|j: int| 0 <= j < i ==> s@[j] != c,
        decreases s@.len() - i,
    {
        if s[i] == c {
            proof {
                assert forall|j: int| 0 <= j < i implies s@.subrange(0, i as int)[j] != c by {}
            }
            return Some(i);
        }
        i = i + 1;
    }
    None
}

/// The position of the first `c` in `s`.
pub open spec fn first_index(s: Seq<char>, c: char) -> int {
    choose|i: int| 0 <= i < s.len() && s[i] == c && !s.subrange(0, i).contains(c)
}

pub proof fn lemma_first_index(s: Seq<char>, c: char, i: int)
    requires
        0 <= i < s.len(),
        s[i] == c,
        !s.subrange(0, i).contains(c),
    ensures
        first_index(s, c) == i,
{
    let j = first_index(s, c);
    assert(0 <= j < s.len() && s[j] == c && !s.subrange(0, j).contains(c));
    if j < i {
        assert(s.subrange(0, i)[j] == c);
    } else if i < j {
        assert(s.subrange(0, j)[i] == c);
    }
}

/// A number read from text has a positive denominator.
pub proof fn lemma_number_den(s: Seq<char>)
    requires
        number_value(s) is Some,
    ensures
        number_value(s)->Some_0.1 > 0,
{
    reveal(unsigned_value);
    let body = if s.len() > 0 && (s[0] == '-' || s[0] == '+') { s.drop_first() } else { s };
    if body.contains('.') {
        let i = first_index(body, '.');
        let b = body.subrange(i + 1, body.len() as int);
        vstd::arithmetic::power::lemma_pow_positive(10, b.len());
    }
}

/// A run of digits, with a `.` and more digits after it where `dot` is not
/// `end`, is a number.
pub proof fn lemma_number_text(s: Seq<char>, i: int, dot: int, end: int)
    requires
        0 <= i < dot <= end <= s.len(),
        forall|k: int| i <= k < dot ==> is_digit(#[trigger] s[k]),
        dot == end || (s[dot] == '.' && dot + 1 < end && forall|k: int| dot + 1 <= k < end ==> is_digit(#[trigger] s[k])),
    ensures
        number_value(s.subrange(i, end)) is Some,
{
    reveal(unsigned_value);
    let t = s.subrange(i, end);
    assert(!(t.len() > 0 && (t[0] == '-' || t[0] == '+')));
    assert(!t.contains('/')) by {
        if t.contains('/') {
            let k = choose|k: int| 0 <= k < t.len() && t[k] == '/';
            assert(t[k] == s[i + k]);
        }
    }
    if dot == end {
        assert(!t.contains('.')) by {
            if t.contains('.') {
                let k = choose|k: int| 0 <= k < t.len() && t[k] == '.';
                assert(t[k] == s[i + k]);
            }
        }
        assert(is_digits(t)) by {
            assert forall|k: int| 0 <= k < t.len() implies is_digit(#[trigger] t[k]) by {
                assert(t[k] == s[i + k]);
            }
        }
    } else {
        let p = dot - i;
        assert(t[p] == '.');
        assert(!t.subrange(0, p).contains('.')) by {
            if t.subrange(0, p).contains('.') {
                let k = choose|k: int| 0 <= k < p && t.subrange(0, p)[k] == '.';
                assert(t[k] == s[i + k]);
            }
        }
        lemma_first_index(t, '.', p);
        let (a, b) = (t.subrange(0, p), t.subrange(p + 1, t.len() as int));
        assert(is_digits(a)) by {
            assert forall|k: int| 0 <= k < a.len() implies is_digit(#[trigger] a[k]) by {
                assert(a[k] == s[i + k]);
            }
        }
        assert(is_digits(b)) by {
            assert forall|k: int| 0 <= k < b.len() implies is_digit(#[trigger] b[k]) by {
                assert(b[k] == s[dot + 1 + k]);
            }
        }
    }
}

/// `10^k`.
fn pow10(k: usize) -> (r: Integer)
    ensures
        r@ == pow(10, k as nat),
{
    let ten = Integer::from_i64(10);
    let mut r = Integer::from_i64(1);
    let mut i: usize = 0;
    proof {
        reveal(pow);
    }
    while i < k
        invariant
            i <= k,
            ten@ == 10,
            r@ == pow(10, i as nat),
        decreases k - i,
    {
        r = int_mul(&r, &ten);
        proof {
            reveal(pow);
            assert(pow(10, (i + 1) as nat) == 10 * pow(10, i as nat));
        }
        i = i + 1;
    }
    r
}

/// Reads a signed decimal number: `[+|-] digits`, `[+|-] digits "." digits`
/// or `[+|-] digits "/" digits`, exactly.
#[verifier::rlimit(80)]
pub fn parse_number(s: &Vec<char>) -> (r: Result<Rational, ParseError>)
    ensures
        match number_value(s@) {
            Some(p) => r matches Ok(q) && q.wf() && same_value(q@, p),
            None => r == Err::<Rational, ParseError>(ParseError::ParseRational),
        },
{
    proof {
        reveal(unsigned_value);
    }
    let len = s.len();
    let neg = len > 0 && s[0] == '-';
    let start: usize = if len > 0 && (s[0] == '-' || s[0] == '+') { 1 } else { 0 };
    let body = slice(s, start, len);
    proof {
        let b = if s@.len() > 0 && (s@[0] == '-' || s@[0] == '+') { s@.drop_first() } else { s@ };
        assert(body@ =~= b);
    }
    let bl = body.len();
    let (n, d) = match find_char(&body, '.') {
        Some(i) => {
            let a = slice(&body, 0, i);
            let b = slice(&body, i + 1, bl);
            proof {
                lemma_first_index(body@, '.', i as int);
            }
            if !all_digits(&a) || !all_digits(&b) {
                return Err(ParseError::ParseRational);
            }
            let p = pow10(b.len());
            (crate::integer::int_add(&int_mul(&int_from_text(&a), &p), &int_from_text(&b)), p)
        },
        None => match find_char(&body, '/') {
            Some(i) => {
                let a = slice(&body, 0, i);
                let b = slice(&body, i + 1, bl);
                proof {
                    lemma_first_index(body@, '/', i as int);
                }
                if !all_digits(&a) || !all_digits(&b) {
                    return Err(ParseError::ParseRational);
                }
                let dv = int_from_text(&b);
                if dv.is_zero() {
                    return Err(ParseError::ParseRational);
                }
                (int_from_text(&a), dv)
            },
            None => {
                if !all_digits(&body) {
                    return Err(ParseError::ParseRational);
                }
                (int_from_text(&body), Integer::from_i64(1))
            },
        },
    };
    proof {
        vstd::arithmetic::power::lemma_pow_positive(10, (bl as nat));
        assert(d@ != 0) by {
            if body@.contains('.') {
                let i = first_index(body@, '.');
                vstd::arithmetic::power::lemma_pow_positive(10, (bl - i - 1) as nat);
            }
        }
    }
    let n = if neg { n.neg() } else { n };
    Ok(rat_new(&n, &d))
}

/// The value read from a signed decimal number: `[+|-] digits`,
/// `[+|-] digits "." digits`, or `[+|-] digits "/" digits`, as an unreduced
/// fraction; `None` when the text is none of these or the denominator is zero.
pub open spec fn number_value(s: Seq<char>) -> Option<(int, int)> {
    let neg = s.len() > 0 && s[0] == '-';
    let body = if s.len() > 0 && (s[0] == '-' || s[0] == '+') { s.drop_first() } else { s };
    let v = unsigned_value(body);
    match v {
        Some(p) => Some((if neg { -p.0 } else { p.0 }, p.1)),
        None => None,
    }
}

#[verifier::opaque]
pub open spec fn unsigned_value(s: Seq<char>) -> Option<(int, int)> {
    if s.contains('.') {
        let i = first_index(s, '.');
        let (a, b) = (s.subrange(0, i), s.subrange(i + 1, s.len() as int));
        if is_digits(a) && is_digits(b) {
            Some((digits_value(a) * pow(10, b.len()) + digits_value(b), pow(10, b.len())))
        } else {
            None
        }
    } else if s.contains('/') {
        let i = first_index(s, '/');
        let (a, b) = (s.subrange(0, i), s.subrange(i + 1, s.len() as int));
        if is_digits(a) && is_digits(b) && digits_value(b) != 0 {
            Some((digits_value(a) as int, digits_value(b) as int))
        } else {
            None
        }
    } else if is_digits(s) {
        Some((digits_value(s) as int, 1))
    } else {
        None
    }
}

} // verus!

verus! {

/// How many times `p` divides `d`.
pub open spec fn multiplicity(d: nat, p: nat) -> nat
    decreases d
    via factor_decreases
{
    if d > 0 && p > 1 && d % p == 0 {
        1 + multiplicity(d / p, p)
    } else {
        0
    }
}

#[via_fn]
proof fn factor_decreases(d: nat, p: nat) {
    if d > 0 && p > 1 && d % p == 0 {
        vstd::arithmetic::div_mod::lemma_div_decreases(d as int, p as int);
    }
}

#[via_fn]
proof fn strip_decreases(d: nat, p: nat) {
    if d > 0 && p > 1 && d % p == 0 {
        vstd::arithmetic::div_mod::lemma_div_decreases(d as int, p as int);
    }
}

/// `d` with every factor `p` divided out.
pub open spec fn strip_factor(d: nat, p: nat) -> nat
    decreases d
    via strip_decreases
{
    if d > 0 && p > 1 && d % p == 0 {
        strip_factor(d / p, p)
    } else {
        d
    }
}

/// `1/d` has a finite decimal expansion: `d` has no prime factor but 2 and 5.
pub open spec fn finite_decimal(d: nat) -> bool {
    strip_factor(strip_factor(d, 2), 5) == 1
}

/// The number of decimal places of `n/d` when `1/d` has a finite expansion.
pub open spec fn decimal_places(d: nat) -> nat {
    let a = multiplicity(d, 2);
    let b = multiplicity(strip_factor(d, 2), 5);
    if a > b {
        a
    } else {
        b
    }
}

/// `k` zeros.
pub open spec fn zeros(k: nat) -> Seq<char> {
    Seq::new(k, |i: int| '0')
}

/// The digits `t` of an integer `m` written as `m / 10^k`.
pub open spec fn point_text(t: Seq<char>, k: nat) -> Seq<char> {
    if k == 0 {
        t
    } else if k >= t.len() {
        seq!['0', '.'] + zeros((k - t.len()) as nat) + t
    } else {
        t.subrange(0, t.len() - k) + seq!['.'] + t.subrange(t.len() - k, t.len() as int)
    }
}

/// The text of a nonnegative fraction `n / d` in lowest terms: an integer, a
/// finite decimal, or `n/d` where the decimal expansion does not end.
pub open spec fn magnitude_text(n: nat, d: nat) -> Seq<char> {
    if d == 1 {
        decimal(n)
    } else if finite_decimal(d) {
        let k = decimal_places(d);
        point_text(decimal((n * pow(10, k) as nat / d) as nat), k)
    } else {
        decimal(n) + seq!['/'] + decimal(d)
    }
}

/// The text of a coefficient: a `-` when negative, then its magnitude.
pub open spec fn coeff_text(c: (int, int)) -> Seq<char> {
    if c.0 < 0 {
        seq!['-'] + magnitude_text((-c.0) as nat, c.1 as nat)
    } else {
        magnitude_text(c.0 as nat, c.1 as nat)
    }
}

/// Divides `factor` out of `d` as often as it goes: the count and what is left.
fn strip(d: &Integer, factor: u64) -> (r: (Integer, Integer))
    requires
        d@ > 0,
        factor > 1,
    ensures
        r.0@ == multiplicity(d@ as nat, factor as nat),
        r.1@ == strip_factor(d@ as nat, factor as nat),
        r.1@ > 0,
{
    let f = Integer::from_u64(factor);
    let one = Integer::from_i64(1);
    let mut e = d.clone();
    let mut count = Integer::zero();
    loop
        invariant
            f@ == factor as int,
            factor > 1,
            one@ == 1,
            e@ > 0,
            count@ >= 0,
            count@ + multiplicity(e@ as nat, factor as nat) == multiplicity(d@ as nat, factor as nat),
            strip_factor(e@ as nat, factor as nat) == strip_factor(d@ as nat, factor as nat),
        decreases e@,
    {
        let (q, m) = int_div_rem(&e, &f);
        if !m.is_zero() {
            return (count, e);
        }
        proof {
            vstd::arithmetic::div_mod::lemma_fundamental_div_mod(e@, factor as int);
            assert(q@ > 0) by (nonlinear_arith)
                requires
                    e@ == factor * q@ + 0,
                    e@ > 0,
                    factor > 1,
            ;
            assert(q@ < e@) by (nonlinear_arith)
                requires
                    e@ == factor * q@,
                    factor > 1,
                    q@ > 0,
            ;
        }
        e = q;
        count = int_add(&count, &one);
    }
}

/// `10^k` for a count held as an integer.
fn pow10_of(k: &Integer) -> (r: Integer)
    requires
        k@ >= 0,
    ensures
        r@ == pow(10, k@ as nat),
{
    let ten = Integer::from_i64(10);
    let one = Integer::from_i64(1);
    let mut r = Integer::from_i64(1);
    let mut i = Integer::zero();
    proof {
        reveal(pow);
    }
    while !i.equals(k)
        invariant
            0 <= i@ <= k@,
            ten@ == 10,
            one@ == 1,
            r@ == pow(10, i@ as nat),
        decreases k@ - i@,
    {
        r = int_mul(&r, &ten);
        proof {
            reveal(pow);
            assert(pow(10, (i@ + 1) as nat) == 10 * pow(10, i@ as nat));
        }
        i = int_add(&i, &one);
    }
    r
}

/// Writes `t`, the digits of an integer `m`, as `m / 10^k`.
fn insert_point(t: &Vec<char>, k: &Integer) -> (r: Vec<char>)
    requires
        k@ >= 0,
    ensures
        r@ == point_text(t@, k@ as nat),
{
    let one = Integer::from_i64(1);
    let len = Integer::from_u64(t.len() as u64);
    if k.is_zero() {
        return t.clone();
    }
    if !matches!(int_cmp(k, &len), core::cmp::Ordering::Less) {
        let mut out: Vec<char> = Vec::new();
        out.push('0');
        out.push('.');
        let mut pad = int_sub(k, &len);
        let ghost total = (k@ - t@.len()) as nat;
        while !pad.is_zero()
            invariant
                0 <= pad@ <= total,
                one@ == 1,
                out@ == seq!['0', '.'] + zeros((total - pad@) as nat),
            decreases pad@,
        {
            out.push('0');
            pad = int_sub(&pad, &one);
            assert(out@ =~= seq!['0', '.'] + zeros((total - pad@) as nat));
        }
        push_all(&mut out, t);
        return out;
    }
    let mut j: usize = 0;
    while j < t.len() && !Integer::from_u64(j as u64).equals(k)
        invariant
            0 <= j <= k@ < t@.len(),
        decreases k@ - j,
    {
        j = j + 1;
    }
    let cut = t.len() - j;
    let mut out = slice(t, 0, cut);
    out.push('.');
    push_all(&mut out, &slice(t, cut, t.len()));
    out
}

/// The text of a coefficient in lowest terms.
#[verifier::rlimit(80)]
pub fn coeff_to_text(c: &Rational) -> (r: Vec<char>)
    requires
        c.wf(),
    ensures
        r@ == coeff_text(c@),
{
    let neg = c.numer().is_negative();
    let n = if neg { c.numer().neg() } else { c.numer().clone() };
    let d = c.denom();
    let one = Integer::from_i64(1);
    let body = if d.equals(&one) {
        int_to_text(&n)
    } else {
        let (twos, rest) = strip(d, 2);
        let (fives, rest) = strip(&rest, 5);
        if rest.equals(&one) {
            let k = if matches!(int_cmp(&twos, &fives), core::cmp::Ordering::Greater) { twos } else { fives };
            let p = pow10_of(&k);
            let np = int_mul(&n, &p);
            proof {
                vstd::arithmetic::power::lemma_pow_positive(10, k@ as nat);
                assert(n@ * p@ >= 0) by (nonlinear_arith)
                    requires
                        n@ >= 0,
                        p@ > 0,
                ;
            }
            let (m, _) = int_div_rem(&np, d);
            insert_point(&int_to_text(&m), &k)
        } else {
            let mut t = int_to_text(&n);
            t.push('/');
            push_all(&mut t, &int_to_text(d));
            t
        }
    };
    if neg {
        let mut out: Vec<char> = Vec::new();
        out.push('-');
        push_all(&mut out, &body);
        out
    } else {
        body
    }
}

} // verus!
