//! Arbitrary-precision integers held as a sign and base-2^32 digits.

use num_bigint::{BigInt, Sign};
use vstd::prelude::*;

verus! {

#[verifier::external_type_specification]
#[verifier::external_body]
pub struct ExBigInt(BigInt);

/// The value of base-2^32 digits, least significant first.
pub open spec fn digits_value(s: Seq<u32>) -> nat
    decreases s.len(),
{
    if s.len() == 0 {
        0
    } else {
        s[0] as nat + 0x1_0000_0000 * digits_value(s.drop_first())
    }
}

/// An arbitrary-precision integer: a sign and a magnitude in base 2^32,
/// least significant digit first.
#[derive(Debug)]
pub struct Integer {
    negative: bool,
    digits: Vec<u32>,
}

impl View for Integer {
    type V = int;

    closed spec fn view(&self) -> int {
        if self.negative {
            -(digits_value(self.digits@) as int)
        } else {
            digits_value(self.digits@) as int
        }
    }
}

impl Clone for Integer {
    fn clone(&self) -> (r: Integer)
        ensures
            r@ == self@,
    {
        let digits = self.digits.clone();
        proof {
            assert(digits@ =~= self.digits@);
        }
        Integer { negative: self.negative, digits }
    }
}

impl Integer {
    /// Converts to num-bigint's integer; only the wrappers below use it.
    #[verifier::external_body]
    pub(crate) fn to_big(&self) -> BigInt {
        BigInt::new(if self.negative { Sign::Minus } else { Sign::Plus }, self.digits.clone())
    }

    /// Converts from num-bigint's integer; only the wrappers below use it.
    #[verifier::external_body]
    pub(crate) fn from_big(b: BigInt) -> Integer {
        let (sign, digits) = b.to_u32_digits();
        Integer { negative: sign == Sign::Minus, digits }
    }

    /// The integer zero.
    pub fn zero() -> (r: Integer)
        ensures
            r@ == 0,
    {
        Integer { negative: false, digits: Vec::new() }
    }

    /// The integer with the value of `v`.
    pub fn from_i64(v: i64) -> (r: Integer)
        ensures
            r@ == v as int,
    {
        let m: u64 = if v < 0 {
            (-(v as i128)) as u64
        } else {
            v as u64
        };
        let lo: u32 = (m % 0x1_0000_0000) as u32;
        let hi: u32 = (m / 0x1_0000_0000) as u32;
        let mut digits: Vec<u32> = Vec::new();
        digits.push(lo);
        digits.push(hi);
        proof {
            assert(digits@.drop_first().drop_first() =~= Seq::<u32>::empty());
            assert(digits@.drop_first() =~= seq![hi]);
            assert(digits_value(seq![hi]) == hi as nat + 0x1_0000_0000 * digits_value(Seq::<u32>::empty()));
            assert(m == lo + 0x1_0000_0000 * hi);
        }
        Integer { negative: v < 0, digits }
    }

    /// The integer with the value of `v`.
    pub fn from_u64(v: u64) -> (r: Integer)
        ensures
            r@ == v as int,
    {
        let lo: u32 = (v % 0x1_0000_0000) as u32;
        let hi: u32 = (v / 0x1_0000_0000) as u32;
        let mut digits: Vec<u32> = Vec::new();
        digits.push(lo);
        digits.push(hi);
        proof {
            assert(digits@.drop_first().drop_first() =~= Seq::<u32>::empty());
            assert(digits@.drop_first() =~= seq![hi]);
            assert(digits_value(seq![hi]) == hi as nat + 0x1_0000_0000 * digits_value(Seq::<u32>::empty()));
            assert(v == lo + 0x1_0000_0000 * hi);
        }
        Integer { negative: false, digits }
    }

    /// Whether the value is zero.
    pub fn is_zero(&self) -> (r: bool)
        ensures
            r == (self@ == 0),
    {
        matches!(self.compare(&Integer::zero()), core::cmp::Ordering::Equal)
    }

    /// Whether the value is below zero.
    pub fn is_negative(&self) -> (r: bool)
        ensures
            r == (self@ < 0),
    {
        matches!(self.compare(&Integer::zero()), core::cmp::Ordering::Less)
    }

    /// Whether the value is above zero.
    pub fn is_positive(&self) -> (r: bool)
        ensures
            r == (self@ > 0),
    {
        matches!(self.compare(&Integer::zero()), core::cmp::Ordering::Greater)
    }

    /// The value, when the magnitude has at most one digit.
    fn small(&self) -> (r: Option<i64>)
        ensures
            r matches Some(v) ==> v == self@ && -0x1_0000_0000 < v < 0x1_0000_0000,
    {
        if self.digits.len() == 0 {
            Some(0)
        } else if self.digits.len() == 1 {
            let d = self.digits[0] as i64;
            proof {
                assert(self.digits@.drop_first() =~= Seq::<u32>::empty());
                assert(digits_value(self.digits@.drop_first()) == 0);
                assert(digits_value(self.digits@) == self.digits@[0] as nat);
            }
            Some(if self.negative { -d } else { d })
        } else {
            None
        }
    }

    /// Compares the values.
    pub fn compare(&self, other: &Integer) -> (r: core::cmp::Ordering)
        ensures
            (r == core::cmp::Ordering::Less) == (self@ < other@),
            (r == core::cmp::Ordering::Equal) == (self@ == other@),
            (r == core::cmp::Ordering::Greater) == (self@ > other@),
    {
        match (self.small(), other.small()) {
            (Some(a), Some(b)) => if a < b {
                core::cmp::Ordering::Less
            } else if a == b {
                core::cmp::Ordering::Equal
            } else {
                core::cmp::Ordering::Greater
            },
            _ => int_cmp(self, other),
        }
    }

    /// The sum.
    pub fn add(&self, other: &Integer) -> (r: Integer)
        ensures
            r@ == self@ + other@,
    {
        match (self.small(), other.small()) {
            (Some(a), Some(b)) => Integer::from_i64(a + b),
            _ => int_add(self, other),
        }
    }

    /// The difference.
    pub fn sub(&self, other: &Integer) -> (r: Integer)
        ensures
            r@ == self@ - other@,
    {
        match (self.small(), other.small()) {
            (Some(a), Some(b)) => Integer::from_i64(a - b),
            _ => int_sub(self, other),
        }
    }

    /// Whether the two values are equal.
    pub fn equals(&self, other: &Integer) -> (r: bool)
        ensures
            r == (self@ == other@),
    {
        matches!(self.compare(other), core::cmp::Ordering::Equal)
    }

    /// The value with its sign flipped.
    pub fn neg(&self) -> (r: Integer)
        ensures
            r@ == -self@,
    {
        Integer { negative: !self.negative, digits: self.digits.clone() }
    }
}

impl PartialEq for Integer {
    fn eq(&self, other: &Integer) -> (r: bool)
        ensures
            r == (self@ == other@),
    {
        self.equals(other)
    }
}

impl vstd::std_specs::cmp::PartialEqSpecImpl for Integer {
    open spec fn obeys_eq_spec() -> bool {
        true
    }

    open spec fn eq_spec(&self, other: &Integer) -> bool {
        self@ == other@
    }
}

/// The greatest common divisor of `|a|` and `|b|`; zero only when both are.
pub open spec fn gcd(a: nat, b: nat) -> nat
    decreases b,
{
    if b == 0 {
        a
    } else {
        gcd(b, a % b)
    }
}

pub open spec fn abs(a: int) -> nat {
    if a < 0 {
        (-a) as nat
    } else {
        a as nat
    }
}

/// The least common multiple of `|a|` and `|b|`; zero when either is.
pub open spec fn lcm(a: nat, b: nat) -> nat {
    if a == 0 || b == 0 {
        0
    } else {
        (a * b / gcd(a, b)) as nat
    }
}

/// Relies on `Integer::gcd` of num-integer for `BigInt`: the greatest common
/// divisor, never negative.
#[verifier::external_body]
pub(crate) fn int_gcd(a: &Integer, b: &Integer) -> (r: Integer)
    ensures
        r@ == gcd(abs(a@), abs(b@)),
{
    Integer::from_big(num_integer::Integer::gcd(&a.to_big(), &b.to_big()))
}

/// Relies on `Integer::lcm` of num-integer for `BigInt`: the least common
/// multiple, never negative.
#[verifier::external_body]
pub(crate) fn int_lcm(a: &Integer, b: &Integer) -> (r: Integer)
    ensures
        r@ == lcm(abs(a@), abs(b@)),
        a@ != 0 && b@ != 0 ==> r@ > 0,
{
    Integer::from_big(num_integer::Integer::lcm(&a.to_big(), &b.to_big()))
}

/// Division rounded toward zero.
pub open spec fn trunc_div(a: int, b: int) -> int {
    let q = (abs(a) / abs(b)) as int;
    if (a < 0) == (b < 0) {
        q
    } else {
        -q
    }
}

/// The remainder of division rounded toward zero; it has the sign of `a`.
pub open spec fn trunc_rem(a: int, b: int) -> int {
    a - b * trunc_div(a, b)
}

/// Relies on `BigInt / BigInt` (num-bigint): the quotient rounded toward zero;
/// it panics on a zero divisor.
#[verifier::external_body]
pub(crate) fn int_div(a: &Integer, b: &Integer) -> (r: Integer)
    requires
        b@ != 0,
    ensures
        r@ == trunc_div(a@, b@),
{
    Integer::from_big(a.to_big() / b.to_big())
}

/// Relies on `BigInt % BigInt` (num-bigint): the remainder of division rounded
/// toward zero; it panics on a zero divisor.
#[verifier::external_body]
pub(crate) fn int_rem(a: &Integer, b: &Integer) -> (r: Integer)
    requires
        b@ != 0,
    ensures
        r@ == trunc_rem(a@, b@),
{
    Integer::from_big(a.to_big() % b.to_big())
}

/// Relies on `Integer::div_rem` of num-integer for `BigInt`: quotient and
/// remainder, which for a dividend that is not negative and a positive divisor
/// are the floor quotient and the remainder below the divisor.
#[verifier::external_body]
pub(crate) fn int_div_rem(a: &Integer, b: &Integer) -> (r: (Integer, Integer))
    requires
        a@ >= 0,
        b@ > 0,
    ensures
        r.0@ == a@ / b@,
        r.1@ == a@ % b@,
{
    let (q, m) = num_integer::Integer::div_rem(&a.to_big(), &b.to_big());
    (Integer::from_big(q), Integer::from_big(m))
}

/// Relies on `BigInt + BigInt` (num-bigint): the exact sum.
#[verifier::external_body]
pub(crate) fn int_add(a: &Integer, b: &Integer) -> (r: Integer)
    ensures
        r@ == a@ + b@,
{
    Integer::from_big(a.to_big() + b.to_big())
}

/// Relies on `BigInt - BigInt` (num-bigint): the exact difference.
#[verifier::external_body]
pub(crate) fn int_sub(a: &Integer, b: &Integer) -> (r: Integer)
    ensures
        r@ == a@ - b@,
{
    Integer::from_big(a.to_big() - b.to_big())
}

/// Relies on `BigInt * BigInt` (num-bigint): the exact product.
#[verifier::external_body]
pub(crate) fn int_mul(a: &Integer, b: &Integer) -> (r: Integer)
    ensures
        r@ == a@ * b@,
{
    Integer::from_big(a.to_big() * b.to_big())
}

/// Relies on `Ord::cmp` of num-bigint's `BigInt`: the order of the values.
#[verifier::external_body]
pub(crate) fn int_cmp(a: &Integer, b: &Integer) -> (r: core::cmp::Ordering)
    ensures
        (r == core::cmp::Ordering::Less) == (a@ < b@),
        (r == core::cmp::Ordering::Equal) == (a@ == b@),
        (r == core::cmp::Ordering::Greater) == (a@ > b@),
{
    a.to_big().cmp(&b.to_big())
}

} // verus!
