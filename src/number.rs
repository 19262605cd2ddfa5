//! Numbers that know whether they are natural, integral or rational.

use crate::error::ParseError;
use crate::integer::{int_add, int_cmp, int_div, int_mul, int_rem, int_sub, trunc_div, trunc_rem, Integer};
use crate::rational::{
    q_add, q_div, q_mul, q_sub, rat_add, rat_div, rat_mul, rat_sub, same_value, Rational,
};
use crate::text::{chars_of, number_value, parse_number};
use vstd::prelude::*;

verus! {

/// A number of the most specific kind its value allows.
#[derive(Clone, Debug)]
pub enum Number {
    /// A positive integer.
    Natural(Integer),
    /// An integer that is zero or negative.
    Integer(Integer),
    /// A rational number that is not an integer.
    Rational(Rational),
}

impl Number {
    /// The value as a fraction.
    pub open spec fn value(&self) -> (int, int) {
        match self {
            Number::Natural(n) => (n@, 1),
            Number::Integer(n) => (n@, 1),
            Number::Rational(r) => r@,
        }
    }

    /// The fraction of a rational payload is in lowest terms.
    pub open spec fn valid(&self) -> bool {
        match self {
            Number::Rational(r) => r.wf(),
            _ => true,
        }
    }

    /// The kind matches the value: naturals are positive, integers are not,
    /// rationals are not integers.
    pub open spec fn normalized(&self) -> bool {
        match self {
            Number::Natural(n) => n@ > 0,
            Number::Integer(n) => n@ <= 0,
            Number::Rational(r) => r.wf() && r@.1 != 1,
        }
    }

    /// The number of an integer: natural when positive.
    pub fn from_integer(n: Integer) -> (r: Number)
        ensures
            r.normalized(),
            r.valid(),
            r.value() == (n@, 1int),
    {
        if n.is_positive() {
            Number::Natural(n)
        } else {
            Number::Integer(n)
        }
    }

    /// The number of a rational: an integer when the denominator is one.
    pub fn from_rational(r: Rational) -> (n: Number)
        requires
            r.wf(),
        ensures
            n.normalized(),
            n.valid(),
            n.value() == r@,
    {
        if r.denom().equals(&Integer::from_i64(1)) {
            Number::from_integer(r.numer().clone())
        } else {
            Number::Rational(r)
        }
    }

    /// The value as a rational.
    pub fn to_rational(&self) -> (r: Rational)
        requires
            self.valid(),
        ensures
            r.wf(),
            r@ == self.value(),
    {
        match self {
            Number::Natural(n) => Rational::from_integer(n.clone()),
            Number::Integer(n) => Rational::from_integer(n.clone()),
            Number::Rational(r) => r.clone(),
        }
    }

    /// The integer value, when the number is not a rational.
    fn as_integer(&self) -> (r: Option<&Integer>)
        ensures
            r matches Some(i) ==> !(self is Rational) && i@ == self.value().0,
            r is None ==> self is Rational,
    {
        match self {
            Number::Natural(n) => Some(n),
            Number::Integer(n) => Some(n),
            Number::Rational(_) => None,
        }
    }

    /// The sum, exact.
    pub fn add(&self, rhs: &Number) -> (r: Number)
        requires
            self.valid(),
            rhs.valid(),
        ensures
            r.normalized(),
            r.valid(),
            same_value(r.value(), q_add(self.value(), rhs.value())),
    {
        match (self.as_integer(), rhs.as_integer()) {
            (Some(a), Some(b)) => Number::from_integer(int_add(a, b)),
            _ => Number::from_rational(rat_add(&self.to_rational(), &rhs.to_rational())),
        }
    }

    /// The difference, exact.
    pub fn sub(&self, rhs: &Number) -> (r: Number)
        requires
            self.valid(),
            rhs.valid(),
        ensures
            r.normalized(),
            r.valid(),
            same_value(r.value(), q_sub(self.value(), rhs.value())),
    {
        match (self.as_integer(), rhs.as_integer()) {
            (Some(a), Some(b)) => Number::from_integer(int_sub(a, b)),
            _ => Number::from_rational(rat_sub(&self.to_rational(), &rhs.to_rational())),
        }
    }

    /// The product, exact.
    pub fn mul(&self, rhs: &Number) -> (r: Number)
        requires
            self.valid(),
            rhs.valid(),
        ensures
            r.normalized(),
            r.valid(),
            same_value(r.value(), q_mul(self.value(), rhs.value())),
    {
        match (self.as_integer(), rhs.as_integer()) {
            (Some(a), Some(b)) => Number::from_integer(int_mul(a, b)),
            _ => Number::from_rational(rat_mul(&self.to_rational(), &rhs.to_rational())),
        }
    }

    /// The quotient: rounded toward zero when both are integers, exact
    /// otherwise. The divisor must not be zero.
    pub fn div(&self, rhs: &Number) -> (r: Number)
        requires
            self.valid(),
            rhs.valid(),
            rhs.value().0 != 0,
        ensures
            r.normalized(),
            r.valid(),
            !(self is Rational) && !(rhs is Rational) ==> r.value() == (
            trunc_div(self.value().0, rhs.value().0),
            1int,
            ),
            (self is Rational) || (rhs is Rational) ==> same_value(
                r.value(),
                q_div(self.value(), rhs.value()),
            ),
    {
        match (self.as_integer(), rhs.as_integer()) {
            (Some(a), Some(b)) => Number::from_integer(int_div(a, b)),
            _ => Number::from_rational(rat_div(&self.to_rational(), &rhs.to_rational())),
        }
    }

    /// The remainder of division rounded toward zero, defined for integers
    /// only: `None` when either is a rational. The divisor must not be zero.
    pub fn rem(&self, rhs: &Number) -> (r: Option<Number>)
        requires
            self.valid(),
            rhs.valid(),
            rhs.value().0 != 0,
        ensures
            r is None <==> (self is Rational) || (rhs is Rational),
            r matches Some(n) ==> n.normalized() && n.value() == (
            trunc_rem(self.value().0, rhs.value().0),
            1int,
            ),
    {
        match (self.as_integer(), rhs.as_integer()) {
            (Some(a), Some(b)) => Some(Number::from_integer(int_rem(a, b))),
            _ => None,
        }
    }

    /// The value with its sign flipped.
    pub fn neg(&self) -> (r: Number)
        requires
            self.valid(),
        ensures
            r.normalized(),
            r.valid(),
            r.value() == (-self.value().0, self.value().1),
    {
        match self {
            Number::Natural(n) => Number::from_integer(n.neg()),
            Number::Integer(n) => Number::from_integer(n.neg()),
            Number::Rational(r) => Number::from_rational(r.neg()),
        }
    }

    /// Reads a number as `parse_number` does.
    pub fn from_str(s: &str) -> (r: Result<Number, ParseError>)
        ensures
            match number_value(s@) {
                Some(p) => r matches Ok(n) && n.normalized() && same_value(n.value(), p),
                None => r == Err::<Number, ParseError>(ParseError::ParseRational),
            },
    {
        let q = parse_number(&chars_of(s))?;
        Ok(Number::from_rational(q))
    }

    /// The numerator and denominator of the value.
    fn parts(&self) -> (r: (Integer, Integer))
        ensures
            (r.0@, r.1@) == self.value(),
    {
        match self {
            Number::Natural(n) => (n.clone(), Integer::from_i64(1)),
            Number::Integer(n) => (n.clone(), Integer::from_i64(1)),
            Number::Rational(r) => (r.numer().clone(), r.denom().clone()),
        }
    }

    /// Compares the values by cross-multiplying.
    pub fn compare(&self, rhs: &Number) -> (r: core::cmp::Ordering)
        ensures
            (r == core::cmp::Ordering::Less) == (self.value().0 * rhs.value().1 < rhs.value().0 * self.value().1),
            (r == core::cmp::Ordering::Equal) == (self.value().0 * rhs.value().1 == rhs.value().0 * self.value().1),
            (r == core::cmp::Ordering::Greater) == (self.value().0 * rhs.value().1 > rhs.value().0 * self.value().1),
    {
        let (an, ad) = self.parts();
        let (bn, bd) = rhs.parts();
        int_cmp(&int_mul(&an, &bd), &int_mul(&bn, &ad))
    }
}

impl PartialEq for Number {
    fn eq(&self, other: &Number) -> (r: bool)
        ensures
            r == same_value(self.value(), other.value()),
    {
        matches!(self.compare(other), core::cmp::Ordering::Equal)
    }
}

impl vstd::std_specs::cmp::PartialEqSpecImpl for Number {
    open spec fn obeys_eq_spec() -> bool {
        true
    }

    open spec fn eq_spec(&self, other: &Number) -> bool {
        same_value(self.value(), other.value())
    }
}

} // verus!
