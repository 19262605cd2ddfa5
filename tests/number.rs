use abacas::integer::Integer;
use abacas::number::Number;
use abacas::rational::Rational;
use std::cmp::Ordering;

fn integer(v: i64) -> Integer {
    Integer::from_i64(v)
}

fn rat(n: i64, d: i64) -> Rational {
    Rational::new(&integer(n), &integer(d))
}

fn one() -> Number {
    Number::from_integer(integer(1))
}

#[test]
fn eq() {
    let int_ = Number::Integer(integer(1));
    let nat = Number::Natural(integer(1));
    let rat_ = Number::Rational(rat(1, 1));

    assert_eq!(int_, nat);
    assert_eq!(int_, rat_);
    assert_eq!(nat, rat_);

    assert_ne!(int_.add(&one()), nat);
    assert_ne!(nat.add(&one()), rat_);
}

#[test]
fn from() {
    let int_ = Number::from_rational(rat(0, 1));
    let nat = Number::from_rational(rat(2, 1));
    let rat_ = Number::from_rational(rat(5, 2));

    assert!(matches!(int_, Number::Integer(_)));
    assert!(matches!(nat, Number::Natural(_)));
    assert!(matches!(rat_, Number::Rational(_)));
}

#[test]
fn from_str() {
    let int_ = Number::from_str("0");
    let nat = Number::from_str("2");
    let rat_ = Number::from_str("5/2");

    assert!(matches!(int_, Ok(Number::Integer(_))));
    assert!(matches!(nat, Ok(Number::Natural(_))));
    assert!(matches!(rat_, Ok(Number::Rational(_))));
}

#[test]
fn ord() {
    let int_ = Number::Integer(integer(0));
    let nat = Number::Natural(integer(2));
    let rat_ = Number::Rational(rat(5, 2));

    assert_eq!(int_.compare(&nat), Ordering::Less);
    assert_eq!(int_.compare(&rat_), Ordering::Less);
    assert_eq!(nat.compare(&rat_), Ordering::Less);
}

#[test]
fn number_arithmetic() {
    let seven = Number::from_integer(integer(7));
    let two = Number::from_integer(integer(2));
    let half = Number::from_rational(rat(1, 2));
    assert_eq!(seven.div(&two), Number::from_integer(integer(3)));
    assert_eq!(seven.rem(&two), Some(Number::from_integer(integer(1))));
    assert_eq!(seven.rem(&half), None);
    assert_eq!(seven.div(&half), Number::from_integer(integer(14)));
    assert!(matches!(half.add(&half), Number::Natural(_)));
    assert!(matches!(two.neg(), Number::Integer(_)));
    assert!(matches!(half.sub(&half), Number::Integer(_)));
    assert_eq!(Number::from_integer(integer(-7)).div(&two), Number::from_integer(integer(-3)));
    assert_eq!(Number::from_integer(integer(-7)).rem(&two), Some(Number::from_integer(integer(-1))));
    assert_eq!(Number::from_str("1.25").unwrap(), Number::from_rational(rat(5, 4)));
}
