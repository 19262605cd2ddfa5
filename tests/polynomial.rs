use abacas::error::ParseError;
use abacas::integer::Integer;
use abacas::monomial::Monomial;
use abacas::polynomial::Polynomial;
use abacas::rational::Rational;

fn integer(v: i64) -> Integer {
    Integer::from_i64(v)
}

fn rat(n: i64, d: i64) -> Rational {
    Rational::new(&integer(n), &integer(d))
}

fn mono(n: i64, d: i64, degree: i64) -> Monomial {
    Monomial::new(rat(n, d), integer(degree))
}

fn a() -> Monomial {
    mono(1, 1, 0)
}

fn b() -> Monomial {
    mono(5, 2, 0)
}

fn c() -> Monomial {
    mono(1, 1, 1)
}

fn d() -> Monomial {
    mono(5, 2, 1)
}

fn e() -> Monomial {
    mono(1, 1, 4)
}

fn f() -> Monomial {
    mono(5, 2, 4)
}

fn m(input: &str) -> Monomial {
    Monomial::from_str(input).unwrap()
}

fn p(input: &str) -> Polynomial {
    Polynomial::from_str(input).unwrap()
}

fn one_term(m: Monomial) -> Polynomial {
    Polynomial::from_monomial(m)
}

#[test]
fn polynomial_construction() {
    let poly = Polynomial::new(vec![a(), d(), f(), d(), a()]);
    assert_eq!(poly.to_string(), "2.5x^4 + 5x + 2");

    let zero = Polynomial::new(vec![]);
    assert_eq!(zero.to_string(), "0");
}

#[test]
fn gcd() {
    let a = p("x - 1").mul(&p("x + 6"));
    let b = p("x - 1").mul(&p("x - 20"));

    assert_eq!(a.clone().gcd(b.clone()), p("x - 1"));
    assert_eq!(b.gcd(a), p("x - 1"));

    let a = p("2x - 1").mul(&p("x + 6")).mul(&p("41x + 2"));
    let b = p("2x - 1").mul(&p("x - 20")).mul(&p("99999x^2 + 7"));

    assert_eq!(a.clone().gcd(b.clone()), p("x - 0.5"));
    assert_eq!(b.gcd(a), p("x - 0.5"));
}

#[test]
fn gcd_ext() {
    let a = p("2x - 1").mul(&p("x + 6")).mul(&p("41x + 2"));
    let b = p("2x - 1").mul(&p("x - 20")).mul(&p("99999x^2 + 7"));

    let (s, t, gcd) = a.clone().gcd_ext(b.clone());
    let bezout = s.mul(&a).add(&t.mul(&b));

    assert_eq!(bezout, gcd);
}

#[test]
fn polynomial_impls() {
    let mono = m("5x^4").pow(3);
    assert_eq!(mono.to_string(), "125x^12");

    let poly = p("2x^2 + 5x + 3")
        .mul_monomial(&Monomial::constant(rat(4, 1)))
        .sub(&Polynomial::from_rational(rat(11, 2)));
    assert_eq!(poly.to_string(), "8x^2 + 20x + 6.5");
}

#[test]
fn polynomial_operators() {
    let addition = a().add(&b());
    assert_eq!(addition.to_string(), "3.5");

    let mut subtraction = a().sub(&c());
    subtraction.add_term(d());
    subtraction.add_term(f().neg());
    assert_eq!(subtraction.to_string(), "-2.5x^4 + 1.5x + 1");

    let multiplication = b().mul(&d()).add(&e().mul(&f()));
    assert_eq!(multiplication.to_string(), "2.5x^8 + 6.25x");

    let division = Polynomial::new(vec![f(), e(), d(), c()]).div_monomial(&f());
    assert_eq!(division.to_string(), "1.4 + 1.4x^-3");

    let zero = b().mul(&d()).sub(&d().mul(&b()));
    assert_eq!(zero.to_string(), "0");
}

#[test]
fn polynomial_parse() {
    let expected = a().sub(&d()).sub(&one_term(e())).sub(&one_term(e()));

    let mut mono = m("1").add(&m("-2.5x"));
    mono.add_term(m("-2x^4"));
    assert_eq!(mono, expected);

    let poly = p("-2x^4 - 2.5x + 1");
    assert_eq!(poly, expected);

    let same = p(expected.to_string().as_str());
    assert_eq!(same, expected);
}

#[test]
fn polynomial_polydiv() {
    let dividend = p("6x^5 + 5x^2 - 7");
    let divisor = p("2x^2 - 1");

    let dividend_zero = Polynomial::zero().div_rem(&divisor);
    assert_eq!(dividend_zero, Some((Polynomial::zero(), Polynomial::zero())));

    let divisor_zero = dividend.clone().div_rem(&Polynomial::zero());
    assert_eq!(divisor_zero, None);

    let both_zero = Polynomial::zero().div_rem(&Polynomial::zero());
    assert_eq!(both_zero, None);

    let dividend_smaller = divisor.clone().div_rem(&dividend);
    assert_eq!(dividend_smaller, Some((Polynomial::zero(), divisor.clone())));

    let div_self = dividend.clone().div_rem(&dividend);
    assert_eq!(div_self, Some((Polynomial::from_rational(rat(1, 1)), Polynomial::zero())));
}

#[test]
fn polynomial_zeros() {
    let from = Polynomial::from_rational(rat(0, 1));
    assert!(from.is_zero());

    // a written zero coefficient is refused
    let parse = Polynomial::from_str("0x^2 + 2x - 2x + 0");
    assert_eq!(parse.err(), Some(ParseError::InvalidValue));

    let dividend = p("6x^5 + 5x^2 - 7");
    let divisor = p("2x^2 - 1");

    let dividend_zero = Polynomial::zero().div_rem(&divisor);
    assert_eq!(dividend_zero, Some((Polynomial::zero(), Polynomial::zero())));

    let divisor_zero = dividend.clone().div_rem(&Polynomial::zero());
    assert_eq!(divisor_zero, None);

    let both_zero = Polynomial::zero().div_rem(&Polynomial::zero());
    assert_eq!(both_zero, None);

    let dividend_smaller = divisor.clone().div_rem(&dividend);
    assert_eq!(dividend_smaller, Some((Polynomial::zero(), divisor)));
}

#[test]
fn division_scenario() {
    let (quotient, remainder) = p("6x^5 + 5x^2 - 7").div_rem(&p("2x^2 - 1")).unwrap();
    assert_eq!(quotient.to_string(), "3x^3 + 1.5x + 2.5");
    assert_eq!(remainder.to_string(), "1.5x - 4.5");
    assert_eq!(quotient.mul(&p("2x^2 - 1")).add(&remainder), p("6x^5 + 5x^2 - 7"));
}

#[test]
fn gcd_scenario() {
    let a = p("x - 1").mul(&p("x + 6"));
    let b = p("x - 1").mul(&p("x - 20"));
    assert_eq!(a.gcd(b).to_string(), "x - 1");
}

#[test]
fn factor_scenario() {
    let (factor, rest) = p("16x^2 + 8x + 4").factor().unwrap();
    assert_eq!(factor, rat(4, 1));
    assert_eq!(rest.to_string(), "4x^2 + 2x + 1");

    let mut poly = p("16x^2 + 8x + 4");
    assert_eq!(poly.factor_mut(), Some(rat(4, 1)));
    assert_eq!(poly.to_string(), "4x^2 + 2x + 1");

    assert_eq!(p("2x + 3").factor(), None);
    assert_eq!(Polynomial::zero().factor(), None);
    let (factor, rest) = p("0.5x + 1.5").factor().unwrap_or((rat(0, 1), Polynomial::zero()));
    assert_eq!(factor, rat(0, 1));
    assert!(rest.is_zero());
}

#[test]
fn factor_of_fractions() {
    assert_eq!(p("4/3x + 8/9").factor(), None);
    let (factor, rest) = p("8/3x + 16/3").factor().unwrap();
    assert_eq!(factor, rat(8, 3));
    assert_eq!(rest.to_string(), "x + 2");
}

#[test]
fn monic_scenario() {
    let (factor, monic) = p("16x^9 + 4x^3 + 32").monic().unwrap();
    assert_eq!(factor, rat(16, 1));
    assert_eq!(monic.to_string(), "x^9 + 0.25x^3 + 2");

    assert_eq!(p("x^2 + 3").monic(), None);
    assert_eq!(Polynomial::zero().monic(), None);
}

#[test]
fn zero_text() {
    let zero = p("0");
    assert!(zero.is_zero());
    assert_eq!(zero.to_string(), "0");
    assert!(p("  0 ").is_zero());
}

#[test]
fn round_trip_examples() {
    for text in ["2.5x^4 + 5x + 2", "-x^3 - x + 1/3", "0.0025x^-2 - 7", "12345678901234567890x^99", "x"] {
        let poly = p(text);
        assert_eq!(p(poly.to_string().as_str()), poly);
    }
    assert_eq!(p("1/3x - 2/7").to_string(), "1/3x - 2/7");
    assert_eq!(p("0.0025x").to_string(), "0.0025x");
}

#[test]
fn parse_errors() {
    assert_eq!(Monomial::from_str("").err(), Some(ParseError::InvalidSyntax));
    assert_eq!(Monomial::from_str("2x^y").err(), Some(ParseError::ParseInt));
    assert_eq!(Monomial::from_str("2.x").err(), Some(ParseError::ParseRational));
    assert_eq!(Monomial::from_str("0x").err(), Some(ParseError::InvalidValue));
    assert_eq!(Polynomial::from_str("x +").err(), Some(ParseError::InvalidSyntax));
    assert_eq!(Polynomial::from_str("3/0x").err(), Some(ParseError::ParseRational));
}

#[test]
fn monomial_text() {
    assert_eq!(m("x").to_string(), "x");
    assert_eq!(m("-x").to_string(), "-x");
    assert_eq!(m("-x^2").to_string(), "-x^2");
    assert_eq!(m("3x").to_string(), "3x");
    assert_eq!(m("-7").to_string(), "-7");
    assert_eq!(m("4x^-3").to_string(), "4x^-3");
}

#[test]
fn add_sub_inverse_example() {
    let a = p("3x^4 - 2x + 1/5");
    let b = p("-3x^4 + x^2 + 7");
    assert_eq!(a.add(&b).sub(&b), a);
    assert_eq!(a.add(&b).to_string(), "x^2 - 2x + 7.2");
}

#[test]
fn mul_div_inverse_example() {
    let a = p("x^3 + 2x + 1");
    let b = p("2x - 3");
    assert_eq!(a.mul(&b).div(&b), a);
    assert!(a.mul(&b).rem(&b).is_zero());
}

#[test]
fn gcd_symmetry_example() {
    let a = p("x^2 - 1");
    let b = p("x^2 + 2x + 1");
    assert_eq!(a.clone().gcd(b.clone()), b.gcd(a));
}

#[test]
fn bezout_example() {
    let a = p("x^3 - x");
    let b = p("x^2 + 3x + 2");
    let (s, t, g) = a.clone().gcd_ext(b.clone());
    assert_eq!(s.mul(&a).add(&t.mul(&b)), g);
    assert_eq!(g.to_string(), "x + 1");
}

#[test]
fn gcd_of_zeros() {
    assert!(Polynomial::zero().gcd(Polynomial::zero()).is_zero());
    assert_eq!(Polynomial::zero().gcd(p("2x + 4")).to_string(), "x + 2");
}
