use abacas::integer::Integer;
use abacas::monomial::Monomial;
use abacas::polynomial::Polynomial;
use abacas::rational::Rational;
use std::cmp::Ordering;

/// A small xorshift generator, seeded per test.
struct Random(u64);

impl Random {
    fn u16_nonzero(&mut self) -> i64 {
        self.0 ^= self.0 << 13;
        self.0 ^= self.0 >> 7;
        self.0 ^= self.0 << 17;
        (self.0 % 65535) as i64 + 1
    }
}

/// A random polynomial with every degree up to `degree`.
fn random_poly(rng: &mut Random, degree: usize) -> Polynomial {
    let mut poly = Vec::with_capacity(degree + 1);

    for degree in 0..=degree {
        let numer = rng.u16_nonzero();
        let denom = rng.u16_nonzero();
        let coeff = Rational::new(&Integer::from_i64(numer), &Integer::from_i64(denom));

        poly.push(Monomial::new(coeff, Integer::from_i64(degree as i64)));
    }

    Polynomial::new(poly)
}

#[test]
fn addsub() {
    let mut rng = Random(0x9e37_79b9_7f4a_7c15);
    for _ in 0..5000 {
        let a = random_poly(&mut rng, 50);
        let b = random_poly(&mut rng, 50);

        assert_eq!(a.add(&b).sub(&b), a);
    }
}

#[test]
fn muldiv() {
    let mut rng = Random(0x2545_f491_4f6c_dd1d);
    for _ in 0..100 {
        let a = random_poly(&mut rng, 20);
        let b = random_poly(&mut rng, 20);

        assert_eq!(a.mul(&b).div(&b), a);
    }
}

#[test]
fn proptests_polydiv() {
    let mut rng = Random(0x1234_5678_9abc_def1);
    for _ in 0..100 {
        let a = random_poly(&mut rng, 20);
        let b = random_poly(&mut rng, 10);

        let (quotient, remainder) = a.clone().div_rem(&b).unwrap();

        let below = match (remainder.degree(), b.degree()) {
            (None, _) => true,
            (Some(r), Some(d)) => r.compare(d) == Ordering::Less,
            (Some(_), None) => false,
        };
        assert!(below);
        assert_eq!(quotient.mul(&b).add(&remainder), a);
    }
}
