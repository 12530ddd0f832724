use polynomial::{Fixed, Polynomial};

/// A small generator of numbers, the same on every run.
struct Numbers(u64);

impl Numbers {
    fn next(&mut self) -> u64 {
        self.0 = self.0.wrapping_mul(6364136223846793005).wrapping_add(1442695040888963407);
        self.0 >> 33
    }

    /// A whole number from `-bound` to `bound`.
    fn between(&mut self, bound: i64) -> i64 {
        (self.next() % (2 * bound as u64 + 1)) as i64 - bound
    }

    /// Whole coefficients for the powers `0..=degree`, the highest not zero.
    fn coefficients(&mut self, degree: usize, bound: i64) -> Vec<i64> {
        let mut c: Vec<i64> = (0..=degree).map(|_| self.between(bound)).collect();
        if c[degree] == 0 {
            c[degree] = 1;
        }
        c
    }
}

fn poly(c: &[i64]) -> Polynomial {
    let mut p = Polynomial::new();
    for (power, &value) in c.iter().enumerate() {
        p.put(power, Fixed::from_int(value));
    }
    p
}

fn whole(p: &Polynomial, power: usize) -> i64 {
    let raw = p.coefficient(power).raw();
    assert_eq!(raw % 1_000_000, 0);
    raw / 1_000_000
}

#[test]
fn sum_difference_and_product_of_whole_polynomials() {
    let mut numbers = Numbers(1);
    for _ in 0..200 {
        let da = (numbers.next() % 6) as usize;
        let db = (numbers.next() % 6) as usize;
        let a = numbers.coefficients(da, 50);
        let b = numbers.coefficients(db, 50);
        let top = da.max(db);
        let total = poly(&a) + poly(&b);
        let rest = poly(&a) - poly(&b);
        for k in 0..=top + 1 {
            let x = a.get(k).copied().unwrap_or(0);
            let y = b.get(k).copied().unwrap_or(0);
            assert_eq!(whole(&total, k), x + y);
            assert_eq!(whole(&rest, k), x - y);
        }
        let product = poly(&a) * poly(&b);
        for k in 0..=da + db + 1 {
            let mut expected = 0;
            for i in 0..=da {
                if k >= i && k - i <= db {
                    expected += a[i] * b[k - i];
                }
            }
            assert_eq!(whole(&product, k), expected);
        }
        assert_eq!(product.degree(), Some(da + db));
    }
}

#[test]
fn value_and_derivative_of_whole_polynomials() {
    let mut numbers = Numbers(2);
    for _ in 0..200 {
        let degree = (numbers.next() % 6) as usize;
        let a = numbers.coefficients(degree, 20);
        let x = numbers.between(6);
        let mut expected = 0;
        let mut power = 1;
        for &c in a.iter() {
            expected += c * power;
            power *= x;
        }
        assert_eq!(poly(&a).at(Fixed::from_int(x)), Fixed::from_int(expected));
        let slope = poly(&a).derivative();
        for k in 0..=degree {
            let c = a.get(k + 1).copied().unwrap_or(0);
            assert_eq!(whole(&slope, k), c * (k as i64 + 1));
        }
    }
}

#[test]
fn division_by_a_polynomial_with_leading_coefficient_one() {
    let mut numbers = Numbers(3);
    for _ in 0..200 {
        let da = (numbers.next() % 7) as usize;
        let db = (numbers.next() % 4) as usize;
        let a = numbers.coefficients(da, 30);
        let mut b = numbers.coefficients(db, 10);
        b[db] = 1;
        let quotient = (poly(&a) / poly(&b)).unwrap();
        let remainder = (poly(&a) % poly(&b)).unwrap();
        match quotient.degree() {
            Some(d) => assert_eq!(d, da - db),
            None => assert!(da < db),
        }
        match remainder.degree() {
            Some(d) => assert!(d < db || da < db),
            None => {}
        }
        assert_eq!(quotient * poly(&b) + remainder, poly(&a));
    }
}

#[test]
fn equal_sums_whatever_the_order() {
    let mut numbers = Numbers(4);
    for _ in 0..100 {
        let a = numbers.coefficients((numbers.0 % 5) as usize, 1_000);
        let b = numbers.coefficients((numbers.0 % 7) as usize, 1_000);
        let c = numbers.coefficients((numbers.0 % 3) as usize, 1_000);
        assert_eq!(poly(&a) + poly(&b), poly(&b) + poly(&a));
        assert_eq!(
            (poly(&a) + poly(&b)) + poly(&c),
            poly(&a) + (poly(&b) + poly(&c))
        );
        assert_eq!((poly(&a) + poly(&b)) - poly(&b), poly(&a));
    }
}
