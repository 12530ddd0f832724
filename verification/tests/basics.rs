use polynomial::fixed::Fixed;
use polynomial::polynomial::Polynomial;

fn fx(x: f32) -> Fixed {
    Fixed::from_binary32(x.to_bits())
}

fn fxs(xs: &[f32]) -> Vec<Fixed> {
    xs.iter().map(|&x| fx(x)).collect()
}

fn poly(terms: &[(isize, f32)]) -> Polynomial {
    let pairs: Vec<(isize, Fixed)> = terms.iter().map(|&(power, c)| (power, fx(c))).collect();
    Polynomial::from_terms(&pairs).unwrap()
}

#[test]
fn lib_degree() {
    assert_eq!(
        poly(&[(200, 0.0), (100, 1.0), (0, 5.0)]).degree(),
        Some(100)
    );
    assert_eq!(
        poly(&[(1, 1.0), (2, 5.0), (0, 5.0), (3, -2.0), (4, -1.0), (5, 1.0)]).degree(),
        Some(5)
    );
    assert_eq!(
        poly(&[(3, -1.0), (2, -10.0), (1, 10.0), (0, 15.0)]).degree(),
        Some(3)
    );
    assert_eq!(poly(&[(1, 10.0), (0, 15.0)]).degree(), Some(1));
    assert_eq!(poly(&[(0, 15.0)]).degree(), Some(0));
    assert_eq!(Polynomial::new().degree(), None);
}

#[test]
fn lib_at() {
    let p = poly(&[(1, 1.0), (2, 5.0), (0, 5.0), (3, -2.0), (4, -1.0), (5, 1.0)]);
    assert_eq!(p.at(fx(3.0)), fx(161.0));
}

#[test]
fn lib_plot() {
    let p = poly(&[(3, -1.0), (2, -10.0), (1, 10.0), (0, 15.0)]);
    let q = poly(&[(2, -5.0), (1, -1.0), (0, 30.0)]);
    let r = poly(&[(1, -100.0), (0, 30.0)]);
    assert_eq!(
        Polynomial::plot(&[&p, &q, &r], fx(-13.0), fx(5.0), 50, "plot_test").map(|_| ()),
        Ok(())
    );
    assert_eq!(
        Polynomial::plot(&[&p, &q, &r], fx(-13.0), fx(5.0), 1, "should_not_exist")
            .map(|_| ())
            .map_err(|e| e.message()),
        Err("Requested less than 2 samples for plotting.")
    );
}

#[test]
fn lib_derivative() {
    assert_eq!(poly(&[(0, 15.0)]).derivative(), Polynomial::new());
    assert_eq!(
        poly(&[(1, 10.0), (0, 15.0)]).derivative(),
        poly(&[(0, 10.0)])
    );
    assert_eq!(
        poly(&[(3, -1.0), (2, -10.0), (1, 10.0), (0, 15.0)]).derivative(),
        poly(&[(2, -3.0), (1, -20.0), (0, 10.0)])
    );
}

#[test]
fn lib_integral() {
    assert_eq!(Polynomial::new().integral(fx(-5.0)), poly(&[(0, -5.0)]));
    assert_eq!(
        poly(&[(0, 10.0)]).integral(fx(15.0)),
        poly(&[(1, 10.0), (0, 15.0)]),
    );
    assert_eq!(
        poly(&[(2, -3.0), (1, -20.0), (0, 10.0)]).integral(fx(15.0)),
        poly(&[(3, -1.0), (2, -10.0), (1, 10.0), (0, 15.0)]),
    );
}

#[test]
fn lib_reflect_about_y_axis() {
    assert_eq!(Polynomial::new().reflect_about_y_axis(), Polynomial::new());
    assert_eq!(
        poly(&[(0, 10.0)]).reflect_about_y_axis(),
        poly(&[(0, 10.0)]),
    );
    assert_eq!(
        poly(&[(3, 2.0), (2, -3.0), (1, -17.0), (0, 6.0)]).reflect_about_y_axis(),
        poly(&[(3, -2.0), (2, -3.0), (1, 17.0), (0, 6.0)]),
    );
}

#[test]
fn lib_real_roots() {
    assert_eq!(Polynomial::new().real_roots(fx(0.001)).unwrap(), fxs(&[]));
    assert_eq!(
        poly(&[(7, 0.0), (1, 0.0), (0, 0.0)]).real_roots(fx(0.001)).unwrap(),
        fxs(&[])
    );

    assert_eq!(poly(&[(0, 1.0)]).real_roots(fx(0.001)).unwrap(), fxs(&[]));
    assert_eq!(poly(&[(0, 7.167)]).real_roots(fx(0.001)).unwrap(), fxs(&[]));

    assert_eq!(poly(&[(1, 1.0)]).real_roots(fx(0.001)).unwrap(), fxs(&[0.0]));
    assert_eq!(poly(&[(100, 1.0)]).real_roots(fx(0.001)).unwrap(), fxs(&[0.0]));

    assert_eq!(poly(&[(2, 1.0), (0, 1.0)]).real_roots(fx(0.001)).unwrap(), fxs(&[]));
    println!(
        "{:?}",
        poly(&[(2, 1.0), (1, -4.0), (0, 4.0)]).real_roots(fx(0.001)).unwrap()
    );
    println!(
        "{:?}",
        poly(&[(3, 1.0), (2, -6.0), (1, 12.0), (0, -8.0)]).real_roots(fx(0.001)).unwrap()
    );
    println!("{:?}", poly(&[(1, 1.0), (0, -1.0)]).real_roots(fx(0.001)).unwrap());
    println!("{:?}", poly(&[(1, 1.0), (0, 1.0)]).real_roots(fx(0.001)).unwrap());
    println!("{:?}", poly(&[(3, 1.0), (1, -1.0)]).real_roots(fx(0.001)).unwrap());
    println!(
        "{:?}",
        poly(&[(2, 1.0), (1, -5.0), (0, 6.0)]).real_roots(fx(0.001)).unwrap()
    );
    println!(
        "{:?}",
        poly(&[(4, 1.0), (3, -10.0), (2, 35.0), (1, -50.0), (0, 24.0)]).real_roots(fx(0.001)).unwrap()
    );
    println!(
        "{:?}",
        poly(&[(4, 1.0), (3, -22.0), (2, 152.0), (1, -362.0), (0, 231.0)])
            .real_roots(fx(0.001)).unwrap()
    );
    println!(
        "{:?}",
        poly(&[(2, 1.0), (1, -1100.0), (0, 100000.0)]).real_roots(fx(0.1)).unwrap()
    );
}

#[test]
fn ignore_zero_coeff_for_eq() {
    assert_eq!(
        poly(&[(4, 0.0), (3, 0.0), (2, 0.0), (1, 0.0)]),
        Polynomial::new(),
    );
    assert_eq!(
        Polynomial::new(),
        poly(&[(4, 0.0), (3, 0.0), (2, 0.0), (1, 0.0)]),
    );
    assert_eq!(
        poly(&[(4, 1.0), (2, -3.0)]),
        poly(&[(4, 1.0), (3, 0.0), (2, -3.0), (1, 0.0)]),
    );
    assert_eq!(
        poly(&[(4, 1.0), (3, 0.0), (2, -3.0), (1, 0.0)]),
        poly(&[(4, 1.0), (2, -3.0)]),
    );
}

#[test]
fn lib_add() {
    let p = poly(&[(1, 11.0), (2, 57.0), (0, 51.0)]);
    let q = poly(&[(3, 73.0), (2, -118.0), (0, 40.0)]);
    assert_eq!(
        p + q,
        poly(&[(3, 73.0), (2, -61.0), (1, 11.0), (0, 91.0)])
    );
}

#[test]
fn lib_add_assign() {
    let mut p = poly(&[(1, 11.0), (2, 57.0), (0, 51.0)]);
    let q = poly(&[(3, 73.0), (2, -118.0), (0, 40.0)]);
    p += q;
    assert_eq!(
        p,
        poly(&[(3, 73.0), (2, -61.0), (1, 11.0), (0, 91.0)])
    );
}

#[test]
fn lib_sub() {
    let p = poly(&[(1, 11.0), (2, 57.0), (0, 51.0)]);
    let q = poly(&[(3, 73.0), (2, -118.0), (0, 40.0)]);
    assert_eq!(
        p - q,
        poly(&[(3, -73.0), (2, 175.0), (1, 11.0), (0, 11.0)])
    );
}

#[test]
fn lib_sub_assign() {
    let mut p = poly(&[(1, 11.0), (2, 57.0), (0, 51.0)]);
    let q = poly(&[(3, 73.0), (2, -118.0), (0, 40.0)]);
    p -= q;
    assert_eq!(
        p,
        poly(&[(3, -73.0), (2, 175.0), (1, 11.0), (0, 11.0)])
    );
}

#[test]
fn lib_mul() {
    let p = poly(&[(1, 1.0), (2, 5.0), (0, 5.0)]);
    let q = poly(&[(3, 7.0), (2, -8.0), (0, 4.0)]);
    assert_eq!(
        p * q,
        poly(&[(5, 35.0), (4, -33.0), (3, 27.0), (2, -20.0), (1, 4.0), (0, 20.0)])
    );
}

#[test]
fn lib_div() {
    let p = Polynomial::new();
    let q = poly(&[(1, 1.0), (0, -2.0)]);
    assert_eq!((p / q).unwrap(), Polynomial::new());
    let p = poly(&[(2, 1.0), (1, -5.0), (0, 6.0)]);
    let q = poly(&[(1, 1.0), (0, -2.0)]);
    assert_eq!((p / q).unwrap(), poly(&[(1, 1.0), (0, -3.0)]));
    let p = poly(&[(3, 2.0), (2, -5.0), (1, -1.0), (0, 3.0)]);
    let q = poly(&[(1, 1.0), (0, 3.0)]);
    assert_eq!((p / q).unwrap(), poly(&[(2, 2.0), (1, -11.0), (0, 32.0)]));
    let p = poly(&[(4, 6.0), (3, 5.0), (1, 4.0), (0, -4.0)]);
    let q = poly(&[(2, 2.0), (1, 1.0), (0, -1.0)]);
    assert_eq!((p / q).unwrap(), poly(&[(2, 3.0), (1, 1.0), (0, 1.0)]));
}

#[test]
#[should_panic]
fn lib_div_with_zero_polynomial1() {
    let p = Polynomial::new();
    let q = Polynomial::new();
    let _ = (p / q).unwrap();
}

#[test]
#[should_panic]
fn lib_div_with_zero_polynomial2() {
    let p = poly(&[(3, 2.0), (2, -5.0), (1, -1.0), (0, 3.0)]);
    let q = Polynomial::new();
    let _ = (p / q).unwrap();
}

#[test]
fn lib_rem() {
    let p = Polynomial::new();
    let q = poly(&[(1, 1.0), (0, -2.0)]);
    assert_eq!((p % q).unwrap(), Polynomial::new());
    let p = poly(&[(2, 1.0), (1, -5.0), (0, 6.0)]);
    let q = poly(&[(1, 1.0), (0, -2.0)]);
    assert_eq!((p % q).unwrap(), Polynomial::new());
    let p = poly(&[(3, 2.0), (2, -5.0), (1, -1.0), (0, 3.0)]);
    let q = poly(&[(1, 1.0), (0, 3.0)]);
    assert_eq!((p % q).unwrap(), poly(&[(0, -93.0)]));
    let p = poly(&[(4, 6.0), (3, 5.0), (1, 4.0), (0, -4.0)]);
    let q = poly(&[(2, 2.0), (1, 1.0), (0, -1.0)]);
    assert_eq!((p % q).unwrap(), poly(&[(1, 4.0), (0, -3.0)]));
}

#[test]
#[should_panic]
fn lib_rem_with_zero_polynomial1() {
    let p = Polynomial::new();
    let q = Polynomial::new();
    let _ = (p % q).unwrap();
}

#[test]
#[should_panic]
fn lib_rem_with_zero_polynomial2() {
    let p = poly(&[(3, 2.0), (2, -5.0), (1, -1.0), (0, 3.0)]);
    let q = Polynomial::new();
    let _ = (p % q).unwrap();
}
