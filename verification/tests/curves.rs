use polynomial::sampling::sample_points;
use polynomial::{Fixed, Polynomial, PolynomialError};

fn fx(x: f64) -> Fixed {
    Fixed::from_raw((x * 1_000_000.0).round() as i64)
}

fn poly(terms: &[(isize, f64)]) -> Polynomial {
    let pairs: Vec<(isize, Fixed)> = terms.iter().map(|&(power, c)| (power, fx(c))).collect();
    Polynomial::from_terms(&pairs).unwrap()
}

#[test]
fn fewer_than_two_samples_are_refused() {
    assert_eq!(
        sample_points(fx(-13.0), fx(5.0), 0),
        Err(PolynomialError::InsufficientSamples)
    );
    assert_eq!(
        sample_points(fx(-13.0), fx(5.0), 1),
        Err(PolynomialError::InsufficientSamples)
    );
    let p = poly(&[(1, 1.0)]);
    assert_eq!(
        Polynomial::plot(&[&p], fx(0.0), fx(1.0), 1, "none").map(|_| ()),
        Err(PolynomialError::InsufficientSamples)
    );
    assert_eq!(
        Polynomial::plot(&[], fx(0.0), fx(1.0), 0, "none").map(|_| ()),
        Err(PolynomialError::InsufficientSamples)
    );
}

#[test]
fn sample_points_are_evenly_spaced_with_both_ends() {
    assert_eq!(sample_points(fx(-13.0), fx(5.0), 2), Ok(vec![fx(-13.0), fx(5.0)]));
    assert_eq!(
        sample_points(fx(-1.0), fx(1.0), 5),
        Ok(vec![fx(-1.0), fx(-0.5), fx(0.0), fx(0.5), fx(1.0)])
    );
    let xs = sample_points(fx(-13.0), fx(5.0), 50).unwrap();
    assert_eq!(xs.len(), 50);
    assert_eq!(xs[0], fx(-13.0));
    assert_eq!(xs[49], fx(5.0));
    // 18 * (1 / 49), each factor rounded toward zero
    assert_eq!(xs[1].raw(), -13_000_000 + 18 * 20_408);
    for pair in xs.windows(2) {
        assert!(pair[0].raw() < pair[1].raw());
    }
}

#[test]
fn sample_points_with_thirds() {
    // the share 1/3 is rounded toward zero to 0.333333, then 3 * 0.333333
    assert_eq!(
        sample_points(fx(0.0), fx(3.0), 4),
        Ok(vec![fx(0.0), fx(0.999999), fx(1.999998), fx(3.0)])
    );
}

#[test]
fn plot_holds_a_curve_for_each_polynomial() {
    let p = poly(&[(2, 1.0)]);
    let q = poly(&[(1, -2.0), (0, 1.0)]);
    let plot = Polynomial::plot(&[&p, &q], fx(-1.0), fx(1.0), 3, "curves").unwrap();
    assert_eq!(plot.file, "curves.gnuplot");
    assert_eq!(plot.title, "plotted from -1 to 1 with 3 samples");
    assert_eq!(plot.curves.len(), 2);
    assert_eq!(plot.curves[0].caption, "+1x^{2}");
    assert_eq!(
        plot.curves[0].points,
        vec![(fx(-1.0), fx(1.0)), (fx(0.0), fx(0.0)), (fx(1.0), fx(1.0))]
    );
    assert_eq!(plot.curves[1].caption, "-2x^{1}+1x^{0}");
    assert_eq!(
        plot.curves[1].points,
        vec![(fx(-1.0), fx(3.0)), (fx(0.0), fx(1.0)), (fx(1.0), fx(-1.0))]
    );
}

#[test]
fn plot_of_no_polynomial_has_no_curve() {
    let plot = Polynomial::plot(&[], fx(0.5), fx(2.25), 10, "dir/empty").unwrap();
    assert_eq!(plot.file, "dir/empty.gnuplot");
    assert_eq!(plot.title, "plotted from 0.5 to 2.25 with 10 samples");
    assert!(plot.curves.is_empty());
}
