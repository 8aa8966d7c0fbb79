//! Gains of the least-squares g-h filter.

use bayes_filter::ghk::least_squares_parameters;

#[test]
fn test_least_squares() {
    // There is an alternative form for computing h for the least squares.
    // It works for all but the very first term (n=0). Use it to partially
    // test the output of least_squares_parameters(). This test does not
    // test that g is correct.
    for n in 1..100u64 {
        let config = least_squares_parameters(n);
        let g = config.g.num as f64 / config.g.den as f64;
        let h = config.h.num as f64 / config.h.den as f64;
        let h2 = 4.0 - 2.0 * g - (4.0 * (g - 2.0).powf(2.0) - 3.0 * g.powf(2.0)).powf(0.5);
        assert!((h2 - h).abs() < 1e-12);
    }
}

#[test]
fn least_squares_parameters_are_exact() {
    // n = 1: g = 2 * 3 / 6 = 1, h = 6 / 6 = 1.
    let c = least_squares_parameters(1);
    assert_eq!(c.g.num, 6);
    assert_eq!(c.g.den, 6);
    assert_eq!(c.h.num, 6);
    assert_eq!(c.h.den, 6);
    assert_eq!(c.k.num, 0);
    // n = 8: den = 90, g = 34/90, h = 6/90.
    let c = least_squares_parameters(8);
    assert_eq!(c.g.num, 34);
    assert_eq!(c.g.den, 90);
    assert_eq!(c.h.num, 6);
    assert_eq!(c.h.den, 90);
}
