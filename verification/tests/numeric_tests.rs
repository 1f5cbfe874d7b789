use mbc_mom::binary64::{abs_below, max_bits};
use mbc_mom::geometry::GROUND_TOLERANCE_BITS;

fn max_f(a: f64, b: f64) -> f64 {
    f64::from_bits(max_bits(a.to_bits(), b.to_bits()))
}

#[test]
fn max_bits_matches_f64_max() {
    let vals = [0.0, 1.0, -1.0, 2.5, -2.5, 1e-300, -1e300, f64::INFINITY, f64::NEG_INFINITY, 0.001, 0.002];
    for &a in &vals {
        for &b in &vals {
            assert_eq!(max_f(a, b), a.max(b), "{} {}", a, b);
        }
    }
}

#[test]
fn max_bits_ignores_nan() {
    assert_eq!(max_f(f64::NAN, 3.0), 3.0);
    assert_eq!(max_f(-3.0, f64::NAN), -3.0);
    assert!(max_f(f64::NAN, f64::NAN).is_nan());
}

#[test]
fn tolerance_is_one_pico() {
    assert_eq!(f64::from_bits(GROUND_TOLERANCE_BITS), 1e-12);
}

#[test]
fn abs_below_matches_f64() {
    let tol = 1e-12f64;
    let vals = [0.0, -0.0, 1e-13, -1e-13, 1e-12, -1e-12, 2e-12, -5.0, f64::NAN, f64::INFINITY];
    for &z in &vals {
        assert_eq!(abs_below(z.to_bits(), tol.to_bits()), z.abs() < tol, "{}", z);
    }
}
