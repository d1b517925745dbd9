//! Absolute-error and range checks on floating-point values, written out
//! as plain assertions.

#[test]
fn abs_err() {
    assert!((1.05f64 - 1.0).abs() < 0.1);
}

#[test]
fn in_range() {
    assert!(0f64 <= 1. && 0f64 >= 0.);
}

#[test]
#[should_panic]
fn in_range_noninclusive() {
    assert!(0f64 < 1. && 0f64 > 0.);
}

#[test]
fn in_range_include_lower() {
    assert!(0f64 < 0.1 && 0f64 >= 0f64);
}

#[test]
fn in_range_include_upper() {
    assert!(0f64 <= 0. && 0f64 > -1.);
}
