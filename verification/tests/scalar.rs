use raytracer::scalar::{Scalar, LIMIT, SCALE};

fn fx(x: f64) -> Scalar {
    Scalar::from_raw((x * 1e9).round() as i64)
}

#[test]
fn one_and_zero() {
    assert_eq!(Scalar::one().raw, SCALE);
    assert_eq!(Scalar::zero().raw, 0);
    assert_eq!(Scalar::from_raw(42).raw, 42);
}

#[test]
fn whole_numbers() {
    assert_eq!(Scalar::from_int(3).raw, 3_000_000_000);
    assert_eq!(Scalar::from_int(-7).raw, -7_000_000_000);
    assert_eq!(Scalar::from_int(0).raw, 0);
}

#[test]
fn whole_numbers_are_clamped() {
    assert_eq!(Scalar::from_int(i64::MAX).raw, LIMIT);
    assert_eq!(Scalar::from_int(i64::MIN).raw, -LIMIT);
    assert_eq!(Scalar::from_int(9_223_372_036).raw, 9_223_372_036_000_000_000);
    assert_eq!(Scalar::from_int(9_223_372_037).raw, LIMIT);
}

#[test]
fn sums_and_differences() {
    assert_eq!(fx(1.25) + fx(2.5), fx(3.75));
    assert_eq!(fx(1.25) - fx(2.5), fx(-1.25));
    assert_eq!(-fx(1.25), fx(-1.25));
}

#[test]
fn sums_are_clamped() {
    let top = Scalar::from_raw(LIMIT);
    let bottom = Scalar::from_raw(-LIMIT);
    assert_eq!(top + Scalar::from_raw(1), top);
    assert_eq!(top + top, top);
    assert_eq!(bottom - Scalar::from_raw(1), bottom);
    assert_eq!(bottom + bottom, bottom);
    assert_eq!(Scalar::from_raw(i64::MIN) + Scalar::zero(), bottom);
}

#[test]
fn negation_of_the_least_value_is_clamped() {
    assert_eq!(-Scalar::from_raw(i64::MIN), Scalar::from_raw(LIMIT));
    assert_eq!(Scalar::from_raw(i64::MIN).abs(), Scalar::from_raw(LIMIT));
    assert_eq!(-Scalar::from_raw(-LIMIT), Scalar::from_raw(LIMIT));
}

#[test]
fn grouping_of_sums_matters_only_at_the_limit() {
    let a = fx(1.5);
    let b = fx(-2.25);
    let c = fx(7.0);
    assert_eq!((a + b) + c, a + (b + c));
    let top = Scalar::from_raw(LIMIT);
    let unit = Scalar::from_raw(1);
    assert_eq!((top + unit) + (-unit), Scalar::from_raw(LIMIT - 1));
    assert_eq!(top + (unit + (-unit)), top);
}

#[test]
fn products_round_toward_zero() {
    assert_eq!(fx(1.5) * fx(2.0), fx(3.0));
    assert_eq!(Scalar::from_raw(1) * fx(0.5), Scalar::zero());
    assert_eq!(Scalar::from_raw(3) * fx(0.5), Scalar::from_raw(1));
    assert_eq!(Scalar::from_raw(-3) * fx(0.5), Scalar::from_raw(-1));
    assert_eq!(Scalar::from_raw(3) * fx(-0.5), Scalar::from_raw(-1));
    assert_eq!(Scalar::from_raw(-3) * fx(-0.5), Scalar::from_raw(1));
}

#[test]
fn products_are_clamped() {
    let big = Scalar::from_int(1_000_000);
    assert_eq!(big * big, Scalar::from_raw(LIMIT));
    assert_eq!(big * -big, Scalar::from_raw(-LIMIT));
    assert_eq!(
        Scalar::from_raw(i64::MIN) * Scalar::from_raw(i64::MIN),
        Scalar::from_raw(LIMIT)
    );
}

#[test]
fn quotients_round_toward_zero() {
    assert_eq!(fx(1.0) / fx(3.0), Scalar::from_raw(333_333_333));
    assert_eq!(fx(-1.0) / fx(3.0), Scalar::from_raw(-333_333_333));
    assert_eq!(fx(1.0) / fx(-3.0), Scalar::from_raw(-333_333_333));
    assert_eq!(fx(-1.0) / fx(-3.0), Scalar::from_raw(333_333_333));
    assert_eq!(fx(1.0) / fx(-2.0), fx(-0.5));
    assert_eq!(fx(7.5) / fx(2.5), fx(3.0));
}

#[test]
fn quotients_by_zero() {
    assert_eq!(fx(1.0) / Scalar::zero(), Scalar::from_raw(LIMIT));
    assert_eq!(fx(-1.0) / Scalar::zero(), Scalar::from_raw(-LIMIT));
    assert_eq!(Scalar::zero() / Scalar::zero(), Scalar::zero());
}

#[test]
fn quotients_are_clamped() {
    let big = Scalar::from_int(1_000_000_000);
    let tiny = Scalar::from_raw(1);
    assert_eq!(big / tiny, Scalar::from_raw(LIMIT));
    assert_eq!(-big / tiny, Scalar::from_raw(-LIMIT));
}

#[test]
fn square_roots() {
    assert_eq!(fx(4.0).sqrt(), fx(2.0));
    assert_eq!(fx(2.0).sqrt(), Scalar::from_raw(1_414_213_562));
    assert_eq!(fx(0.25).sqrt(), fx(0.5));
    assert_eq!(fx(1.0).sqrt(), fx(1.0));
    assert_eq!(Scalar::from_raw(1).sqrt(), Scalar::from_raw(31_622));
}

#[test]
fn square_root_of_zero_and_below() {
    assert_eq!(Scalar::zero().sqrt(), Scalar::zero());
    assert_eq!(fx(-4.0).sqrt(), Scalar::zero());
    assert_eq!(Scalar::from_raw(i64::MIN).sqrt(), Scalar::zero());
}

#[test]
fn square_root_is_rounded_down() {
    let inputs = [1i64, 2, 3, 999_999_999, 1_000_000_001, 123_456_789_012, LIMIT];
    for raw in inputs {
        let root = Scalar::from_raw(raw).sqrt().raw as i128;
        let n = raw as i128 * SCALE as i128;
        assert!(root * root <= n);
        assert!(n < (root + 1) * (root + 1));
    }
}

#[test]
fn magnitudes_and_minima() {
    assert_eq!(fx(-2.5).abs(), fx(2.5));
    assert_eq!(fx(2.5).abs(), fx(2.5));
    assert_eq!(fx(2.5).min(fx(1.0)), fx(1.0));
    assert_eq!(fx(-2.5).min(fx(1.0)), fx(-2.5));
    assert_eq!(fx(1.0).min(fx(1.0)), fx(1.0));
}

#[test]
fn powers() {
    assert_eq!(fx(0.5).powi(5), fx(0.03125));
    assert_eq!(fx(2.0).powi(10), fx(1024.0));
    assert_eq!(fx(7.25).powi(0), fx(1.0));
    assert_eq!(fx(7.25).powi(1), fx(7.25));
    assert_eq!(fx(-2.0).powi(3), fx(-8.0));
}

#[test]
fn whole_parts() {
    assert_eq!(Scalar::from_raw(2_999_999_999).trunc(), 2);
    assert_eq!(Scalar::from_raw(-2_999_999_999).trunc(), -2);
    assert_eq!(fx(255.9744).trunc(), 255);
    assert_eq!(fx(0.999).trunc(), 0);
}
