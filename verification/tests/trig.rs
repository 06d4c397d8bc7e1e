use raytracer::scalar::Scalar;
use raytracer::utils::degrees_to_radians;

fn fx(x: f64) -> Scalar {
    Scalar::from_raw((x * 1e9).round() as i64)
}

fn value(x: Scalar) -> f64 {
    x.raw as f64 / 1e9
}

#[test]
fn sine_and_cosine_at_zero() {
    assert_eq!(Scalar::zero().sin(), Scalar::zero());
    assert_eq!(Scalar::zero().cos(), Scalar::one());
    assert_eq!(Scalar::zero().tan(), Scalar::zero());
}

#[test]
fn sine_follows_the_function() {
    let mut angle = -1.6;
    while angle <= 1.6 {
        let got = value(fx(angle).sin());
        assert!((got - angle.sin()).abs() < 1e-7, "sin({}) = {}", angle, got);
        angle += 0.05;
    }
}

#[test]
fn cosine_follows_the_function() {
    let mut angle = -1.6;
    while angle <= 1.6 {
        let got = value(fx(angle).cos());
        assert!((got - angle.cos()).abs() < 1e-7, "cos({}) = {}", angle, got);
        angle += 0.05;
    }
}

#[test]
fn tangent_follows_the_function() {
    let mut angle = 0.0;
    while angle <= 1.5 {
        let got = value(fx(angle).tan());
        let want = angle.tan();
        assert!((got - want).abs() < 1e-6 * (1.0 + want * want), "tan({}) = {}", angle, got);
        angle += 0.05;
    }
}

#[test]
fn tangent_of_an_eighth_turn_is_one() {
    let got = fx(std::f64::consts::FRAC_PI_4).tan();
    assert!((got.raw - 1_000_000_000).abs() < 10);
}

#[test]
fn degrees_become_radians() {
    assert_eq!(degrees_to_radians(fx(180.0)), Scalar::from_raw(3_141_592_654));
    assert_eq!(degrees_to_radians(fx(90.0)), Scalar::from_raw(1_570_796_327));
    assert_eq!(degrees_to_radians(fx(0.0)), Scalar::zero());
    assert_eq!(degrees_to_radians(fx(-180.0)), Scalar::from_raw(-3_141_592_654));
    let twenty = value(degrees_to_radians(fx(20.0)));
    assert!((twenty - 20.0f64.to_radians()).abs() < 1e-8);
}

#[test]
fn sine_is_odd_and_cosine_is_even() {
    for raw in [1i64, 250_000_000, 785_398_163, 1_570_796_327, 3_000_000_000] {
        let x = Scalar::from_raw(raw);
        assert_eq!((-x).sin(), -(x.sin()));
        assert_eq!((-x).cos(), x.cos());
    }
}
