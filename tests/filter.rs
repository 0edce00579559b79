use kalman_no_control::fixed::{Fixed, LIMIT, SCALE};
use kalman_no_control::kalman::{kfilter, KalmanError, ScalarKalman};

fn fx(v: f64) -> Fixed {
    Fixed::from_raw((v * 1e18).round() as i128)
}

fn val(f: Fixed) -> f64 {
    f.raw() as f64 / 1e18
}

fn filter(a: f64, h: f64, q: f64, r: f64, x0: Option<f64>, p0: Option<f64>) -> ScalarKalman {
    ScalarKalman::new(fx(a), fx(h), fx(q), fx(r), x0.map(fx), p0.map(fx))
}

#[test]
fn fixed_arithmetic_is_exact_then_rounds_down() {
    assert_eq!(Fixed::one().raw(), SCALE);
    assert_eq!(Fixed::zero().raw(), 0);
    assert_eq!(Fixed::from_int(5).raw(), 5 * SCALE);
    assert_eq!(fx(1.5).add(fx(0.25)).raw(), 1_750_000_000_000_000_000);
    assert_eq!(fx(1.5).sub(fx(2.0)).raw(), -500_000_000_000_000_000);
    assert_eq!(fx(1.5).mul(fx(-2.0)).raw(), -3_000_000_000_000_000_000);
    assert_eq!(fx(1.0).div(fx(3.0)).raw(), 333_333_333_333_333_333);
    assert_eq!(fx(-1.0).div(fx(3.0)).raw(), -333_333_333_333_333_334);
    assert_eq!(fx(1.0).div(fx(-3.0)).raw(), -333_333_333_333_333_334);
    assert_eq!(Fixed::from_raw(-1).mul(Fixed::from_raw(1)).raw(), -1);
    assert_eq!(fx(-2.5).abs().raw(), 2_500_000_000_000_000_000);
    let big = Fixed::from_int(123_456_789);
    let small = Fixed::from_raw(7);
    assert_eq!(big.mul(small).raw(), 864_197_523);
    assert_eq!(big.mul(big).raw(), 15_241_578_750_190_521 * SCALE);
    assert_eq!(Fixed::from_raw(1).div(big).raw(), 0);
    assert_eq!(big.div(Fixed::from_int(1_000)).raw(), 123_456_789 * SCALE / 1_000);
}

#[test]
fn fixed_keeps_tiny_values() {
    assert_eq!(fx(1e-12).raw(), 1_000_000);
    assert_eq!(fx(1e-12).mul(Fixed::from_int(1_000_000)).raw(), 1_000_000_000_000);
}

#[test]
fn fixed_saturates_instead_of_overflowing() {
    assert_eq!(Fixed::from_raw(i128::MIN).raw(), -LIMIT);
    assert_eq!(Fixed::from_int(i64::MAX).raw(), LIMIT);
    assert_eq!(Fixed::from_raw(LIMIT).add(Fixed::one()).raw(), LIMIT);
    assert_eq!(Fixed::from_raw(-LIMIT).sub(Fixed::one()).raw(), -LIMIT);
    assert_eq!(Fixed::from_int(2_000_000_000).mul(Fixed::from_int(1_000_000_000)).raw(), LIMIT);
    assert_eq!(Fixed::from_int(-2_000_000_000).mul(Fixed::from_int(1_000_000_000)).raw(), -LIMIT);
    assert_eq!(Fixed::from_int(10).div(Fixed::from_raw(1)).raw(), LIMIT);
    assert_eq!(Fixed::from_int(-10).div(Fixed::from_raw(1)).raw(), -LIMIT);
}

#[test]
fn new_defaults_missing_initial_values_to_zero() {
    let f = filter(2.0, 3.0, 0.5, 0.25, None, None);
    assert_eq!(f.x().raw(), 0);
    assert_eq!(f.p().raw(), 0);
    assert_eq!(val(f.a()), 2.0);
    assert_eq!(val(f.h()), 3.0);
    assert_eq!(val(f.q()), 0.5);
    assert_eq!(val(f.r()), 0.25);
    let g = filter(1.0, 1.0, 0.0, 1.0, Some(-4.0), Some(7.0));
    assert_eq!(val(g.x()), -4.0);
    assert_eq!(val(g.p()), 7.0);
}

#[test]
fn predict_applies_process_model() {
    let mut f = filter(2.0, 1.0, 0.5, 1.0, Some(3.0), Some(1.5));
    f.predict();
    assert_eq!(val(f.x()), 6.0);
    assert_eq!(val(f.p()), 6.5);
    assert_eq!(val(f.a()), 2.0);
    assert_eq!(val(f.q()), 0.5);
}

#[test]
fn predict_only_with_unit_transition_and_no_noise_is_steady() {
    let mut f = filter(1.0, 1.0, 0.0, 1.0, Some(2.75), Some(0.125));
    for _ in 0..100 {
        f.predict();
        assert_eq!(val(f.x()), 2.75);
        assert_eq!(val(f.p()), 0.125);
    }
}

#[test]
fn update_corrects_estimate() {
    let mut f = filter(1.0, 1.0, 0.0, 1.0, Some(0.0), Some(1.0));
    assert_eq!(f.update(fx(2.0)), Ok(()));
    assert_eq!(val(f.x()), 1.0);
    assert_eq!(val(f.p()), 0.5);
}

#[test]
fn constant_observation_converges() {
    let mut f = filter(1.0, 1.0, 0.0, 1.0, Some(0.0), Some(1.0));
    let z = Fixed::from_int(5);
    let mut last_x = f.x().raw();
    let mut last_p = f.p().raw();
    for _ in 0..50 {
        let x = f.advance(z).unwrap();
        assert_eq!(x, f.x());
        assert!(x.raw() >= last_x && x.raw() <= z.raw());
        assert!(f.p().raw() <= last_p && f.p().raw() >= 0);
        last_x = x.raw();
        last_p = f.p().raw();
    }
    assert!((val(f.x()) - 5.0).abs() < 0.2);
    assert!(val(f.p()) < 0.05);
    let mut g = filter(1.0, 1.0, 0.0, 1.0, Some(9.0), Some(2.0));
    let mut last_x = g.x().raw();
    for _ in 0..20 {
        let x = g.advance(z).unwrap();
        assert!(x.raw() <= last_x && x.raw() >= z.raw());
        last_x = x.raw();
    }
}

#[test]
fn singular_update_fails_and_changes_nothing() {
    for z in [-3.0, 0.0, 1.0, 1e6] {
        let mut f = filter(1.0, 0.0, 0.0, 0.0, Some(1.25), Some(2.0));
        assert_eq!(f.update(fx(z)), Err(KalmanError::FailedScalarInverse));
        assert_eq!(val(f.x()), 1.25);
        assert_eq!(val(f.p()), 2.0);
    }
}

#[test]
fn singular_threshold_is_one_hundred_millionth_in_magnitude() {
    let mut below = ScalarKalman::new(
        Fixed::one(),
        Fixed::zero(),
        Fixed::zero(),
        Fixed::from_raw(9_999_999_999),
        None,
        None,
    );
    assert!(below.update(Fixed::one()).is_err());
    let mut at = ScalarKalman::new(
        Fixed::one(),
        Fixed::zero(),
        Fixed::zero(),
        Fixed::from_raw(10_000_000_000),
        None,
        None,
    );
    assert!(at.update(Fixed::one()).is_ok());
    let mut negative = ScalarKalman::new(
        Fixed::one(),
        Fixed::zero(),
        Fixed::zero(),
        Fixed::from_raw(-9_999_999_999),
        None,
        None,
    );
    assert!(negative.update(Fixed::one()).is_err());
}

#[test]
fn advance_keeps_prediction_when_update_fails() {
    let mut f = filter(2.0, 0.0, 0.0, 0.0, Some(1.5), Some(1.0));
    assert_eq!(f.advance(fx(4.0)), Err(KalmanError::FailedScalarInverse));
    assert_eq!(val(f.x()), 3.0);
    assert_eq!(val(f.p()), 4.0);
}

#[test]
fn error_names_the_scalar() {
    assert_eq!(
        KalmanError::FailedScalarInverse.scalar_name(),
        "Innovation (measurement pre-fit residual `S`)"
    );
}

#[test]
fn batch_matches_advancing_one_by_one() {
    let obs = [0.3, -1.2, 4.0, 2.5, 2.5, -0.75];
    let mut stepped = filter(0.9, 1.3, 0.01, 0.4, Some(1.0), Some(2.0));
    let mut expected = Vec::new();
    for &z in obs.iter() {
        expected.push(stepped.advance(fx(z)).unwrap());
    }
    let mut batched = filter(0.9, 1.3, 0.01, 0.4, Some(1.0), Some(2.0));
    let out = kfilter(&mut batched, obs.iter().map(|&z| fx(z)).collect()).unwrap();
    assert_eq!(out, expected);
    assert_eq!(batched.x(), stepped.x());
    assert_eq!(batched.p(), stepped.p());
}

#[test]
fn empty_batch_changes_nothing() {
    let mut f = filter(2.0, 1.0, 1.0, 1.0, Some(1.0), Some(1.0));
    assert_eq!(kfilter(&mut f, Vec::new()), Ok(Vec::new()));
    assert_eq!(val(f.x()), 1.0);
    assert_eq!(val(f.p()), 1.0);
}

#[test]
fn batch_fails_fast() {
    // The first step drives the variance to zero; with R = 0 the second is singular.
    let mut f = filter(1.0, 1.0, 0.0, 0.0, Some(0.0), Some(1.0));
    let res = kfilter(&mut f, vec![fx(1.0), fx(2.0), fx(3.0)]);
    assert_eq!(res, Err(KalmanError::FailedScalarInverse));
    assert_eq!(val(f.x()), 1.0);
    assert_eq!(val(f.p()), 0.0);
}

#[test]
fn scenario_gain_weighted_convergence() {
    let mut f = filter(1.0, 1.0, 0.001, 1.0, Some(0.0), Some(1.0));
    let out = kfilter(&mut f, vec![fx(1.0); 3]).unwrap();
    let (mut x, mut p) = (0.0f64, 1.0f64);
    let mut prev = 0.0;
    for est in out.iter() {
        p += 0.001;
        let k = p / (p + 1.0);
        x += k * (1.0 - x);
        p *= 1.0 - k;
        assert!((val(*est) - x).abs() < 1e-12);
        assert!(val(*est) > prev && val(*est) < 1.0);
        prev = val(*est);
    }
    assert!((val(out[0]) - 0.5).abs() < 1e-3);
    assert!((val(out[1]) - 0.667).abs() < 1e-3);
    assert!((val(out[2]) - 0.75).abs() < 1e-3);
}

#[test]
fn constant_observation_matches_recurrence() {
    let mut f = filter(1.0, 1.0, 0.0, 1.0, Some(0.0), Some(1.0));
    let z = Fixed::from_int(5);
    let expected = [(2.5, 0.5), (10.0 / 3.0, 1.0 / 3.0), (3.75, 0.25)];
    for (x, p) in expected {
        let v = f.advance(z).unwrap();
        assert!((val(v) - x).abs() < 1e-12);
        assert!((val(f.p()) - p).abs() < 1e-12);
    }
}

#[test]
fn scenario_first_step_is_exact_to_float_accuracy() {
    let mut f = filter(1.0, 1.0, 0.001, 1.0, Some(0.0), Some(1.0));
    let v = f.advance(fx(1.0)).unwrap();
    assert!((val(v) - 1.001 / 2.001).abs() < 1e-12);
    assert!((val(f.p()) - 1.001 / 2.001).abs() < 1e-12);
}

#[test]
fn large_observation_coefficient_does_not_saturate() {
    let mut f = filter(1.0, 1e5, 0.0, 1.0, Some(0.0), Some(1.0));
    f.update(fx(1e5)).unwrap();
    assert!((val(f.x()) - 1e10 / (1e10 + 1.0)).abs() < 1e-12);
    assert!((val(f.p()) - 1.0 / (1e10 + 1.0)).abs() < 1e-12);
}
