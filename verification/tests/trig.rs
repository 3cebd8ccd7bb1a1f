use cos::num::{Num, NumError};

const F: u8 = 6;
const W: u8 = 8;

fn from_f64(value: f64) -> Num {
    assert!(!value.is_nan());
    let scaled = value * 1_000_000f64;
    Num::from_raw(scaled.round() as i64, F, W)
}

fn from_int(n: i64) -> Num {
    Num::from_int(n, F, W)
}

fn pi_over(n: i64) -> Num {
    Num::pi(F, W).div(from_int(n)).unwrap()
}

#[test]
fn test_trigonometric_functions() {
    let zero = Num::zero(F, W);
    let one = Num::one(F, W);
    let pi = Num::pi(F, W);
    let tau = Num::tau(F, W);

    // Sine at common angles
    assert_eq!(zero.sin(), zero);
    assert_eq!(pi.sin(), zero);
    assert_eq!(pi_over(2).sin(), one);
    assert_eq!(pi_over(6).sin(), from_f64(0.5)); // 30 degrees
    assert_eq!(pi_over(4).sin(), from_f64(std::f64::consts::FRAC_1_SQRT_2)); // 45 degrees
    assert_eq!(pi_over(3).sin(), from_f64(0.866026)); // 60 degrees

    // Cosine at common angles
    assert_eq!(zero.cos(), one);
    assert_eq!(pi.cos(), one.neg());
    assert_eq!(pi_over(2).cos(), zero);
    assert_eq!(pi_over(3).cos(), from_f64(0.5)); // 60 degrees
    assert_eq!(pi_over(4).cos(), from_f64(std::f64::consts::FRAC_1_SQRT_2)); // 45 degrees
    assert_eq!(pi_over(6).cos(), from_f64(0.866026)); // 30 degrees

    // Tangent
    assert_eq!(zero.tan().unwrap(), zero);
    assert_eq!(pi_over(4).tan().unwrap(), one); // 45 degrees
    assert_eq!(pi_over(6).tan().unwrap(), from_f64(0.577350)); // 30 degrees
    assert_eq!(pi_over(3).tan().unwrap(), from_f64(1.732052)); // 60 degrees

    // Cotangent
    assert_eq!(pi_over(4).ctg().unwrap(), one); // 45 degrees
    assert_eq!(pi_over(6).ctg().unwrap(), from_f64(1.732052)); // 30 degrees
    assert_eq!(pi_over(3).ctg().unwrap(), from_f64(0.577350)); // 60 degrees

    // Angle normalization
    let angle_2pi = tau.add(pi_over(4));
    assert_eq!(angle_2pi.normalize_angle(), pi_over(4));

    let negative_angle = tau.neg().sub(pi_over(4));
    assert_eq!(negative_angle.normalize_angle(), pi_over(4).neg());

    let large_angle = tau.mul(from_int(3)).add(pi_over(3));
    assert_eq!(large_angle.normalize_angle(), pi_over(3));
}

#[test]
fn test_normalize_idempotent() {
    for raw in [0i64, 9_000_000, -9_000_000, 3_141_593, 100_000_000, -47_000_000] {
        let x = Num::from_raw(raw, F, W);
        let once = x.normalize_angle();
        assert_eq!(once.normalize_angle(), once);
    }
}

#[test]
fn test_normalize_periodic() {
    // Adding whole turns leaves the normalized angle unchanged.
    let tau = Num::tau(F, W);
    for raw in [500_000i64, -2_000_000, 3_000_000] {
        let x = Num::from_raw(raw, F, W);
        let mut shifted = x;
        for _ in 0..3 {
            shifted = shifted.add(tau);
        }
        assert_eq!(shifted.normalize_angle(), x.normalize_angle());
        assert_eq!(x.sub(tau).normalize_angle(), x.normalize_angle());
    }
}

#[test]
fn test_pythagorean_identity() {
    // sin^2 + cos^2 stays within ten raw units of one (a relative error
    // of one part in ten to the fifth at six fractional digits).
    let one = Num::one(F, W);
    for raw in [0i64, 523_598, 785_398, 1_047_197, 1_570_796, 3_141_593, 1_234_567, -1_047_198,
        2_500_000] {
        let x = Num::from_raw(raw, F, W);
        let s = x.sin();
        let c = x.cos();
        let sum = s.mul(s).add(c.mul(c));
        assert!((sum.raw() - one.raw()).abs() <= 10);
    }
}

#[test]
fn test_tan_at_cosine_zero() {
    // The cosine of a right angle is exactly zero at this precision, so
    // the tangent reports the division instead of saturating.
    let quarter = pi_over(2);
    assert_eq!(quarter.cos().raw(), 0);
    assert_eq!(quarter.tan(), Err(NumError::DivisionByZero));
    assert_eq!(Num::zero(F, W).ctg(), Err(NumError::DivisionByZero));
}
