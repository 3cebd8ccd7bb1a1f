use cos::num::{Num, NumError};

const F: u8 = 6;
const W: u8 = 8;

fn from_f64(value: f64) -> Num {
    assert!(!value.is_nan());
    let scaled = value * 1_000_000f64;
    Num::from_raw(scaled.round() as i64, F, W)
}

fn from_int(n: i64) -> Num {
    Num::from_int(n, F, W)
}

fn zero() -> Num {
    Num::zero(F, W)
}

#[test]
fn test_basic_operations() {
    // Addition
    assert_eq!(from_int(2).add(from_int(3)), from_int(5));
    assert_eq!(from_f64(1.5).add(from_f64(2.25)), from_f64(3.75));

    // Subtraction
    assert_eq!(from_int(5).sub(from_int(3)), from_int(2));
    assert_eq!(from_f64(4.5).sub(from_f64(1.25)), from_f64(3.25));

    // Multiplication
    assert_eq!(from_int(3).mul(from_int(4)), from_int(12));
    assert_eq!(from_f64(2.5).mul(from_f64(4.0)), from_f64(10.0));

    // Division
    assert_eq!(from_int(10).div(from_int(2)).unwrap(), from_int(5));
    assert_eq!(from_f64(7.5).div(from_f64(2.5)).unwrap(), from_f64(3.0));

    // Remainder
    assert_eq!(from_int(7).rem(from_int(3)).unwrap(), from_int(1));
    assert_eq!(from_f64(5.7).rem(from_f64(2.2)).unwrap(), from_f64(1.3));

    // Negation
    assert_eq!(from_int(5).neg(), from_int(-5));
    assert_eq!(
        from_f64(std::f64::consts::PI).neg(),
        from_f64(-std::f64::consts::PI)
    );

    // Absolute value
    assert_eq!(from_int(-5).abs(), from_int(5));
    assert_eq!(
        from_f64(-std::f64::consts::PI).abs(),
        from_f64(std::f64::consts::PI)
    );
}

#[test]
fn test_assignment_operations() {
    let mut num = from_int(10);

    num.add_assign(from_int(5));
    assert_eq!(num, from_int(15));

    num.sub_assign(from_int(3));
    assert_eq!(num, from_int(12));

    num.mul_assign(from_int(2));
    assert_eq!(num, from_int(24));

    num.div_assign(from_int(4)).unwrap();
    assert_eq!(num, from_int(6));

    num.rem_assign(from_int(4)).unwrap();
    assert_eq!(num, from_int(2));
}

#[test]
fn test_comparisons() {
    // Equality
    assert_eq!(from_int(5), from_int(5));
    assert_eq!(
        from_f64(std::f64::consts::PI),
        from_f64(std::f64::consts::PI)
    );

    // Ordering
    assert!(from_int(5) > from_int(3));
    assert!(from_int(3) < from_int(5));
    assert!(from_f64(2.5) >= from_f64(2.5));
    assert!(from_f64(1.8) <= from_f64(1.8));
}

#[test]
fn test_constructors() {
    // From raw
    assert_eq!(Num::from_raw(12345, F, W).raw(), 12345);

    // From integer
    assert_eq!(from_int(42).raw(), 42000000);

    // From a float, through the raw representation
    assert_eq!(from_f64(std::f64::consts::E).raw(), 2718282);

    // From two longs
    assert_eq!(Num::from_2_longs(1, 2345000000000000000, F, W).raw(), 1234500);
}

#[test]
fn test_different_scales() {
    // Zero fractional digits
    assert_eq!(
        Num::from_int(5, 0, 0).add(Num::from_int(3, 0, 0)),
        Num::from_int(8, 0, 0)
    );
    assert_eq!(
        Num::from_int(10, 0, 0).div(Num::from_int(3, 0, 0)).unwrap(),
        Num::from_int(3, 0, 0)
    ); // Integer division

    // More fractional digits
    let hp = |v: f64| Num::from_raw((v * 100_000_000f64).round() as i64, 8, 8);
    assert_eq!(hp(1.5).add(hp(2.25)), hp(3.75));
    assert_eq!(Num::from_int(1, 8, 8).sqrt().unwrap(), Num::from_int(1, 8, 8));
}

#[test]
fn test_division_by_zero() {
    assert_eq!(from_int(1).div(zero()), Err(NumError::DivisionByZero));
    assert_eq!(from_int(1).rem(zero()), Err(NumError::DivisionByZero));
}

#[test]
fn test_raw_round_trip() {
    for r in [0i64, 1, -1, 42, i64::MAX, i64::MIN] {
        assert_eq!(Num::from_raw(r, F, W).raw(), r);
    }
}

#[test]
fn test_from_int_scaling() {
    assert_eq!(from_int(0).raw(), 0);
    assert_eq!(from_int(-7).raw(), -7_000_000);
    assert_eq!(Num::from_int(3, 2, 4).raw(), 300);
    // Saturation at the representable extremes
    assert_eq!(from_int(i64::MAX).raw(), i64::MAX);
    assert_eq!(from_int(i64::MIN).raw(), i64::MIN);
}

#[test]
fn test_additive_identity_and_inverse() {
    for r in [0i64, 123456, -987654321, i64::MAX, i64::MIN] {
        let x = Num::from_raw(r, F, W);
        assert_eq!(x.add(zero()), x);
        assert_eq!(x.add(x.neg()).raw(), 0);
    }
}

#[test]
fn test_multiplicative_identity() {
    let one = Num::one(F, W);
    for r in [0i64, 1, -1, 123456, -999999, 1_000_000_000_000] {
        let x = Num::from_raw(r, F, W);
        assert_eq!(x.mul(one), x);
    }
}

#[test]
fn test_mul_div_inverse() {
    for (a, b) in [(123456i64, 7_000_000i64), (-5_000_000, 3_000_000), (1, -2_000_000)] {
        let x = Num::from_raw(a, F, W);
        let y = Num::from_raw(b, F, W);
        let back = x.mul(y).div(y).unwrap();
        assert!((back.raw() - a).abs() <= 1);
    }
}

#[test]
fn test_precision_conversion() {
    let x = Num::from_raw(314, 2, 4);
    let up = x.increase_frac(4).unwrap();
    assert_eq!(up.raw(), 31400);
    assert_eq!(up.frac(), 4);
    let down = up.decrease_frac(2).unwrap();
    assert_eq!(down.raw(), 314);
    // Narrowing rounds half away from zero
    assert_eq!(Num::from_raw(31450, 4, 4).decrease_frac(2).unwrap().raw(), 315);
    assert_eq!(Num::from_raw(-31450, 4, 4).decrease_frac(2).unwrap().raw(), -315);
    // Widening past the working precision is allowed: the working
    // precision itself never changes
    let wide = x.increase_frac(7).unwrap();
    assert_eq!(wide.raw(), 31_400_000);
    assert_eq!(wide.frac(), 7);
    assert_eq!(wide.work(), 4);
    // Direction violations are reported
    assert_eq!(x.increase_frac(1), Err(NumError::PrecisionDirectionViolation));
    assert_eq!(x.decrease_frac(3), Err(NumError::PrecisionDirectionViolation));
}

#[test]
fn test_division_rounds_half_away() {
    // Round to nearest, ties away from zero, whatever the divisor's sign
    let at = |n: i64| Num::from_int(n, 0, 0);
    assert_eq!(at(11).div(at(-4)).unwrap(), at(-3)); // -2.75 rounds to -3
    assert_eq!(at(-11).div(at(4)).unwrap(), at(-3));
    assert_eq!(at(11).div(at(4)).unwrap(), at(3)); // 2.75 rounds to 3
    assert_eq!(at(10).div(at(-4)).unwrap(), at(-3)); // the tie -2.5 moves away
    assert_eq!(at(-10).div(at(-4)).unwrap(), at(3)); // 2.5 moves away
    assert_eq!(at(9).div(at(-4)).unwrap(), at(-2)); // -2.25 rounds to -2
}

#[test]
fn test_scale_factor() {
    assert_eq!(Num::zero(F, W).scale_factor(), 1_000_000);
    assert_eq!(Num::from_int(7, 0, 0).scale_factor(), 1);
    assert_eq!(Num::from_int(7, 2, 4).scale_factor(), 100);
}

#[test]
fn test_constants_at_six_digits() {
    assert_eq!(Num::pi(F, W).raw(), 3_141_593);
    assert_eq!(Num::tau(F, W).raw(), 6_283_185);
    assert_eq!(Num::phi(F, W).raw(), 1_618_034);
    assert_eq!(Num::egamma(F, W).raw(), 577_216);
    assert_eq!(Num::sqrt_2(F, W).raw(), 1_414_214);
    assert_eq!(Num::e(F, W).raw(), 2_718_282);
    assert_eq!(Num::ln_2(F, W).raw(), 693_147);
    assert_eq!(Num::one(F, W).raw(), 1_000_000);
    assert_eq!(Num::zero(F, W).raw(), 0);
}
