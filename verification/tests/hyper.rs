use cos::num::{Num, NumError};

const F: u8 = 6;
const W: u8 = 8;

fn from_f64(value: f64) -> Num {
    assert!(!value.is_nan());
    let scaled = value * 1_000_000f64;
    Num::from_raw(scaled.round() as i64, F, W)
}

fn from_int(n: i64) -> Num {
    Num::from_int(n, F, W)
}

/// The reference values below are written with four fractional digits; at
/// six stored digits they pin the result to within half of their last
/// written digit.
fn close_to(a: Num, b: Num) -> bool {
    (a.raw() - b.raw()).abs() <= 50
}

#[test]
fn test_hyperbolic_functions() {
    let zero = Num::zero(F, W);
    let one = Num::one(F, W);

    // Hyperbolic sine
    assert_eq!(zero.sinh(), zero);
    assert!(close_to(one.sinh(), from_f64(1.1752)));
    assert!(close_to(from_int(2).sinh(), from_f64(3.6269)));
    assert!(close_to(from_f64(-1.0).sinh(), from_f64(-1.1752)));

    // Hyperbolic cosine
    assert_eq!(zero.cosh().unwrap(), one);
    assert!(close_to(one.cosh().unwrap(), from_f64(1.5431)));
    assert!(close_to(from_int(2).cosh().unwrap(), from_f64(3.7622)));
    assert!(close_to(from_f64(-1.0).cosh().unwrap(), from_f64(1.5431))); // even function

    // Hyperbolic tangent
    assert_eq!(zero.tanh().unwrap(), zero);
    assert!(close_to(one.tanh().unwrap(), from_f64(0.7616)));
    assert!(close_to(from_int(2).tanh().unwrap(), from_f64(0.9640)));
    assert!(close_to(from_f64(-1.0).tanh().unwrap(), from_f64(-0.7616)));

    // Hyperbolic cotangent
    assert!(close_to(one.ctgh().unwrap(), from_f64(1.3130)));
    assert!(close_to(from_int(2).ctgh().unwrap(), from_f64(1.0373)));
    assert!(close_to(from_f64(-1.0).ctgh().unwrap(), from_f64(-1.3130)));
}

#[test]
fn test_logarithmic_functions() {
    let zero = Num::zero(F, W);
    let one = Num::one(F, W);

    // Natural logarithm
    assert_eq!(one.ln().unwrap(), zero);
    assert_eq!(Num::e(F, W).ln().unwrap(), one);
    assert_eq!(from_int(2).ln().unwrap(), Num::ln_2(F, W));
    assert_eq!(from_int(10).ln().unwrap(), from_f64(std::f64::consts::LN_10));
    assert_eq!(from_f64(0.5).ln().unwrap(), Num::ln_2(F, W).neg());

    // Inverse hyperbolic sine
    assert_eq!(zero.arcsinh().unwrap(), zero);
    assert!(close_to(one.arcsinh().unwrap(), from_f64(0.8814)));
    assert!(close_to(from_int(2).arcsinh().unwrap(), from_f64(1.4436)));

    // Inverse hyperbolic cosine
    assert_eq!(one.arccosh().unwrap(), zero);
    assert!(close_to(from_int(2).arccosh().unwrap(), from_f64(1.3170)));
    assert!(close_to(from_int(3).arccosh().unwrap(), from_f64(1.7627)));

    // Inverse hyperbolic tangent
    assert_eq!(zero.arctanh().unwrap(), zero);
    assert!(close_to(from_f64(0.5).arctanh().unwrap(), from_f64(0.5493)));
    assert!(close_to(from_f64(-0.5).arctanh().unwrap(), from_f64(-0.5493)));

    // Inverse hyperbolic cotangent
    assert!(close_to(from_int(2).arcctgh().unwrap(), from_f64(0.5493)));
    assert!(close_to(from_int(3).arcctgh().unwrap(), from_f64(0.3466)));
    assert!(close_to(from_int(-2).arcctgh().unwrap(), from_f64(-0.5493)));
}

#[test]
fn test_other_mathematical_functions() {
    let zero = Num::zero(F, W);
    let one = Num::one(F, W);

    // Square root of perfect squares
    assert_eq!(zero.sqrt().unwrap(), zero);
    assert_eq!(one.sqrt().unwrap(), one);
    assert_eq!(from_int(4).sqrt().unwrap(), from_int(2));
    assert_eq!(from_int(9).sqrt().unwrap(), from_int(3));
    assert_eq!(from_int(16).sqrt().unwrap(), from_int(4));
    assert_eq!(from_int(25).sqrt().unwrap(), from_int(5));

    // Square root of non-perfect squares
    assert_eq!(from_int(2).sqrt().unwrap(), Num::sqrt_2(F, W));
    assert_eq!(from_int(3).sqrt().unwrap(), from_f64(1.7320508));
    assert_eq!(from_int(5).sqrt().unwrap(), from_f64(2.236068));
    assert_eq!(from_f64(0.25).sqrt().unwrap(), from_f64(0.5));
    assert_eq!(from_f64(1.44).sqrt().unwrap(), from_f64(1.2));

    // Factorial
    assert_eq!(zero.factorial().unwrap(), one);
    assert_eq!(one.factorial().unwrap(), one);
    assert_eq!(from_int(2).factorial().unwrap(), from_int(2));
    assert_eq!(from_int(3).factorial().unwrap(), from_int(6));
    assert_eq!(from_int(4).factorial().unwrap(), from_int(24));
    assert_eq!(from_int(5).factorial().unwrap(), from_int(120));
    assert_eq!(from_int(6).factorial().unwrap(), from_int(720));
}

#[test]
fn test_sqrt_negative() {
    assert_eq!(from_int(-1).sqrt(), Err(NumError::NegativeSquareRoot));
}

#[test]
fn test_factorial_negative() {
    assert_eq!(from_int(-1).factorial(), Err(NumError::NegativeOrNonIntegerFactorial));
    assert_eq!(from_f64(1.5).factorial(), Err(NumError::NegativeOrNonIntegerFactorial));
    assert_eq!(from_int(21).factorial(), Err(NumError::FactorialOverflow));
}

#[test]
fn test_ln_non_positive() {
    assert_eq!(Num::zero(F, W).ln(), Err(NumError::NonPositiveLogarithm));
    assert_eq!(from_int(-3).ln(), Err(NumError::NonPositiveLogarithm));
}

#[test]
fn test_hyperbolic_and_log_exact() {
    // The engine is deterministic, so the six-digit results are pinned
    // exactly.
    assert_eq!(Num::one(F, W).sinh().raw(), 1_175_201);
    assert_eq!(from_int(2).sinh().raw(), 3_626_860);
    assert_eq!(from_f64(-1.0).sinh().raw(), -1_175_201);
    assert_eq!(Num::one(F, W).cosh().unwrap().raw(), 1_543_080);
    assert_eq!(from_int(2).cosh().unwrap().raw(), 3_762_195);
    assert_eq!(Num::one(F, W).tanh().unwrap().raw(), 761_594);
    assert_eq!(from_int(2).tanh().unwrap().raw(), 964_028);
    assert_eq!(from_f64(-1.0).tanh().unwrap().raw(), -761_594);
    assert_eq!(Num::one(F, W).ctgh().unwrap().raw(), 1_313_035);
    assert_eq!(from_int(2).ctgh().unwrap().raw(), 1_037_315);
    assert_eq!(from_f64(-1.0).ctgh().unwrap().raw(), -1_313_035);
    assert_eq!(from_int(10).ln().unwrap().raw(), 2_302_585);
    assert_eq!(Num::one(F, W).arcsinh().unwrap().raw(), 881_374);
    assert_eq!(from_int(2).arcsinh().unwrap().raw(), 1_443_635);
    assert_eq!(from_int(2).arccosh().unwrap().raw(), 1_316_958);
    assert_eq!(from_int(3).arccosh().unwrap().raw(), 1_762_747);
    assert_eq!(from_f64(0.5).arctanh().unwrap().raw(), 549_306);
    assert_eq!(from_f64(-0.5).arctanh().unwrap().raw(), -549_307);
    assert_eq!(from_int(2).arcctgh().unwrap().raw(), 549_306);
    assert_eq!(from_int(3).arcctgh().unwrap().raw(), 346_574);
    assert_eq!(from_int(-2).arcctgh().unwrap().raw(), -549_307);
}

#[test]
fn test_factorial_saturates() {
    // Twenty factorial times the scale exceeds the raw range, so the
    // stored result saturates at the representable maximum.
    assert_eq!(from_int(20).factorial().unwrap().raw(), i64::MAX);
}
