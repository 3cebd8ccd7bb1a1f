use vstd::prelude::*;
use vstd::arithmetic::div_mod::{
    lemma_div_nonincreasing, lemma_div_pos_is_pos, lemma_fundamental_div_mod_converse_mod,
};
use vstd::arithmetic::mul::{lemma_mul_nonnegative, lemma_mul_unary_negation};

verus! {

/// `10^k` as a mathematical integer.
pub open spec fn pow10(k: nat) -> int
    decreases k,
{
    if k == 0 {
        1
    } else {
        10 * pow10((k - 1) as nat)
    }
}

pub proof fn lemma_pow10_pos(k: nat)
    ensures
        pow10(k) >= 1,
    decreases k,
{
    if k > 0 {
        lemma_pow10_pos((k - 1) as nat);
    }
}

pub proof fn lemma_pow10_mono(i: nat, j: nat)
    requires
        i <= j,
    ensures
        pow10(i) <= pow10(j),
    decreases j,
{
    lemma_pow10_pos(i);
    if i < j {
        lemma_pow10_mono(i, (j - 1) as nat);
        lemma_pow10_pos((j - 1) as nat);
    }
}

pub proof fn lemma_pow10_18()
    ensures
        pow10(18) == 1000000000000000000,
{
    reveal_with_fuel(pow10, 20);
}

pub proof fn lemma_pow10_adds(a: nat, b: nat)
    ensures
        pow10(a + b) == pow10(a) * pow10(b),
    decreases a,
{
    if a == 0 {
        assert(pow10(0 + b) == 1 * pow10(b));
    } else {
        lemma_pow10_adds((a - 1) as nat, b);
        assert(pow10(a + b) == 10 * pow10((a + b - 1) as nat));
        assert(10 * (pow10((a - 1) as nat) * pow10(b)) == (10 * pow10((a - 1) as nat)) * pow10(
            b,
        )) by {
            vstd::arithmetic::mul::lemma_mul_is_associative(
                10,
                pow10((a - 1) as nat),
                pow10(b),
            );
        }
    }
}

/// The value an `i64` two's-complement register holds after an operation
/// whose mathematical result is `x`.
pub open spec fn wrap_i64(x: int) -> int {
    if x % 0x1_0000_0000_0000_0000 > i64::MAX {
        x % 0x1_0000_0000_0000_0000 - 0x1_0000_0000_0000_0000
    } else {
        x % 0x1_0000_0000_0000_0000
    }
}

/// Clamp `x` to the representable `i64` range.
pub open spec fn sat_i64(x: int) -> int {
    if x > i64::MAX {
        i64::MAX as int
    } else if x < i64::MIN {
        i64::MIN as int
    } else {
        x
    }
}

/// Truncating (round-toward-zero) division, as the machine's `/` computes it.
pub open spec fn tdiv(x: int, d: int) -> int {
    if x == 0 {
        0
    } else if x > 0 && d > 0 {
        x / d
    } else if x < 0 && d < 0 {
        (x * -1) / (d * -1)
    } else if x < 0 {
        ((x * -1) / d) * -1
    } else {
        (x / (d * -1)) * -1
    }
}

/// Truncating remainder, as the machine's `%` computes it.
pub open spec fn tmod(x: int, d: int) -> int {
    if x == 0 {
        0
    } else if x > 0 && d > 0 {
        x % d
    } else if x < 0 && d < 0 {
        ((x * -1) % (d * -1)) * -1
    } else if x < 0 {
        ((x * -1) % d) * -1
    } else {
        x % (d * -1)
    }
}

/// The dividend shifted by half the divisor's magnitude away from zero,
/// as an `i64` register holds it (the shift may wrap).
pub open spec fn round_shift(x: int, d: int) -> int {
    let h = if tdiv(d, 2) >= 0 {
        tdiv(d, 2)
    } else {
        -tdiv(d, 2)
    };
    if x >= 0 {
        wrap_i64(x + h)
    } else {
        wrap_i64(x - h)
    }
}

/// Division rounding half away from zero: shift the dividend by half the
/// divisor's magnitude in the dividend's own sign direction, then
/// truncate-divide.
pub open spec fn round_div(x: int, d: int) -> int {
    tdiv(round_shift(x, d), d)
}

/// The one divisor/dividend pair on which the machine's division itself
/// overflows is excluded.
pub open spec fn round_div_ok(x: int, d: int) -> bool {
    !(round_shift(x, d) == i64::MIN && d == -1)
}

/// Fixed-point product of two raw values at scale `s`.
pub open spec fn fix_mul(a: int, b: int, s: int) -> int {
    round_div(wrap_i64(a * b), s)
}

/// Fixed-point quotient of two raw values at scale `s`.
pub open spec fn fix_div(a: int, b: int, s: int) -> int {
    round_div(wrap_i64(a * s), b)
}

/// The raw value of the integer `n` at scale `s`.
pub open spec fn fix_int(n: int, s: int) -> int {
    sat_i64(n * s)
}

pub proof fn lemma_wrap_i64_id(x: int)
    requires
        i64::MIN <= x <= i64::MAX,
    ensures
        wrap_i64(x) == x,
{
    if x >= 0 {
        lemma_fundamental_div_mod_converse_mod(x, 0x1_0000_0000_0000_0000, 0, x);
    } else {
        lemma_fundamental_div_mod_converse_mod(
            x,
            0x1_0000_0000_0000_0000,
            -1,
            x + 0x1_0000_0000_0000_0000,
        );
    }
}

/// For a result within one wraparound of the range (any sum, difference or
/// shifted value of two `i64`s), wrapping is a single correction.
pub proof fn lemma_wrap_i64_near(x: int)
    requires
        -0x1_0000_0000_0000_0000 <= x <= 0x0_ffff_ffff_ffff_ffff,
    ensures
        x > i64::MAX ==> wrap_i64(x) == x - 0x1_0000_0000_0000_0000,
        x < i64::MIN ==> wrap_i64(x) == x + 0x1_0000_0000_0000_0000,
        i64::MIN <= x <= i64::MAX ==> wrap_i64(x) == x,
        i64::MIN <= wrap_i64(x) <= i64::MAX,
{
    if x > i64::MAX {
        lemma_fundamental_div_mod_converse_mod(x, 0x1_0000_0000_0000_0000, 0, x);
    } else if x < i64::MIN {
        lemma_fundamental_div_mod_converse_mod(
            x,
            0x1_0000_0000_0000_0000,
            -1,
            x + 0x1_0000_0000_0000_0000,
        );
    } else {
        lemma_wrap_i64_id(x);
    }
}

/// The wrapped product the standard library's spec describes is the same
/// register value `wrap_i64` describes.
pub proof fn lemma_crop_is_wrap(x: int)
    ensures
        vstd::wrapping::i64_specs::signed_crop(x) as int == wrap_i64(x),
        i64::MIN <= wrap_i64(x) <= i64::MAX,
{
    vstd::arithmetic::div_mod::lemma_mod_division_less_than_divisor(
        x,
        0x1_0000_0000_0000_0000,
    );
}

/// Magnitude of a truncating quotient never exceeds the dividend's.
pub proof fn lemma_tdiv_bound(x: int, d: int)
    requires
        d != 0,
    ensures
        x >= 0 ==> -x <= tdiv(x, d) <= x,
        x < 0 ==> x <= tdiv(x, d) <= -x,
{
    if x > 0 && d > 0 {
        lemma_div_pos_is_pos(x, d);
        lemma_div_nonincreasing(x, d);
    } else if x < 0 && d < 0 {
        lemma_div_pos_is_pos(x * -1, d * -1);
        lemma_div_nonincreasing(x * -1, d * -1);
    } else if x < 0 {
        lemma_div_pos_is_pos(x * -1, d);
        lemma_div_nonincreasing(x * -1, d);
    } else if x > 0 {
        lemma_div_pos_is_pos(x, d * -1);
        lemma_div_nonincreasing(x, d * -1);
    }
}

/// A truncating remainder is smaller in magnitude than the divisor.
pub proof fn lemma_tmod_bound(x: int, d: int)
    requires
        d > 0,
    ensures
        -d < tmod(x, d) < d,
        x >= 0 ==> tmod(x, d) >= 0,
        x <= 0 ==> tmod(x, d) <= 0,
{
    vstd::arithmetic::div_mod::lemma_mod_division_less_than_divisor(x, d);
    vstd::arithmetic::div_mod::lemma_mod_division_less_than_divisor(x * -1, d);
}

pub(crate) fn div_trunc(a: i64, b: i64) -> (r: i64)
    requires
        b != 0,
        !(a == i64::MIN && b == -1),
    ensures
        r as int == tdiv(a as int, b as int),
{
    proof {
        lemma_tdiv_bound(a as int, b as int);
        if a == i64::MIN && b < -1 {
            vstd::arithmetic::div_mod::lemma_div_decreases(-(a as int), -(b as int));
        }
    }
    match a.checked_div(b) {
        Some(q) => q,
        None => 0,
    }
}

pub(crate) fn rem_trunc(a: i64, b: i64) -> (r: i64)
    requires
        b != 0,
        !(a == i64::MIN && b == -1),
    ensures
        r as int == tmod(a as int, b as int),
{
    match a.checked_rem(b) {
        Some(q) => q,
        None => 0,
    }
}

/// `10^k` as a machine integer.
pub fn pow10_exec(k: u8) -> (r: i64)
    requires
        k <= 18,
    ensures
        r as int == pow10(k as nat),
        1 <= r <= 1000000000000000000,
{
    proof {
        lemma_pow10_18();
    }
    let mut i: u8 = 0;
    let mut r: i64 = 1;
    while i < k
        invariant
            i <= k <= 18,
            r as int == pow10(i as nat),
            1 <= r as int <= pow10(18),
            pow10(18) == 1000000000000000000,
        decreases k - i,
    {
        proof {
            lemma_pow10_mono((i + 1) as nat, 18);
            lemma_pow10_pos(i as nat);
        }
        r = r * 10;
        i = i + 1;
    }
    proof {
        lemma_pow10_mono(k as nat, 18);
        lemma_pow10_pos(k as nat);
    }
    r
}

pub(crate) fn round_div_exec(x: i64, d: i64) -> (r: i64)
    requires
        d != 0,
        round_div_ok(x as int, d as int),
    ensures
        r as int == round_div(x as int, d as int),
{
    let h = div_trunc(d, 2);
    proof {
        lemma_tdiv_bound(d as int, 2);
        if d < 0 {
            vstd::arithmetic::div_mod::lemma_div_is_ordered(
                -(d as int),
                0x8000_0000_0000_0000,
                2,
            );
            lemma_fundamental_div_mod_converse_mod(
                0x8000_0000_0000_0000,
                2,
                0x4000_0000_0000_0000,
                0,
            );
            vstd::arithmetic::div_mod::lemma_fundamental_div_mod(0x8000_0000_0000_0000, 2);
        }
    }
    let half = if h >= 0 {
        h
    } else {
        -h
    };
    proof {
        lemma_wrap_i64_near(x + half);
        lemma_wrap_i64_near(x - half);
    }
    let shifted = if x >= 0 {
        x.wrapping_add(half)
    } else {
        x.wrapping_sub(half)
    };
    div_trunc(shifted, d)
}

/// `n!` as a mathematical integer.
pub open spec fn spec_factorial(n: nat) -> int
    decreases n,
{
    if n == 0 {
        1
    } else {
        n * spec_factorial((n - 1) as nat)
    }
}

pub proof fn lemma_factorial_table()
    ensures
        spec_factorial(0) == 1,
        spec_factorial(1) == 1,
        spec_factorial(2) == 2,
        spec_factorial(3) == 6,
        spec_factorial(4) == 24,
        spec_factorial(5) == 120,
        spec_factorial(6) == 720,
        spec_factorial(7) == 5040,
        spec_factorial(8) == 40320,
        spec_factorial(9) == 362880,
        spec_factorial(10) == 3628800,
        spec_factorial(11) == 39916800,
        spec_factorial(12) == 479001600,
        spec_factorial(13) == 6227020800,
        spec_factorial(14) == 87178291200,
        spec_factorial(15) == 1307674368000,
        spec_factorial(16) == 20922789888000,
        spec_factorial(17) == 355687428096000,
        spec_factorial(18) == 6402373705728000,
        spec_factorial(19) == 121645100408832000,
        spec_factorial(20) == 2432902008176640000,
{
    assert(spec_factorial(0) == 1);
    assert(spec_factorial(1) == 1);
    assert(spec_factorial(2) == 2);
    assert(spec_factorial(3) == 6);
    assert(spec_factorial(4) == 24);
    assert(spec_factorial(5) == 120);
    assert(spec_factorial(6) == 720);
    assert(spec_factorial(7) == 5040);
    assert(spec_factorial(8) == 40320);
    assert(spec_factorial(9) == 362880);
    assert(spec_factorial(10) == 3628800);
    assert(spec_factorial(11) == 39916800);
    assert(spec_factorial(12) == 479001600);
    assert(spec_factorial(13) == 6227020800);
    assert(spec_factorial(14) == 87178291200);
    assert(spec_factorial(15) == 1307674368000);
    assert(spec_factorial(16) == 20922789888000);
    assert(spec_factorial(17) == 355687428096000);
    assert(spec_factorial(18) == 6402373705728000);
    assert(spec_factorial(19) == 121645100408832000);
    assert(spec_factorial(20) == 2432902008176640000);
}

/// Everything the engine can report instead of a value.
#[derive(Clone, Copy, Debug, PartialEq, Eq, Structural)]
pub enum NumError {
    DivisionByZero,
    NegativeSquareRoot,
    NegativeOrNonIntegerFactorial,
    FactorialOverflow,
    NonPositiveLogarithm,
    PrecisionDirectionViolation,
}

/// A decimal fixed-point value: `raw / 10^frac`. `work` is the number of
/// fractional digits the transcendental engine evaluates its series at
/// before rounding back down to `frac`.
#[derive(Clone, Copy, Debug, PartialEq, Eq, Structural)]
pub struct Num {
    raw: i64,
    frac: u8,
    work: u8,
}

impl Num {
    pub closed spec fn raw_spec(self) -> i64 {
        self.raw
    }

    pub closed spec fn frac_spec(self) -> u8 {
        self.frac
    }

    pub closed spec fn work_spec(self) -> u8 {
        self.work
    }

    /// Both precision parameters stay within the eighteen decimal digits a
    /// raw value can carry, so both scales fit an `i64`.
    pub open spec fn wf(self) -> bool {
        self.frac_spec() <= 18 && self.work_spec() <= 18
    }

    /// Both operands carry the same precision pair, as every binary
    /// operator demands.
    pub open spec fn same_prec(self, o: Num) -> bool {
        self.frac_spec() == o.frac_spec() && self.work_spec() == o.work_spec()
    }

    /// The scale separating the raw integer from the value it denotes.
    pub open spec fn scale(self) -> int {
        pow10(self.frac_spec() as nat)
    }

    /// Wrap a raw scaled integer, without scaling it.
    pub fn from_raw(raw: i64, frac: u8, work: u8) -> (r: Num)
        requires
            frac <= 18,
            work <= 18,
        ensures
            r.raw_spec() == raw,
            r.frac_spec() == frac,
            r.work_spec() == work,
    {
        Num { raw, frac, work }
    }

    /// The raw scaled integer backing this value.
    pub fn raw(self) -> (r: i64)
        ensures
            r == self.raw_spec(),
    {
        self.raw
    }

    pub fn frac(self) -> (r: u8)
        ensures
            r == self.frac_spec(),
    {
        self.frac
    }

    pub fn work(self) -> (r: u8)
        ensures
            r == self.work_spec(),
    {
        self.work
    }

    /// The scale constant separating this value's raw integer from the
    /// value it denotes.
    pub fn scale_factor(self) -> (r: i64)
        requires
            self.wf(),
        ensures
            r as int == self.scale(),
    {
        pow10_exec(self.frac)
    }

    /// An integer, scaled up; saturates at the representable extremes.
    pub fn from_int(n: i64, frac: u8, work: u8) -> (r: Num)
        requires
            frac <= 18,
            work <= 18,
        ensures
            r.raw_spec() as int == sat_i64(n * pow10(frac as nat)),
            r.frac_spec() == frac,
            r.work_spec() == work,
    {
        let s = pow10_exec(frac);
        let raw = match n.checked_mul(s) {
            Some(v) => v,
            None => {
                proof {
                    if n >= 0 {
                        lemma_mul_nonnegative(n as int, s as int);
                    } else {
                        lemma_mul_nonnegative(-(n as int), s as int);
                        lemma_mul_unary_negation(n as int, s as int);
                    }
                }
                if n >= 0 {
                    i64::MAX
                } else {
                    i64::MIN
                }
            },
        };
        Num { raw, frac, work }
    }

    pub fn zero(frac: u8, work: u8) -> (r: Num)
        requires
            frac <= 18,
            work <= 18,
        ensures
            r.raw_spec() == 0,
            r.frac_spec() == frac,
            r.work_spec() == work,
    {
        Num { raw: 0, frac, work }
    }

    /// The value one: a raw equal to the scale itself.
    pub fn one(frac: u8, work: u8) -> (r: Num)
        requires
            frac <= 18,
            work <= 18,
        ensures
            r.raw_spec() as int == pow10(frac as nat),
            r.frac_spec() == frac,
            r.work_spec() == work,
    {
        proof {
            lemma_pow10_pos(frac as nat);
            lemma_pow10_mono(frac as nat, 18);
            lemma_pow10_18();
        }
        Num { raw: pow10_exec(frac), frac, work }
    }

    /// A whole part and a 19-digit fractional numerator, combined without
    /// any machine overflow.
    pub open spec fn two_part_ok(int_part: int, frac_part: int, f: nat) -> bool {
        f == 0 || {
            let d = pow10((19 - f) as nat);
            let shifted = if frac_part >= 0 {
                frac_part + tdiv(d, 2)
            } else {
                frac_part - tdiv(d, 2)
            };
            &&& i64::MIN <= shifted <= i64::MAX
            &&& i64::MIN <= sat_i64(int_part * pow10(f)) + tdiv(shifted, d) <= i64::MAX
        }
    }

    /// The raw value built from a whole part and a 19-digit fractional
    /// numerator: the numerator is cut down to `f` digits with half-away
    /// rounding and added to the scaled whole part.
    pub open spec fn two_part_raw(int_part: int, frac_part: int, f: nat) -> int {
        if f == 0 {
            int_part
        } else {
            sat_i64(int_part * pow10(f)) + round_div(frac_part, pow10((19 - f) as nat))
        }
    }

    /// Any of the engine's built-in constants (a small whole part, a
    /// nonnegative 19-digit numerator) combines without overflow at every
    /// precision.
    pub proof fn lemma_two_part_const(int_part: int, frac_part: int, f: nat)
        requires
            0 <= int_part <= 6,
            0 <= frac_part <= 8000000000000000000,
            f <= 18,
        ensures
            Num::two_part_ok(int_part, frac_part, f),
            f >= 1 ==> Num::two_part_raw(int_part, frac_part, f) == int_part * pow10(f)
                + round_div(frac_part, pow10((19 - f) as nat)),
            f == 0 ==> Num::two_part_raw(int_part, frac_part, f) == int_part,
            int_part <= Num::two_part_raw(int_part, frac_part, f),
            0 <= Num::two_part_raw(int_part, frac_part, f) <= 7000000000000000000,
    {
        lemma_pow10_pos(f);
        lemma_pow10_mono(f, 18);
        lemma_pow10_18();
        vstd::arithmetic::mul::lemma_mul_nonnegative(int_part, pow10(f));
        vstd::arithmetic::mul::lemma_mul_upper_bound(
            int_part,
            6,
            pow10(f),
            1000000000000000000,
        );
        if f == 0 {
        } else {
            assert(int_part * pow10(f) >= int_part) by (nonlinear_arith)
                requires
                    int_part >= 0 && pow10(f) >= 1,
            ;
            let d = pow10((19 - f) as nat);
            lemma_pow10_pos((19 - f) as nat);
            lemma_pow10_mono((19 - f) as nat, 18);
            let half = tdiv(d, 2);
            lemma_div_pos_is_pos(d, 2);
            vstd::arithmetic::div_mod::lemma_div_is_ordered(d, 1000000000000000000, 2);
            let shifted = frac_part + half;
            assert(0 <= shifted <= 8500000000000000000);
            lemma_wrap_i64_id(shifted);
            assert(round_shift(frac_part, d) == shifted);
            let q = tdiv(shifted, d);
            lemma_div_pos_is_pos(shifted, d);
            assert(pow10(f) * d == pow10(19)) by {
                lemma_pow10_adds(f, (19 - f) as nat);
            }
            assert(pow10(19) == 10000000000000000000) by {
                reveal_with_fuel(pow10, 21);
            }
            assert(shifted < d * (pow10(f) + 1)) by {
                vstd::arithmetic::mul::lemma_mul_is_distributive_add(d, pow10(f), 1);
                vstd::arithmetic::mul::lemma_mul_is_commutative(d, pow10(f));
            }
            vstd::arithmetic::div_mod::lemma_multiply_divide_lt(shifted, d, pow10(f) + 1);
            assert(q <= pow10(f));
        }
    }

    /// Build a value from a whole part and a fractional numerator given as
    /// the first 19 digits after the decimal point.
    pub fn from_2_longs(int_part: i64, frac_part: i64, frac: u8, work: u8) -> (r: Num)
        requires
            frac <= 18,
            work <= 18,
            Num::two_part_ok(int_part as int, frac_part as int, frac as nat),
        ensures
            r.raw_spec() as int == Num::two_part_raw(
                int_part as int,
                frac_part as int,
                frac as nat,
            ),
            r.frac_spec() == frac,
            r.work_spec() == work,
    {
        if frac == 0 {
            return Num { raw: int_part, frac, work };
        }
        let divisor = pow10_exec(19 - frac);
        proof {
            lemma_tdiv_bound(divisor as int, 2);
            if frac_part >= 0 {
                lemma_wrap_i64_id(frac_part + tdiv(divisor as int, 2));
            } else {
                lemma_wrap_i64_id(frac_part - tdiv(divisor as int, 2));
            }
        }
        let rounded = round_div_exec(frac_part, divisor);
        let s = pow10_exec(frac);
        let base = match int_part.checked_mul(s) {
            Some(v) => v,
            None => {
                proof {
                    if int_part >= 0 {
                        lemma_mul_nonnegative(int_part as int, s as int);
                    } else {
                        lemma_mul_nonnegative(-(int_part as int), s as int);
                        lemma_mul_unary_negation(int_part as int, s as int);
                    }
                }
                if int_part >= 0 {
                    i64::MAX
                } else {
                    i64::MIN
                }
            },
        };
        Num { raw: base + rounded, frac, work }
    }

    /// Factorial of a nonnegative whole operand whose value is at most 20
    /// (the largest factorial an `i64` raw value can carry). Negative or
    /// fractional operands, and larger ones, are reported.
    pub fn factorial(self) -> (res: Result<Num, NumError>)
        requires
            self.wf(),
        ensures
            match res {
                Ok(r) => {
                    &&& self.raw_spec() >= 0
                    &&& tmod(self.raw_spec() as int, self.scale()) == 0
                    &&& 0 <= tdiv(self.raw_spec() as int, self.scale()) <= 20
                    &&& r.raw_spec() as int == sat_i64(
                        spec_factorial(tdiv(self.raw_spec() as int, self.scale()) as nat)
                            * self.scale(),
                    )
                    &&& r.frac_spec() == self.frac_spec()
                    &&& r.work_spec() == self.work_spec()
                },
                Err(e) => if self.raw_spec() < 0 || tmod(
                    self.raw_spec() as int,
                    self.scale(),
                ) != 0 {
                    e == NumError::NegativeOrNonIntegerFactorial
                } else {
                    tdiv(self.raw_spec() as int, self.scale()) > 20
                        && e == NumError::FactorialOverflow
                },
            },
    {
        let s = pow10_exec(self.frac);
        if self.raw < 0 {
            return Err(NumError::NegativeOrNonIntegerFactorial);
        }
        let m = rem_trunc(self.raw, s);
        if m != 0 {
            return Err(NumError::NegativeOrNonIntegerFactorial);
        }
        let q = div_trunc(self.raw, s);
        proof {
            lemma_tdiv_bound(self.raw as int, s as int);
        }
        if q > 20 {
            return Err(NumError::FactorialOverflow);
        }
        let f: i64 = match q {
            0 | 1 => 1,
            2 => 2,
            3 => 6,
            4 => 24,
            5 => 120,
            6 => 720,
            7 => 5040,
            8 => 40320,
            9 => 362880,
            10 => 3628800,
            11 => 39916800,
            12 => 479001600,
            13 => 6227020800,
            14 => 87178291200,
            15 => 1307674368000,
            16 => 20922789888000,
            17 => 355687428096000,
            18 => 6402373705728000,
            19 => 121645100408832000,
            _ => 2432902008176640000,
        };
        proof {
            lemma_factorial_table();
            assert(f as int == spec_factorial(q as nat));
        }
        let raw = match f.checked_mul(s) {
            Some(v) => v,
            None => {
                proof {
                    lemma_mul_nonnegative(f as int, s as int);
                }
                i64::MAX
            },
        };
        Ok(Num { raw, frac: self.frac, work: self.work })
    }

    /// Archimedes' constant, rounded to `frac` digits.
    pub fn pi(frac: u8, work: u8) -> (r: Num)
        requires
            frac <= 18,
            work <= 18,
        ensures
            r.raw_spec() as int == Num::two_part_raw(3, 1415926535897932384, frac as nat),
            r.frac_spec() == frac,
            r.work_spec() == work,
    {
        proof {
            Num::lemma_two_part_const(3, 1415926535897932384, frac as nat);
        }
        Num::from_2_longs(3, 1415926535897932384, frac, work)
    }

    /// The full-circle constant, two pi, rounded to `frac` digits.
    pub fn tau(frac: u8, work: u8) -> (r: Num)
        requires
            frac <= 18,
            work <= 18,
        ensures
            r.raw_spec() as int == Num::two_part_raw(6, 2831853071795864769, frac as nat),
            r.frac_spec() == frac,
            r.work_spec() == work,
    {
        proof {
            Num::lemma_two_part_const(6, 2831853071795864769, frac as nat);
        }
        Num::from_2_longs(6, 2831853071795864769, frac, work)
    }

    /// The golden ratio, rounded to `frac` digits.
    pub fn phi(frac: u8, work: u8) -> (r: Num)
        requires
            frac <= 18,
            work <= 18,
        ensures
            r.raw_spec() as int == Num::two_part_raw(1, 6180339887498948482, frac as nat),
            r.frac_spec() == frac,
            r.work_spec() == work,
    {
        proof {
            Num::lemma_two_part_const(1, 6180339887498948482, frac as nat);
        }
        Num::from_2_longs(1, 6180339887498948482, frac, work)
    }

    /// The Euler-Mascheroni constant, rounded to `frac` digits.
    pub fn egamma(frac: u8, work: u8) -> (r: Num)
        requires
            frac <= 18,
            work <= 18,
        ensures
            r.raw_spec() as int == Num::two_part_raw(0, 5772156649015328606, frac as nat),
            r.frac_spec() == frac,
            r.work_spec() == work,
    {
        proof {
            Num::lemma_two_part_const(0, 5772156649015328606, frac as nat);
        }
        Num::from_2_longs(0, 5772156649015328606, frac, work)
    }

    /// The square root of two, rounded to `frac` digits.
    pub fn sqrt_2(frac: u8, work: u8) -> (r: Num)
        requires
            frac <= 18,
            work <= 18,
        ensures
            r.raw_spec() as int == Num::two_part_raw(1, 4142135623730950488, frac as nat),
            r.frac_spec() == frac,
            r.work_spec() == work,
    {
        proof {
            Num::lemma_two_part_const(1, 4142135623730950488, frac as nat);
        }
        Num::from_2_longs(1, 4142135623730950488, frac, work)
    }

    /// Euler's number, rounded to `frac` digits.
    pub fn e(frac: u8, work: u8) -> (r: Num)
        requires
            frac <= 18,
            work <= 18,
        ensures
            r.raw_spec() as int == Num::two_part_raw(2, 7182818284590452353, frac as nat),
            r.frac_spec() == frac,
            r.work_spec() == work,
    {
        proof {
            Num::lemma_two_part_const(2, 7182818284590452353, frac as nat);
        }
        Num::from_2_longs(2, 7182818284590452353, frac, work)
    }

    /// The natural logarithm of two, rounded to `frac` digits.
    pub fn ln_2(frac: u8, work: u8) -> (r: Num)
        requires
            frac <= 18,
            work <= 18,
        ensures
            r.raw_spec() as int == Num::two_part_raw(0, 6931471805599453094, frac as nat),
            r.frac_spec() == frac,
            r.work_spec() == work,
    {
        proof {
            Num::lemma_two_part_const(0, 6931471805599453094, frac as nat);
        }
        Num::from_2_longs(0, 6931471805599453094, frac, work)
    }

    /// Raw integer addition with wraparound on overflow.
    pub fn add(self, rhs: Num) -> (r: Num)
        requires
            self.same_prec(rhs),
        ensures
            r.raw_spec() as int == wrap_i64(self.raw_spec() + rhs.raw_spec()),
            r.frac_spec() == self.frac_spec(),
            r.work_spec() == self.work_spec(),
    {
        proof {
            lemma_wrap_i64_near(self.raw + rhs.raw);
        }
        Num { raw: self.raw.wrapping_add(rhs.raw), frac: self.frac, work: self.work }
    }

    /// Raw integer subtraction with wraparound on overflow.
    pub fn sub(self, rhs: Num) -> (r: Num)
        requires
            self.same_prec(rhs),
        ensures
            r.raw_spec() as int == wrap_i64(self.raw_spec() - rhs.raw_spec()),
            r.frac_spec() == self.frac_spec(),
            r.work_spec() == self.work_spec(),
    {
        proof {
            lemma_wrap_i64_near(self.raw - rhs.raw);
        }
        Num { raw: self.raw.wrapping_sub(rhs.raw), frac: self.frac, work: self.work }
    }

    /// Raw integer negation with wraparound on overflow.
    pub fn neg(self) -> (r: Num)
        ensures
            r.raw_spec() as int == wrap_i64(-self.raw_spec()),
            r.frac_spec() == self.frac_spec(),
            r.work_spec() == self.work_spec(),
    {
        proof {
            lemma_wrap_i64_near(0 - self.raw);
        }
        Num { raw: (0i64).wrapping_sub(self.raw), frac: self.frac, work: self.work }
    }

    /// Multiply raw values with wraparound, then scale back down rounding
    /// half away from zero.
    pub fn mul(self, rhs: Num) -> (r: Num)
        requires
            self.wf(),
            self.same_prec(rhs),
        ensures
            r.raw_spec() as int == round_div(
                wrap_i64(self.raw_spec() * rhs.raw_spec()),
                self.scale(),
            ),
            r.frac_spec() == self.frac_spec(),
            r.work_spec() == self.work_spec(),
    {
        let s = pow10_exec(self.frac);
        let p = self.raw.wrapping_mul(rhs.raw);
        proof {
            lemma_crop_is_wrap(self.raw as int * rhs.raw as int);
        }
        Num { raw: round_div_exec(p, s), frac: self.frac, work: self.work }
    }

    /// The divisor (with wraparound on the scaled dividend) on which the
    /// final machine division itself would overflow.
    pub open spec fn div_overflows(self, rhs: Num) -> bool {
        rhs.raw_spec() == -1 && wrap_i64(self.raw_spec() * self.scale()) == i64::MIN
    }

    /// Scale the dividend up with wraparound, then divide rounding half
    /// away from zero. A zero divisor is reported, never divided by.
    pub fn div(self, rhs: Num) -> (res: Result<Num, NumError>)
        requires
            self.wf(),
            self.same_prec(rhs),
            !self.div_overflows(rhs),
        ensures
            match res {
                Ok(r) => {
                    &&& rhs.raw_spec() != 0
                    &&& r.raw_spec() as int == round_div(
                        wrap_i64(self.raw_spec() * self.scale()),
                        rhs.raw_spec() as int,
                    )
                    &&& r.frac_spec() == self.frac_spec()
                    &&& r.work_spec() == self.work_spec()
                },
                Err(e) => rhs.raw_spec() == 0 && e == NumError::DivisionByZero,
            },
    {
        if rhs.raw == 0 {
            return Err(NumError::DivisionByZero);
        }
        let s = pow10_exec(self.frac);
        let p = self.raw.wrapping_mul(s);
        proof {
            lemma_crop_is_wrap(self.raw as int * s as int);
            if rhs.raw == -1 {
                assert(tdiv(-1, 2) == 0);
                lemma_wrap_i64_id(p as int);
            }
        }
        Ok(Num { raw: round_div_exec(p, rhs.raw), frac: self.frac, work: self.work })
    }

    /// Raw integer remainder; no rounding applies. A zero divisor is
    /// reported, never divided by.
    pub fn rem(self, rhs: Num) -> (res: Result<Num, NumError>)
        requires
            self.same_prec(rhs),
            !(self.raw_spec() == i64::MIN && rhs.raw_spec() == -1),
        ensures
            match res {
                Ok(r) => {
                    &&& rhs.raw_spec() != 0
                    &&& r.raw_spec() as int == tmod(
                        self.raw_spec() as int,
                        rhs.raw_spec() as int,
                    )
                    &&& r.frac_spec() == self.frac_spec()
                    &&& r.work_spec() == self.work_spec()
                },
                Err(e) => rhs.raw_spec() == 0 && e == NumError::DivisionByZero,
            },
    {
        if rhs.raw == 0 {
            return Err(NumError::DivisionByZero);
        }
        Ok(Num { raw: rem_trunc(self.raw, rhs.raw), frac: self.frac, work: self.work })
    }

    pub fn add_assign(&mut self, rhs: Num)
        requires
            old(self).same_prec(rhs),
        ensures
            final(self).raw_spec() as int == wrap_i64(old(self).raw_spec() + rhs.raw_spec()),
            final(self).frac_spec() == old(self).frac_spec(),
            final(self).work_spec() == old(self).work_spec(),
    {
        *self = (*self).add(rhs);
    }

    pub fn sub_assign(&mut self, rhs: Num)
        requires
            old(self).same_prec(rhs),
        ensures
            final(self).raw_spec() as int == wrap_i64(old(self).raw_spec() - rhs.raw_spec()),
            final(self).frac_spec() == old(self).frac_spec(),
            final(self).work_spec() == old(self).work_spec(),
    {
        *self = (*self).sub(rhs);
    }

    pub fn mul_assign(&mut self, rhs: Num)
        requires
            old(self).wf(),
            old(self).same_prec(rhs),
        ensures
            final(self).raw_spec() as int == round_div(
                wrap_i64(old(self).raw_spec() * rhs.raw_spec()),
                old(self).scale(),
            ),
            final(self).frac_spec() == old(self).frac_spec(),
            final(self).work_spec() == old(self).work_spec(),
    {
        *self = (*self).mul(rhs);
    }

    pub fn div_assign(&mut self, rhs: Num) -> (res: Result<(), NumError>)
        requires
            old(self).wf(),
            old(self).same_prec(rhs),
            !old(self).div_overflows(rhs),
        ensures
            match res {
                Ok(()) => {
                    &&& rhs.raw_spec() != 0
                    &&& final(self).raw_spec() as int == round_div(
                        wrap_i64(old(self).raw_spec() * old(self).scale()),
                        rhs.raw_spec() as int,
                    )
                },
                Err(e) => {
                    &&& rhs.raw_spec() == 0
                    &&& e == NumError::DivisionByZero
                    &&& *final(self) == *old(self)
                },
            },
            final(self).frac_spec() == old(self).frac_spec(),
            final(self).work_spec() == old(self).work_spec(),
    {
        match (*self).div(rhs) {
            Ok(v) => {
                *self = v;
                Ok(())
            },
            Err(e) => Err(e),
        }
    }

    pub fn rem_assign(&mut self, rhs: Num) -> (res: Result<(), NumError>)
        requires
            old(self).same_prec(rhs),
            !(old(self).raw_spec() == i64::MIN && rhs.raw_spec() == -1),
        ensures
            match res {
                Ok(()) => {
                    &&& rhs.raw_spec() != 0
                    &&& final(self).raw_spec() as int == tmod(
                        old(self).raw_spec() as int,
                        rhs.raw_spec() as int,
                    )
                },
                Err(e) => {
                    &&& rhs.raw_spec() == 0
                    &&& e == NumError::DivisionByZero
                    &&& *final(self) == *old(self)
                },
            },
            final(self).frac_spec() == old(self).frac_spec(),
            final(self).work_spec() == old(self).work_spec(),
    {
        match (*self).rem(rhs) {
            Ok(v) => {
                *self = v;
                Ok(())
            },
            Err(e) => Err(e),
        }
    }

    /// Append fractional digits: multiply the raw value by the scale gap,
    /// saturating at the extremes. Only a target below the current visible
    /// precision is a direction violation; the working precision is left
    /// untouched either way.
    pub fn increase_frac(self, new_frac: u8) -> (res: Result<Num, NumError>)
        requires
            self.wf(),
            new_frac <= 18,
        ensures
            match res {
                Ok(r) => {
                    &&& self.frac_spec() <= new_frac
                    &&& r.raw_spec() as int == sat_i64(
                        self.raw_spec() * pow10((new_frac - self.frac_spec()) as nat),
                    )
                    &&& r.frac_spec() == new_frac
                    &&& r.work_spec() == self.work_spec()
                },
                Err(e) => {
                    &&& new_frac < self.frac_spec()
                    &&& e == NumError::PrecisionDirectionViolation
                },
            },
    {
        if new_frac < self.frac {
            return Err(NumError::PrecisionDirectionViolation);
        }
        let factor = pow10_exec(new_frac - self.frac);
        let raw = match self.raw.checked_mul(factor) {
            Some(v) => v,
            None => {
                proof {
                    if self.raw >= 0 {
                        lemma_mul_nonnegative(self.raw as int, factor as int);
                    } else {
                        lemma_mul_nonnegative(-(self.raw as int), factor as int);
                        lemma_mul_unary_negation(self.raw as int, factor as int);
                    }
                }
                if self.raw >= 0 {
                    i64::MAX
                } else {
                    i64::MIN
                }
            },
        };
        Ok(Num { raw, frac: new_frac, work: self.work })
    }

    /// Drop fractional digits: divide the raw value by the scale gap,
    /// rounding half away from zero. The target must not exceed the
    /// current visible precision.
    pub fn decrease_frac(self, new_frac: u8) -> (res: Result<Num, NumError>)
        requires
            self.wf(),
        ensures
            match res {
                Ok(r) => {
                    &&& new_frac <= self.frac_spec()
                    &&& r.raw_spec() as int == round_div(
                        self.raw_spec() as int,
                        pow10((self.frac_spec() - new_frac) as nat),
                    )
                    &&& r.frac_spec() == new_frac
                    &&& r.work_spec() == self.work_spec()
                },
                Err(e) => {
                    &&& new_frac > self.frac_spec()
                    &&& e == NumError::PrecisionDirectionViolation
                },
            },
    {
        if new_frac > self.frac {
            return Err(NumError::PrecisionDirectionViolation);
        }
        let divisor = pow10_exec(self.frac - new_frac);
        Ok(Num { raw: round_div_exec(self.raw, divisor), frac: new_frac, work: self.work })
    }

    /// Lift a value to its working precision before series evaluation.
    pub(crate) fn to_work(self) -> (r: Num)
        requires
            self.wf(),
            self.frac_spec() <= self.work_spec(),
        ensures
            r.raw_spec() as int == sat_i64(
                self.raw_spec() * pow10((self.work_spec() - self.frac_spec()) as nat),
            ),
            r.frac_spec() == self.work_spec(),
            r.work_spec() == self.work_spec(),
            r.wf(),
    {
        match self.increase_frac(self.work) {
            Ok(v) => v,
            Err(_) => self,
        }
    }

    /// Round an engine result back down to `f` fractional digits.
    pub(crate) fn to_frac(self, f: u8) -> (r: Num)
        requires
            self.wf(),
            f <= self.frac_spec(),
        ensures
            r.raw_spec() as int == round_div(
                self.raw_spec() as int,
                pow10((self.frac_spec() - f) as nat),
            ),
            r.frac_spec() == f,
            r.work_spec() == self.work_spec(),
            r.wf(),
    {
        match self.decrease_frac(f) {
            Ok(v) => v,
            Err(_) => self,
        }
    }

    /// Division by an operand known to be positive, which cannot fail.
    pub(crate) fn div_pos(self, rhs: Num) -> (r: Num)
        requires
            self.wf(),
            self.same_prec(rhs),
            rhs.raw_spec() >= 1,
        ensures
            r.raw_spec() as int == fix_div(
                self.raw_spec() as int,
                rhs.raw_spec() as int,
                self.scale(),
            ),
            r.frac_spec() == self.frac_spec(),
            r.work_spec() == self.work_spec(),
    {
        match self.div(rhs) {
            Ok(v) => v,
            Err(_) => self,
        }
    }

    /// Absolute value; the negation of the minimum wraps to itself.
    pub fn abs(self) -> (r: Num)
        ensures
            r.raw_spec() as int == if self.raw_spec() >= 0 {
                self.raw_spec() as int
            } else {
                wrap_i64(-self.raw_spec())
            },
            r.frac_spec() == self.frac_spec(),
            r.work_spec() == self.work_spec(),
    {
        if self.raw < 0 {
            self.neg()
        } else {
            self
        }
    }
}


impl core::cmp::PartialOrd for Num {
    /// Values order by their raw integers, with the precision pair
    /// breaking ties so that the order refines structural equality.
    fn partial_cmp(&self, other: &Num) -> (r: Option<core::cmp::Ordering>) {
        if self.raw < other.raw {
            Some(core::cmp::Ordering::Less)
        } else if self.raw > other.raw {
            Some(core::cmp::Ordering::Greater)
        } else if self.frac < other.frac {
            Some(core::cmp::Ordering::Less)
        } else if self.frac > other.frac {
            Some(core::cmp::Ordering::Greater)
        } else if self.work < other.work {
            Some(core::cmp::Ordering::Less)
        } else if self.work > other.work {
            Some(core::cmp::Ordering::Greater)
        } else {
            Some(core::cmp::Ordering::Equal)
        }
    }
}

impl vstd::std_specs::cmp::PartialOrdSpecImpl for Num {
    open spec fn obeys_partial_cmp_spec() -> bool {
        true
    }

    open spec fn partial_cmp_spec(&self, other: &Num) -> Option<core::cmp::Ordering> {
        if self.raw_spec() < other.raw_spec() {
            Some(core::cmp::Ordering::Less)
        } else if self.raw_spec() > other.raw_spec() {
            Some(core::cmp::Ordering::Greater)
        } else if self.frac_spec() < other.frac_spec() {
            Some(core::cmp::Ordering::Less)
        } else if self.frac_spec() > other.frac_spec() {
            Some(core::cmp::Ordering::Greater)
        } else if self.work_spec() < other.work_spec() {
            Some(core::cmp::Ordering::Less)
        } else if self.work_spec() > other.work_spec() {
            Some(core::cmp::Ordering::Greater)
        } else {
            Some(core::cmp::Ordering::Equal)
        }
    }
}

} // verus!
