use vstd::prelude::*;
use crate::num::{
    fix_div, fix_int, fix_mul, pow10, round_div, sat_i64, wrap_i64, Num, NumError,
    lemma_pow10_pos,
};
use vstd::arithmetic::mul::lemma_mul_increases;

verus! {

/// The iteration budget the engine grants a series evaluated at `f`
/// fractional digits: coarser scales converge in fewer terms.
pub open spec fn tier_cap(f: nat) -> nat {
    if f < 4 {
        6
    } else if f < 8 {
        10
    } else {
        15
    }
}

pub open spec fn series_cap(m: Option<usize>, f: nat) -> nat {
    match m {
        Some(c) => c as nat,
        None => tier_cap(f),
    }
}

/// How one summed term follows from the last.
#[derive(Clone, Copy, Debug)]
pub enum SeriesRule {
    /// Multiply by the factor and divide by `(2n)(2n+1)`, growing the
    /// factorial denominators of the sine and hyperbolic-sine series; the
    /// quotient is both the next state and the next summand.
    Factorial,
    /// Multiply by the factor only; the summand divides the state by the
    /// odd integer `2n+1`, as the logarithm's area-tangent series asks.
    Odd,
}

/// One step of the series: from the running state, the next state and the
/// next summand, all in raw values at scale `s`.
pub open spec fn series_step(rule: SeriesRule, state: int, factor: int, n: nat, s: int) -> (
    int,
    int,
) {
    let t = fix_mul(state, factor, s);
    match rule {
        SeriesRule::Factorial => {
            let q = fix_div(t, fix_int(2 * n * (2 * n + 1) as int, s), s);
            (q, q)
        },
        SeriesRule::Odd => (t, fix_div(t, fix_int((2 * n + 1) as int, s), s)),
    }
}

/// The sum the accumulator loop returns from a given midpoint: it stops at
/// the iteration cap or once a summand's magnitude falls to ten raw units.
pub open spec fn series_sum(
    rule: SeriesRule,
    state: int,
    term: int,
    acc: int,
    n: nat,
    cap: nat,
    factor: int,
    s: int,
) -> int
    decreases cap - n,
{
    if n >= cap || (-10 <= term && term <= 10) {
        acc
    } else {
        let st = series_step(rule, state, factor, n, s);
        series_sum(rule, st.0, st.1, wrap_i64(acc + st.1), n + 1, cap, factor, s)
    }
}

/// The whole series: seeded with the first term as state, summand and sum.
pub open spec fn series_spec(rule: SeriesRule, first: int, factor: int, cap: nat, s: int) -> int {
    series_sum(rule, first, first, first, 1, cap, factor, s)
}

proof fn lemma_fix_int_pos(n: int, s: int)
    requires
        n >= 1,
        s >= 1,
    ensures
        1 <= fix_int(n, s),
{
    lemma_mul_increases(n, s);
}

fn series_step_exec(rule: SeriesRule, state: Num, factor: Num, n: usize) -> (p: (Num, Num))
    requires
        state.wf(),
        state.frac_spec() == state.work_spec(),
        state.same_prec(factor),
        1 <= n <= 15,
    ensures
        p.0.raw_spec() as int == series_step(
            rule,
            state.raw_spec() as int,
            factor.raw_spec() as int,
            n as nat,
            state.scale(),
        ).0,
        p.1.raw_spec() as int == series_step(
            rule,
            state.raw_spec() as int,
            factor.raw_spec() as int,
            n as nat,
            state.scale(),
        ).1,
        p.0.same_prec(state) && p.1.same_prec(state),
{
    let t = state.mul(factor);
    proof {
        lemma_pow10_pos(state.frac_spec() as nat);
    }
    match rule {
        SeriesRule::Factorial => {
            proof {
                assert(6 <= (2 * (n as int)) * (2 * (n as int) + 1) <= 930) by (nonlinear_arith)
                    requires
                        1 <= n <= 15,
                ;
            }
            let d = Num::from_int(((2 * n) * (2 * n + 1)) as i64, state.frac(), state.work());
            proof {
                lemma_fix_int_pos((2 * (n as int)) * (2 * (n as int) + 1), state.scale());
            }
            let q = t.div_pos(d);
            (q, q)
        },
        SeriesRule::Odd => {
            let d = Num::from_int((2 * n + 1) as i64, state.frac(), state.work());
            proof {
                lemma_fix_int_pos(2 * (n as int) + 1, state.scale());
            }
            let q = t.div_pos(d);
            (t, q)
        },
    }
}

/// The raw value of pi at `f` fractional digits.
pub open spec fn pi_raw(f: nat) -> int {
    Num::two_part_raw(3, 1415926535897932384, f)
}

/// The raw value of tau (two pi) at `f` fractional digits.
pub open spec fn tau_raw(f: nat) -> int {
    Num::two_part_raw(6, 2831853071795864769, f)
}

/// The raw value of pi halved the way the engine computes it: a fixed-point
/// division of pi by the integer two.
pub open spec fn half_pi_raw(f: nat) -> int {
    fix_div(pi_raw(f), fix_int(2, pow10(f)), pow10(f))
}

/// Magnitude of a raw value as the machine computes it: negating the
/// minimum wraps back to itself.
pub open spec fn tabs(a: int) -> int {
    if a >= 0 {
        a
    } else {
        wrap_i64(-a)
    }
}

/// The angle the normalization step leaves behind: whole turns are removed
/// by a rounded division when the magnitude exceeds one turn, then a single
/// conditional fold brings the rest into `[-pi, pi]`.
pub open spec fn normalize_spec(a: int, f: nat) -> int {
    let s = pow10(f);
    let t = tau_raw(f);
    let p = pi_raw(f);
    let a1 = if tabs(a) > t {
        let rotations = fix_div(a, t, s);
        let whole = round_div(rotations, s);
        wrap_i64(a - fix_mul(t, fix_int(whole, s), s))
    } else {
        a
    };
    if a1 > p {
        wrap_i64(a1 - t)
    } else if a1 < wrap_i64(-p) {
        wrap_i64(a1 + t)
    } else {
        a1
    }
}

/// The sine's raw result: widen to the working precision, normalize,
/// reflect the outer quadrants onto the inner ones, sum the Taylor series,
/// and round back down.
pub open spec fn sin_spec(a: int, f: nat, w: nat) -> int {
    let s = pow10(w);
    let v = sat_i64(a * pow10((w - f) as nat));
    let x0 = normalize_spec(v, w);
    let x = if x0 > half_pi_raw(w) {
        wrap_i64(pi_raw(w) - x0)
    } else if x0 < fix_div(wrap_i64(-pi_raw(w)), fix_int(2, s), s) {
        wrap_i64(wrap_i64(-pi_raw(w)) - x0)
    } else {
        x0
    };
    let x2 = fix_mul(wrap_i64(-x), x, s);
    round_div(series_spec(SeriesRule::Factorial, x, x2, tier_cap(w), s), pow10((w - f) as nat))
}

/// The cosine's raw result, through the identity `cos(a) = sin(pi/2 - a)`
/// taken at the visible precision.
pub open spec fn cos_spec(a: int, f: nat, w: nat) -> int {
    sin_spec(wrap_i64(half_pi_raw(f) - a), f, w)
}

/// The hyperbolic sine's raw result: the same series with an unnegated
/// square, and no range reduction.
pub open spec fn sinh_spec(a: int, f: nat, w: nat) -> int {
    let s = pow10(w);
    let v = sat_i64(a * pow10((w - f) as nat));
    let x2 = fix_mul(v, v, s);
    round_div(series_spec(SeriesRule::Factorial, v, x2, tier_cap(w), s), pow10((w - f) as nat))
}

/// The raw operand handed to the square root by the hyperbolic cosine:
/// one plus the squared hyperbolic sine.
pub open spec fn cosh_arg_spec(a: int, f: nat, w: nat) -> int {
    wrap_i64(fix_mul(sinh_spec(a, f, w), sinh_spec(a, f, w), pow10(f)) + pow10(f))
}

/// The square root of `n` rounded half away from zero, as a value. It is
/// meaningful for nonnegative `n`, where exactly one integer satisfies
/// `is_rounded_sqrt`.
pub open spec fn rsqrt(n: int) -> int {
    choose|r: int| #[trigger] crate::sqrt::is_rounded_sqrt(r, n)
}

/// The hyperbolic cosine's raw result, through
/// `cosh(a) = sqrt(1 + sinh(a)^2)`.
pub open spec fn cosh_spec(a: int, f: nat, w: nat) -> int {
    rsqrt(cosh_arg_spec(a, f, w) * pow10(f))
}

/// Exactly one integer is the rounded square root of a nonnegative `n`, so
/// naming it as a value is sound.
pub proof fn lemma_rsqrt_unique(r: int, n: int)
    requires
        crate::sqrt::is_rounded_sqrt(r, n),
    ensures
        rsqrt(n) == r,
{
    let r2 = rsqrt(n);
    assert(crate::sqrt::is_rounded_sqrt(r2, n));
    if n != 0 && r != r2 {
        let lo = if r < r2 {
            r
        } else {
            r2
        };
        let hi = if r < r2 {
            r2
        } else {
            r
        };
        assert(hi * hi - hi >= (lo + 1) * (lo + 1) - (lo + 1)) by (nonlinear_arith)
            requires
                hi >= lo + 1 && lo >= 1,
        ;
        assert((lo + 1) * (lo + 1) - (lo + 1) == lo * lo + lo) by (nonlinear_arith);
    }
}

impl Num {
    /// The series accumulator behind every transcendental function: starting
    /// from the first term, it repeatedly applies the rule's step and adds
    /// the summand, until the iteration budget is spent or a summand's
    /// magnitude falls to ten raw units. Evaluate it only at values whose
    /// visible precision equals their working one.
    #[verifier::rlimit(50)]
    pub fn taylor_series(first: Num, factor: Num, rule: SeriesRule, max_iterations: Option<
        usize,
    >) -> (r: Num)
        requires
            first.wf(),
            first.frac_spec() == first.work_spec(),
            first.same_prec(factor),
            series_cap(max_iterations, first.frac_spec() as nat) <= 15,
        ensures
            r.raw_spec() as int == series_spec(
                rule,
                first.raw_spec() as int,
                factor.raw_spec() as int,
                series_cap(max_iterations, first.frac_spec() as nat),
                first.scale(),
            ),
            r.same_prec(first),
    {
        let cap: usize = match max_iterations {
            Some(c) => c,
            None => {
                if first.frac() < 4 {
                    6
                } else if first.frac() < 8 {
                    10
                } else {
                    15
                }
            },
        };
        let ghost cap_spec = series_cap(max_iterations, first.frac_spec() as nat);
        let mut sum = first;
        let mut state = first;
        let mut term = first;
        let mut n: usize = 1;
        while n < cap && (term.raw() > 10 || term.raw() < -10)
            invariant
                cap as nat == cap_spec,
                cap <= 15,
                1 <= n,
                state.wf(),
                state.frac_spec() == state.work_spec(),
                state.same_prec(first),
                term.same_prec(first),
                sum.same_prec(first),
                first.same_prec(factor),
                first.wf(),
                series_sum(
                    rule,
                    state.raw_spec() as int,
                    term.raw_spec() as int,
                    sum.raw_spec() as int,
                    n as nat,
                    cap_spec,
                    factor.raw_spec() as int,
                    first.scale(),
                ) == series_spec(
                    rule,
                    first.raw_spec() as int,
                    factor.raw_spec() as int,
                    cap_spec,
                    first.scale(),
                ),
            decreases cap - n,
        {
            let st = series_step_exec(rule, state, factor, n);
            state = st.0;
            term = st.1;
            sum = sum.add(term);
            n = n + 1;
        }
        sum
    }

    /// Fold an angle into `[-pi, pi]`: remove a rounded whole number of
    /// turns when the magnitude exceeds one turn, then fold once more.
    pub fn normalize_angle(self) -> (r: Num)
        requires
            self.wf(),
        ensures
            r.raw_spec() as int == normalize_spec(
                self.raw_spec() as int,
                self.frac_spec() as nat,
            ),
            r.frac_spec() == self.frac_spec(),
            r.work_spec() == self.work_spec(),
    {
        let f = self.frac();
        let w = self.work();
        let t = Num::tau(f, w);
        let p = Num::pi(f, w);
        let mut angle = self;
        if self.abs().raw() > t.raw() {
            proof {
                Num::lemma_two_part_const(6, 2831853071795864769, f as nat);
            }
            let rotations = angle.div_pos(t);
            let s = crate::num::pow10_exec(f);
            let whole = crate::num::round_div_exec(rotations.raw(), s);
            let wn = Num::from_int(whole, f, w);
            angle = angle.sub(t.mul(wn));
        }
        if angle.raw() > p.raw() {
            angle = angle.sub(t);
        } else if angle.raw() < p.neg().raw() {
            angle = angle.add(t);
        }
        angle
    }

    /// Sine by Taylor series after normalization and quadrant reflection.
    pub fn sin(self) -> (r: Num)
        requires
            self.wf(),
            self.frac_spec() <= self.work_spec(),
        ensures
            r.raw_spec() as int == sin_spec(
                self.raw_spec() as int,
                self.frac_spec() as nat,
                self.work_spec() as nat,
            ),
            r.frac_spec() == self.frac_spec(),
            r.work_spec() == self.work_spec(),
    {
        let f = self.frac();
        let w = self.work();
        let mut x = self.to_work().normalize_angle();
        let p = Num::pi(w, w);
        let two = Num::from_int(2, w, w);
        proof {
            lemma_pow10_pos(w as nat);
            lemma_fix_int_pos(2, pow10(w as nat));
        }
        let hp = p.div_pos(two);
        let nhp = p.neg().div_pos(two);
        if x.raw() > hp.raw() {
            x = p.sub(x);
        } else if x.raw() < nhp.raw() {
            x = p.neg().sub(x);
        }
        let x2 = x.neg().mul(x);
        let ser = Num::taylor_series(x, x2, SeriesRule::Factorial, None);
        ser.to_frac(f)
    }

    /// Cosine through the identity `cos(a) = sin(pi/2 - a)`.
    pub fn cos(self) -> (r: Num)
        requires
            self.wf(),
            self.frac_spec() <= self.work_spec(),
        ensures
            r.raw_spec() as int == cos_spec(
                self.raw_spec() as int,
                self.frac_spec() as nat,
                self.work_spec() as nat,
            ),
            r.frac_spec() == self.frac_spec(),
            r.work_spec() == self.work_spec(),
    {
        let f = self.frac();
        let w = self.work();
        let p = Num::pi(f, w);
        let two = Num::from_int(2, f, w);
        proof {
            lemma_pow10_pos(f as nat);
            lemma_fix_int_pos(2, pow10(f as nat));
        }
        let hp = p.div_pos(two);
        hp.sub(self).sin()
    }

    /// Tangent as the ratio of sine and cosine. A vanishing cosine is
    /// reported as a division by zero rather than saturated.
    pub fn tan(self) -> (res: Result<Num, NumError>)
        requires
            self.wf(),
            self.frac_spec() <= self.work_spec(),
            cos_spec(self.raw_spec() as int, self.frac_spec() as nat, self.work_spec() as nat)
                == -1 ==> wrap_i64(
                sin_spec(self.raw_spec() as int, self.frac_spec() as nat, self.work_spec() as nat)
                    * self.scale(),
            ) != i64::MIN,
        ensures
            ({
                let sv = sin_spec(
                    self.raw_spec() as int,
                    self.frac_spec() as nat,
                    self.work_spec() as nat,
                );
                let cv = cos_spec(
                    self.raw_spec() as int,
                    self.frac_spec() as nat,
                    self.work_spec() as nat,
                );
                match res {
                    Ok(r) => {
                        &&& cv != 0
                        &&& r.raw_spec() as int == fix_div(sv, cv, self.scale())
                        &&& r.frac_spec() == self.frac_spec()
                        &&& r.work_spec() == self.work_spec()
                    },
                    Err(e) => cv == 0 && e == NumError::DivisionByZero,
                }
            }),
    {
        self.sin().div(self.cos())
    }

    /// Cotangent as the ratio of cosine and sine. A vanishing sine is
    /// reported as a division by zero rather than saturated.
    pub fn ctg(self) -> (res: Result<Num, NumError>)
        requires
            self.wf(),
            self.frac_spec() <= self.work_spec(),
            sin_spec(self.raw_spec() as int, self.frac_spec() as nat, self.work_spec() as nat)
                == -1 ==> wrap_i64(
                cos_spec(self.raw_spec() as int, self.frac_spec() as nat, self.work_spec() as nat)
                    * self.scale(),
            ) != i64::MIN,
        ensures
            ({
                let sv = sin_spec(
                    self.raw_spec() as int,
                    self.frac_spec() as nat,
                    self.work_spec() as nat,
                );
                let cv = cos_spec(
                    self.raw_spec() as int,
                    self.frac_spec() as nat,
                    self.work_spec() as nat,
                );
                match res {
                    Ok(r) => {
                        &&& sv != 0
                        &&& r.raw_spec() as int == fix_div(cv, sv, self.scale())
                        &&& r.frac_spec() == self.frac_spec()
                        &&& r.work_spec() == self.work_spec()
                    },
                    Err(e) => sv == 0 && e == NumError::DivisionByZero,
                }
            }),
    {
        self.cos().div(self.sin())
    }

    /// Hyperbolic sine by Taylor series.
    pub fn sinh(self) -> (r: Num)
        requires
            self.wf(),
            self.frac_spec() <= self.work_spec(),
        ensures
            r.raw_spec() as int == sinh_spec(
                self.raw_spec() as int,
                self.frac_spec() as nat,
                self.work_spec() as nat,
            ),
            r.frac_spec() == self.frac_spec(),
            r.work_spec() == self.work_spec(),
    {
        let f = self.frac();
        let x = self.to_work();
        let x2 = x.mul(x);
        Num::taylor_series(x, x2, SeriesRule::Factorial, None).to_frac(f)
    }

    /// Hyperbolic cosine through `cosh(a) = sqrt(1 + sinh(a)^2)`. The
    /// operand of the square root can only fall negative by wraparound.
    pub fn cosh(self) -> (res: Result<Num, NumError>)
        requires
            self.wf(),
            self.frac_spec() <= self.work_spec(),
            cosh_arg_spec(self.raw_spec() as int, self.frac_spec() as nat, self.work_spec() as nat)
                > 0 ==> cosh_arg_spec(
                self.raw_spec() as int,
                self.frac_spec() as nat,
                self.work_spec() as nat,
            ) * self.scale() <= i64::MAX,
        ensures
            ({
                let arg = cosh_arg_spec(
                    self.raw_spec() as int,
                    self.frac_spec() as nat,
                    self.work_spec() as nat,
                );
                match res {
                    Ok(r) => {
                        &&& arg >= 0
                        &&& r.raw_spec() as int == cosh_spec(
                            self.raw_spec() as int,
                            self.frac_spec() as nat,
                            self.work_spec() as nat,
                        )
                        &&& r.raw_spec() >= 0
                        &&& r.frac_spec() == self.frac_spec()
                        &&& r.work_spec() == self.work_spec()
                    },
                    Err(e) => arg < 0 && e == NumError::NegativeSquareRoot,
                }
            }),
    {
        let sh = self.sinh();
        let one = Num::one(self.frac(), self.work());
        let v = sh.mul(sh).add(one);
        match v.sqrt() {
            Ok(r) => {
                proof {
                    lemma_rsqrt_unique(r.raw_spec() as int, v.raw_spec() * v.scale());
                }
                Ok(r)
            },
            Err(e) => Err(e),
        }
    }

    /// Hyperbolic tangent as the ratio of hyperbolic sine and cosine.
    pub fn tanh(self) -> (res: Result<Num, NumError>)
        requires
            self.wf(),
            self.frac_spec() <= self.work_spec(),
            cosh_arg_spec(self.raw_spec() as int, self.frac_spec() as nat, self.work_spec() as nat)
                > 0 ==> cosh_arg_spec(
                self.raw_spec() as int,
                self.frac_spec() as nat,
                self.work_spec() as nat,
            ) * self.scale() <= i64::MAX,
        ensures
            ({
                let arg = cosh_arg_spec(
                    self.raw_spec() as int,
                    self.frac_spec() as nat,
                    self.work_spec() as nat,
                );
                let sv = sinh_spec(
                    self.raw_spec() as int,
                    self.frac_spec() as nat,
                    self.work_spec() as nat,
                );
                let cv = cosh_spec(
                    self.raw_spec() as int,
                    self.frac_spec() as nat,
                    self.work_spec() as nat,
                );
                match res {
                    Ok(r) => {
                        &&& arg >= 0
                        &&& cv != 0
                        &&& r.raw_spec() as int == fix_div(sv, cv, self.scale())
                        &&& r.frac_spec() == self.frac_spec()
                        &&& r.work_spec() == self.work_spec()
                    },
                    Err(e) => (arg < 0 && e == NumError::NegativeSquareRoot) || (arg >= 0 && cv
                        == 0 && e == NumError::DivisionByZero),
                }
            }),
    {
        let sh = self.sinh();
        match self.cosh() {
            Ok(ch) => sh.div(ch),
            Err(e) => Err(e),
        }
    }

    /// Hyperbolic cotangent as the ratio of hyperbolic cosine and sine.
    pub fn ctgh(self) -> (res: Result<Num, NumError>)
        requires
            self.wf(),
            self.frac_spec() <= self.work_spec(),
            cosh_arg_spec(self.raw_spec() as int, self.frac_spec() as nat, self.work_spec() as nat)
                > 0 ==> cosh_arg_spec(
                self.raw_spec() as int,
                self.frac_spec() as nat,
                self.work_spec() as nat,
            ) * self.scale() <= i64::MAX,
            sinh_spec(self.raw_spec() as int, self.frac_spec() as nat, self.work_spec() as nat)
                == -1 ==> wrap_i64(
                cosh_spec(self.raw_spec() as int, self.frac_spec() as nat, self.work_spec() as nat)
                    * self.scale(),
            ) != i64::MIN,
        ensures
            ({
                let arg = cosh_arg_spec(
                    self.raw_spec() as int,
                    self.frac_spec() as nat,
                    self.work_spec() as nat,
                );
                let sv = sinh_spec(
                    self.raw_spec() as int,
                    self.frac_spec() as nat,
                    self.work_spec() as nat,
                );
                let cv = cosh_spec(
                    self.raw_spec() as int,
                    self.frac_spec() as nat,
                    self.work_spec() as nat,
                );
                match res {
                    Ok(r) => {
                        &&& arg >= 0
                        &&& sv != 0
                        &&& r.raw_spec() as int == fix_div(cv, sv, self.scale())
                        &&& r.frac_spec() == self.frac_spec()
                        &&& r.work_spec() == self.work_spec()
                    },
                    Err(e) => (arg < 0 && e == NumError::NegativeSquareRoot) || (arg >= 0 && sv
                        == 0 && e == NumError::DivisionByZero),
                }
            }),
    {
        let sh = self.sinh();
        match self.cosh() {
            Ok(ch) => ch.div(sh),
            Err(e) => Err(e),
        }
    }
}

} // verus!
