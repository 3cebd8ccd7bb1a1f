use vstd::prelude::*;
use crate::num::{
    fix_div, fix_int, fix_mul, lemma_pow10_18, lemma_pow10_mono, lemma_pow10_pos,
    lemma_wrap_i64_id, pow10, round_div, sat_i64, tdiv, wrap_i64, Num, NumError,
};
use crate::series::{series_spec, tier_cap, SeriesRule};
use vstd::arithmetic::div_mod::{
    lemma_div_is_ordered, lemma_div_pos_is_pos, lemma_fundamental_div_mod_converse,
    lemma_multiply_divide_lt,
};
use vstd::arithmetic::mul::{lemma_mul_inequality, lemma_mul_is_commutative};
use vstd::arithmetic::power2::{lemma2_to64, lemma_pow2_strictly_increases, pow2};

verus! {

/// The raw value of the natural logarithm of two at `f` fractional digits.
pub open spec fn ln2_raw(f: nat) -> int {
    Num::two_part_raw(0, 6931471805599453094, f)
}

/// Repeated halving of a raw value until it is at most two, counting the
/// steps; each halving rounds half away from zero. Specified where the
/// scaled products stay in machine range.
pub open spec fn halve_reduce(v: int, s: int) -> (int, int)
    decreases v,
    when 0 <= v && 1 <= s && (v + 1) * s <= i64::MAX via halve_reduce_dec
{
    if v > 2 * s {
        let r = halve_reduce((v * s + s) / (2 * s), s);
        (r.0, r.1 + 1)
    } else {
        (v, 0)
    }
}

#[via_fn]
proof fn halve_reduce_dec(v: int, s: int) {
    if v > 2 * s {
        lemma_halve_step(v, s);
    }
}

/// One halving step: the new value is nonnegative, strictly smaller, and
/// keeps the scaled product in machine range.
proof fn lemma_halve_step(v: int, s: int)
    requires
        1 <= s,
        v > 2 * s,
        (v + 1) * s <= i64::MAX,
    ensures
        1 <= (v * s + s) / (2 * s),
        (v * s + s) / (2 * s) < v,
        ((v * s + s) / (2 * s) + 1) * s <= i64::MAX,
{
    let v2 = (v * s + s) / (2 * s);
    assert(v * s + s == (v + 1) * s) by (nonlinear_arith);
    assert(v * s + s >= 2 * s) by (nonlinear_arith)
        requires
            v >= 1 && s >= 1,
    ;
    lemma_div_is_ordered(2 * s, v * s + s, 2 * s);
    assert((2 * s) / (2 * s) == 1) by {
        lemma_fundamental_div_mod_converse(2 * s, 2 * s, 1, 0);
    }
    assert(v * s + s < (2 * s) * v) by (nonlinear_arith)
        requires
            v > 2 * s && s >= 1,
    ;
    lemma_multiply_divide_lt(v * s + s, 2 * s, v);
    assert((v2 + 1) * s <= v * s) by {
        lemma_mul_inequality(v2 + 1, v, s);
    }
    assert(v * s <= (v + 1) * s) by {
        lemma_mul_inequality(v, v + 1, s);
    }
}

/// Repeated exact doubling of a raw value until it reaches one, counting
/// the steps negatively.
pub open spec fn double_reduce(v: int, s: int) -> (int, int)
    decreases 2 * s - v,
    when 1 <= v && 1 <= s
{
    if v < s {
        let r = double_reduce(2 * v, s);
        (r.0, r.1 - 1)
    } else {
        (v, 0)
    }
}

/// The natural logarithm's raw result: widen, scale into `[1, 2]` by
/// halvings or doublings while counting powers of two, evaluate the
/// area-tangent series of `(v-1)/(v+1)`, then add back the counted
/// multiples of `ln 2` and round down.
pub open spec fn ln_spec(a: int, f: nat, w: nat) -> int {
    let s = pow10(w);
    let v0 = sat_i64(a * pow10((w - f) as nat));
    let h = halve_reduce(v0, s);
    let d = double_reduce(h.0, s);
    let x = fix_div(d.0 - s, d.0 + s, s);
    let x2 = fix_mul(x, x, s);
    let ser = series_spec(SeriesRule::Odd, x, x2, tier_cap(w), s);
    round_div(
        wrap_i64(fix_mul(ser, fix_int(2, s), s) + fix_mul(fix_int(h.1 + d.1, s), ln2_raw(w), s)),
        pow10((w - f) as nat),
    )
}

/// The fixed-point halving the engine performs equals the plain rounded
/// halving, while the scaled product stays in machine range.
proof fn lemma_halve_exec(v: int, s: int)
    requires
        1 <= s,
        1 <= v,
        (v + 1) * s <= i64::MAX,
    ensures
        fix_div(v, 2 * s, s) == (v * s + s) / (2 * s),
        (v * s + s) / (2 * s) >= 1,
{
    vstd::arithmetic::mul::lemma_mul_nonnegative(v, s);
    assert(v * s + s == (v + 1) * s) by (nonlinear_arith);
    vstd::arithmetic::mul::lemma_mul_nonnegative(v + 1, s);
    lemma_wrap_i64_id(v * s);
    assert(tdiv(2 * s, 2) == s) by {
        lemma_fundamental_div_mod_converse(2 * s, 2, s, 0);
    }
    lemma_wrap_i64_id(v * s + s);
    assert(tdiv(v * s + s, 2 * s) == (v * s + s) / (2 * s));
    assert(v * s + s >= 2 * s) by (nonlinear_arith)
        requires
            v >= 1 && s >= 1,
    ;
    lemma_div_is_ordered(2 * s, v * s + s, 2 * s);
    assert((2 * s) / (2 * s) == 1) by {
        lemma_fundamental_div_mod_converse(2 * s, 2 * s, 1, 0);
    }
}

/// The fixed-point doubling the engine performs below one is exact, for
/// scales whose square stays in machine range.
proof fn lemma_double_exec(v: int, s: int)
    requires
        1 <= v < s,
        s <= 1000000000,
    ensures
        fix_mul(v, 2 * s, s) == 2 * v,
{
    assert(0 <= v * (2 * s) <= 2000000000000000000) by (nonlinear_arith)
        requires
            1 <= v < s <= 1000000000,
    ;
    lemma_wrap_i64_id(v * (2 * s));
    lemma_div_pos_is_pos(s, 2);
    lemma_div_is_ordered(s, 1000000000, 2);
    assert(v * (2 * s) + tdiv(s, 2) <= i64::MAX);
    lemma_wrap_i64_id(v * (2 * s) + tdiv(s, 2));
    assert(v * (2 * s) == s * (2 * v)) by (nonlinear_arith);
    assert(0 <= tdiv(s, 2) < s) by {
        vstd::arithmetic::div_mod::lemma_div_decreases(s, 2);
        if s == 1 {
        }
    }
    lemma_fundamental_div_mod_converse(s * (2 * v) + tdiv(s, 2), s, 2 * v, tdiv(s, 2));
}


/// The raw operand handed to the square root by the inverse hyperbolic
/// sine: the square of the operand plus one.
pub open spec fn asinh_sq(a: int, f: nat) -> int {
    wrap_i64(fix_mul(a, a, pow10(f)) + pow10(f))
}

/// The raw operand handed to the logarithm by the inverse hyperbolic sine:
/// the operand plus the root of its square plus one.
pub open spec fn asinh_inner(a: int, f: nat) -> int {
    wrap_i64(a + crate::series::rsqrt(asinh_sq(a, f) * pow10(f)))
}

/// The raw operand handed to the square root by the inverse hyperbolic
/// cosine: the square of the operand minus one.
pub open spec fn acosh_sq(a: int, f: nat) -> int {
    wrap_i64(fix_mul(a, a, pow10(f)) - pow10(f))
}

/// The raw operand handed to the logarithm by the inverse hyperbolic
/// cosine.
pub open spec fn acosh_inner(a: int, f: nat) -> int {
    wrap_i64(a + crate::series::rsqrt(acosh_sq(a, f) * pow10(f)))
}

/// The quotient handed to the logarithm by the inverse hyperbolic tangent:
/// `(1 + a) / (1 - a)`.
pub open spec fn atanh_quot(a: int, f: nat) -> int {
    fix_div(wrap_i64(pow10(f) + a), wrap_i64(pow10(f) - a), pow10(f))
}

/// The quotient handed to the logarithm by the inverse hyperbolic
/// cotangent: `(a + 1) / (a - 1)`.
pub open spec fn actgh_quot(a: int, f: nat) -> int {
    fix_div(wrap_i64(a + pow10(f)), wrap_i64(a - pow10(f)), pow10(f))
}

/// What the logarithm demands of its operand `v` at precisions `f`, `w`:
/// a working scale whose square fits the machine, and a widened operand
/// whose scaled successor does.
pub open spec fn ln_ok(v: int, f: nat, w: nat) -> bool {
    v > 0 ==> w <= 9 && (sat_i64(v * pow10((w - f) as nat)) + 1) * pow10(w) <= i64::MAX
}

impl Num {
    /// Scale a positive value into `[1, 2]` by halvings or exact doublings,
    /// counting the powers of two that were taken out.
    #[verifier::rlimit(100)]
    fn scale_into_unit(self, two: Num, one: Num) -> (p: (Num, i64))
        requires
            self.wf(),
            self.frac_spec() == self.work_spec(),
            self.work_spec() <= 9,
            self.same_prec(two),
            self.same_prec(one),
            two.raw_spec() == 2 * self.scale(),
            one.raw_spec() == self.scale(),
            1 <= self.raw_spec(),
            (self.raw_spec() + 1) * self.scale() <= i64::MAX,
        ensures
            ({
                let h = halve_reduce(self.raw_spec() as int, self.scale());
                let d = double_reduce(h.0, self.scale());
                &&& p.0.raw_spec() as int == d.0
                &&& p.1 as int == h.1 + d.1
                &&& p.0.frac_spec() == self.frac_spec()
                &&& p.0.work_spec() == self.work_spec()
                &&& p.0.raw_spec() >= 1
                &&& one.raw_spec() <= p.0.raw_spec() <= two.raw_spec()
            }),
    {
        let ghost s = self.scale();
        let ghost v0 = self.raw_spec() as int;
        proof {
            lemma_pow10_pos(self.work_spec() as nat);
            lemma_pow10_mono(self.work_spec() as nat, 9);
            assert(pow10(9) == 1000000000) by {
                reveal_with_fuel(pow10, 11);
            }
        }
        let mut value = self;
        let mut n: i64 = 0;
        while value.raw() > two.raw()
            invariant
                value.wf(),
                value.frac_spec() == self.frac_spec(),
                value.work_spec() == self.work_spec(),
                value.frac_spec() == value.work_spec(),
                s == self.scale(),
                1 <= s <= 1000000000,
                two.raw_spec() == 2 * s,
                two.frac_spec() == self.frac_spec(),
                two.work_spec() == self.work_spec(),
                1 <= value.raw_spec(),
                (value.raw_spec() + 1) * s <= i64::MAX,
                0 <= n,
                n + value.raw_spec() <= v0,
                1 <= v0 <= i64::MAX,
                halve_reduce(v0, s).0 == halve_reduce(value.raw_spec() as int, s).0,
                halve_reduce(v0, s).1 == n + halve_reduce(value.raw_spec() as int, s).1,
            decreases value.raw_spec(),
        {
            proof {
                lemma_halve_exec(value.raw_spec() as int, s);
                lemma_halve_step(value.raw_spec() as int, s);
            }
            value = value.div_pos(two);
            n = n + 1;
        }
        let ghost vh = value.raw_spec() as int;
        let ghost nh = n as int;
        proof {
            assert(halve_reduce(vh, s) == (vh, 0int));
            assert(pow2(0) == 1) by {
                lemma2_to64();
            }
        }
        let ghost m: nat = 0;
        while value.raw() < one.raw()
            invariant
                value.wf(),
                value.frac_spec() == self.frac_spec(),
                value.work_spec() == self.work_spec(),
                value.frac_spec() == value.work_spec(),
                s == self.scale(),
                1 <= s <= 1000000000,
                two.raw_spec() == 2 * s,
                two.frac_spec() == self.frac_spec(),
                two.work_spec() == self.work_spec(),
                one.raw_spec() == s,
                1 <= value.raw_spec(),
                value.raw_spec() <= 2 * s,
                pow2(m) <= value.raw_spec(),
                n == nh - m,
                0 <= nh <= i64::MAX - 1,
                m <= 30,
                double_reduce(vh, s).0 == double_reduce(value.raw_spec() as int, s).0,
                double_reduce(vh, s).1 == double_reduce(value.raw_spec() as int, s).1 - m,
            decreases 2 * s - value.raw_spec(),
        {
            proof {
                lemma_double_exec(value.raw_spec() as int, s);
                assert(pow2(m + 1) == 2 * pow2(m)) by {
                    vstd::arithmetic::power2::lemma_pow2_unfold(m + 1);
                }
                assert(pow2(30) == 0x40000000) by {
                    lemma2_to64();
                }
                if m + 1 > 30 {
                    lemma_pow2_strictly_increases(30, m + 1);
                }
            }
            value = value.mul(two);
            n = n - 1;
            proof {
                m = m + 1;
            }
        }
        proof {
            assert(double_reduce(value.raw_spec() as int, s) == (value.raw_spec() as int, 0int));
        }
        (value, n)
    }


    /// Natural logarithm. Zero and negative operands are reported. The
    /// range reduction multiplies raw values by the scale, so the widened
    /// operand and the scale's square must stay in machine range.
    #[verifier::rlimit(100)]
    pub fn ln(self) -> (res: Result<Num, NumError>)
        requires
            self.wf(),
            self.frac_spec() <= self.work_spec(),
            ln_ok(self.raw_spec() as int, self.frac_spec() as nat, self.work_spec() as nat),
        ensures
            match res {
                Ok(r) => {
                    &&& self.raw_spec() > 0
                    &&& r.raw_spec() as int == ln_spec(
                        self.raw_spec() as int,
                        self.frac_spec() as nat,
                        self.work_spec() as nat,
                    )
                    &&& r.frac_spec() == self.frac_spec()
                    &&& r.work_spec() == self.work_spec()
                },
                Err(e) => self.raw_spec() <= 0 && e == NumError::NonPositiveLogarithm,
            },
    {
        if self.raw() <= 0 {
            return Err(NumError::NonPositiveLogarithm);
        }
        let f = self.frac();
        let w = self.work();
        proof {
            lemma_pow10_pos(w as nat);
            lemma_pow10_mono(w as nat, 9);
            lemma_pow10_mono(9, 18);
            lemma_pow10_18();
            lemma_pow10_pos((w - f) as nat);
            vstd::arithmetic::mul::lemma_mul_increases(
                pow10((w - f) as nat),
                self.raw_spec() as int,
            );
            vstd::arithmetic::mul::lemma_mul_is_commutative(
                pow10((w - f) as nat),
                self.raw_spec() as int,
            );
            lemma_wrap_i64_id(2 * pow10(w as nat));
        }
        let value = self.to_work();
        let two = Num::from_int(2, w, w);
        let one = Num::one(w, w);
        let reduced = value.scale_into_unit(two, one);
        let v = reduced.0;
        let n = reduced.1;
        proof {
            lemma_wrap_i64_id(v.raw_spec() - one.raw_spec());
            lemma_wrap_i64_id(v.raw_spec() + one.raw_spec());
        }
        let x = v.sub(one).div_pos(v.add(one));
        let x2 = x.mul(x);
        let ser = Num::taylor_series(x, x2, SeriesRule::Odd, None);
        let ln2 = Num::ln_2(w, w);
        let nn = Num::from_int(n, w, w);
        let combined = ser.mul(two).add(nn.mul(ln2));
        Ok(combined.to_frac(f))
    }

    /// Inverse hyperbolic sine through
    /// `arsinh(a) = ln(a + sqrt(a^2 + 1))`.
    pub fn arcsinh(self) -> (res: Result<Num, NumError>)
        requires
            self.wf(),
            self.frac_spec() <= self.work_spec(),
            asinh_sq(self.raw_spec() as int, self.frac_spec() as nat) > 0 ==> asinh_sq(
                self.raw_spec() as int,
                self.frac_spec() as nat,
            ) * self.scale() <= i64::MAX,
            ln_ok(
                asinh_inner(self.raw_spec() as int, self.frac_spec() as nat),
                self.frac_spec() as nat,
                self.work_spec() as nat,
            ),
        ensures
            ({
                let sq = asinh_sq(self.raw_spec() as int, self.frac_spec() as nat);
                let inner = asinh_inner(self.raw_spec() as int, self.frac_spec() as nat);
                match res {
                    Ok(r) => {
                        &&& sq >= 0
                        &&& inner > 0
                        &&& r.raw_spec() as int == ln_spec(
                            inner,
                            self.frac_spec() as nat,
                            self.work_spec() as nat,
                        )
                        &&& r.frac_spec() == self.frac_spec()
                        &&& r.work_spec() == self.work_spec()
                    },
                    Err(e) => (sq < 0 && e == NumError::NegativeSquareRoot) || (sq >= 0 && inner
                        <= 0 && e == NumError::NonPositiveLogarithm),
                }
            }),
    {
        let one = Num::one(self.frac(), self.work());
        let v = self.mul(self).add(one);
        match v.sqrt() {
            Ok(root) => {
                proof {
                    crate::series::lemma_rsqrt_unique(
                        root.raw_spec() as int,
                        v.raw_spec() * v.scale(),
                    );
                }
                self.add(root).ln()
            },
            Err(e) => Err(e),
        }
    }

    /// Inverse hyperbolic cosine through
    /// `arcosh(a) = ln(a + sqrt(a^2 - 1))`.
    pub fn arccosh(self) -> (res: Result<Num, NumError>)
        requires
            self.wf(),
            self.frac_spec() <= self.work_spec(),
            acosh_sq(self.raw_spec() as int, self.frac_spec() as nat) > 0 ==> acosh_sq(
                self.raw_spec() as int,
                self.frac_spec() as nat,
            ) * self.scale() <= i64::MAX,
            ln_ok(
                acosh_inner(self.raw_spec() as int, self.frac_spec() as nat),
                self.frac_spec() as nat,
                self.work_spec() as nat,
            ),
        ensures
            ({
                let sq = acosh_sq(self.raw_spec() as int, self.frac_spec() as nat);
                let inner = acosh_inner(self.raw_spec() as int, self.frac_spec() as nat);
                match res {
                    Ok(r) => {
                        &&& sq >= 0
                        &&& inner > 0
                        &&& r.raw_spec() as int == ln_spec(
                            inner,
                            self.frac_spec() as nat,
                            self.work_spec() as nat,
                        )
                        &&& r.frac_spec() == self.frac_spec()
                        &&& r.work_spec() == self.work_spec()
                    },
                    Err(e) => (sq < 0 && e == NumError::NegativeSquareRoot) || (sq >= 0 && inner
                        <= 0 && e == NumError::NonPositiveLogarithm),
                }
            }),
    {
        let one = Num::one(self.frac(), self.work());
        let v = self.mul(self).sub(one);
        match v.sqrt() {
            Ok(root) => {
                proof {
                    crate::series::lemma_rsqrt_unique(
                        root.raw_spec() as int,
                        v.raw_spec() * v.scale(),
                    );
                }
                self.add(root).ln()
            },
            Err(e) => Err(e),
        }
    }

    /// Inverse hyperbolic tangent through
    /// `artanh(a) = ln((1 + a) / (1 - a)) / 2`.
    pub fn arctanh(self) -> (res: Result<Num, NumError>)
        requires
            self.wf(),
            self.frac_spec() <= self.work_spec(),
            wrap_i64(self.scale() - self.raw_spec()) == -1 ==> wrap_i64(
                wrap_i64(self.scale() + self.raw_spec()) * self.scale(),
            ) != i64::MIN,
            ln_ok(
                atanh_quot(self.raw_spec() as int, self.frac_spec() as nat),
                self.frac_spec() as nat,
                self.work_spec() as nat,
            ),
        ensures
            ({
                let denom = wrap_i64(self.scale() - self.raw_spec());
                let q = atanh_quot(self.raw_spec() as int, self.frac_spec() as nat);
                match res {
                    Ok(r) => {
                        &&& denom != 0
                        &&& q > 0
                        &&& r.raw_spec() as int == fix_div(
                            ln_spec(q, self.frac_spec() as nat, self.work_spec() as nat),
                            fix_int(2, self.scale()),
                            self.scale(),
                        )
                        &&& r.frac_spec() == self.frac_spec()
                        &&& r.work_spec() == self.work_spec()
                    },
                    Err(e) => (denom == 0 && e == NumError::DivisionByZero) || (denom != 0 && q
                        <= 0 && e == NumError::NonPositiveLogarithm),
                }
            }),
    {
        let one = Num::one(self.frac(), self.work());
        let two = Num::from_int(2, self.frac(), self.work());
        proof {
            lemma_pow10_pos(self.frac_spec() as nat);
            vstd::arithmetic::mul::lemma_mul_increases(2, self.scale());
        }
        match one.add(self).div(one.sub(self)) {
            Ok(q) => match q.ln() {
                Ok(l) => Ok(l.div_pos(two)),
                Err(e) => Err(e),
            },
            Err(e) => Err(e),
        }
    }

    /// Inverse hyperbolic cotangent through
    /// `arcoth(a) = ln((a + 1) / (a - 1)) / 2`.
    pub fn arcctgh(self) -> (res: Result<Num, NumError>)
        requires
            self.wf(),
            self.frac_spec() <= self.work_spec(),
            wrap_i64(self.raw_spec() - self.scale()) == -1 ==> wrap_i64(
                wrap_i64(self.raw_spec() + self.scale()) * self.scale(),
            ) != i64::MIN,
            ln_ok(
                actgh_quot(self.raw_spec() as int, self.frac_spec() as nat),
                self.frac_spec() as nat,
                self.work_spec() as nat,
            ),
        ensures
            ({
                let denom = wrap_i64(self.raw_spec() - self.scale());
                let q = actgh_quot(self.raw_spec() as int, self.frac_spec() as nat);
                match res {
                    Ok(r) => {
                        &&& denom != 0
                        &&& q > 0
                        &&& r.raw_spec() as int == fix_div(
                            ln_spec(q, self.frac_spec() as nat, self.work_spec() as nat),
                            fix_int(2, self.scale()),
                            self.scale(),
                        )
                        &&& r.frac_spec() == self.frac_spec()
                        &&& r.work_spec() == self.work_spec()
                    },
                    Err(e) => (denom == 0 && e == NumError::DivisionByZero) || (denom != 0 && q
                        <= 0 && e == NumError::NonPositiveLogarithm),
                }
            }),
    {
        let one = Num::one(self.frac(), self.work());
        let two = Num::from_int(2, self.frac(), self.work());
        proof {
            lemma_pow10_pos(self.frac_spec() as nat);
            vstd::arithmetic::mul::lemma_mul_increases(2, self.scale());
        }
        match self.add(one).div(self.sub(one)) {
            Ok(q) => match q.ln() {
                Ok(l) => Ok(l.div_pos(two)),
                Err(e) => Err(e),
            },
            Err(e) => Err(e),
        }
    }
}

} // verus!
