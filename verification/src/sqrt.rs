use vstd::prelude::*;
use vstd::arithmetic::div_mod::{
    lemma_div_is_ordered, lemma_div_nonincreasing, lemma_div_pos_is_pos,
    lemma_fundamental_div_mod_converse, lemma_div_by_multiple,
};
use crate::num::{tdiv, Num, NumError};

verus! {

/// `s` is the integer square root of `n`, rounded down.
pub open spec fn is_isqrt(s: int, n: int) -> bool {
    s >= 0 && s * s <= n && (s + 1) * (s + 1) > n
}

/// `r` is the square root of `n`, rounded half away from zero to an
/// integer: the floor root when `n` lies in the lower half of the gap
/// between consecutive squares, one more when it lies strictly above.
pub open spec fn is_rounded_sqrt(r: int, n: int) -> bool {
    if n == 0 {
        r == 0
    } else {
        r >= 1 && r * r - r < n <= r * r + r
    }
}

proof fn lemma_isqrt_exists(n: int)
    requires
        n >= 0,
    ensures
        exists|s: int| #[trigger] is_isqrt(s, n),
    decreases n,
{
    if n == 0 {
        assert(is_isqrt(0, 0));
    } else {
        lemma_isqrt_exists(n - 1);
        let s = choose|s: int| #[trigger] is_isqrt(s, n - 1);
        if (s + 1) * (s + 1) > n {
            assert(is_isqrt(s, n));
        } else {
            assert((s + 1 + 1) * (s + 1 + 1) > (s + 1) * (s + 1)) by (nonlinear_arith)
                requires
                    s >= 0,
            ;
            assert(is_isqrt(s + 1, n));
        }
    }
}

/// One Newton step from any over-approximation of the root stays an
/// over-approximation (in the weak sense `(y+1)^2 > n`) and keeps the
/// iterate positive.
proof fn lemma_newton_step(x: int, n: int)
    requires
        n >= 1,
        x >= 1,
        (x + 1) * (x + 1) > n,
    ensures
        0 <= tdiv(n, x) <= n,
        (x + tdiv(n, x)) / 2 >= 1,
        ((x + tdiv(n, x)) / 2 + 1) * ((x + tdiv(n, x)) / 2 + 1) > n,
{
    lemma_isqrt_exists(n);
    let s = choose|s: int| #[trigger] is_isqrt(s, n);
    assert(s >= 1) by {
        if s == 0 {
            assert((0 + 1) * (0 + 1) > n);
        }
    }
    assert(x >= s) by {
        if x < s {
            assert((x + 1) * (x + 1) <= s * s) by (nonlinear_arith)
                requires
                    0 <= x < s,
            ;
        }
    }
    let q = tdiv(n, x);
    assert(q == n / x);
    lemma_div_pos_is_pos(n, x);
    lemma_div_nonincreasing(n, x);
    // The integer arithmetic-geometric mean inequality: x + n/x >= 2s.
    if 2 * s - x >= 0 {
        assert(x * (2 * s - x) <= s * s) by (nonlinear_arith);
        assert(x * (2 * s - x) <= n);
        lemma_div_is_ordered(x * (2 * s - x), n, x);
        lemma_div_by_multiple(2 * s - x, x);
        assert((2 * s - x) == ((2 * s - x) * x) / x);
        assert(q >= 2 * s - x);
    } else {
        assert(q >= 2 * s - x);
    }
    let y = (x + q) / 2;
    lemma_div_is_ordered(2 * s, x + q, 2);
    lemma_div_by_multiple(s, 2);
    assert((s * 2) / 2 == s);
    assert(y >= s);
    assert((y + 1) * (y + 1) >= (s + 1) * (s + 1)) by (nonlinear_arith)
        requires
            y >= s >= 0,
    ;
}

/// When a Newton step no longer decreases, the iterate has reached the
/// floor square root.
proof fn lemma_newton_exit(x: int, n: int)
    requires
        n >= 1,
        x >= 1,
        (x + 1) * (x + 1) > n,
        (x + tdiv(n, x)) / 2 >= x,
    ensures
        x * x <= n,
        is_isqrt(x, n),
{
    if x * x > n {
        assert(n <= x * x - 1);
        lemma_div_pos_is_pos(n, x);
        lemma_div_is_ordered(n, x * x - 1, x);
        assert(x * x - 1 == (x - 1) * x + (x - 1)) by (nonlinear_arith);
        lemma_fundamental_div_mod_converse(x * x - 1, x, x - 1, x - 1);
        assert((x * x - 1) / x == x - 1);
        assert(tdiv(n, x) <= x - 1);
        lemma_div_is_ordered(x + tdiv(n, x), 2 * x - 1, 2);
        lemma_fundamental_div_mod_converse(2 * x - 1, 2, x - 1, 1);
        assert((2 * x - 1) / 2 == x - 1);
    }
}

/// Halfway point of two nonnegative machine integers, free of overflow.
fn mid(a: i64, b: i64) -> (r: i64)
    requires
        0 <= a,
        0 <= b,
    ensures
        r as int == (a + b) / 2,
{
    (((a as u64) + (b as u64)) / 2) as i64
}

impl Num {
    /// Square root over the scaled integers: the raw result is the square
    /// root of `raw * 10^frac`, rounded half away from zero, so that it is
    /// again a raw value at `frac` digits. Negative operands are reported.
    pub fn sqrt(self) -> (res: Result<Num, NumError>)
        requires
            self.wf(),
            self.raw_spec() > 0 ==> self.raw_spec() * self.scale() <= i64::MAX,
        ensures
            match res {
                Ok(r) => {
                    &&& self.raw_spec() >= 0
                    &&& is_rounded_sqrt(
                        r.raw_spec() as int,
                        self.raw_spec() * self.scale(),
                    )
                    &&& r.frac_spec() == self.frac_spec()
                    &&& r.work_spec() == self.work_spec()
                },
                Err(e) => self.raw_spec() < 0 && e == NumError::NegativeSquareRoot,
            },
    {
        let raw = self.raw();
        let frac = self.frac();
        let work = self.work();
        if raw < 0 {
            return Err(NumError::NegativeSquareRoot);
        }
        if raw == 0 {
            proof {
                vstd::arithmetic::mul::lemma_mul_by_zero_is_zero(self.scale());
            }
            return Ok(Num::from_raw(0, frac, work));
        }
        let s = crate::num::pow10_exec(frac);
        proof {
            vstd::arithmetic::mul::lemma_mul_strictly_positive(raw as int, s as int);
        }
        let n = raw * s;
        let mut x0 = n;
        let mut x1 = mid(x0, div_pos(n, x0));
        proof {
            assert((n + 1) * (n + 1) > n) by (nonlinear_arith)
                requires
                    n >= 1,
            ;
            lemma_newton_step(n as int, n as int);
        }
        while x1 < x0
            invariant
                1 <= n <= i64::MAX,
                1 <= x0 <= n,
                (x0 + 1) * (x0 + 1) > n,
                x1 as int == (x0 + tdiv(n as int, x0 as int)) / 2,
                1 <= x1 <= n,
            decreases x0 as int,
        {
            proof {
                lemma_newton_step(x0 as int, n as int);
                lemma_newton_step(x1 as int, n as int);
                lemma_div_nonincreasing(n as int, x1 as int);
                lemma_div_pos_is_pos(n as int, x1 as int);
                lemma_div_is_ordered(x1 + tdiv(n as int, x1 as int), 2 * n, 2);
                lemma_div_by_multiple(n as int, 2);
                assert((n * 2) / 2 == n);
            }
            x0 = x1;
            x1 = mid(x0, div_pos(n, x0));
        }
        proof {
            lemma_newton_exit(x0 as int, n as int);
            assert(x0 <= 3037000499) by {
                if x0 >= 3037000500 {
                    assert(x0 * x0 > i64::MAX) by (nonlinear_arith)
                        requires
                            x0 >= 3037000500,
                    ;
                }
            }
        }
        proof {
            assert((x0 + 1) * (x0 + 1) == x0 * x0 + 2 * x0 + 1) by (nonlinear_arith);
        }
        let diff = n - x0 * x0;
        let r = if 2 * diff < 2 * x0 + 1 {
            x0
        } else {
            x0 + 1
        };
        proof {
            assert(is_rounded_sqrt(r as int, n as int));
        }
        Ok(Num::from_raw(r, frac, work))
    }
}

/// Truncating division of positive machine integers.
fn div_pos(a: i64, b: i64) -> (r: i64)
    requires
        a >= 1,
        b >= 1,
    ensures
        r as int == tdiv(a as int, b as int),
        r >= 0,
{
    proof {
        lemma_div_pos_is_pos(a as int, b as int);
        lemma_div_nonincreasing(a as int, b as int);
    }
    a / b
}

} // verus!
