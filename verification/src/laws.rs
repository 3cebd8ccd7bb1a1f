use vstd::prelude::*;
use crate::num::{
    fix_div, fix_int, fix_mul, lemma_pow10_18, lemma_pow10_mono, lemma_pow10_pos,
    lemma_tdiv_bound, lemma_wrap_i64_id, lemma_wrap_i64_near, pow10, round_div, round_shift,
    sat_i64, tdiv, wrap_i64, Num,
};
use vstd::arithmetic::div_mod::{
    lemma_div_pos_is_pos, lemma_fundamental_div_mod, lemma_fundamental_div_mod_converse,
    lemma_mod_division_less_than_divisor,
};

verus! {

/// Scaling: building a value from an integer stores exactly the integer
/// times the scale, whenever that product is representable.
pub proof fn lemma_from_int_scales(n: int, f: nat)
    requires
        i64::MIN <= n * pow10(f) <= i64::MAX,
    ensures
        sat_i64(n * pow10(f)) == n * pow10(f),
{
}

/// Additive identity: adding a zero raw value moves nothing, exactly, for
/// every representable raw value.
pub proof fn lemma_add_zero(x: Num)
    ensures
        wrap_i64(x.raw_spec() + 0) == x.raw_spec(),
{
    lemma_wrap_i64_id(x.raw_spec() as int);
}

/// Additive inverse: a raw value plus its wrapped negation is exactly
/// zero, for every representable raw value, the minimum included.
pub proof fn lemma_add_opposite(x: Num)
    ensures
        wrap_i64(x.raw_spec() + wrap_i64(-x.raw_spec())) == 0,
{
    let r = x.raw_spec() as int;
    lemma_wrap_i64_near(-r);
    if r == i64::MIN {
        lemma_wrap_i64_near(r + wrap_i64(-r));
    } else {
        lemma_wrap_i64_id(-r);
        lemma_wrap_i64_id(0);
    }
}

/// Half-away rounding of an exactly divisible dividend is exact:
/// `round_div(v * s, s) == v` when nothing wraps.
pub proof fn lemma_round_div_multiple(v: int, s: int)
    requires
        1 <= s,
        i64::MIN <= v * s - tdiv(s, 2),
        v * s + tdiv(s, 2) <= i64::MAX,
    ensures
        round_div(v * s, s) == v,
{
    let h = tdiv(s, 2);
    lemma_div_pos_is_pos(s, 2);
    assert(h < s) by {
        if s == 1 {
        } else {
            vstd::arithmetic::div_mod::lemma_div_decreases(s, 2);
        }
    }
    if v * s >= 0 {
        lemma_wrap_i64_id(v * s + h);
        assert(round_shift(v * s, s) == v * s + h);
        lemma_fundamental_div_mod_converse(v * s + h, s, v, h);
        assert(tdiv(v * s + h, s) == v) by {
            assert(v * s + h == s * v + h) by (nonlinear_arith);
            if v * s + h > 0 {
                assert(v >= 0) by {
                    if v < 0 {
                        assert(v * s <= -s) by (nonlinear_arith)
                            requires
                                v <= -1 && s >= 1,
                        ;
                    }
                }
            }
        }
    } else {
        lemma_wrap_i64_id(v * s - h);
        assert(round_shift(v * s, s) == v * s - h);
        assert(v < 0) by {
            if v >= 0 {
                vstd::arithmetic::mul::lemma_mul_nonnegative(v, s);
            }
        }
        assert(tdiv(v * s - h, s) == v) by {
            vstd::arithmetic::mul::lemma_mul_unary_negation(v, s);
            lemma_fundamental_div_mod_converse(h - v * s, s, -v, h);
            assert((v * s - h) * -1 == h - v * s);
            assert(((v * s - h) * -1) / s == -v);
        }
    }
}

/// Multiplicative identity: multiplying by one gives the value back
/// exactly, whenever the scaled product stays in machine range.
pub proof fn lemma_mul_one(x: Num)
    requires
        x.wf(),
        i64::MIN <= x.raw_spec() * x.scale() - tdiv(x.scale(), 2),
        x.raw_spec() * x.scale() + tdiv(x.scale(), 2) <= i64::MAX,
    ensures
        fix_mul(x.raw_spec() as int, fix_int(1, x.scale()), x.scale()) == x.raw_spec(),
{
    let s = x.scale();
    let r = x.raw_spec() as int;
    lemma_pow10_pos(x.frac_spec() as nat);
    lemma_pow10_mono(x.frac_spec() as nat, 18);
    lemma_pow10_18();
    assert(fix_int(1, s) == s);
    lemma_tdiv_bound(s, 2);
    lemma_wrap_i64_id(r * s);
    lemma_round_div_multiple(r, s);
    assert(fix_mul(r, s, s) == round_div(r * s, s));
}

pub open spec fn iabs(x: int) -> int {
    if x >= 0 {
        x
    } else {
        -x
    }
}

/// Half-away rounded division misses the true dividend by at most half
/// the divisor's magnitude: `|round_div(a, d) * d - a| <= |d| / 2`, stated
/// doubled, for every nonzero divisor.
pub proof fn lemma_round_div_close(a: int, d: int)
    requires
        d != 0,
        i64::MIN + iabs(d) <= a <= i64::MAX - iabs(d),
    ensures
        -iabs(d) <= 2 * (round_div(a, d) * d - a) <= iabs(d),
{
    let ad = iabs(d);
    let h = if tdiv(d, 2) >= 0 {
        tdiv(d, 2)
    } else {
        -tdiv(d, 2)
    };
    lemma_tdiv_bound(d, 2);
    assert(ad == 2 * (ad / 2) + ad % 2 && 0 <= ad % 2 < 2) by {
        lemma_fundamental_div_mod(ad, 2);
        lemma_mod_division_less_than_divisor(ad, 2);
    }
    assert(h == ad / 2);
    let shift = if a >= 0 {
        a + h
    } else {
        a - h
    };
    lemma_wrap_i64_id(shift);
    assert(round_shift(a, d) == shift);
    let q = tdiv(shift, d);
    let m = if shift >= 0 {
        shift
    } else {
        -shift
    };
    lemma_fundamental_div_mod(m, ad);
    lemma_mod_division_less_than_divisor(m, ad);
    let qq = m / ad;
    let r = m % ad;
    assert(m == ad * qq + r);
    assert(q * d == (if shift >= 0 {
        ad * qq
    } else {
        -(ad * qq)
    })) by {
        if shift == 0 {
            assert(qq == 0) by {
                lemma_fundamental_div_mod_converse(0, ad, 0, 0);
            }
        } else if shift > 0 && d > 0 {
            assert(q == qq);
            vstd::arithmetic::mul::lemma_mul_is_commutative(q, d);
        } else if shift > 0 && d < 0 {
            assert(q == qq * -1);
            assert((qq * -1) * d == ad * qq) by (nonlinear_arith)
                requires
                    ad == -d,
            ;
        } else if shift < 0 && d > 0 {
            assert(q == qq * -1);
            assert((qq * -1) * d == -(ad * qq)) by (nonlinear_arith)
                requires
                    ad == d,
            ;
        } else {
            assert(q == qq);
            assert(qq * d == -(ad * qq)) by (nonlinear_arith)
                requires
                    ad == -d,
            ;
        }
    }
    if a >= 0 {
        assert(q * d - a == h - r);
    } else {
        assert(q * d - a == r - h);
    }
}

/// Dividing a product back by its factor returns to within one raw unit
/// of the first operand, for factors of magnitude at least one and
/// products that stay in machine range.
pub proof fn lemma_mul_div_inverse(x: Num, y: Num)
    requires
        x.wf(),
        x.same_prec(y),
        iabs(y.raw_spec() as int) >= x.scale(),
        iabs(x.raw_spec() * y.raw_spec()) + x.scale() + iabs(y.raw_spec() as int) <= i64::MAX,
    ensures
        -1 <= fix_div(
            fix_mul(x.raw_spec() as int, y.raw_spec() as int, x.scale()),
            y.raw_spec() as int,
            x.scale(),
        ) - x.raw_spec() <= 1,
{
    let s = x.scale();
    let xr = x.raw_spec() as int;
    let yr = y.raw_spec() as int;
    lemma_pow10_pos(x.frac_spec() as nat);
    let p = xr * yr;
    lemma_wrap_i64_id(p);
    let m = round_div(p, s);
    assert(fix_mul(xr, yr, s) == m);
    lemma_round_div_close(p, s);
    assert(-s <= 2 * (m * s - p) <= s);
    assert(i64::MIN + iabs(yr) <= m * s <= i64::MAX - iabs(yr));
    lemma_wrap_i64_id(m * s);
    let r = round_div(m * s, yr);
    assert(fix_div(m, yr, s) == r);
    lemma_round_div_close(m * s, yr);
    assert(-iabs(yr) <= 2 * (r * yr - m * s) <= iabs(yr));
    assert(-2 * iabs(yr) <= 2 * (r * yr - p) <= 2 * iabs(yr));
    assert(-1 <= r - xr <= 1) by {
        assert((r - xr) * yr == r * yr - p) by (nonlinear_arith)
            requires
                p == xr * yr,
        ;
        if r - xr >= 2 || r - xr <= -2 {
            assert(iabs((r - xr) * yr) >= 2 * iabs(yr)) by (nonlinear_arith)
                requires
                    (r - xr >= 2 || r - xr <= -2) && yr != 0,
            ;
        }
        assert(yr != 0);
    }
}

/// The stored full turn differs from twice the stored half turn by at most
/// one raw unit, at every precision: the two constants are rounded from
/// numerators one of which is one more than double the other.
pub proof fn lemma_tau_near_two_pi(f: nat)
    requires
        f <= 18,
    ensures
        2 * crate::series::pi_raw(f) - 1 <= crate::series::tau_raw(f) <= 2 * crate::series::pi_raw(
            f,
        ) + 1,
{
    let a = 1415926535897932384;
    Num::lemma_two_part_const(3, a, f);
    Num::lemma_two_part_const(6, 2 * a + 1, f);
    if f == 0 {
    } else {
        let d = pow10((19 - f) as nat);
        lemma_pow10_pos((19 - f) as nat);
        assert(d >= 10) by {
            crate::num::lemma_pow10_mono(1, (19 - f) as nat);
            assert(pow10(1) == 10) by {
                reveal_with_fuel(pow10, 3);
            }
        }
        let h = tdiv(d, 2);
        assert(d == 2 * pow10((19 - f - 1) as nat) * 5) by {
            assert(pow10((19 - f) as nat) == 10 * pow10((19 - f - 1) as nat));
        }
        assert(h == d / 2 && 2 * h == d) by {
            lemma_fundamental_div_mod_converse(d, 2, pow10((19 - f - 1) as nat) * 5, 0);
            lemma_pow10_pos((19 - f - 1) as nat);
        }
        lemma_wrap_i64_id(a + h);
        lemma_wrap_i64_id(2 * a + 1 + h);
        let q1 = (a + h) / d;
        let r1 = (a + h) % d;
        lemma_fundamental_div_mod(a + h, d);
        lemma_mod_division_less_than_divisor(a + h, d);
        assert(round_div(a, d) == q1);
        let u = 2 * r1 + 1 - h;
        assert(2 * a + 1 + h == d * (2 * q1) + u) by {
            assert(2 * (d * q1) == d * (2 * q1)) by (nonlinear_arith);
        }
        if 0 <= u < d {
            lemma_fundamental_div_mod_converse(2 * a + 1 + h, d, 2 * q1, u);
            assert(round_div(2 * a + 1, d) == 2 * q1);
        } else if u < 0 {
            vstd::arithmetic::mul::lemma_mul_is_distributive_sub(d, 2 * q1, 1);
            lemma_fundamental_div_mod_converse(2 * a + 1 + h, d, 2 * q1 - 1, u + d);
            assert(round_div(2 * a + 1, d) == 2 * q1 - 1);
        } else {
            vstd::arithmetic::mul::lemma_mul_is_distributive_add(d, 2 * q1, 1);
            lemma_fundamental_div_mod_converse(2 * a + 1 + h, d, 2 * q1 + 1, u - d);
            assert(round_div(2 * a + 1, d) == 2 * q1 + 1);
        }
    }
}

/// Normalization is idempotent: an already folded angle is left exactly in
/// place, for operands within one full turn of zero (outside, the raw
/// arithmetic may wrap).
pub proof fn lemma_normalize_idempotent(a: int, f: nat)
    requires
        f <= 18,
        -crate::series::tau_raw(f) <= a <= crate::series::tau_raw(f),
    ensures
        crate::series::normalize_spec(crate::series::normalize_spec(a, f), f)
            == crate::series::normalize_spec(a, f),
{
    let t = crate::series::tau_raw(f);
    let p = crate::series::pi_raw(f);
    Num::lemma_two_part_const(3, 1415926535897932384, f);
    Num::lemma_two_part_const(6, 2831853071795864769, f);
    lemma_tau_near_two_pi(f);
    if a < 0 {
        lemma_wrap_i64_id(-a);
    }
    assert(crate::series::tabs(a) == iabs(a));
    let r = crate::series::normalize_spec(a, f);
    lemma_wrap_i64_id(-p);
    if a > p {
        lemma_wrap_i64_id(a - t);
        assert(r == a - t);
    } else if a < -p {
        lemma_wrap_i64_id(a + t);
        assert(r == a + t);
    } else {
        assert(r == a);
    }
    assert(-p <= r <= p);
    assert(iabs(r) <= t);
    if r < 0 {
        lemma_wrap_i64_id(-r);
    }
    assert(crate::series::tabs(r) == iabs(r));
    assert(crate::series::normalize_spec(r, f) == r);
}

/// The square root of zero is zero.
pub proof fn lemma_sqrt_zero()
    ensures
        crate::series::rsqrt(0) == 0,
{
    assert(crate::sqrt::is_rounded_sqrt(0, 0));
    crate::series::lemma_rsqrt_unique(0, 0);
}


/// Adding one full turn to an angle in the lower half-turn range leaves
/// the normalized angle exactly in place. The one exception is the sliver
/// at the half-turn boundary, where the two stored constants' independent
/// roundings make the fold pick the opposite of the two equal
/// representatives of a straight angle; those operands are excluded.
pub proof fn lemma_normalize_periodic_up(a: int, f: nat)
    requires
        f <= 18,
        -crate::series::tau_raw(f) <= a <= 0,
        !(-crate::series::pi_raw(f) <= a && a + crate::series::tau_raw(f)
            <= crate::series::pi_raw(f)),
    ensures
        crate::series::normalize_spec(a + crate::series::tau_raw(f), f)
            == crate::series::normalize_spec(a, f),
{
    let t = crate::series::tau_raw(f);
    let p = crate::series::pi_raw(f);
    Num::lemma_two_part_const(3, 1415926535897932384, f);
    Num::lemma_two_part_const(6, 2831853071795864769, f);
    lemma_tau_near_two_pi(f);
    let b = a + t;
    lemma_wrap_i64_id(-p);
    if a < 0 {
        lemma_wrap_i64_id(-a);
    }
    if b < 0 {
        lemma_wrap_i64_id(-b);
    }
    assert(crate::series::tabs(a) == iabs(a));
    assert(crate::series::tabs(b) == iabs(b));
    assert(iabs(a) <= t);
    assert(iabs(b) <= t);
    if b > p {
        lemma_wrap_i64_id(b - t);
        assert(crate::series::normalize_spec(b, f) == a);
        assert(!(a < -p));
        assert(crate::series::normalize_spec(a, f) == a);
    } else {
        assert(crate::series::normalize_spec(b, f) == b);
        assert(a < -p);
        lemma_wrap_i64_id(a + t);
        assert(crate::series::normalize_spec(a, f) == b);
    }
}


/// Subtracting one full turn from an angle in the upper half-turn range
/// likewise leaves the normalized angle exactly in place, with the same
/// half-turn boundary sliver excluded.
pub proof fn lemma_normalize_periodic_down(a: int, f: nat)
    requires
        f <= 18,
        0 <= a <= crate::series::tau_raw(f),
        !(crate::series::tau_raw(f) - crate::series::pi_raw(f) <= a && a
            <= crate::series::pi_raw(f)),
    ensures
        crate::series::normalize_spec(a - crate::series::tau_raw(f), f)
            == crate::series::normalize_spec(a, f),
{
    let t = crate::series::tau_raw(f);
    let p = crate::series::pi_raw(f);
    Num::lemma_two_part_const(3, 1415926535897932384, f);
    Num::lemma_two_part_const(6, 2831853071795864769, f);
    lemma_tau_near_two_pi(f);
    let b = a - t;
    lemma_wrap_i64_id(-p);
    if a < 0 {
        lemma_wrap_i64_id(-a);
    }
    if b < 0 {
        lemma_wrap_i64_id(-b);
    }
    assert(crate::series::tabs(a) == iabs(a));
    assert(crate::series::tabs(b) == iabs(b));
    assert(iabs(a) <= t);
    assert(iabs(b) <= t);
    if a > p {
        lemma_wrap_i64_id(a - t);
        assert(crate::series::normalize_spec(a, f) == b);
        assert(!(b < -p));
        assert(crate::series::normalize_spec(b, f) == b);
    } else {
        assert(crate::series::normalize_spec(a, f) == a);
        assert(b < -p);
        lemma_wrap_i64_id(b + t);
        assert(crate::series::normalize_spec(b, f) == a);
    }
}

} // verus!
