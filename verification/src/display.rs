use vstd::prelude::*;
use crate::num::{lemma_pow10_mono, lemma_pow10_pos, pow10, tdiv, tmod, Num};

verus! {

#[verifier::external_type_specification]
#[verifier::external_body]
#[verifier::reject_recursive_types(T)]
pub struct ExHeaplessVec<T, const N: usize>(heapless::Vec<T, N>);

/// The bytes a bounded digit buffer holds, in order.
pub uninterp spec fn hv_seq(v: heapless::Vec<u8, 19>) -> Seq<u8>;

/// Relies on heapless::Vec::new: a fresh vector is empty.
#[verifier::external_body]
fn hv_new() -> (r: heapless::Vec<u8, 19>)
    ensures
        hv_seq(r) == Seq::<u8>::empty(),
{
    heapless::Vec::new()
}

/// Relies on heapless::Vec::push: appends below the capacity of 19, and
/// hands the item back untouched once full.
#[verifier::external_body]
fn hv_push(v: &mut heapless::Vec<u8, 19>, x: u8) -> (r: Result<(), u8>)
    ensures
        match r {
            Ok(()) => hv_seq(*old(v)).len() < 19 && hv_seq(*final(v)) == hv_seq(*old(v)).push(x),
            Err(y) => hv_seq(*old(v)).len() >= 19 && y == x && hv_seq(*final(v)) == hv_seq(*old(v)),
        },
{
    v.push(x)
}

/// Relies on heapless::Vec::as_slice: the stored items, in order, copied
/// out into an ordinary vector.
#[verifier::external_body]
fn hv_to_vec(v: &heapless::Vec<u8, 19>) -> (r: Vec<u8>)
    ensures
        r@ == hv_seq(*v),
{
    v.as_slice().to_vec()
}

/// The digit codes collected from the raw value `n`, before reversal:
/// each step takes the lowest digit, keeps it unless it is a leading zero
/// of the fraction, and marks the decimal point with the code ten once the
/// fractional digits are past. The accumulator is threaded through because
/// the decimal mark is only placed once something was kept.
pub open spec fn blink_fold(n: int, i: nat, zero_allow: bool, f: nat, acc: Seq<u8>) -> Seq<u8>
    decreases n,
    when n <= 0 || tdiv(n, 10) < n via blink_fold_dec
{
    if n <= 0 {
        acc
    } else {
        let digit = tmod(n, 10);
        let keep = digit != 0 || zero_allow;
        let acc1 = if keep {
            acc.push(digit as u8)
        } else {
            acc
        };
        let za1 = zero_allow || digit != 0;
        let at_mark = f >= 1 && i + 1 == f;
        let za2 = za1 || at_mark;
        let acc2 = if at_mark && acc1.len() > 0 {
            acc1.push(10u8)
        } else {
            acc1
        };
        blink_fold(tdiv(n, 10), i + 1, za2, f, acc2)
    }
}

#[via_fn]
proof fn blink_fold_dec(n: int, i: nat, zero_allow: bool, f: nat, acc: Seq<u8>) {
}

/// The code sequence for a positive raw value: the fold, read back most
/// significant first.
pub open spec fn blink_codes_spec(n: int, f: nat) -> Seq<u8> {
    blink_fold(n, 0, false, f, Seq::empty()).reverse()
}

/// The fold only ever appends: what is accumulated stays, in place.
proof fn lemma_blink_fold_extends(n: int, i: nat, zero_allow: bool, f: nat, acc: Seq<u8>)
    requires
        tdiv(n, 10) < n || n <= 0,
    ensures
        blink_fold(n, i, zero_allow, f, acc).len() >= acc.len(),
        forall|j: int|
            0 <= j < acc.len() ==> #[trigger] blink_fold(n, i, zero_allow, f, acc)[j] == acc[j],
    decreases n,
{
    if n > 0 {
        let digit = tmod(n, 10);
        let keep = digit != 0 || zero_allow;
        let acc1 = if keep {
            acc.push(digit as u8)
        } else {
            acc
        };
        let za1 = zero_allow || digit != 0;
        let at_mark = f >= 1 && i + 1 == f;
        let za2 = za1 || at_mark;
        let acc2 = if at_mark && acc1.len() > 0 {
            acc1.push(10u8)
        } else {
            acc1
        };
        lemma_blink_fold_dec_step(n);
        lemma_blink_fold_extends(tdiv(n, 10), i + 1, za2, f, acc2);
    }
}

/// A truncating division by ten moves down.
proof fn lemma_blink_fold_dec_step(n: int)
    requires
        n > 0,
    ensures
        0 <= tdiv(n, 10) < n,
{
    vstd::arithmetic::div_mod::lemma_div_pos_is_pos(n, 10);
    vstd::arithmetic::div_mod::lemma_div_decreases(n, 10);
}

/// Turn a value's raw digits into the codes the firmware blinks out: the
/// decimal digits most significant first, a leading-zero-trimmed fraction,
/// and the code ten marking the decimal point. A value that needs more
/// than the buffer's nineteen codes is reported with the first code that
/// did not fit. Nonpositive raw values yield no codes.
pub fn display_number(value: Num) -> (res: Result<Vec<u8>, u8>)
    requires
        value.wf(),
    ensures
        ({
            let full = blink_fold(
                value.raw_spec() as int,
                0,
                false,
                value.frac_spec() as nat,
                Seq::empty(),
            );
            match res {
                Ok(v) => full.len() <= 19 && v@ == blink_codes_spec(
                    value.raw_spec() as int,
                    value.frac_spec() as nat,
                ),
                Err(d) => full.len() > 19 && d == full[19],
            }
        }),
{
    let ghost f = value.frac_spec() as nat;
    let ghost n0 = value.raw_spec() as int;
    let mut n = value.raw();
    let mut nums = hv_new();
    let mut count: usize = 0;
    let mut zero_allow = false;
    let mut i: u8 = 0;
    proof {
        lemma_pow10_pos(0);
    }
    while n > 0
        invariant
            value.wf(),
            f == value.frac_spec() as nat,
            n0 == value.raw_spec() as int,
            i <= 19,
            count == hv_seq(nums).len(),
            count <= 19,
            n0 <= i64::MAX,
            (n as int) * pow10(i as nat) <= n0,
            n > 0 ==> i < 19,
            blink_fold(n0, 0, false, f, Seq::empty()) == blink_fold(
                n as int,
                i as nat,
                zero_allow,
                f,
                hv_seq(nums),
            ),
        decreases n,
    {
        proof {
            lemma_blink_fold_dec_step(n as int);
            crate::num::lemma_tmod_bound(n as int, 10);
        }
        let digit = crate::num::rem_trunc(n, 10) as u8;
        let ghost pre = hv_seq(nums);
        let ghost za0 = zero_allow;
        if digit != 0 || zero_allow {
            match hv_push(&mut nums, digit) {
                Ok(()) => {
                    count = count + 1;
                },
                Err(d) => {
                    proof {
                        let at = f >= 1 && (i as nat) + 1 == f;
                        let za2 = zero_allow || digit != 0 || at;
                        let acc1 = pre.push(digit);
                        let acc2 = if at && acc1.len() > 0 {
                            acc1.push(10u8)
                        } else {
                            acc1
                        };
                        assert(blink_fold(n as int, i as nat, zero_allow, f, pre) == blink_fold(
                            tdiv(n as int, 10),
                            (i as nat) + 1,
                            za2,
                            f,
                            acc2,
                        ));
                        lemma_blink_fold_extends(tdiv(n as int, 10), (i as nat) + 1, za2, f, acc2);
                        assert(pre.len() == 19);
                        assert(acc2[19] == digit);
                    }
                    return Err(d);
                },
            }
            zero_allow = true;
        }
        let at_mark = value.frac() >= 1 && i + 1 == value.frac();
        if at_mark {
            zero_allow = true;
            if count > 0 {
                let ghost pre2 = hv_seq(nums);
                match hv_push(&mut nums, 10) {
                    Ok(()) => {
                        count = count + 1;
                    },
                    Err(d) => {
                        proof {
                            let za2 = true;
                            let acc2 = pre2.push(10u8);
                            assert(blink_fold(n as int, i as nat, za0, f, pre) == blink_fold(
                                tdiv(n as int, 10),
                                (i as nat) + 1,
                                za2,
                                f,
                                acc2,
                            ));
                            lemma_blink_fold_extends(
                                tdiv(n as int, 10),
                                (i as nat) + 1,
                                za2,
                                f,
                                acc2,
                            );
                            assert(pre2.len() == 19);
                            assert(acc2[19] == 10);
                        }
                        return Err(d);
                    },
                }
            }
        }
        proof {
            lemma_pow10_pos(i as nat);
            assert((tdiv(n as int, 10) * 10) * pow10(i as nat) <= (n as int) * pow10(i as nat))
                by {
                    vstd::arithmetic::div_mod::lemma_fundamental_div_mod(n as int, 10);
                    vstd::arithmetic::div_mod::lemma_mod_division_less_than_divisor(n as int, 10);
                    vstd::arithmetic::mul::lemma_mul_inequality(
                        tdiv(n as int, 10) * 10,
                        n as int,
                        pow10(i as nat),
                    );
                }
            assert(tdiv(n as int, 10) * pow10((i + 1) as nat) == (tdiv(n as int, 10) * 10)
                * pow10(i as nat)) by {
                vstd::arithmetic::mul::lemma_mul_is_associative(
                    tdiv(n as int, 10),
                    10,
                    pow10(i as nat),
                );
            }
            if tdiv(n as int, 10) > 0 && i + 1 >= 19 {
                lemma_pow10_pos((i + 1) as nat);
                lemma_pow10_mono(19, (i + 1) as nat);
                assert(pow10(19) == 10000000000000000000) by {
                    reveal_with_fuel(pow10, 21);
                }
                vstd::arithmetic::mul::lemma_mul_increases(
                    tdiv(n as int, 10),
                    pow10((i + 1) as nat),
                );
            }
        }
        n = crate::num::div_trunc(n, 10);
        i = i + 1;
    }
    let forward = hv_to_vec(&nums);
    let mut out: Vec<u8> = Vec::new();
    let mut j: usize = forward.len();
    while j > 0
        invariant
            j <= forward.len(),
            out@.len() == forward.len() - j,
            forall|k: int|
                0 <= k < out@.len() ==> out@[k] == forward@[forward.len() - 1 - k],
        decreases j,
    {
        j = j - 1;
        let c = forward[j];
        out.push(c);
    }
    proof {
        assert(out@ =~= hv_seq(nums).reverse());
    }
    Ok(out)
}

} // verus!
