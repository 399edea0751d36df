//! Which branch of a `u128 / u128` software division a pair of operands takes.
//!
//! On a target without a 128-bit divide instruction the division is the *trifecta* algorithm of
//! the compiler's runtime: a quotient-0-or-1 arm, a native 64-bit half division, a
//! three-half-division short arm for divisors under `2^32`, a "two possibility" arm when the
//! operands' leading bits are within 32 of each other, and otherwise an under-subtracting long
//! division loop that runs one or more steps and then leaves through one of the first four arms.
//! Each path is a fixed instruction count, so the path is what a cost model wants to know.

use crate::bits;
use crate::bits::leading_zeros_u128;
use vstd::arithmetic::div_mod::*;
use vstd::arithmetic::power2::*;
use vstd::bits::*;
use vstd::prelude::*;

verus! {

/// The number of distinct branch paths that [`udiv_path`] distinguishes.
pub const UDIV_PATHS: usize = 28;

/// Whether the quotient estimate of the two-possibility arm, made from the 64 leading bits of the
/// dividend and the divisor bits beside them, is one too large.
pub open spec fn two_possibility_corrected(duo: nat, div: nat) -> bool {
    let shift = (bits::bit_len(duo) - 64) as nat;
    let estimate = (duo / pow2(shift)) / (div / pow2(shift));
    estimate * div > duo
}

/// How far a long division step shifts its partial quotient: the dividend is read from its 64
/// leading bits and the divisor from its 32 leading bits. Negative where no step is left to run.
pub open spec fn step_shift(duo: nat, div: nat) -> int {
    (bits::bit_len(duo) - 64) - (bits::bit_len(div) - 32)
}

/// The partial quotient of a long division step: the dividend's 64 leading bits by one more than
/// the divisor's 32 leading bits.
pub open spec fn step_quotient(duo: nat, div: nat) -> nat {
    (duo / pow2((bits::bit_len(duo) - 64) as nat)) / (div / pow2((bits::bit_len(div) - 32) as nat)
        + 1)
}

/// What a long division step leaves of the dividend.
pub open spec fn step_rest(duo: nat, div: nat) -> nat {
    (duo - div * step_quotient(duo, div) * pow2(step_shift(duo, div) as nat)) as nat
}

/// The operands on which a long division step runs.
pub open spec fn step_runs(duo: nat, div: nat) -> bool {
    &&& 64 < bits::bit_len(duo)
    &&& 32 < bits::bit_len(div)
    &&& step_shift(duo, div) >= 0
}

/// The index of a long division path that ran `steps` steps, left through `exit` (0 and 1 the
/// quotient, 2 the half division, 3 and 4 the two possibilities), and had a step without a shift.
pub open spec fn long_index(steps: nat, exit: nat, zero_shl: bool) -> nat {
    8 + 10 * (if steps <= 1 {
        0nat
    } else {
        1nat
    }) + 2 * exit + (if zero_shl {
        1nat
    } else {
        0nat
    })
}

/// The number of steps that the long division loop runs on these operands.
pub open spec fn long_steps(duo: nat, div: nat) -> nat
    decreases duo,
    when step_runs(duo, div)
    via long_steps_decreases
{
    let rest = step_rest(duo, div);
    if bits::bit_len(rest) <= bits::bit_len(div) || bits::bit_len(rest) <= 64 || !step_runs(
        rest,
        div,
    ) {
        1
    } else {
        1 + long_steps(rest, div)
    }
}

#[via_fn]
proof fn long_steps_decreases(duo: nat, div: nat) {
    lemma_step(duo, div);
}

/// The index of the path that the long division loop takes when it has run `steps` steps and is
/// left with the dividend `duo`.
pub open spec fn long_path(duo: nat, div: nat, steps: nat, zero_shl: bool) -> nat
    decreases duo,
    when 64 < bits::bit_len(duo) && 32 < bits::bit_len(div)
    via long_path_decreases
{
    if step_shift(duo, div) < 0 {
        long_index(
            steps,
            if two_possibility_corrected(duo, div) {
                4
            } else {
                3
            },
            zero_shl,
        )
    } else {
        let rest = step_rest(duo, div);
        let zero = zero_shl || step_shift(duo, div) == 0;
        if bits::bit_len(rest) <= bits::bit_len(div) {
            long_index(
                steps + 1,
                if div <= rest {
                    1
                } else {
                    0
                },
                zero,
            )
        } else if bits::bit_len(rest) <= 64 {
            long_index(steps + 1, 2, zero)
        } else {
            long_path(rest, div, steps + 1, zero)
        }
    }
}

#[via_fn]
proof fn long_path_decreases(duo: nat, div: nat, steps: nat, zero_shl: bool) {
    if step_shift(duo, div) >= 0 {
        lemma_step(duo, div);
    }
}

/// The path index that [`udiv_path`] returns.
pub open spec fn path_index(duo: nat, div: nat) -> nat {
    let duo_len = bits::bit_len(duo);
    let div_len = bits::bit_len(div);
    if div == 0 {
        0
    } else if duo_len <= div_len {
        if duo >= div {
            1
        } else {
            0
        }
    } else if duo_len <= 64 {
        2
    } else if div_len <= 32 {
        3
    } else if duo_len - div_len < 32 {
        4 + (if two_possibility_corrected(duo, div) {
            1nat
        } else {
            0nat
        }) + (if duo_len == 128 {
            2nat
        } else {
            0nat
        })
    } else {
        long_path(duo, div, 0, false)
    }
}

/// A long division step subtracts a multiple of the divisor, never too much of it, and clears at
/// least 30 bits of the dividend.
pub proof fn lemma_step(duo: nat, div: nat)
    requires
        step_runs(duo, div),
    ensures
        step_quotient(duo, div) > 0,
        div * step_quotient(duo, div) * pow2(step_shift(duo, div) as nat) <= duo,
        div * step_quotient(duo, div) <= duo,
        step_rest(duo, div) < duo,
        step_rest(duo, div) % div == duo % div,
        bits::bit_len(step_rest(duo, div)) + 30 <= bits::bit_len(duo),
{
    let ue = (bits::bit_len(duo) - 64) as nat;
    let de = (bits::bit_len(div) - 32) as nat;
    let shl = step_shift(duo, div) as nat;
    let us = duo / pow2(ue);
    let ds = div / pow2(de);
    let q = step_quotient(duo, div);
    bits::lemma_word_powers();
    bits::lemma_bit_len(duo);
    bits::lemma_bit_len(div);
    lemma_pow2_pos(ue);
    lemma_pow2_pos(de);
    lemma_pow2_pos(shl);
    lemma_pow2_adds(de, shl);
    crate::arith::lemma_div_mod(duo as int, pow2(ue) as int);
    crate::arith::lemma_div_mod(div as int, pow2(de) as int);
    bits::lemma_bit_len_shr(duo, ue);
    bits::lemma_bit_len_shr(div, de);
    bits::lemma_bit_len(us);
    bits::lemma_bit_len(ds);
    assert(0x8000_0000_0000_0000 <= us < 0x1_0000_0000_0000_0000);
    assert(0x8000_0000 <= ds < 0x1_0000_0000);
    let e = (ds + 1) as int;
    crate::arith::lemma_div_mod(us as int, e);
    assert(q < 0x2_0000_0000 && q > 0) by (nonlinear_arith)
        requires
            us == q * e + us as int % e,
            0 <= us as int % e < e,
            0x8000_0000_0000_0000 <= us < 0x1_0000_0000_0000_0000,
            0x8000_0000 < e <= 0x1_0000_0000,
            q >= 0,
    ;
    let pu = pow2(ue) as int;
    let pd = pow2(de) as int;
    let ps = pow2(shl) as int;
    let taken = div * q * ps;
    assert(taken <= duo) by {
        assert(div <= e * pd) by (nonlinear_arith)
            requires
                div == ds * pd + div as int % pd,
                div as int % pd < pd,
                e == ds + 1,
        ;
        assert(div * q * ps <= (e * pd) * q * ps) by (nonlinear_arith)
            requires
                div <= e * pd,
                q >= 0,
                ps >= 0,
        ;
        assert((e * pd) * q * ps == (q * e) * (pd * ps)) by (nonlinear_arith);
        assert((q * e) * pu <= us * pu) by (nonlinear_arith)
            requires
                q * e <= us,
                pu > 0,
        ;
    }
    assert(duo - taken < pu * (ds + 2 + q)) by {
        assert((ds * pd) * q * ps <= taken) by (nonlinear_arith)
            requires
                taken == div * q * ps,
                ds * pd <= div,
                q >= 0,
                ps >= 0,
        ;
        assert((ds * pd) * q * ps == (ds * q) * (pd * ps)) by (nonlinear_arith);
        assert(us * pu + pu - (ds * q) * pu <= pu * (ds + 2 + q)) by (nonlinear_arith)
            requires
                us < q * e + e,
                e == ds + 1,
                pu > 0,
        ;
    }
    assert(pu * (ds + 2 + q) <= pu * 0x4_0000_0000) by (nonlinear_arith)
        requires
            ds + 2 + q <= 0x4_0000_0000,
            pu > 0,
    ;
    lemma2_to64();
    lemma_pow2_adds(ue, 34);
    lemma_pow2_adds(2, 32);
    assert(step_rest(duo, div) < pow2(ue + 34));
    bits::lemma_bit_len_upper(step_rest(duo, div), ue + 34);
    assert(div * q > 0) by (nonlinear_arith)
        requires
            div > 0,
            q > 0,
    ;
    assert(taken >= div * q) by (nonlinear_arith)
        requires
            taken == (div * q) * ps,
            ps >= 1,
            div * q > 0,
    ;
    assert(step_rest(duo, div) % div == duo % div) by {
        let m = q * ps;
        assert(taken == m * div) by (nonlinear_arith)
            requires
                taken == div * q * ps,
                m == q * ps,
        ;
        lemma_mod_multiples_vanish(-m, duo as int, div as int);
        assert(div * (-m) + duo == duo - taken) by (nonlinear_arith)
            requires
                taken == m * div,
        ;
    }
}

/// The long division loop of a 128-bit dividend runs at most three steps, and at most two where
/// the divisor has 37 bits or more.
pub proof fn law_long_division_is_short(duo: nat, div: nat)
    requires
        bits::bit_len(duo) <= 128,
        step_runs(duo, div),
    ensures
        1 <= long_steps(duo, div) <= 3,
        bits::bit_len(div) >= 37 ==> long_steps(duo, div) <= 2,
{
    reveal_with_fuel(long_steps, 4);
    lemma_step(duo, div);
    let r1 = step_rest(duo, div);
    if step_runs(r1, div) {
        lemma_step(r1, div);
        let r2 = step_rest(r1, div);
        if step_runs(r2, div) {
            lemma_step(r2, div);
        }
    }
}

/// Every path has a place among the [`UDIV_PATHS`] that are told apart.
pub proof fn law_path_index_in_range(duo: nat, div: nat)
    ensures
        path_index(duo, div) < UDIV_PATHS,
{
    if 64 < bits::bit_len(duo) && 32 < bits::bit_len(div) {
        lemma_long_path_in_range(duo, div, 0, false);
    }
}

proof fn lemma_long_path_in_range(duo: nat, div: nat, steps: nat, zero_shl: bool)
    requires
        64 < bits::bit_len(duo),
        32 < bits::bit_len(div),
    ensures
        long_path(duo, div, steps, zero_shl) < UDIV_PATHS,
    decreases duo,
{
    if step_shift(duo, div) >= 0 {
        lemma_step(duo, div);
        let rest = step_rest(duo, div);
        if bits::bit_len(rest) > 64 {
            lemma_long_path_in_range(
                rest,
                div,
                steps + 1,
                zero_shl || step_shift(duo, div) == 0,
            );
        }
    }
}

/// In the two-possibility arm the estimate is the quotient or one more than it, and the path says
/// which.
pub proof fn law_two_possibilities(duo: nat, div: nat)
    requires
        64 <= bits::bit_len(duo),
        bits::bit_len(div) <= bits::bit_len(duo) < bits::bit_len(div) + 32,
    ensures
        ({
            let shift = (bits::bit_len(duo) - 64) as nat;
            let estimate = (duo / pow2(shift)) / (div / pow2(shift));
            duo / div == (if two_possibility_corrected(duo, div) {
                estimate - 1
            } else {
                estimate as int
            })
        }),
{
    let shift = (bits::bit_len(duo) - 64) as nat;
    let p = pow2(shift) as int;
    let us = (duo / pow2(shift)) as int;
    let ds = (div / pow2(shift)) as int;
    let est = us / ds;
    bits::lemma_word_powers();
    lemma_pow2_pos(shift);
    bits::lemma_bit_len(duo);
    bits::lemma_bit_len(div);
    bits::lemma_bit_len_shr(duo, shift);
    bits::lemma_bit_len_shr(div, shift);
    bits::lemma_bit_len(us as nat);
    bits::lemma_bit_len(ds as nat);
    bits::lemma_pow2_monotone(32, (bits::bit_len(ds as nat) - 1) as nat);
    assert(0x1_0000_0000 <= ds);
    crate::arith::lemma_div_mod(duo as int, p);
    crate::arith::lemma_div_mod(div as int, p);
    crate::arith::lemma_div_mod(us, ds);
    // The estimate times the divisor exceeds the dividend by less than the divisor.
    assert(est < ds) by (nonlinear_arith)
        requires
            us == est * ds + us % ds,
            us % ds >= 0,
            us < 0x1_0000_0000_0000_0000,
            ds >= 0x1_0000_0000,
    ;
    let dr = div as int % p;
    assert((est - 1) * div <= duo) by (nonlinear_arith)
        requires
            div == ds * p + dr,
            0 <= dr < p,
            est * ds <= us,
            us * p <= duo,
            0 <= est < ds,
            p > 0,
    {
        assert((est - 1) * div == (est * ds) * p - ds * p + (est - 1) * dr);
        assert((est * ds) * p <= us * p);
        if est > 0 {
            assert((est - 1) * dr <= (est - 1) * p);
            assert((est - 1) * p <= ds * p);
        }
    }
    assert(us < (est + 1) * ds) by (nonlinear_arith)
        requires
            us == est * ds + us % ds,
            us % ds < ds,
    ;
    assert(duo < (us + 1) * p) by (nonlinear_arith)
        requires
            duo == us * p + duo as int % p,
            duo as int % p < p,
    ;
    assert(duo < (est + 1) * div) by (nonlinear_arith)
        requires
            us < (est + 1) * ds,
            duo < (us + 1) * p,
            ds * p <= div,
            est >= 0,
            p > 0,
    {
        assert((us + 1) * p <= ((est + 1) * ds) * p);
        assert(((est + 1) * ds) * p == (est + 1) * (ds * p));
        assert((est + 1) * (ds * p) <= (est + 1) * div);
    }
    if two_possibility_corrected(duo, div) {
        assert(duo < est * div);
        assert((est - 1) * div + div == est * div) by (nonlinear_arith);
        crate::arith::lemma_div_mod_unique(
            duo as int,
            div as int,
            est - 1,
            duo - (est - 1) * div,
        );
    } else {
        assert(est * div + div == (est + 1) * div) by (nonlinear_arith);
        crate::arith::lemma_div_mod_unique(duo as int, div as int, est, duo - est * div);
    }
}

/// Whether the two-possibility arm corrects its estimate, with the product compared in halves.
fn estimate_is_corrected(duo: u128, div: u128, duo_lz: u32) -> (r: bool)
    requires
        64 < bits::bit_len(duo as nat),
        duo_lz == 128 - bits::bit_len(duo as nat),
        bits::bit_len(div as nat) <= bits::bit_len(duo as nat) < bits::bit_len(div as nat) + 32,
    ensures
        r == two_possibility_corrected(duo as nat, div as nat),
{
    let shift: u32 = 64 - duo_lz;
    proof {
        bits::lemma_word_powers();
        lemma_u128_shr_is_div(duo, shift as u128);
        lemma_u128_shr_is_div(div, shift as u128);
        bits::lemma_bit_len_shr(duo as nat, shift as nat);
        bits::lemma_bit_len_shr(div as nat, shift as nat);
        bits::lemma_bit_len(duo as nat / pow2(shift as nat));
        bits::lemma_bit_len(div as nat / pow2(shift as nat));
        bits::lemma_pow2_monotone(bits::bit_len(div as nat / pow2(shift as nat)), 64);
    }
    let duo_sig_n: u64 = (duo >> shift) as u64;
    let div_sig_n: u64 = (div >> shift) as u64;
    let quo: u64 = duo_sig_n / div_sig_n;
    let div_lo: u64 = div as u64;
    let div_hi: u64 = (div >> 64) as u64;
    proof {
        lemma_u128_shr_is_div(div, 64);
        assert(div as u64 == div % 0x1_0000_0000_0000_0000) by (bit_vector);
        crate::arith::lemma_div_mod(div as int, 0x1_0000_0000_0000_0000);
        assert(0 <= quo * div_lo <= 0xffff_ffff_ffff_ffff * 0xffff_ffff_ffff_ffff)
            by (nonlinear_arith)
            requires
                quo <= 0xffff_ffff_ffff_ffff,
                div_lo <= 0xffff_ffff_ffff_ffff,
        ;
        assert(0 <= quo * div_hi <= 0xffff_ffff_ffff_ffff * 0xffff_ffff_ffff_ffff)
            by (nonlinear_arith)
            requires
                quo <= 0xffff_ffff_ffff_ffff,
                div_hi <= 0xffff_ffff_ffff_ffff,
        ;
    }
    let tmp_a: u128 = (quo as u128) * (div_lo as u128);
    let tmp_lo: u64 = tmp_a as u64;
    let carry: u64 = (tmp_a >> 64) as u64;
    proof {
        lemma_u128_shr_is_div(tmp_a, 64);
        assert(tmp_a as u64 == tmp_a % 0x1_0000_0000_0000_0000) by (bit_vector);
        crate::arith::lemma_div_mod(tmp_a as int, 0x1_0000_0000_0000_0000);
    }
    let tmp_b: u128 = (quo as u128) * (div_hi as u128) + (carry as u128);
    let tmp_hi: u64 = tmp_b as u64;
    let overflow: u64 = (tmp_b >> 64) as u64;
    proof {
        lemma_u128_shr_is_div(tmp_b, 64);
        assert(tmp_b as u64 == tmp_b % 0x1_0000_0000_0000_0000) by (bit_vector);
        crate::arith::lemma_div_mod(tmp_b as int, 0x1_0000_0000_0000_0000);
        assert((tmp_lo as u128) | ((tmp_hi as u128) << 64) == (tmp_lo as u128) + (tmp_hi as u128)
            * 0x1_0000_0000_0000_0000) by (bit_vector);
        assert(quo * div == quo * div_lo + (quo * div_hi) * 0x1_0000_0000_0000_0000)
            by (nonlinear_arith)
            requires
                div == div_hi * 0x1_0000_0000_0000_0000 + div_lo,
        ;
    }
    let tmp: u128 = (tmp_lo as u128) | ((tmp_hi as u128) << 64);
    overflow != 0 || duo < tmp
}

/// Which branch path the `u128` division of the compiler's runtime takes on these operands.
///
/// | index | path |
/// |---|---|
/// | 0 / 1 | quotient 0 / quotient 1 (the divisor is as long as the dividend, or longer) |
/// | 2 | half division (`duo < 2^64`) |
/// | 3 | short division (`div < 2^32`) |
/// | 4 / 5 | two-possibility, uncorrected / corrected (`quo - 1`) |
/// | 6 / 7 | the same with `duo` a full 128 bits, where the sig-bit shifts are by 64 |
/// | 8 + 10·(steps − 1) + 2·exit + zero_shl | long division: `steps` 1 for one step and 2 for more, `exit` 0 = quotient 0, 1 = quotient 1, 2 = half, 3 = two-possibility, 4 = corrected two-possibility, and `zero_shl` 1 when any step's shift was 0 |
///
/// The variable names are the algorithm's own; only the quotient bookkeeping is dropped, because
/// the path is the answer.
pub fn udiv_path(duo: u128, div: u128) -> (path: usize)
    ensures
        path == path_index(duo as nat, div as nat),
        path < UDIV_PATHS,
{
    proof {
        law_path_index_in_range(duo as nat, div as nat);
        bits::lemma_word_powers();
        bits::lemma_bit_len_upper(duo as nat, 128);
        bits::lemma_bit_len_upper(div as nat, 128);
        bits::lemma_bit_len(duo as nat);
        bits::lemma_bit_len(div as nat);
    }
    if div == 0 {
        return 0;
    }
    let div_lz: u32 = leading_zeros_u128(div);
    let mut duo_lz: u32 = leading_zeros_u128(duo);
    if div_lz <= duo_lz {
        return if duo >= div {
            1
        } else {
            0
        };
    }
    if duo_lz >= 64 {
        return 2;
    }
    if div_lz >= 96 {
        return 3;
    }
    let lz_diff: u32 = div_lz - duo_lz;
    if lz_diff < 32 {
        let corrected: usize = if estimate_is_corrected(duo, div, duo_lz) {
            1
        } else {
            0
        };
        let full: usize = if duo_lz == 0 {
            2
        } else {
            0
        };
        return 4 + corrected + full;
    }
    let mut rest: u128 = duo;
    let div_extra: u32 = 96 - div_lz;
    proof {
        lemma_u128_shr_is_div(div, div_extra as u128);
        bits::lemma_bit_len_shr(div as nat, div_extra as nat);
        bits::lemma_bit_len(div as nat / pow2(div_extra as nat));
    }
    let div_sig_n_h: u32 = (div >> div_extra) as u32;
    let div_sig_n_h_add1: u64 = (div_sig_n_h as u64) + 1;
    let mut steps: u32 = 0;
    let mut zero_shl: bool = false;
    loop
        invariant
            div_lz == 128 - bits::bit_len(div as nat),
            duo_lz == 128 - bits::bit_len(rest as nat),
            64 < bits::bit_len(rest as nat) <= 128,
            32 < bits::bit_len(div as nat),
            bits::bit_len(div as nat) < bits::bit_len(rest as nat),
            div_extra == 96 - div_lz,
            div_sig_n_h_add1 == div as nat / pow2(div_extra as nat) + 1,
            div_sig_n_h_add1 >= 1,
            steps == 0 ==> step_runs(rest as nat, div as nat),
            steps + bits::bit_len(rest as nat) <= 128,
            path_index(duo as nat, div as nat) == long_path(
                rest as nat,
                div as nat,
                steps as nat,
                zero_shl,
            ),
            path_index(duo as nat, div as nat) < UDIV_PATHS,
        decreases rest,
    {
        let duo_extra: u32 = 64 - duo_lz;
        if div_extra <= duo_extra {
            proof {
                bits::lemma_word_powers();
                lemma_u128_shr_is_div(rest, duo_extra as u128);
                bits::lemma_bit_len_shr(rest as nat, duo_extra as nat);
                bits::lemma_bit_len(rest as nat / pow2(duo_extra as nat));
                lemma_step(rest as nat, div as nat);
            }
            let duo_sig_n: u64 = (rest >> duo_extra) as u64;
            let quo_part: u128 = (duo_sig_n / div_sig_n_h_add1) as u128;
            let extra_shl: u32 = duo_extra - div_extra;
            zero_shl = zero_shl || extra_shl == 0;
            proof {
                assert(quo_part == step_quotient(rest as nat, div as nat));
                assert(extra_shl == step_shift(rest as nat, div as nat));
                bits::lemma_u128_shl_is_mul((div * quo_part) as u128, extra_shl);
            }
            rest = rest - ((div * quo_part) << extra_shl);
            steps = steps + 1;
        } else {
            let exit: usize = if estimate_is_corrected(rest, div, duo_lz) {
                4
            } else {
                3
            };
            return long_index_of(steps, exit, zero_shl);
        }
        duo_lz = leading_zeros_u128(rest);
        if div_lz <= duo_lz {
            let exit: usize = if div <= rest {
                1
            } else {
                0
            };
            return long_index_of(steps, exit, zero_shl);
        }
        if duo_lz >= 64 {
            return long_index_of(steps, 2, zero_shl);
        }
    }
}

fn long_index_of(steps: u32, exit: usize, zero_shl: bool) -> (r: usize)
    requires
        steps >= 1,
        exit <= 4,
    ensures
        r == long_index(steps as nat, exit as nat, zero_shl),
{
    let many: usize = if steps > 1 {
        10
    } else {
        0
    };
    let zero: usize = if zero_shl {
        1
    } else {
        0
    };
    8 + many + 2 * exit + zero
}

} // verus!
