//! Recording the arithmetic of a swap in the classes that its on-chain cost falls into.

use crate::bits;
use crate::bits::leading_zeros_u128;
use crate::counters::{Recorder, SwapCounters, Work};
use crate::div_path;
use crate::div_path::{udiv_path, UDIV_PATHS};
use crate::limbs;
use crate::long_div;
use crate::long_div::chain_div_arms;
use crate::u256;
use crate::u256::U256;
use vstd::prelude::*;

verus! {

/// The counts after a 256-bit division of `n` by `d`.
///
/// The on-chain division is a four-way branch on the operands' limb counts: return early, one
/// `u128` division, a loop over the limbs, or the general long division. Those classes differ by
/// more than an order of magnitude.
#[verifier::opaque]
pub open spec fn after_u256_div(work: Work, n: nat, d: nat, frame: bool, remainder: bool) -> Work {
    let nd = limbs::word_count(n);
    let dv = limbs::word_count(d);
    let begun = Work { u256_divs: work.u256_divs + 1, ..work };
    let classed = if nd == 0 || nd < dv {
        Work { u256_div_trivial: begun.u256_div_trivial + 1, ..begun }
    } else if nd < 3 {
        Work {
            u256_div_u128: begun.u256_div_u128 + 1,
            u256_div_case2_frames: begun.u256_div_case2_frames + if frame {
                1nat
            } else {
                0
            },
            ..begun
        }.on_path(div_path::path_index(n, d))
    } else if dv == 1 {
        Work {
            u256_div_short_calls: begun.u256_div_short_calls + 1,
            u256_div_short_iters: begun.u256_div_short_iters + nd,
            u256_div_mul_words: begun.u256_div_mul_words + nd,
            ..begun
        }
    } else {
        Work {
            u256_div_knuth_calls: begun.u256_div_knuth_calls + 1,
            u256_div_knuth_iters: (begun.u256_div_knuth_iters + nd - dv + 1) as nat,
            u256_div_mul_words: (begun.u256_div_mul_words + (nd - dv + 1) * dv) as nat,
            ..begun
        }
    };
    if nd >= 3 {
        Work {
            udiv_paths: Seq::new(
                UDIV_PATHS as nat,
                |i: int| classed.udiv_paths[i] + long_div::paths_of(n, d)[i],
            ),
            u256_div_normalized: classed.u256_div_normalized + long_div::normalized_of(n, d),
            u256_div_normalized_remainder: classed.u256_div_normalized_remainder + if remainder {
                long_div::normalized_of(n, d)
            } else {
                0
            },
            u256_div_qhat_corrections: (classed.u256_div_qhat_corrections
                + long_div::corrections_of(n, d)) as nat,
            ..classed
        }
    } else {
        classed
    }
}

/// The counts after a `u128` division, where the divisor is not zero.
#[verifier::opaque]
pub open spec fn after_udiv(work: Work, n: nat, d: nat) -> Work {
    if d == 0 {
        work
    } else {
        work.on_path(div_path::path_index(n, d))
    }
}

/// The part of a fee that goes to the protocol, in ten-thousandths.
pub open spec fn protocol_share(fee: nat, rate: nat) -> nat {
    fee * rate / 10_000
}

/// The counts after the two divisions of a step's fee: the protocol's share, when the rate is set,
/// and the growth of the fee per unit of liquidity, when there is liquidity.
#[verifier::opaque]
pub open spec fn after_step_fees(work: Work, fee: nat, rate: nat, liquidity: nat) -> Work {
    let shared = if rate > 0 {
        work.on_path(div_path::path_index(fee * rate, 10_000))
    } else {
        work
    };
    let kept = (fee - if rate > 0 {
        protocol_share(fee, rate)
    } else {
        0
    }) as nat;
    if liquidity > 0 {
        shared.on_path(
            div_path::path_index((kept * limbs::base()) as nat, liquidity),
        )
    } else {
        shared
    }
}

/// The number of limbs that a multiplication runs over, one at least.
pub open spec fn operand_limbs(x: nat) -> nat {
    if x == 0 {
        1
    } else {
        limbs::word_count(x)
    }
}

/// The counts after a multiplication into 256 bits.
#[verifier::opaque]
pub open spec fn after_u256_mul(work: Work, a: nat, b: nat) -> Work {
    Work {
        u256_muls: work.u256_muls + 1,
        u256_mul_word_products: work.u256_mul_word_products + operand_limbs(a) * operand_limbs(b),
        ..work
    }
}

/// Two operands of 128 bits have one or two limbs each, so that their product runs over one, two or
/// four pairs.
pub proof fn law_product_of_limbs(a: u128, b: u128)
    ensures
        ({
            let pairs = operand_limbs(a as nat) * operand_limbs(b as nat);
            pairs == 1 || pairs == 2 || pairs == 4
        }),
{
    bits::lemma_word_powers();
    bits::lemma_bit_len_upper(a as nat, 128);
    bits::lemma_bit_len_upper(b as nat, 128);
    bits::lemma_bit_len(a as nat);
    bits::lemma_bit_len(b as nat);
    let m = operand_limbs(a as nat);
    let n = operand_limbs(b as nat);
    assert(1 <= m <= 2 && 1 <= n <= 2);
    assert(m * n == 1 || m * n == 2 || m * n == 4) by (nonlinear_arith)
        requires
            m == 1 || m == 2,
            n == 1 || n == 2,
    ;
}

/// Count one `u128` division on the branch path that it takes.
fn count_path(counters: &mut SwapCounters, duo: u128, div: u128)
    requires
        old(counters)@.udiv_paths[div_path::path_index(duo as nat, div as nat) as int] < u32::MAX,
    ensures
        final(counters)@ == old(counters)@.on_path(div_path::path_index(duo as nat, div as nat)),
{
    let ghost before = counters@;
    let path: usize = udiv_path(duo, div);
    assert(before.udiv_paths[path as int] == counters.udiv_paths[path as int]);
    counters.udiv_paths[path] += 1;
    assert(counters@ =~= before.on_path(path as nat));
}

/// Record one 256-bit division, classified into the cost class that the on-chain division takes
/// for these operands. `frame` says that the division is a call frame of its own on chain, and
/// `remainder` that its caller keeps the remainder.
pub fn record_u256_div(
    recorder: &mut Recorder,
    numerator: U256,
    denominator: U256,
    frame: bool,
    remainder: bool,
)
    requires
        old(recorder).can_hold(
            after_u256_div(
                old(recorder).counters@,
                numerator@,
                denominator@,
                frame,
                remainder,
            ),
        ),
    ensures
        old(recorder).becomes(
            *final(recorder),
            after_u256_div(
                old(recorder).counters@,
                numerator@,
                denominator@,
                frame,
                remainder,
            ),
        ),
{
    proof {
        reveal(Work::within);
        reveal(after_u256_div);
    }
    if !recorder.on {
        return;
    }
    proof {
        u256::lemma_u256_bound(numerator);
        u256::lemma_u256_bound(denominator);
    }
    let ghost before = recorder.counters@;
    let ghost n = numerator@;
    let ghost d = denominator@;
    let ghost after = after_u256_div(before, n, d, frame, remainder);
    let num_bits: u32 = 256 - u256::leading_zeros(numerator);
    let den_bits: u32 = 256 - u256::leading_zeros(denominator);
    let nd: u32 = (num_bits + 63) / 64;
    let dv: u32 = (den_bits + 63) / 64;
    recorder.counters.u256_divs += 1;
    if nd == 0 || nd < dv {
        recorder.counters.u256_div_trivial += 1;
    } else if nd < 3 {
        recorder.counters.u256_div_u128 += 1;
        if frame {
            recorder.counters.u256_div_case2_frames += 1;
        }
        proof {
            lemma_two_limbs(numerator);
            lemma_two_limbs(denominator);
        }
        proof {
            div_path::law_path_index_in_range(n, d);
            let path = div_path::path_index(n, d) as int;
            assert(after.udiv_paths[path] == before.udiv_paths[path] + 1);
        }
        count_path(&mut recorder.counters, numerator.low, denominator.low);
    } else if dv == 1 {
        recorder.counters.u256_div_short_calls += 1;
        recorder.counters.u256_div_short_iters += nd;
        recorder.counters.u256_div_mul_words += nd;
    } else {
        recorder.counters.u256_div_knuth_calls += 1;
        recorder.counters.u256_div_knuth_iters += nd - dv + 1;
        proof {
            assert((nd - dv + 1) * dv <= 6) by (nonlinear_arith)
                requires
                    nd <= 4,
                    dv <= nd,
                    dv >= 0,
                    nd >= 3,
                    dv != 1,
            ;
        }
        recorder.counters.u256_div_mul_words += (nd - dv + 1) * dv;
    }
    let ghost classed = recorder.counters@;
    if nd >= 3 {
        let (_quotient, arms) = chain_div_arms(u256::limbs(numerator), u256::limbs(denominator));
        proof {
            assert forall|i: int| 0 <= i < UDIV_PATHS implies (
            #[trigger] recorder.counters.udiv_paths[i]) + arms.paths[i] <= u32::MAX by {
                assert(recorder.counters@.udiv_paths[i] == before.udiv_paths[i]);
                assert(arms.path_counts()[i] == arms.paths[i]);
                assert(after.udiv_paths[i] == before.udiv_paths[i] + arms.paths[i]);
            }
        }
        add_paths(&mut recorder.counters.udiv_paths, &arms.paths);
        recorder.counters.u256_div_normalized += arms.normalized;
        if remainder {
            recorder.counters.u256_div_normalized_remainder += arms.normalized;
        }
        recorder.counters.u256_div_qhat_corrections += arms.corrections;
        proof {
            assert forall|i: int| 0 <= i < UDIV_PATHS implies long_div::paths_of(n, d)[i]
                == arms.paths[i] by {
                assert(arms.path_counts()[i] == arms.paths[i]);
            }
        }
    }
    proof {
        assert(recorder.counters@ =~= after);
    }
}

/// A 256-bit number of at most two limbs is its low word.
proof fn lemma_two_limbs(x: U256)
    requires
        limbs::word_count(x@) <= 2,
    ensures
        x@ == x.low,
{
    bits::lemma_word_powers();
    bits::lemma_bit_len(x@);
    bits::lemma_pow2_monotone(bits::bit_len(x@), 128);
}

/// Add path counts to path counts.
fn add_paths(paths: &mut [u32; UDIV_PATHS], more: &[u32; UDIV_PATHS])
    requires
        forall|i: int|
            0 <= i < UDIV_PATHS ==> (#[trigger] old(paths)[i]) + more[i] <= u32::MAX,
    ensures
        forall|i: int|
            0 <= i < UDIV_PATHS ==> #[trigger] final(paths)[i] == old(paths)[i] + more[i],
{
    let ghost before = paths@;
    let mut i: usize = 0;
    while i < UDIV_PATHS
        invariant
            i <= UDIV_PATHS,
            paths@.len() == UDIV_PATHS,
            before.len() == UDIV_PATHS,
            forall|k: int| 0 <= k < UDIV_PATHS ==> (#[trigger] before[k]) + more[k] <= u32::MAX,
            forall|k: int| 0 <= k < i ==> #[trigger] paths[k] == before[k] + more[k],
            forall|k: int| i <= k < UDIV_PATHS ==> #[trigger] paths[k] == before[k],
        decreases UDIV_PATHS - i,
    {
        paths[i] = paths[i] + more[i];
        i = i + 1;
    }
}

/// Record one `u128` division that the chain performs, with the operands as the chain computes
/// them.
pub fn record_udiv(recorder: &mut Recorder, numerator: u128, denominator: u128)
    requires
        old(recorder).can_hold(
            after_udiv(old(recorder).counters@, numerator as nat, denominator as nat),
        ),
    ensures
        old(recorder).becomes(
            *final(recorder),
            after_udiv(old(recorder).counters@, numerator as nat, denominator as nat),
        ),
{
    proof {
        reveal(Work::within);
        reveal(after_udiv);
    }
    if denominator != 0 && recorder.on {
        let ghost before = recorder.counters@;
        proof {
            div_path::law_path_index_in_range(numerator as nat, denominator as nat);
            let path = div_path::path_index(numerator as nat, denominator as nat) as int;
            let after = after_udiv(before, numerator as nat, denominator as nat);
            assert(after.udiv_paths[path] == before.udiv_paths[path] + 1);
        }
        count_path(&mut recorder.counters, numerator, denominator);
        proof {
            assert(recorder.counters@ =~= after_udiv(
                before,
                numerator as nat,
                denominator as nat,
            ));
        }
    }
}

/// Record the two divisions that the chain performs on the fee of every step: the protocol fee
/// `fee * protocol_fee_rate / 10_000` (when the rate is set) and the fee-growth update
/// `(fee - protocol_fee) << 64 / liquidity` (when there is liquidity), the latter with the
/// pre-crossing liquidity.
pub fn record_step_fees(
    recorder: &mut Recorder,
    fee_amount: u64,
    protocol_fee_rate: u16,
    liquidity: u128,
)
    requires
        old(recorder).can_hold(
            after_step_fees(
                old(recorder).counters@,
                fee_amount as nat,
                protocol_fee_rate as nat,
                liquidity as nat,
            ),
        ),
        old(recorder).on ==> protocol_share(fee_amount as nat, protocol_fee_rate as nat)
            <= fee_amount,
    ensures
        old(recorder).becomes(
            *final(recorder),
            after_step_fees(
                old(recorder).counters@,
                fee_amount as nat,
                protocol_fee_rate as nat,
                liquidity as nat,
            ),
        ),
{
    proof {
        reveal(Work::within);
        reveal(after_step_fees);
    }
    if !recorder.on {
        return;
    }
    let ghost before = recorder.counters@;
    let ghost after = after_step_fees(
        before,
        fee_amount as nat,
        protocol_fee_rate as nat,
        liquidity as nat,
    );
    let mut global_fee: u128 = fee_amount as u128;
    if protocol_fee_rate > 0 {
        proof {
            assert(0 <= fee_amount * protocol_fee_rate <= 0xffff_ffff_ffff_ffff * 0xffff)
                by (nonlinear_arith)
                requires
                    0 <= fee_amount <= 0xffff_ffff_ffff_ffff,
                    0 <= protocol_fee_rate <= 0xffff,
            ;
        }
        let numerator: u128 = global_fee * protocol_fee_rate as u128;
        proof {
            div_path::law_path_index_in_range(numerator as nat, 10_000);
            assert(numerator as nat == fee_amount as nat * protocol_fee_rate as nat);
            let path = div_path::path_index(numerator as nat, 10_000);
            let kept = (fee_amount - protocol_share(
                fee_amount as nat,
                protocol_fee_rate as nat,
            )) as nat;
            div_path::law_path_index_in_range((kept * limbs::base()) as nat, liquidity as nat);
            assert(before.on_path(path).udiv_paths[path as int] == before.udiv_paths[path as int]
                + 1);
            assert(after.udiv_paths[path as int] >= before.udiv_paths[path as int] + 1);
        }
        count_path(&mut recorder.counters, numerator, 10_000);
        global_fee = global_fee - numerator / 10_000;
    }
    let ghost shared = recorder.counters@;
    if liquidity > 0 {
        proof {
            assert(global_fee << 64 == global_fee * 0x1_0000_0000_0000_0000) by (bit_vector)
                requires
                    global_fee < 0x1_0000_0000_0000_0000u128,
            ;
        }
        proof {
            div_path::law_path_index_in_range((global_fee << 64) as nat, liquidity as nat);
            let path = div_path::path_index((global_fee << 64) as nat, liquidity as nat) as int;
            assert(after.udiv_paths[path] == shared.udiv_paths[path] + 1);
        }
        count_path(&mut recorder.counters, global_fee << 64, liquidity);
    }
    proof {
        assert(recorder.counters@ =~= after);
    }
}

/// Record one multiplication into 256 bits with its operands' limb counts: the chain's schoolbook
/// product runs its inner loop once for each pair of limbs.
pub fn record_u256_mul(recorder: &mut Recorder, a: u128, b: u128)
    requires
        old(recorder).can_hold(
            after_u256_mul(old(recorder).counters@, a as nat, b as nat),
        ),
    ensures
        old(recorder).becomes(
            *final(recorder),
            after_u256_mul(old(recorder).counters@, a as nat, b as nat),
        ),
{
    proof {
        reveal(Work::within);
        reveal(after_u256_mul);
    }
    if !recorder.on {
        return;
    }
    let ghost before = recorder.counters@;
    let m: u32 = limbs_of(a);
    let n: u32 = limbs_of(b);
    proof {
        assert(1 <= m * n <= 4) by (nonlinear_arith)
            requires
                1 <= m <= 2,
                1 <= n <= 2,
        ;
    }
    recorder.counters.u256_muls += 1;
    recorder.counters.u256_mul_word_products += m * n;
    proof {
        assert(recorder.counters@ =~= after_u256_mul(before, a as nat, b as nat));
    }
}

/// The number of limbs that a multiplication runs over.
fn limbs_of(x: u128) -> (r: u32)
    ensures
        r == operand_limbs(x as nat),
        1 <= r <= 2,
{
    proof {
        bits::lemma_bit_len(x as nat);
    }
    let count: u32 = (128 - leading_zeros_u128(x) + 63) / 64;
    if count > 1 {
        count
    } else {
        1
    }
}

} // verus!
