//! Per-swap work counters.
//!
//! A [`Recorder`] is what one thread counts into. Counting is off by default; while it is on, the
//! functions of the swap path add to the recorder's counters as they run.
//!
//! **These count the work that happened; they never re-derive it.** Every increment sits inside
//! the function doing the work, next to the branch that decides whether the work runs, so that a
//! change to the math moves the counter with it.
//!
//! Nothing here can move a quote. The counters are write-only from the math's point of view and
//! are never read back into a calculation, so that amounts are the same with counting on or off.

use crate::div_path::UDIV_PATHS;
use vstd::prelude::*;

verus! {

/// Work performed by one `compute_swap` call.
///
/// All fields are counts of a specific operation, so that a model can price each one against a
/// measured coefficient rather than fitting a single opaque "walk length".
#[derive(Debug, Clone, Copy, PartialEq, Eq)]
pub struct SwapCounters {
    // Walk shape.
    /// Outer loop iterations: one per initialized tick the walk targets.
    pub tick_steps: u32,
    /// Inner loop iterations. Equals `tick_steps` on a static-fee pool; on an adaptive-fee pool it
    /// is the tick-group sub-step count, which is the dominant cost term.
    pub substeps: u32,
    /// `compute_swap_step` calls. Equal to `substeps`; counted separately so that an early-out
    /// cannot silently decouple the two.
    pub swap_steps: u32,
    /// Liquidity crossings: steps that landed exactly on the next initialized tick.
    pub liquidity_crossings: u32,
    /// Sub-steps where the adaptive fee bounded nothing, so `advance_tick_group_after_skip` ran in
    /// place of `advance_tick_group`.
    pub adaptive_skips: u32,
    // Tick index to sqrt price.
    /// `tick_index_to_sqrt_price` calls that took the **positive** ladder.
    pub ladder_pos_calls: u32,
    /// `mul_shift_96` operations across those calls: one 256-bit multiply and shift each.
    pub ladder_pos_ops: u32,
    /// `tick_index_to_sqrt_price` calls that took the **negative** ladder.
    pub ladder_neg_calls: u32,
    /// Multiply-and-shift operations across those calls: bare `u128` multiplies, much cheaper than
    /// the positive ladder's, so the two op counts must not share a coefficient.
    pub ladder_neg_ops: u32,
    // Sqrt price to tick index.
    /// `sqrt_price_to_tick_index` calls.
    pub sqrt_to_tick_calls: u32,
    /// Iterations of its log2 approximation loop, summed over those calls.
    pub sqrt_to_tick_log2_iters: u32,
    /// Calls that could not decide between `tick_low` and `tick_high` and so ran a further
    /// `tick_index_to_sqrt_price` to break the tie. That nested call is also counted in the ladder
    /// fields above: it is work that ran.
    pub sqrt_to_tick_refines: u32,
    /// Log2 iterations whose fraction bit came out **clear**, where the shift is by 63 and not 64.
    pub sqrt_to_tick_log2_clear_bits: u32,
    /// Calls whose price was narrower than 64 bits, so that it was normalised by a shift left.
    pub sqrt_to_tick_shift_left: u32,
    /// Calls whose price was wider than 64 bits, so that it was normalised by a shift right.
    pub sqrt_to_tick_shift_right: u32,
    /// Of `sqrt_to_tick_refines`, the ones whose `tick_high` is negative, so that the tie-break's
    /// nested ladder call takes the negative body.
    pub sqrt_to_tick_refines_neg: u32,
    /// Conversions of a price under `2^64`, where counting leading zeros takes a longer path.
    pub sqrt_to_tick_narrow: u32,
    /// Quotient bits of the two signed divisions of the landing tick by `tick_group_size` that
    /// `advance_tick_group_after_skip` performs, a `%` and a floor division.
    pub skip_tick_div_qbits: u32,
    /// Set bits of those quotients.
    pub skip_tick_div_setbits: u32,
    // 256-bit divisions, by the cost class that the on-chain long division takes for the operands.
    /// Divisions (with their paired remainder) of 256-bit operands.
    pub u256_divs: u32,
    /// Of those, the ones answered before any arithmetic: a zero dividend, or a dividend narrower
    /// than the divisor.
    pub u256_div_trivial: u32,
    /// Divisions answered with a single `u128` divide, because the dividend fits in two limbs.
    pub u256_div_u128: u32,
    /// Divisions with a single-limb divisor: a loop of one `u128` divide per dividend limb.
    pub u256_div_short_calls: u32,
    /// The summed trip count of those loops.
    pub u256_div_short_iters: u32,
    /// Divisions that reach the general normalized long division.
    pub u256_div_knuth_calls: u32,
    /// The summed outer iterations that they perform.
    pub u256_div_knuth_iters: u32,
    /// The multiply work inside the divisions, in limb products: the iterations times the divisor's
    /// limb count for the general arm, one per iteration for a single-limb divisor.
    pub u256_div_mul_words: u32,
    /// Two-limb divisions that are a call frame of their own on chain, as opposed to the b-side
    /// price solve, which the chain performs as an inline `u128` division.
    pub u256_div_case2_frames: u32,
    /// Every `u128` division that the chain's long division makes, as a histogram over the branch
    /// path that it takes on those operands, indexed by [`udiv_path`](crate::div_path::udiv_path).
    pub udiv_paths: [u32; UDIV_PATHS],
    /// Long divisions whose divisor's top limb had leading zeros, so that both operands were shifted
    /// left before the loop.
    pub u256_div_normalized: u32,
    /// Of those, the divisions whose caller keeps the remainder (a round-up), which is then shifted
    /// back right.
    pub u256_div_normalized_remainder: u32,
    /// Iterations of the loop that corrects a quotient digit over-estimated by one or two.
    pub u256_div_qhat_corrections: u32,
    /// `u128` divisions in the fee helpers, a different and much cheaper primitive.
    pub u128_divs: u32,
    // 256-bit multiplies.
    /// Multiplies of `u128` operands into 256 bits.
    pub u256_muls: u32,
    /// The summed products of the operands' limb counts, 1, 2 or 4 for each multiply.
    pub u256_mul_word_products: u32,
    // Which token math ran.
    /// `try_get_amount_delta_a` calls.
    pub amount_delta_a_calls: u32,
    /// `try_get_amount_delta_b` calls.
    pub amount_delta_b_calls: u32,
    /// `try_get_next_sqrt_price_from_a` calls.
    pub next_sqrt_from_a_calls: u32,
    /// `try_get_next_sqrt_price_from_b` calls.
    pub next_sqrt_from_b_calls: u32,
}

/// The counts that [`SwapCounters`] holds, as numbers without a bound.
#[verifier::ext_equal]
pub struct Work {
    pub tick_steps: nat,
    pub substeps: nat,
    pub swap_steps: nat,
    pub liquidity_crossings: nat,
    pub adaptive_skips: nat,
    pub ladder_pos_calls: nat,
    pub ladder_pos_ops: nat,
    pub ladder_neg_calls: nat,
    pub ladder_neg_ops: nat,
    pub sqrt_to_tick_calls: nat,
    pub sqrt_to_tick_log2_iters: nat,
    pub sqrt_to_tick_refines: nat,
    pub sqrt_to_tick_log2_clear_bits: nat,
    pub sqrt_to_tick_shift_left: nat,
    pub sqrt_to_tick_shift_right: nat,
    pub sqrt_to_tick_refines_neg: nat,
    pub sqrt_to_tick_narrow: nat,
    pub skip_tick_div_qbits: nat,
    pub skip_tick_div_setbits: nat,
    pub u256_divs: nat,
    pub u256_div_trivial: nat,
    pub u256_div_u128: nat,
    pub u256_div_short_calls: nat,
    pub u256_div_short_iters: nat,
    pub u256_div_knuth_calls: nat,
    pub u256_div_knuth_iters: nat,
    pub u256_div_mul_words: nat,
    pub u256_div_case2_frames: nat,
    pub udiv_paths: Seq<nat>,
    pub u256_div_normalized: nat,
    pub u256_div_normalized_remainder: nat,
    pub u256_div_qhat_corrections: nat,
    pub u128_divs: nat,
    pub u256_muls: nat,
    pub u256_mul_word_products: nat,
    pub amount_delta_a_calls: nat,
    pub amount_delta_b_calls: nat,
    pub next_sqrt_from_a_calls: nat,
    pub next_sqrt_from_b_calls: nat,
}

impl View for SwapCounters {
    type V = Work;

    open spec fn view(&self) -> Work {
        Work {
            tick_steps: self.tick_steps as nat,
            substeps: self.substeps as nat,
            swap_steps: self.swap_steps as nat,
            liquidity_crossings: self.liquidity_crossings as nat,
            adaptive_skips: self.adaptive_skips as nat,
            ladder_pos_calls: self.ladder_pos_calls as nat,
            ladder_pos_ops: self.ladder_pos_ops as nat,
            ladder_neg_calls: self.ladder_neg_calls as nat,
            ladder_neg_ops: self.ladder_neg_ops as nat,
            sqrt_to_tick_calls: self.sqrt_to_tick_calls as nat,
            sqrt_to_tick_log2_iters: self.sqrt_to_tick_log2_iters as nat,
            sqrt_to_tick_refines: self.sqrt_to_tick_refines as nat,
            sqrt_to_tick_log2_clear_bits: self.sqrt_to_tick_log2_clear_bits as nat,
            sqrt_to_tick_shift_left: self.sqrt_to_tick_shift_left as nat,
            sqrt_to_tick_shift_right: self.sqrt_to_tick_shift_right as nat,
            sqrt_to_tick_refines_neg: self.sqrt_to_tick_refines_neg as nat,
            sqrt_to_tick_narrow: self.sqrt_to_tick_narrow as nat,
            skip_tick_div_qbits: self.skip_tick_div_qbits as nat,
            skip_tick_div_setbits: self.skip_tick_div_setbits as nat,
            u256_divs: self.u256_divs as nat,
            u256_div_trivial: self.u256_div_trivial as nat,
            u256_div_u128: self.u256_div_u128 as nat,
            u256_div_short_calls: self.u256_div_short_calls as nat,
            u256_div_short_iters: self.u256_div_short_iters as nat,
            u256_div_knuth_calls: self.u256_div_knuth_calls as nat,
            u256_div_knuth_iters: self.u256_div_knuth_iters as nat,
            u256_div_mul_words: self.u256_div_mul_words as nat,
            u256_div_case2_frames: self.u256_div_case2_frames as nat,
            udiv_paths: Seq::new(UDIV_PATHS as nat, |i: int| self.udiv_paths[i] as nat),
            u256_div_normalized: self.u256_div_normalized as nat,
            u256_div_normalized_remainder: self.u256_div_normalized_remainder as nat,
            u256_div_qhat_corrections: self.u256_div_qhat_corrections as nat,
            u128_divs: self.u128_divs as nat,
            u256_muls: self.u256_muls as nat,
            u256_mul_word_products: self.u256_mul_word_products as nat,
            amount_delta_a_calls: self.amount_delta_a_calls as nat,
            amount_delta_b_calls: self.amount_delta_b_calls as nat,
            next_sqrt_from_a_calls: self.next_sqrt_from_a_calls as nat,
            next_sqrt_from_b_calls: self.next_sqrt_from_b_calls as nat,
        }
    }
}

impl Work {
    /// No work.
    pub open spec fn none() -> Work {
        Work {
            tick_steps: 0,
            substeps: 0,
            swap_steps: 0,
            liquidity_crossings: 0,
            adaptive_skips: 0,
            ladder_pos_calls: 0,
            ladder_pos_ops: 0,
            ladder_neg_calls: 0,
            ladder_neg_ops: 0,
            sqrt_to_tick_calls: 0,
            sqrt_to_tick_log2_iters: 0,
            sqrt_to_tick_refines: 0,
            sqrt_to_tick_log2_clear_bits: 0,
            sqrt_to_tick_shift_left: 0,
            sqrt_to_tick_shift_right: 0,
            sqrt_to_tick_refines_neg: 0,
            sqrt_to_tick_narrow: 0,
            skip_tick_div_qbits: 0,
            skip_tick_div_setbits: 0,
            u256_divs: 0,
            u256_div_trivial: 0,
            u256_div_u128: 0,
            u256_div_short_calls: 0,
            u256_div_short_iters: 0,
            u256_div_knuth_calls: 0,
            u256_div_knuth_iters: 0,
            u256_div_mul_words: 0,
            u256_div_case2_frames: 0,
            udiv_paths: Seq::new(UDIV_PATHS as nat, |i: int| 0nat),
            u256_div_normalized: 0,
            u256_div_normalized_remainder: 0,
            u256_div_qhat_corrections: 0,
            u128_divs: 0,
            u256_muls: 0,
            u256_mul_word_products: 0,
            amount_delta_a_calls: 0,
            amount_delta_b_calls: 0,
            next_sqrt_from_a_calls: 0,
            next_sqrt_from_b_calls: 0,
        }
    }

    /// No count exceeds `bound`.
    #[verifier::opaque]
    pub open spec fn within(self, bound: int) -> bool {
        &&& self.tick_steps <= bound
        &&& self.substeps <= bound
        &&& self.swap_steps <= bound
        &&& self.liquidity_crossings <= bound
        &&& self.adaptive_skips <= bound
        &&& self.ladder_pos_calls <= bound
        &&& self.ladder_pos_ops <= bound
        &&& self.ladder_neg_calls <= bound
        &&& self.ladder_neg_ops <= bound
        &&& self.sqrt_to_tick_calls <= bound
        &&& self.sqrt_to_tick_log2_iters <= bound
        &&& self.sqrt_to_tick_refines <= bound
        &&& self.sqrt_to_tick_log2_clear_bits <= bound
        &&& self.sqrt_to_tick_shift_left <= bound
        &&& self.sqrt_to_tick_shift_right <= bound
        &&& self.sqrt_to_tick_refines_neg <= bound
        &&& self.sqrt_to_tick_narrow <= bound
        &&& self.skip_tick_div_qbits <= bound
        &&& self.skip_tick_div_setbits <= bound
        &&& self.u256_divs <= bound
        &&& self.u256_div_trivial <= bound
        &&& self.u256_div_u128 <= bound
        &&& self.u256_div_short_calls <= bound
        &&& self.u256_div_short_iters <= bound
        &&& self.u256_div_knuth_calls <= bound
        &&& self.u256_div_knuth_iters <= bound
        &&& self.u256_div_mul_words <= bound
        &&& self.u256_div_case2_frames <= bound
        &&& self.udiv_paths.len() == UDIV_PATHS
        &&& forall|i: int| 0 <= i < UDIV_PATHS ==> #[trigger] self.udiv_paths[i] <= bound
        &&& self.u256_div_normalized <= bound
        &&& self.u256_div_normalized_remainder <= bound
        &&& self.u256_div_qhat_corrections <= bound
        &&& self.u128_divs <= bound
        &&& self.u256_muls <= bound
        &&& self.u256_mul_word_products <= bound
        &&& self.amount_delta_a_calls <= bound
        &&& self.amount_delta_b_calls <= bound
        &&& self.next_sqrt_from_a_calls <= bound
        &&& self.next_sqrt_from_b_calls <= bound
    }

    /// There is a count for every branch path.
    pub open spec fn has_paths(self) -> bool {
        self.udiv_paths.len() == UDIV_PATHS
    }

    /// No count of `after` is below its count here, or above it by more than `n`.
    #[verifier::opaque]
    pub open spec fn grows_to(self, after: Work, n: int) -> bool {
        &&& self.has_paths()
        &&& after.has_paths()
        &&& self.tick_steps <= after.tick_steps <= self.tick_steps + n
        &&& self.substeps <= after.substeps <= self.substeps + n
        &&& self.swap_steps <= after.swap_steps <= self.swap_steps + n
        &&& self.liquidity_crossings <= after.liquidity_crossings <= self.liquidity_crossings + n
        &&& self.adaptive_skips <= after.adaptive_skips <= self.adaptive_skips + n
        &&& self.ladder_pos_calls <= after.ladder_pos_calls <= self.ladder_pos_calls + n
        &&& self.ladder_pos_ops <= after.ladder_pos_ops <= self.ladder_pos_ops + n
        &&& self.ladder_neg_calls <= after.ladder_neg_calls <= self.ladder_neg_calls + n
        &&& self.ladder_neg_ops <= after.ladder_neg_ops <= self.ladder_neg_ops + n
        &&& self.sqrt_to_tick_calls <= after.sqrt_to_tick_calls <= self.sqrt_to_tick_calls + n
        &&& self.sqrt_to_tick_log2_iters <= after.sqrt_to_tick_log2_iters
            <= self.sqrt_to_tick_log2_iters + n
        &&& self.sqrt_to_tick_refines <= after.sqrt_to_tick_refines <= self.sqrt_to_tick_refines + n
        &&& self.sqrt_to_tick_log2_clear_bits <= after.sqrt_to_tick_log2_clear_bits
            <= self.sqrt_to_tick_log2_clear_bits + n
        &&& self.sqrt_to_tick_shift_left <= after.sqrt_to_tick_shift_left
            <= self.sqrt_to_tick_shift_left + n
        &&& self.sqrt_to_tick_shift_right <= after.sqrt_to_tick_shift_right
            <= self.sqrt_to_tick_shift_right + n
        &&& self.sqrt_to_tick_refines_neg <= after.sqrt_to_tick_refines_neg
            <= self.sqrt_to_tick_refines_neg + n
        &&& self.sqrt_to_tick_narrow <= after.sqrt_to_tick_narrow <= self.sqrt_to_tick_narrow + n
        &&& self.skip_tick_div_qbits <= after.skip_tick_div_qbits <= self.skip_tick_div_qbits + n
        &&& self.skip_tick_div_setbits <= after.skip_tick_div_setbits
            <= self.skip_tick_div_setbits + n
        &&& self.u256_divs <= after.u256_divs <= self.u256_divs + n
        &&& self.u256_div_trivial <= after.u256_div_trivial <= self.u256_div_trivial + n
        &&& self.u256_div_u128 <= after.u256_div_u128 <= self.u256_div_u128 + n
        &&& self.u256_div_short_calls <= after.u256_div_short_calls <= self.u256_div_short_calls + n
        &&& self.u256_div_short_iters <= after.u256_div_short_iters <= self.u256_div_short_iters + n
        &&& self.u256_div_knuth_calls <= after.u256_div_knuth_calls <= self.u256_div_knuth_calls + n
        &&& self.u256_div_knuth_iters <= after.u256_div_knuth_iters <= self.u256_div_knuth_iters + n
        &&& self.u256_div_mul_words <= after.u256_div_mul_words <= self.u256_div_mul_words + n
        &&& self.u256_div_case2_frames <= after.u256_div_case2_frames
            <= self.u256_div_case2_frames + n
        &&& forall|i: int|
            0 <= i < UDIV_PATHS ==> self.udiv_paths[i] <= #[trigger] after.udiv_paths[i]
                <= self.udiv_paths[i] + n
        &&& self.u256_div_normalized <= after.u256_div_normalized <= self.u256_div_normalized + n
        &&& self.u256_div_normalized_remainder <= after.u256_div_normalized_remainder
            <= self.u256_div_normalized_remainder + n
        &&& self.u256_div_qhat_corrections <= after.u256_div_qhat_corrections
            <= self.u256_div_qhat_corrections + n
        &&& self.u128_divs <= after.u128_divs <= self.u128_divs + n
        &&& self.u256_muls <= after.u256_muls <= self.u256_muls + n
        &&& self.u256_mul_word_products <= after.u256_mul_word_products
            <= self.u256_mul_word_products + n
        &&& self.amount_delta_a_calls <= after.amount_delta_a_calls <= self.amount_delta_a_calls + n
        &&& self.amount_delta_b_calls <= after.amount_delta_b_calls <= self.amount_delta_b_calls + n
        &&& self.next_sqrt_from_a_calls <= after.next_sqrt_from_a_calls
            <= self.next_sqrt_from_a_calls + n
        &&& self.next_sqrt_from_b_calls <= after.next_sqrt_from_b_calls
            <= self.next_sqrt_from_b_calls + n
    }

    /// One more `u128` division that takes the branch path `path`.
    pub open spec fn on_path(self, path: nat) -> Work {
        Work {
            udiv_paths: self.udiv_paths.update(path as int, self.udiv_paths[path as int] + 1),
            ..self
        }
    }

    /// No count of `other` is below its count here.
    pub open spec fn at_most(self, other: Work) -> bool {
        &&& self.tick_steps <= other.tick_steps
        &&& self.substeps <= other.substeps
        &&& self.swap_steps <= other.swap_steps
        &&& self.liquidity_crossings <= other.liquidity_crossings
        &&& self.adaptive_skips <= other.adaptive_skips
        &&& self.ladder_pos_calls <= other.ladder_pos_calls
        &&& self.ladder_pos_ops <= other.ladder_pos_ops
        &&& self.ladder_neg_calls <= other.ladder_neg_calls
        &&& self.ladder_neg_ops <= other.ladder_neg_ops
        &&& self.sqrt_to_tick_calls <= other.sqrt_to_tick_calls
        &&& self.sqrt_to_tick_log2_iters <= other.sqrt_to_tick_log2_iters
        &&& self.sqrt_to_tick_refines <= other.sqrt_to_tick_refines
        &&& self.sqrt_to_tick_log2_clear_bits <= other.sqrt_to_tick_log2_clear_bits
        &&& self.sqrt_to_tick_shift_left <= other.sqrt_to_tick_shift_left
        &&& self.sqrt_to_tick_shift_right <= other.sqrt_to_tick_shift_right
        &&& self.sqrt_to_tick_refines_neg <= other.sqrt_to_tick_refines_neg
        &&& self.sqrt_to_tick_narrow <= other.sqrt_to_tick_narrow
        &&& self.skip_tick_div_qbits <= other.skip_tick_div_qbits
        &&& self.skip_tick_div_setbits <= other.skip_tick_div_setbits
        &&& self.u256_divs <= other.u256_divs
        &&& self.u256_div_trivial <= other.u256_div_trivial
        &&& self.u256_div_u128 <= other.u256_div_u128
        &&& self.u256_div_short_calls <= other.u256_div_short_calls
        &&& self.u256_div_short_iters <= other.u256_div_short_iters
        &&& self.u256_div_knuth_calls <= other.u256_div_knuth_calls
        &&& self.u256_div_knuth_iters <= other.u256_div_knuth_iters
        &&& self.u256_div_mul_words <= other.u256_div_mul_words
        &&& self.u256_div_case2_frames <= other.u256_div_case2_frames
        &&& self.udiv_paths.len() == other.udiv_paths.len()
        &&& forall|i: int|
            0 <= i < self.udiv_paths.len() ==> #[trigger] self.udiv_paths[i] <= other.udiv_paths[i]
        &&& self.u256_div_normalized <= other.u256_div_normalized
        &&& self.u256_div_normalized_remainder <= other.u256_div_normalized_remainder
        &&& self.u256_div_qhat_corrections <= other.u256_div_qhat_corrections
        &&& self.u128_divs <= other.u128_divs
        &&& self.u256_muls <= other.u256_muls
        &&& self.u256_mul_word_products <= other.u256_mul_word_products
        &&& self.amount_delta_a_calls <= other.amount_delta_a_calls
        &&& self.amount_delta_b_calls <= other.amount_delta_b_calls
        &&& self.next_sqrt_from_a_calls <= other.next_sqrt_from_a_calls
        &&& self.next_sqrt_from_b_calls <= other.next_sqrt_from_b_calls
    }

    /// This work and `more`, count by count.
    pub open spec fn plus(self, more: Work) -> Work {
        Work {
            tick_steps: self.tick_steps + more.tick_steps,
            substeps: self.substeps + more.substeps,
            swap_steps: self.swap_steps + more.swap_steps,
            liquidity_crossings: self.liquidity_crossings + more.liquidity_crossings,
            adaptive_skips: self.adaptive_skips + more.adaptive_skips,
            ladder_pos_calls: self.ladder_pos_calls + more.ladder_pos_calls,
            ladder_pos_ops: self.ladder_pos_ops + more.ladder_pos_ops,
            ladder_neg_calls: self.ladder_neg_calls + more.ladder_neg_calls,
            ladder_neg_ops: self.ladder_neg_ops + more.ladder_neg_ops,
            sqrt_to_tick_calls: self.sqrt_to_tick_calls + more.sqrt_to_tick_calls,
            sqrt_to_tick_log2_iters: self.sqrt_to_tick_log2_iters + more.sqrt_to_tick_log2_iters,
            sqrt_to_tick_refines: self.sqrt_to_tick_refines + more.sqrt_to_tick_refines,
            sqrt_to_tick_log2_clear_bits: self.sqrt_to_tick_log2_clear_bits
                + more.sqrt_to_tick_log2_clear_bits,
            sqrt_to_tick_shift_left: self.sqrt_to_tick_shift_left + more.sqrt_to_tick_shift_left,
            sqrt_to_tick_shift_right: self.sqrt_to_tick_shift_right + more.sqrt_to_tick_shift_right,
            sqrt_to_tick_refines_neg: self.sqrt_to_tick_refines_neg + more.sqrt_to_tick_refines_neg,
            sqrt_to_tick_narrow: self.sqrt_to_tick_narrow + more.sqrt_to_tick_narrow,
            skip_tick_div_qbits: self.skip_tick_div_qbits + more.skip_tick_div_qbits,
            skip_tick_div_setbits: self.skip_tick_div_setbits + more.skip_tick_div_setbits,
            u256_divs: self.u256_divs + more.u256_divs,
            u256_div_trivial: self.u256_div_trivial + more.u256_div_trivial,
            u256_div_u128: self.u256_div_u128 + more.u256_div_u128,
            u256_div_short_calls: self.u256_div_short_calls + more.u256_div_short_calls,
            u256_div_short_iters: self.u256_div_short_iters + more.u256_div_short_iters,
            u256_div_knuth_calls: self.u256_div_knuth_calls + more.u256_div_knuth_calls,
            u256_div_knuth_iters: self.u256_div_knuth_iters + more.u256_div_knuth_iters,
            u256_div_mul_words: self.u256_div_mul_words + more.u256_div_mul_words,
            u256_div_case2_frames: self.u256_div_case2_frames + more.u256_div_case2_frames,
            udiv_paths: Seq::new(
                UDIV_PATHS as nat,
                |i: int| self.udiv_paths[i] + more.udiv_paths[i],
            ),
            u256_div_normalized: self.u256_div_normalized + more.u256_div_normalized,
            u256_div_normalized_remainder: self.u256_div_normalized_remainder
                + more.u256_div_normalized_remainder,
            u256_div_qhat_corrections: self.u256_div_qhat_corrections
                + more.u256_div_qhat_corrections,
            u128_divs: self.u128_divs + more.u128_divs,
            u256_muls: self.u256_muls + more.u256_muls,
            u256_mul_word_products: self.u256_mul_word_products + more.u256_mul_word_products,
            amount_delta_a_calls: self.amount_delta_a_calls + more.amount_delta_a_calls,
            amount_delta_b_calls: self.amount_delta_b_calls + more.amount_delta_b_calls,
            next_sqrt_from_a_calls: self.next_sqrt_from_a_calls + more.next_sqrt_from_a_calls,
            next_sqrt_from_b_calls: self.next_sqrt_from_b_calls + more.next_sqrt_from_b_calls,
        }
    }

    /// The work done since `base`, count by count, `0` where the count went down.
    pub open spec fn since(self, base: Work) -> Work {
        Work {
            tick_steps: less_or_none(self.tick_steps, base.tick_steps),
            substeps: less_or_none(self.substeps, base.substeps),
            swap_steps: less_or_none(self.swap_steps, base.swap_steps),
            liquidity_crossings: less_or_none(self.liquidity_crossings, base.liquidity_crossings),
            adaptive_skips: less_or_none(self.adaptive_skips, base.adaptive_skips),
            ladder_pos_calls: less_or_none(self.ladder_pos_calls, base.ladder_pos_calls),
            ladder_pos_ops: less_or_none(self.ladder_pos_ops, base.ladder_pos_ops),
            ladder_neg_calls: less_or_none(self.ladder_neg_calls, base.ladder_neg_calls),
            ladder_neg_ops: less_or_none(self.ladder_neg_ops, base.ladder_neg_ops),
            sqrt_to_tick_calls: less_or_none(self.sqrt_to_tick_calls, base.sqrt_to_tick_calls),
            sqrt_to_tick_log2_iters: less_or_none(
                self.sqrt_to_tick_log2_iters,
                base.sqrt_to_tick_log2_iters,
            ),
            sqrt_to_tick_refines: less_or_none(
                self.sqrt_to_tick_refines,
                base.sqrt_to_tick_refines,
            ),
            sqrt_to_tick_log2_clear_bits: less_or_none(
                self.sqrt_to_tick_log2_clear_bits,
                base.sqrt_to_tick_log2_clear_bits,
            ),
            sqrt_to_tick_shift_left: less_or_none(
                self.sqrt_to_tick_shift_left,
                base.sqrt_to_tick_shift_left,
            ),
            sqrt_to_tick_shift_right: less_or_none(
                self.sqrt_to_tick_shift_right,
                base.sqrt_to_tick_shift_right,
            ),
            sqrt_to_tick_refines_neg: less_or_none(
                self.sqrt_to_tick_refines_neg,
                base.sqrt_to_tick_refines_neg,
            ),
            sqrt_to_tick_narrow: less_or_none(self.sqrt_to_tick_narrow, base.sqrt_to_tick_narrow),
            skip_tick_div_qbits: less_or_none(self.skip_tick_div_qbits, base.skip_tick_div_qbits),
            skip_tick_div_setbits: less_or_none(
                self.skip_tick_div_setbits,
                base.skip_tick_div_setbits,
            ),
            u256_divs: less_or_none(self.u256_divs, base.u256_divs),
            u256_div_trivial: less_or_none(self.u256_div_trivial, base.u256_div_trivial),
            u256_div_u128: less_or_none(self.u256_div_u128, base.u256_div_u128),
            u256_div_short_calls: less_or_none(
                self.u256_div_short_calls,
                base.u256_div_short_calls,
            ),
            u256_div_short_iters: less_or_none(
                self.u256_div_short_iters,
                base.u256_div_short_iters,
            ),
            u256_div_knuth_calls: less_or_none(
                self.u256_div_knuth_calls,
                base.u256_div_knuth_calls,
            ),
            u256_div_knuth_iters: less_or_none(
                self.u256_div_knuth_iters,
                base.u256_div_knuth_iters,
            ),
            u256_div_mul_words: less_or_none(self.u256_div_mul_words, base.u256_div_mul_words),
            u256_div_case2_frames: less_or_none(
                self.u256_div_case2_frames,
                base.u256_div_case2_frames,
            ),
            udiv_paths: Seq::new(
                UDIV_PATHS as nat,
                |i: int| less_or_none(self.udiv_paths[i], base.udiv_paths[i]),
            ),
            u256_div_normalized: less_or_none(self.u256_div_normalized, base.u256_div_normalized),
            u256_div_normalized_remainder: less_or_none(
                self.u256_div_normalized_remainder,
                base.u256_div_normalized_remainder,
            ),
            u256_div_qhat_corrections: less_or_none(
                self.u256_div_qhat_corrections,
                base.u256_div_qhat_corrections,
            ),
            u128_divs: less_or_none(self.u128_divs, base.u128_divs),
            u256_muls: less_or_none(self.u256_muls, base.u256_muls),
            u256_mul_word_products: less_or_none(
                self.u256_mul_word_products,
                base.u256_mul_word_products,
            ),
            amount_delta_a_calls: less_or_none(
                self.amount_delta_a_calls,
                base.amount_delta_a_calls,
            ),
            amount_delta_b_calls: less_or_none(
                self.amount_delta_b_calls,
                base.amount_delta_b_calls,
            ),
            next_sqrt_from_a_calls: less_or_none(
                self.next_sqrt_from_a_calls,
                base.next_sqrt_from_a_calls,
            ),
            next_sqrt_from_b_calls: less_or_none(
                self.next_sqrt_from_b_calls,
                base.next_sqrt_from_b_calls,
            ),
        }
    }
}

/// `a - b`, or `0` where that is negative.
pub open spec fn less_or_none(a: nat, b: nat) -> nat {
    if a >= b {
        (a - b) as nat
    } else {
        0
    }
}

impl Default for SwapCounters {
    fn default() -> (r: Self)
        ensures
            r@ == Work::none(),
    {
        Self::zero()
    }
}

impl SwapCounters {
    /// Counters that have counted nothing.
    pub fn zero() -> (r: Self)
        ensures
            r@ == Work::none(),
    {
        let r = Self {
            tick_steps: 0,
            substeps: 0,
            swap_steps: 0,
            liquidity_crossings: 0,
            adaptive_skips: 0,
            ladder_pos_calls: 0,
            ladder_pos_ops: 0,
            ladder_neg_calls: 0,
            ladder_neg_ops: 0,
            sqrt_to_tick_calls: 0,
            sqrt_to_tick_log2_iters: 0,
            sqrt_to_tick_refines: 0,
            sqrt_to_tick_log2_clear_bits: 0,
            sqrt_to_tick_shift_left: 0,
            sqrt_to_tick_shift_right: 0,
            sqrt_to_tick_refines_neg: 0,
            sqrt_to_tick_narrow: 0,
            skip_tick_div_qbits: 0,
            skip_tick_div_setbits: 0,
            u256_divs: 0,
            u256_div_trivial: 0,
            u256_div_u128: 0,
            u256_div_short_calls: 0,
            u256_div_short_iters: 0,
            u256_div_knuth_calls: 0,
            u256_div_knuth_iters: 0,
            u256_div_mul_words: 0,
            u256_div_case2_frames: 0,
            udiv_paths: [0; UDIV_PATHS],
            u256_div_normalized: 0,
            u256_div_normalized_remainder: 0,
            u256_div_qhat_corrections: 0,
            u128_divs: 0,
            u256_muls: 0,
            u256_mul_word_products: 0,
            amount_delta_a_calls: 0,
            amount_delta_b_calls: 0,
            next_sqrt_from_a_calls: 0,
            next_sqrt_from_b_calls: 0,
        };
        assert(r@ =~= Work::none());
        r
    }

    /// Field-wise `self - base`, for turning two snapshots into the work done between them.
    ///
    /// Saturating rather than wrapping, so that a counter reset between the two snapshots reads as
    /// zero work instead of about four billion.
    pub fn since(&self, base: &Self) -> (r: Self)
        ensures
            r@ == self@.since(base@),
    {
        let mut paths: [u32; UDIV_PATHS] = [0;UDIV_PATHS];
        let mut i: usize = 0;
        while i < UDIV_PATHS
            invariant
                i <= UDIV_PATHS,
                forall|k: int|
                    0 <= k < i ==> #[trigger] paths[k] == less_or_none(
                        self.udiv_paths[k] as nat,
                        base.udiv_paths[k] as nat,
                    ),
            decreases UDIV_PATHS - i,
        {
            paths[i] = self.udiv_paths[i].saturating_sub(base.udiv_paths[i]);
            i = i + 1;
        }
        let r = Self {
            tick_steps: self.tick_steps.saturating_sub(base.tick_steps),
            substeps: self.substeps.saturating_sub(base.substeps),
            swap_steps: self.swap_steps.saturating_sub(base.swap_steps),
            liquidity_crossings: self.liquidity_crossings.saturating_sub(base.liquidity_crossings),
            adaptive_skips: self.adaptive_skips.saturating_sub(base.adaptive_skips),
            ladder_pos_calls: self.ladder_pos_calls.saturating_sub(base.ladder_pos_calls),
            ladder_pos_ops: self.ladder_pos_ops.saturating_sub(base.ladder_pos_ops),
            ladder_neg_calls: self.ladder_neg_calls.saturating_sub(base.ladder_neg_calls),
            ladder_neg_ops: self.ladder_neg_ops.saturating_sub(base.ladder_neg_ops),
            sqrt_to_tick_calls: self.sqrt_to_tick_calls.saturating_sub(base.sqrt_to_tick_calls),
            sqrt_to_tick_log2_iters: self.sqrt_to_tick_log2_iters.saturating_sub(
                base.sqrt_to_tick_log2_iters,
            ),
            sqrt_to_tick_refines: self.sqrt_to_tick_refines.saturating_sub(
                base.sqrt_to_tick_refines,
            ),
            sqrt_to_tick_log2_clear_bits: self.sqrt_to_tick_log2_clear_bits.saturating_sub(
                base.sqrt_to_tick_log2_clear_bits,
            ),
            sqrt_to_tick_shift_left: self.sqrt_to_tick_shift_left.saturating_sub(
                base.sqrt_to_tick_shift_left,
            ),
            sqrt_to_tick_shift_right: self.sqrt_to_tick_shift_right.saturating_sub(
                base.sqrt_to_tick_shift_right,
            ),
            sqrt_to_tick_refines_neg: self.sqrt_to_tick_refines_neg.saturating_sub(
                base.sqrt_to_tick_refines_neg,
            ),
            sqrt_to_tick_narrow: self.sqrt_to_tick_narrow.saturating_sub(base.sqrt_to_tick_narrow),
            skip_tick_div_qbits: self.skip_tick_div_qbits.saturating_sub(base.skip_tick_div_qbits),
            skip_tick_div_setbits: self.skip_tick_div_setbits.saturating_sub(
                base.skip_tick_div_setbits,
            ),
            u256_divs: self.u256_divs.saturating_sub(base.u256_divs),
            u256_div_trivial: self.u256_div_trivial.saturating_sub(base.u256_div_trivial),
            u256_div_u128: self.u256_div_u128.saturating_sub(base.u256_div_u128),
            u256_div_short_calls: self.u256_div_short_calls.saturating_sub(
                base.u256_div_short_calls,
            ),
            u256_div_short_iters: self.u256_div_short_iters.saturating_sub(
                base.u256_div_short_iters,
            ),
            u256_div_knuth_calls: self.u256_div_knuth_calls.saturating_sub(
                base.u256_div_knuth_calls,
            ),
            u256_div_knuth_iters: self.u256_div_knuth_iters.saturating_sub(
                base.u256_div_knuth_iters,
            ),
            u256_div_mul_words: self.u256_div_mul_words.saturating_sub(base.u256_div_mul_words),
            u256_div_case2_frames: self.u256_div_case2_frames.saturating_sub(
                base.u256_div_case2_frames,
            ),
            udiv_paths: paths,
            u256_div_normalized: self.u256_div_normalized.saturating_sub(base.u256_div_normalized),
            u256_div_normalized_remainder: self.u256_div_normalized_remainder.saturating_sub(
                base.u256_div_normalized_remainder,
            ),
            u256_div_qhat_corrections: self.u256_div_qhat_corrections.saturating_sub(
                base.u256_div_qhat_corrections,
            ),
            u128_divs: self.u128_divs.saturating_sub(base.u128_divs),
            u256_muls: self.u256_muls.saturating_sub(base.u256_muls),
            u256_mul_word_products: self.u256_mul_word_products.saturating_sub(
                base.u256_mul_word_products,
            ),
            amount_delta_a_calls: self.amount_delta_a_calls.saturating_sub(
                base.amount_delta_a_calls,
            ),
            amount_delta_b_calls: self.amount_delta_b_calls.saturating_sub(
                base.amount_delta_b_calls,
            ),
            next_sqrt_from_a_calls: self.next_sqrt_from_a_calls.saturating_sub(
                base.next_sqrt_from_a_calls,
            ),
            next_sqrt_from_b_calls: self.next_sqrt_from_b_calls.saturating_sub(
                base.next_sqrt_from_b_calls,
            ),
        };
        assert(r@.udiv_paths =~= self@.since(base@).udiv_paths);
        r
    }
}

/// What one thread counts into: whether it is counting, and what it has counted.
#[derive(Debug, Clone, Copy)]
pub struct Recorder {
    pub on: bool,
    pub counters: SwapCounters,
}

impl Recorder {
    /// A recorder that has counted nothing and is not counting.
    pub fn new() -> (r: Self)
        ensures
            !r.on,
            r.counters@ == Work::none(),
    {
        Recorder { on: false, counters: SwapCounters::zero() }
    }

    /// Whether every count has room for `n` more.
    pub fn can_take(&self, n: u32) -> (r: bool)
        ensures
            r == self.has_room(n as int),
    {
        proof {
            reveal(Work::within);
        }
        if !self.on {
            return true;
        }
        let bound: u32 = u32::MAX - n;
        let mut paths_fit: bool = true;
        let mut i: usize = 0;
        while i < UDIV_PATHS
            invariant
                i <= UDIV_PATHS,
                paths_fit == forall|j: int|
                    0 <= j < i ==> #[trigger] self.counters@.udiv_paths[j] <= bound,
            decreases UDIV_PATHS - i,
        {
            assert(self.counters@.udiv_paths[i as int] == self.counters.udiv_paths[i as int]);
            paths_fit = paths_fit && self.counters.udiv_paths[i] <= bound;
            i = i + 1;
        }
        paths_fit
            && self.counters.tick_steps <= bound
            && self.counters.substeps <= bound
            && self.counters.swap_steps <= bound
            && self.counters.liquidity_crossings <= bound
            && self.counters.adaptive_skips <= bound
            && self.counters.ladder_pos_calls <= bound
            && self.counters.ladder_pos_ops <= bound
            && self.counters.ladder_neg_calls <= bound
            && self.counters.ladder_neg_ops <= bound
            && self.counters.sqrt_to_tick_calls <= bound
            && self.counters.sqrt_to_tick_log2_iters <= bound
            && self.counters.sqrt_to_tick_refines <= bound
            && self.counters.sqrt_to_tick_log2_clear_bits <= bound
            && self.counters.sqrt_to_tick_shift_left <= bound
            && self.counters.sqrt_to_tick_shift_right <= bound
            && self.counters.sqrt_to_tick_refines_neg <= bound
            && self.counters.sqrt_to_tick_narrow <= bound
            && self.counters.skip_tick_div_qbits <= bound
            && self.counters.skip_tick_div_setbits <= bound
            && self.counters.u256_divs <= bound
            && self.counters.u256_div_trivial <= bound
            && self.counters.u256_div_u128 <= bound
            && self.counters.u256_div_short_calls <= bound
            && self.counters.u256_div_short_iters <= bound
            && self.counters.u256_div_knuth_calls <= bound
            && self.counters.u256_div_knuth_iters <= bound
            && self.counters.u256_div_mul_words <= bound
            && self.counters.u256_div_case2_frames <= bound
            && self.counters.u256_div_normalized <= bound
            && self.counters.u256_div_normalized_remainder <= bound
            && self.counters.u256_div_qhat_corrections <= bound
            && self.counters.u128_divs <= bound
            && self.counters.u256_muls <= bound
            && self.counters.u256_mul_word_products <= bound
            && self.counters.amount_delta_a_calls <= bound
            && self.counters.amount_delta_b_calls <= bound
            && self.counters.next_sqrt_from_a_calls <= bound
            && self.counters.next_sqrt_from_b_calls <= bound
    }

    /// Every count has room for `n` more while the recorder is counting.
    pub open spec fn has_room(self, n: int) -> bool {
        self.on ==> self.counters@.within(u32::MAX - n)
    }

    /// The recorder can count up to `work`: every count of it fits, where the recorder is counting.
    pub open spec fn can_hold(self, work: Work) -> bool {
        self.on ==> work.within(u32::MAX as int)
    }

    /// What a snapshot shows: the counts while the recorder is counting, and none otherwise.
    pub open spec fn shown(self) -> Work {
        if self.on {
            self.counters@
        } else {
            Work::none()
        }
    }

    /// `after` is this recorder once the counts have become `work`, where it is counting, and this
    /// recorder as it is where it is not.
    pub open spec fn becomes(self, after: Recorder, work: Work) -> bool {
        &&& after.on == self.on
        &&& after.counters@ == if self.on {
            work
        } else {
            self.counters@
        }
    }
}

/// Growth adds up.
pub proof fn lemma_growth_adds(start: Work, now: Work, after: Work, taken: int, n: int)
    requires
        start.grows_to(now, taken),
        now.grows_to(after, n),
    ensures
        start.grows_to(after, taken + n),
{
    reveal(Work::grows_to);
    assert forall|i: int| 0 <= i < UDIV_PATHS implies start.udiv_paths[i]
        <= #[trigger] after.udiv_paths[i] <= start.udiv_paths[i] + (taken + n) by {
        assert(now.udiv_paths[i] >= 0);
    }
}

/// Growth by some number is growth by any larger one.
pub proof fn lemma_growth_by_more(start: Work, after: Work, n: int, more: int)
    requires
        start.grows_to(after, n),
        n <= more,
    ensures
        start.grows_to(after, more),
{
    reveal(Work::grows_to);
}

/// Counts that do not change have grown by nothing.
pub proof fn lemma_no_growth(start: Work)
    requires
        start.has_paths(),
    ensures
        start.grows_to(start, 0),
{
    reveal(Work::grows_to);
}

/// Counts that fit after they have grown did so before.
pub proof fn lemma_fits_before(start: Work, after: Work, n: int, bound: int)
    requires
        start.grows_to(after, n),
        after.within(bound),
    ensures
        start.within(bound),
{
    reveal(Work::grows_to);
    reveal(Work::within);
    assert forall|i: int| 0 <= i < UDIV_PATHS implies #[trigger] start.udiv_paths[i] <= bound by {
        assert(after.udiv_paths[i] <= bound);
    }
}

/// A recorder that can count up to some work can count up to what comes before it.
pub proof fn lemma_holds_before(recorder: Recorder, start: Work, after: Work, n: int)
    requires
        recorder.can_hold(after),
        start.grows_to(after, n),
    ensures
        recorder.can_hold(start),
{
    if recorder.on {
        lemma_fits_before(start, after, n, u32::MAX as int);
    }
}

/// A recorder with room for `n` more can hold counts that have grown by no more than that.
pub proof fn lemma_room_holds(recorder: Recorder, after: Work, n: int)
    requires
        recorder.has_room(n),
        recorder.counters@.grows_to(after, n),
    ensures
        recorder.can_hold(after),
{
    reveal(Work::grows_to);
    reveal(Work::within);
    if recorder.on {
        let start = recorder.counters@;
        assert forall|i: int| 0 <= i < UDIV_PATHS implies #[trigger] after.udiv_paths[i]
            <= u32::MAX by {
            assert(start.udiv_paths[i] <= u32::MAX - n);
        }
    }
}

/// Turn counting on or off, returning the previous setting.
///
/// Off by default, and that default is the point: an optimizer walks a swap many times while it
/// searches for a trade size, but a cost model only needs the counts once, for the size that is
/// finally picked. Restore the previous value rather than unconditionally disabling, so that a
/// nested scope cannot switch counting off underneath the caller that turned it on.
pub fn set_enabled(recorder: &mut Recorder, on: bool) -> (previous: bool)
    ensures
        previous == old(recorder).on,
        final(recorder).on == on,
        final(recorder).counters == old(recorder).counters,
{
    let previous = recorder.on;
    recorder.on = on;
    previous
}

/// Whether the recorder is counting, which lets a caller assert that it is actually measuring
/// rather than reading zeros.
pub fn enabled(recorder: &Recorder) -> (on: bool)
    ensures
        on == recorder.on,
{
    recorder.on
}

/// Record work: run `f` on the counters while the recorder is counting, and nothing otherwise.
pub fn bump<F: FnOnce(&mut SwapCounters)>(recorder: &mut Recorder, f: F)
    requires
        old(recorder).on ==> forall|c: &mut SwapCounters|
            *c == old(recorder).counters ==> #[trigger] f.requires((c,)),
    ensures
        final(recorder).on == old(recorder).on,
        !old(recorder).on ==> final(recorder).counters == old(recorder).counters,
        old(recorder).on ==> exists|c: &mut SwapCounters|
            *c == old(recorder).counters && *final(c) == final(recorder).counters
                && #[trigger] f.ensures((c,), ()),
{
    if !enabled(recorder) {
        return;
    }
    f(&mut recorder.counters)
}

/// The counters as they stand, and all zero where the recorder is not counting: nothing has been
/// counted since counting was switched off, so that a difference of two such snapshots is zero
/// either way.
pub fn snapshot(recorder: &Recorder) -> (r: SwapCounters)
    ensures
        r@ == recorder.shown(),
        recorder.on ==> r == recorder.counters,
        !recorder.on ==> r@ == Work::none(),
{
    if !enabled(recorder) {
        return SwapCounters::zero();
    }
    recorder.counters
}

/// Nothing was done between a snapshot and itself.
pub proof fn law_since_itself_is_none(c: SwapCounters)
    ensures
        c@.since(c@) == Work::none(),
{
    assert(c@.since(c@) =~= Work::none());
}

/// What was done since nothing was counted is everything that was counted.
pub proof fn law_since_none_is_all(c: SwapCounters)
    ensures
        c@.since(Work::none()) == c@,
{
    assert(c@.since(Work::none()) =~= c@);
}

/// The work of two adjacent intervals adds up to that of both, where no count falls between the
/// snapshots.
pub proof fn law_since_adds_up(first: SwapCounters, second: SwapCounters, third: SwapCounters)
    requires
        first@.at_most(second@),
        second@.at_most(third@),
    ensures
        second@.since(first@).plus(third@.since(second@)) == third@.since(first@),
        first@.plus(second@.since(first@)) == second@,
{
    assert forall|i: int| 0 <= i < UDIV_PATHS implies first@.udiv_paths[i]
        <= #[trigger] second@.udiv_paths[i] <= third@.udiv_paths[i] by {
        assert(first@.udiv_paths[i] <= second@.udiv_paths[i]);
    }
    assert(second@.since(first@).plus(third@.since(second@)) =~= third@.since(first@));
    assert(first@.plus(second@.since(first@)) =~= second@);
}

/// Counts that grow do not fall.
pub proof fn law_growth_never_falls(start: Work, after: Work, n: int)
    requires
        start.grows_to(after, n),
    ensures
        start.at_most(after),
{
    reveal(Work::grows_to);
    assert forall|i: int| 0 <= i < UDIV_PATHS implies #[trigger] start.udiv_paths[i]
        <= after.udiv_paths[i] by {
        assert(after.udiv_paths[i] >= start.udiv_paths[i]);
    }
}

/// The counts of two counters are the same only where the counters are.
pub proof fn law_counts_tell_counters_apart(a: SwapCounters, b: SwapCounters)
    requires
        a@ == b@,
    ensures
        a == b,
{
    assert forall|i: int| 0 <= i < UDIV_PATHS implies a.udiv_paths[i] == b.udiv_paths[i] by {
        assert(a@.udiv_paths[i] == a.udiv_paths[i] as nat);
        assert(b@.udiv_paths[i] == b.udiv_paths[i] as nat);
    }
    assert(a.udiv_paths =~= b.udiv_paths);
}

/// Each count is that of the counter of its name.
pub proof fn law_counts_are_the_counters(c: SwapCounters, path: int)
    requires
        0 <= path < UDIV_PATHS,
    ensures
        c@.tick_steps == c.tick_steps,
        c@.substeps == c.substeps,
        c@.swap_steps == c.swap_steps,
        c@.liquidity_crossings == c.liquidity_crossings,
        c@.adaptive_skips == c.adaptive_skips,
        c@.ladder_pos_calls == c.ladder_pos_calls,
        c@.ladder_pos_ops == c.ladder_pos_ops,
        c@.ladder_neg_calls == c.ladder_neg_calls,
        c@.ladder_neg_ops == c.ladder_neg_ops,
        c@.sqrt_to_tick_calls == c.sqrt_to_tick_calls,
        c@.sqrt_to_tick_log2_iters == c.sqrt_to_tick_log2_iters,
        c@.sqrt_to_tick_refines == c.sqrt_to_tick_refines,
        c@.sqrt_to_tick_log2_clear_bits == c.sqrt_to_tick_log2_clear_bits,
        c@.sqrt_to_tick_shift_left == c.sqrt_to_tick_shift_left,
        c@.sqrt_to_tick_shift_right == c.sqrt_to_tick_shift_right,
        c@.sqrt_to_tick_refines_neg == c.sqrt_to_tick_refines_neg,
        c@.sqrt_to_tick_narrow == c.sqrt_to_tick_narrow,
        c@.skip_tick_div_qbits == c.skip_tick_div_qbits,
        c@.skip_tick_div_setbits == c.skip_tick_div_setbits,
        c@.u256_divs == c.u256_divs,
        c@.u256_div_trivial == c.u256_div_trivial,
        c@.u256_div_u128 == c.u256_div_u128,
        c@.u256_div_short_calls == c.u256_div_short_calls,
        c@.u256_div_short_iters == c.u256_div_short_iters,
        c@.u256_div_knuth_calls == c.u256_div_knuth_calls,
        c@.u256_div_knuth_iters == c.u256_div_knuth_iters,
        c@.u256_div_mul_words == c.u256_div_mul_words,
        c@.u256_div_case2_frames == c.u256_div_case2_frames,
        c@.u256_div_normalized == c.u256_div_normalized,
        c@.u256_div_normalized_remainder == c.u256_div_normalized_remainder,
        c@.u256_div_qhat_corrections == c.u256_div_qhat_corrections,
        c@.u128_divs == c.u128_divs,
        c@.u256_muls == c.u256_muls,
        c@.u256_mul_word_products == c.u256_mul_word_products,
        c@.amount_delta_a_calls == c.amount_delta_a_calls,
        c@.amount_delta_b_calls == c.amount_delta_b_calls,
        c@.next_sqrt_from_a_calls == c.next_sqrt_from_a_calls,
        c@.next_sqrt_from_b_calls == c.next_sqrt_from_b_calls,
        c@.has_paths(),
        c@.udiv_paths[path] == c.udiv_paths[path],
{
}

/// What was done since a later snapshot is nothing: no count falls below zero.
pub proof fn law_since_never_falls_below_zero(c: SwapCounters, later: SwapCounters)
    requires
        c@.at_most(later@),
    ensures
        c@.since(later@) == Work::none(),
{
    assert forall|i: int| 0 <= i < UDIV_PATHS implies c@.udiv_paths[i]
        <= #[trigger] later@.udiv_paths[i] by {
        assert(c@.udiv_paths[i] <= later@.udiv_paths[i]);
    }
    assert(c@.since(later@) =~= Work::none());
}

/// A recorder that is not counting stays as it is whatever is done, and shows nothing; one that is
/// counting shows what has been counted, and what was done since it was last looked at.
pub proof fn law_recorder_shows_what_it_counts(before: Recorder, after: Recorder, work: Work)
    requires
        before.becomes(after, work),
    ensures
        after.on == before.on,
        !before.on ==> after == before,
        !before.on ==> after.shown() == Work::none(),
        !before.on ==> after.shown().since(before.shown()) == Work::none(),
        before.on ==> after.shown() == work,
        before.on ==> after.shown().since(before.shown()) == work.since(before.counters@),
{
    if !before.on {
        law_counts_tell_counters_apart(before.counters, after.counters);
        assert(Work::none().since(Work::none()) =~= Work::none());
    }
}

} // verus!
