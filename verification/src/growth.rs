//! How far the counts of each operation go.
//!
//! No operation takes a count down, and each takes it up by no more than a number of its own. So the
//! counts that stand at the end of an operation fit wherever those at its start have room for that
//! number, and those in between fit wherever those at the end do.

use crate::bits;
use crate::counters;
use crate::counters::{Recorder, Work};
use crate::div_path;
use crate::div_path::UDIV_PATHS;
use crate::error::CoreError;
use crate::fee_rate_manager;
use crate::fee_rate_manager::FeeRateManager;
use crate::limbs;
use crate::long_div;
use crate::record;
use crate::swap_step::StepSpec;
use crate::tick_math;
use crate::tick_math::{MAX_SQRT_PRICE, MAX_TICK_INDEX, MIN_SQRT_PRICE, MIN_TICK_INDEX};
use crate::token_math;
use crate::u256;
use crate::u256::U256;
use crate::walk;
use crate::walk::{Leg, SwapEnv, SwapPrefixResume, WalkPoint};
use vstd::arithmetic::power2::*;
use vstd::prelude::*;

verus! {

/// A `u128` division adds one to the count of its path.
pub proof fn lemma_path_grows(work: Work, path: nat)
    requires
        work.has_paths(),
        path < UDIV_PATHS,
    ensures
        work.grows_to(work.on_path(path), 1),
{
    reveal(Work::grows_to);
}

/// A 256-bit division adds at most eight to a count.
pub proof fn law_u256_div_grows(work: Work, n: U256, d: U256, frame: bool, remainder: bool)
    requires
        work.has_paths(),
    ensures
        work.grows_to(record::after_u256_div(work, n@, d@, frame, remainder), 8),
{
    reveal(Work::grows_to);
    reveal(record::after_u256_div);
    u256::lemma_u256_bound(n);
    u256::lemma_u256_bound(d);
    long_div::law_counts_are_bounded(n@, d@);
    div_path::law_path_index_in_range(n@, d@);
    let nd = limbs::word_count(n@);
    let dv = limbs::word_count(d@);
    if nd >= 3 && dv <= nd && dv != 1 {
        assert(0 <= (nd - dv + 1) * dv <= 6) by (nonlinear_arith)
            requires
                nd <= 4,
                dv <= nd,
                dv >= 0,
                nd >= 3,
                dv != 1,
        ;
    }
}

/// A `u128` division adds at most one.
pub proof fn law_udiv_grows(work: Work, n: nat, d: nat)
    requires
        work.has_paths(),
    ensures
        work.grows_to(record::after_udiv(work, n, d), 1),
{
    reveal(record::after_udiv);
    div_path::law_path_index_in_range(n, d);
    lemma_path_grows(work, div_path::path_index(n, d));
    counters::lemma_no_growth(work);
    counters::lemma_growth_by_more(work, work, 0, 1);
}

/// The two divisions of a fee add at most two.
pub proof fn law_step_fees_grow(work: Work, fee: nat, rate: nat, liquidity: nat)
    requires
        work.has_paths(),
    ensures
        work.grows_to(record::after_step_fees(work, fee, rate, liquidity), 2),
{
    reveal(record::after_step_fees);
    reveal(Work::grows_to);
    div_path::law_path_index_in_range(fee * rate, 10_000);
    let kept = (fee - if rate > 0 {
        record::protocol_share(fee, rate)
    } else {
        0
    }) as nat;
    div_path::law_path_index_in_range((kept * limbs::base()) as nat, liquidity);
}

/// A multiplication into 256 bits adds at most four.
pub proof fn law_u256_mul_grows(work: Work, a: u128, b: u128)
    requires
        work.has_paths(),
    ensures
        work.grows_to(record::after_u256_mul(work, a as nat, b as nat), 4),
{
    reveal(record::after_u256_mul);
    reveal(Work::grows_to);
    record::law_product_of_limbs(a, b);
}

/// A number below the limit of 256 bits, as such.
spec fn as_u256(x: int) -> U256 {
    U256 {
        high: (x / 0x1_0000_0000_0000_0000_0000_0000_0000_0000int) as u128,
        low: (x % 0x1_0000_0000_0000_0000_0000_0000_0000_0000int) as u128,
    }
}

/// Its value is the number.
proof fn lemma_as_u256(x: int)
    requires
        0 <= x < token_math::u256_limit(),
    ensures
        as_u256(x)@ == x,
{
    let b = 0x1_0000_0000_0000_0000_0000_0000_0000_0000int;
    crate::arith::lemma_div_mod(x, b);
    assert(0 <= x / b < b) by (nonlinear_arith)
        requires
            x == b * (x / b) + x % b,
            0 <= x % b < b,
            0 <= x < b * b,
            b > 0,
    ;
}

/// The stages of the amount of token A between two sqrt prices, and that it adds at most 17.
pub proof fn lemma_delta_a_grows(work: Work, p: u128, q: u128, liquidity: u128, round_up: bool)
    requires
        work.has_paths(),
    ensures
        ({
            let g = token_math::gap(p as int, q as int);
            let called = Work { amount_delta_a_calls: work.amount_delta_a_calls + 1, ..work };
            let scaled = record::after_u256_mul(called, liquidity as nat, g as nat);
            let both = record::after_u256_mul(scaled, p as nat, q as nat);
            let after = token_math::after_delta_a(work, p, q, liquidity, round_up);
            &&& called.grows_to(after, 16)
            &&& scaled.grows_to(after, 12)
            &&& liquidity * g * token_math::q64() < token_math::u256_limit() ==> both.grows_to(
                after,
                8,
            )
            &&& work.grows_to(after, 17)
        }),
{
    reveal(token_math::after_delta_a);
    let g = token_math::gap(p as int, q as int);
    let n = liquidity * g * token_math::q64();
    let called = Work { amount_delta_a_calls: work.amount_delta_a_calls + 1, ..work };
    let scaled = record::after_u256_mul(called, liquidity as nat, g as nat);
    let both = record::after_u256_mul(scaled, p as nat, q as nat);
    let after = token_math::after_delta_a(work, p, q, liquidity, round_up);
    assert(work.grows_to(called, 1)) by {
        reveal(Work::grows_to);
    }
    lemma_keeps_paths(work, called, 1);
    law_u256_mul_grows(called, liquidity, g as u128);
    lemma_keeps_paths(called, scaled, 4);
    law_u256_mul_grows(scaled, p, q);
    lemma_keeps_paths(scaled, both, 4);
    if n < token_math::u256_limit() {
        assert(0 <= n && 0 <= p * q < token_math::u256_limit()) by (nonlinear_arith)
            requires
                n == liquidity * g * token_math::q64(),
                token_math::q64() > 0,
                liquidity >= 0,
                g >= 0,
                0 <= p < 0x1_0000_0000_0000_0000_0000_0000_0000_0000int,
                0 <= q < 0x1_0000_0000_0000_0000_0000_0000_0000_0000int,
                token_math::u256_limit() == 0x1_0000_0000_0000_0000_0000_0000_0000_0000int
                    * 0x1_0000_0000_0000_0000_0000_0000_0000_0000int,
        ;
        lemma_as_u256(n);
        lemma_as_u256(p * q);
        law_u256_div_grows(both, as_u256(n), as_u256(p * q), true, round_up);
        counters::lemma_growth_adds(scaled, both, after, 4, 8);
    } else {
        counters::lemma_no_growth(scaled);
        counters::lemma_growth_by_more(scaled, scaled, 0, 12);
    }
    counters::lemma_growth_adds(called, scaled, after, 4, 12);
    counters::lemma_growth_adds(work, called, after, 1, 16);
}

/// What has grown has a count for every branch path.
pub proof fn lemma_keeps_paths(work: Work, after: Work, n: int)
    requires
        work.grows_to(after, n),
    ensures
        after.has_paths(),
{
    reveal(Work::grows_to);
}

/// The stages of the amount of token B between two sqrt prices, and that it adds at most 17.
pub proof fn lemma_delta_b_grows(work: Work, p: u128, q: u128, liquidity: u128)
    requires
        work.has_paths(),
    ensures
        ({
            let called = Work { amount_delta_b_calls: work.amount_delta_b_calls + 1, ..work };
            let after = token_math::after_delta_b(work, p, q, liquidity);
            &&& called.grows_to(after, 4)
            &&& work.grows_to(after, 17)
        }),
{
    reveal(token_math::after_delta_b);
    let g = token_math::gap(p as int, q as int);
    let called = Work { amount_delta_b_calls: work.amount_delta_b_calls + 1, ..work };
    let after = token_math::after_delta_b(work, p, q, liquidity);
    assert(work.grows_to(called, 1)) by {
        reveal(Work::grows_to);
    }
    lemma_keeps_paths(work, called, 1);
    law_u256_mul_grows(called, liquidity, g as u128);
    counters::lemma_growth_adds(work, called, after, 1, 4);
    counters::lemma_growth_by_more(work, after, 5, 17);
}

/// The stages of the sqrt price that token A leads to, and that it adds at most 17.
pub proof fn lemma_next_from_a_grows(work: Work, p: u128, liquidity: u128, amount: u64)
    requires
        work.has_paths(),
    ensures
        ({
            let called = Work { next_sqrt_from_a_calls: work.next_sqrt_from_a_calls + 1, ..work };
            let scaled = record::after_u256_mul(called, liquidity as nat, p as nat);
            let both = record::after_u256_mul(scaled, amount as nat, p as nat);
            let after = token_math::after_next_from_a(work, p, liquidity, amount);
            &&& called.grows_to(after, 16)
            &&& amount > 0 ==> scaled.grows_to(after, 12)
            &&& amount > 0 && liquidity * p * token_math::q64() < token_math::u256_limit()
                ==> both.grows_to(after, 8)
            &&& work.grows_to(after, 17)
        }),
{
    reveal(token_math::after_next_from_a);
    let n = liquidity * p * token_math::q64();
    let d = liquidity * token_math::q64() + amount * p;
    let called = Work { next_sqrt_from_a_calls: work.next_sqrt_from_a_calls + 1, ..work };
    let scaled = record::after_u256_mul(called, liquidity as nat, p as nat);
    let both = record::after_u256_mul(scaled, amount as nat, p as nat);
    let after = token_math::after_next_from_a(work, p, liquidity, amount);
    assert(work.grows_to(called, 1)) by {
        reveal(Work::grows_to);
    }
    lemma_keeps_paths(work, called, 1);
    law_u256_mul_grows(called, liquidity, p);
    lemma_keeps_paths(called, scaled, 4);
    law_u256_mul_grows(scaled, amount as u128, p);
    lemma_keeps_paths(scaled, both, 4);
    if amount == 0 {
        counters::lemma_no_growth(called);
        counters::lemma_growth_by_more(called, called, 0, 16);
    } else {
        if n < token_math::u256_limit() {
            assert(0 <= n && 0 <= d < token_math::u256_limit()) by (nonlinear_arith)
                requires
                    n == liquidity * p * token_math::q64(),
                    d == liquidity * token_math::q64() + amount * p,
                    token_math::q64() == 0x1_0000_0000_0000_0000,
                    0 <= liquidity < 0x1_0000_0000_0000_0000_0000_0000_0000_0000int,
                    0 <= p < 0x1_0000_0000_0000_0000_0000_0000_0000_0000int,
                    0 <= amount < 0x1_0000_0000_0000_0000int,
                    token_math::u256_limit() == 0x1_0000_0000_0000_0000_0000_0000_0000_0000int
                        * 0x1_0000_0000_0000_0000_0000_0000_0000_0000int,
            ;
            lemma_as_u256(n);
            lemma_as_u256(d);
            law_u256_div_grows(both, as_u256(n), as_u256(d), true, true);
            counters::lemma_growth_adds(scaled, both, after, 4, 8);
        } else {
            counters::lemma_no_growth(scaled);
            counters::lemma_growth_by_more(scaled, scaled, 0, 12);
        }
        counters::lemma_growth_adds(called, scaled, after, 4, 12);
    }
    counters::lemma_growth_adds(work, called, after, 1, 16);
}

/// The stages of the sqrt price that token B leads to, and that it adds at most 17.
pub proof fn lemma_next_from_b_grows(work: Work, liquidity: u128, amount: u64)
    requires
        work.has_paths(),
    ensures
        ({
            let called = Work { next_sqrt_from_b_calls: work.next_sqrt_from_b_calls + 1, ..work };
            let after = token_math::after_next_from_b(work, liquidity, amount);
            &&& called.grows_to(after, 16)
            &&& work.grows_to(after, 17)
        }),
{
    reveal(token_math::after_next_from_b);
    let called = Work { next_sqrt_from_b_calls: work.next_sqrt_from_b_calls + 1, ..work };
    let after = token_math::after_next_from_b(work, liquidity, amount);
    assert(work.grows_to(called, 1)) by {
        reveal(Work::grows_to);
    }
    lemma_keeps_paths(work, called, 1);
    if amount == 0 {
        counters::lemma_no_growth(called);
        counters::lemma_growth_by_more(called, called, 0, 16);
    } else {
        let n = amount * token_math::q64();
        lemma_as_u256(n);
        lemma_as_u256(liquidity as int);
        law_u256_div_grows(called, as_u256(n), as_u256(liquidity as int), false, false);
        counters::lemma_growth_by_more(called, after, 8, 16);
    }
    counters::lemma_growth_adds(work, called, after, 1, 16);
}

/// The stages of the fees of an amount, and that each adds at most two.
pub proof fn lemma_fees_grow(work: Work, amount: u64, fee_rate: u32)
    requires
        work.has_paths(),
    ensures
        ({
            let called = Work { u128_divs: work.u128_divs + 1, ..work };
            let taken = token_math::after_apply_fee(work, amount, fee_rate);
            let put = token_math::after_reverse_fee(work, amount, fee_rate);
            &&& called.grows_to(taken, 1)
            &&& called.grows_to(put, 1)
            &&& work.grows_to(taken, 2)
            &&& work.grows_to(put, 2)
        }),
{
    reveal(token_math::after_apply_fee);
    reveal(token_math::after_reverse_fee);
    let called = Work { u128_divs: work.u128_divs + 1, ..work };
    let rate = token_math::FEE_RATE_DENOMINATOR;
    let taken = token_math::after_apply_fee(work, amount, fee_rate);
    let put = token_math::after_reverse_fee(work, amount, fee_rate);
    assert(work.grows_to(called, 1)) by {
        reveal(Work::grows_to);
    }
    lemma_keeps_paths(work, called, 1);
    law_udiv_grows(called, (amount * (rate - fee_rate)) as nat, rate as nat);
    law_udiv_grows(called, (amount * fee_rate) as nat, (rate - fee_rate) as nat);
    counters::lemma_growth_adds(work, called, taken, 1, 1);
    counters::lemma_growth_adds(work, called, put, 1, 1);
}

/// The input to a sqrt price adds at most 17, and so do the output and the sqrt price that an amount
/// leads to.
pub proof fn lemma_step_parts_grow(s: StepSpec, work: Work, to: u128, amount: u64)
    requires
        work.has_paths(),
    ensures
        work.grows_to(s.after_input(work, to), 17),
        work.grows_to(s.after_output(work, to), 17),
        work.grows_to(s.after_price(work, amount), 17),
        s.after_input(work, to).has_paths(),
        s.after_output(work, to).has_paths(),
        s.after_price(work, amount).has_paths(),
{
    lemma_delta_a_grows(work, s.start, to, s.liquidity, true);
    lemma_delta_a_grows(work, s.start, to, s.liquidity, false);
    lemma_delta_b_grows(work, s.start, to, s.liquidity);
    lemma_next_from_a_grows(work, s.start, s.liquidity, amount);
    lemma_next_from_b_grows(work, s.liquidity, amount);
    lemma_keeps_paths(work, s.after_input(work, to), 17);
    lemma_keeps_paths(work, s.after_output(work, to), 17);
    lemma_keeps_paths(work, s.after_price(work, amount), 17);
}

/// The stages of a step that reaches its target.
pub proof fn lemma_full_step_grows(s: StepSpec, work: Work, remaining: u64)
    requires
        work.has_paths(),
        s.reaches(remaining),
    ensures
        ({
            let called = Work { swap_steps: work.swap_steps + 1, ..work };
            let asked = s.after_input(called, s.target);
            let begun = token_math::after_apply_fee(asked, remaining, s.fee_rate);
            let given = s.after_output(begun, s.target);
            let after = s.after_step(work, remaining);
            &&& called.grows_to(after, 70)
            &&& asked.grows_to(after, 53)
            &&& begun.grows_to(after, 51)
            &&& given.grows_to(after, 34)
            &&& work.grows_to(after, 71)
        }),
{
    reveal(StepSpec::after_step);
    let called = Work { swap_steps: work.swap_steps + 1, ..work };
    let asked = s.after_input(called, s.target);
    let begun = token_math::after_apply_fee(asked, remaining, s.fee_rate);
    let given = s.after_output(begun, s.target);
    let after = s.after_step(work, remaining);
    assert(work.grows_to(called, 1)) by {
        reveal(Work::grows_to);
    }
    lemma_keeps_paths(work, called, 1);
    lemma_step_parts_grow(s, called, s.target, 0);
    lemma_fees_grow(asked, remaining, s.fee_rate);
    lemma_keeps_paths(asked, begun, 2);
    lemma_step_parts_grow(s, begun, s.target, 0);
    if s.output_to(s.target) is Err {
        counters::lemma_no_growth(given);
        counters::lemma_growth_by_more(given, after, 0, 34);
    } else {
        lemma_fees_grow(given, s.input_to(s.target)->Ok_0, s.fee_rate);
        counters::lemma_growth_by_more(given, after, 2, 34);
    }
    counters::lemma_growth_adds(begun, given, after, 17, 34);
    counters::lemma_growth_adds(asked, begun, after, 2, 51);
    counters::lemma_growth_adds(called, asked, after, 17, 53);
    counters::lemma_growth_adds(work, called, after, 1, 70);
}

/// The stages of a step that falls short of its target.
pub proof fn lemma_partial_step_grows(s: StepSpec, work: Work, remaining: u64)
    requires
        work.has_paths(),
        !s.reaches(remaining),
    ensures
        ({
            let called = Work { swap_steps: work.swap_steps + 1, ..work };
            let asked = s.after_input(called, s.target);
            let begun = token_math::after_apply_fee(asked, remaining, s.fee_rate);
            let moved = s.after_price(begun, s.net(remaining));
            let after = s.after_step(work, remaining);
            &&& called.grows_to(after, 70)
            &&& asked.grows_to(after, 53)
            &&& begun.grows_to(after, 51)
            &&& s.input_to(s.target) != Err::<u64, CoreError>(CoreError::ArithmeticOverflow) ==> {
                &&& moved.grows_to(after, 34)
                &&& s.price_after(s.net(remaining)) matches Ok(price) ==> s.after_output(
                    moved,
                    price,
                ).grows_to(after, 17)
            }
            &&& work.grows_to(after, 71)
        }),
{
    reveal(StepSpec::after_step);
    let called = Work { swap_steps: work.swap_steps + 1, ..work };
    let asked = s.after_input(called, s.target);
    let begun = token_math::after_apply_fee(asked, remaining, s.fee_rate);
    let moved = s.after_price(begun, s.net(remaining));
    let after = s.after_step(work, remaining);
    assert(work.grows_to(called, 1)) by {
        reveal(Work::grows_to);
    }
    lemma_keeps_paths(work, called, 1);
    lemma_step_parts_grow(s, called, s.target, 0);
    lemma_fees_grow(asked, remaining, s.fee_rate);
    lemma_keeps_paths(asked, begun, 2);
    lemma_step_parts_grow(s, begun, s.target, s.net(remaining));
    if s.input_to(s.target) == Err::<u64, CoreError>(CoreError::ArithmeticOverflow) {
        counters::lemma_no_growth(begun);
        counters::lemma_growth_by_more(begun, after, 0, 51);
    } else {
        match s.price_after(s.net(remaining)) {
            Err(_) => {
                counters::lemma_no_growth(moved);
                counters::lemma_growth_by_more(moved, after, 0, 34);
            },
            Ok(price) => {
                let given = s.after_output(moved, price);
                lemma_step_parts_grow(s, moved, price, 0);
                lemma_step_parts_grow(s, given, price, 0);
                if s.output_to(price) is Err {
                    counters::lemma_no_growth(given);
                    counters::lemma_growth_by_more(given, after, 0, 17);
                }
                counters::lemma_growth_adds(moved, given, after, 17, 17);
            },
        }
        counters::lemma_growth_adds(begun, moved, after, 17, 34);
    }
    counters::lemma_growth_adds(asked, begun, after, 2, 51);
    counters::lemma_growth_adds(called, asked, after, 17, 53);
    counters::lemma_growth_adds(work, called, after, 1, 70);
}

/// A step adds at most 71.
pub proof fn law_step_grows(s: StepSpec, work: Work, remaining: u64)
    requires
        work.has_paths(),
    ensures
        work.grows_to(s.after_step(work, remaining), 71),
{
    if s.reaches(remaining) {
        lemma_full_step_grows(s, work, remaining);
    } else {
        lemma_partial_step_grows(s, work, remaining);
    }
}

/// A ladder multiplies at most 18 times.
proof fn lemma_ladder_ops(t: u32, k: nat)
    ensures
        tick_math::ladder_ops(t, k) <= k,
    decreases k,
{
    if k > 0 {
        lemma_ladder_ops(t, (k - 1) as nat);
    }
}

/// A ladder adds at most 18.
pub proof fn law_ladder_grows(work: Work, tick: int)
    requires
        work.has_paths(),
    ensures
        work.grows_to(tick_math::after_ladder(work, tick), 18),
{
    reveal(Work::grows_to);
    reveal(tick_math::after_ladder);
    lemma_ladder_ops(tick as u32, 18);
    lemma_ladder_ops((-tick) as u32, 18);
}

/// There is at most one clear bit for each step of the logarithm.
proof fn lemma_clear_bits(r: nat, n: nat)
    ensures
        tick_math::log2_clear_bits(r, n) <= n,
    decreases n,
{
    if n > 0 {
        lemma_clear_bits(tick_math::log2_next(r), (n - 1) as nat);
    }
}

/// The stages of the tick of a sqrt price, and that it adds at most 32.
pub proof fn lemma_sqrt_to_tick_grows(work: Work, p: nat)
    requires
        work.has_paths(),
    ensures
        tick_math::after_estimate(work, p).grows_to(tick_math::after_sqrt_to_tick(work, p), 32),
        tick_math::tick_low_of(p) != tick_math::tick_high_of(p) ==> tick_math::after_refine(
            work,
            p,
        ).grows_to(tick_math::after_sqrt_to_tick(work, p), 18),
        work.grows_to(tick_math::after_sqrt_to_tick(work, p), 32),
{
    reveal(tick_math::after_sqrt_to_tick);
    lemma_clear_bits(tick_math::scaled_to_64_bits(p), 14);
    let estimated = tick_math::after_estimate(work, p);
    let refined = tick_math::after_refine(work, p);
    let after = tick_math::after_sqrt_to_tick(work, p);
    assert(work.grows_to(estimated, 14) && work.grows_to(refined, 14) && estimated.grows_to(
        refined,
        1,
    )) by {
        reveal(Work::grows_to);
    }
    lemma_keeps_paths(work, estimated, 14);
    lemma_keeps_paths(work, refined, 14);
    if tick_math::tick_low_of(p) == tick_math::tick_high_of(p) {
        counters::lemma_growth_by_more(work, after, 14, 32);
        counters::lemma_no_growth(estimated);
        counters::lemma_growth_by_more(estimated, after, 0, 32);
    } else {
        law_ladder_grows(refined, tick_math::tick_high_of(p));
        counters::lemma_growth_adds(work, refined, after, 14, 18);
        counters::lemma_growth_adds(estimated, refined, after, 1, 18);
        counters::lemma_growth_by_more(estimated, after, 19, 32);
    }
}

/// The two divisions of a tick by the size of a tick group add at most 38.
pub proof fn lemma_tick_divs_grow(work: Work, tick: int, size: int)
    requires
        work.has_paths(),
        MIN_TICK_INDEX - 1 <= tick <= MAX_TICK_INDEX,
        size > 0,
    ensures
        work.grows_to(fee_rate_manager::after_tick_divs(work, tick, size), 38),
{
    let magnitude = if tick >= 0 {
        tick
    } else {
        -tick
    };
    let quotient = fee_rate_manager::groups_in(tick, size);
    assert(0 <= magnitude / size <= magnitude) by (nonlinear_arith)
        requires
            magnitude >= 0,
            size >= 1,
    ;
    lemma2_to64();
    bits::lemma_bit_len_upper(quotient, 19);
    bits::lemma_set_bits_at_most(quotient, 19);
    reveal(Work::grows_to);
}

/// The start of a swap adds at most 36, and the first of its two ladders no more than both.
pub proof fn lemma_starting_grows(m: FeeRateManager, work: Work)
    requires
        work.has_paths(),
    ensures
        work.grows_to(m.after_starting(work), 36),
        m matches FeeRateManager::Adaptive(adaptive) ==> {
            adaptive.core_lower_bound matches Some((group, _))
                ==> fee_rate_manager::after_group_start(
                work,
                group as int,
                adaptive.constants.tick_group_size,
            ).grows_to(m.after_starting(work), 18)
        },
{
    reveal(FeeRateManager::after_starting);
    counters::lemma_no_growth(work);
    match m {
        FeeRateManager::Static { .. } => {
            counters::lemma_growth_by_more(work, work, 0, 36);
        },
        FeeRateManager::Adaptive(adaptive) => {
            let size = adaptive.constants.tick_group_size;
            let low = match adaptive.core_lower_bound {
                Some((group, _)) => fee_rate_manager::after_group_start(work, group as int, size),
                None => work,
            };
            match adaptive.core_lower_bound {
                Some((group, _)) => {
                    law_ladder_grows(work, fee_rate_manager::clamped(group * size));
                },
                None => {
                    counters::lemma_growth_by_more(work, work, 0, 18);
                },
            }
            lemma_keeps_paths(work, low, 18);
            match adaptive.core_upper_bound {
                Some((group, _)) => {
                    law_ladder_grows(low, fee_rate_manager::clamped((group + 1) * size));
                },
                None => {
                    counters::lemma_no_growth(low);
                    counters::lemma_growth_by_more(low, low, 0, 18);
                },
            }
            counters::lemma_growth_adds(work, low, m.after_starting(work), 18, 18);
        },
    }
}

/// The bound of a fee rate adds at most 18.
pub proof fn lemma_bounded_grows(m: FeeRateManager, work: Work, liquidity: u128)
    requires
        work.has_paths(),
    ensures
        work.grows_to(m.after_bounded(work, liquidity), 18),
{
    reveal(FeeRateManager::after_bounded);
    counters::lemma_no_growth(work);
    counters::lemma_growth_by_more(work, work, 0, 18);
    if let FeeRateManager::Adaptive(adaptive) = m {
        let size = adaptive.constants.tick_group_size;
        let group = adaptive.tick_group_index as int;
        law_ladder_grows(work, fee_rate_manager::clamped(group * size));
        law_ladder_grows(work, fee_rate_manager::clamped((group + 1) * size));
    }
}

/// The stages of an advance after a skip, and that it adds at most 88.
pub proof fn lemma_skip_grows(
    m: FeeRateManager,
    work: Work,
    price: u128,
    next_price: u128,
    next_index: i32,
)
    requires
        work.has_paths(),
        m.valid(),
        MIN_SQRT_PRICE <= price <= MAX_SQRT_PRICE,
        tick_math::tick_in_range(next_index as int),
    ensures
        work.grows_to(m.after_skip(work, price, next_price, next_index), 88),
        m matches FeeRateManager::Adaptive(adaptive) ==> {
            let size = adaptive.constants.tick_group_size as int;
            let after = m.after_skip(work, price, next_price, next_index);
            &&& price != next_price ==> tick_math::after_sqrt_to_tick(work, price as nat).grows_to(
                after,
                56,
            )
            &&& fee_rate_manager::after_skip_tick(work, price, next_price, size).grows_to(after, 38)
        },
{
    reveal(FeeRateManager::after_skip);
    counters::lemma_no_growth(work);
    match m {
        FeeRateManager::Static { .. } => {
            counters::lemma_growth_by_more(work, work, 0, 88);
        },
        FeeRateManager::Adaptive(adaptive) => {
            let size = adaptive.constants.tick_group_size as int;
            let after = m.after_skip(work, price, next_price, next_index);
            let known = fee_rate_manager::after_skip_tick(work, price, next_price, size);
            if price == next_price {
                counters::lemma_growth_by_more(work, known, 0, 50);
                lemma_tick_divs_grow(known, next_index as int, size);
            } else {
                let tick = tick_math::tick_of(price as nat);
                let found = tick_math::after_sqrt_to_tick(work, price as nat);
                tick_math::lemma_tick_estimates(price as nat);
                lemma_sqrt_to_tick_grows(work, price as nat);
                lemma_keeps_paths(work, found, 32);
                law_ladder_grows(found, tick);
                counters::lemma_no_growth(found);
                counters::lemma_growth_by_more(found, found, 0, 18);
                lemma_keeps_paths(found, known, 18);
                lemma_tick_divs_grow(known, tick, size);
                counters::lemma_growth_adds(found, known, after, 18, 38);
                counters::lemma_growth_adds(work, found, known, 32, 18);
            }
            counters::lemma_growth_adds(work, known, after, 50, 38);
        },
    }
}

/// A leg adds at most 18.
pub proof fn lemma_leg_grows(env: SwapEnv, work: Work, state: SwapPrefixResume)
    requires
        work.has_paths(),
    ensures
        work.grows_to(env.after_leg(work, state), 18),
{
    counters::lemma_no_growth(work);
    counters::lemma_growth_by_more(work, work, 0, 18);
    if let Ok(leg) = env.leg(state) {
        law_ladder_grows(work, leg.index as int);
    }
}

/// The stages of a move, and that it adds at most 122.
pub proof fn lemma_moved_grows(
    env: SwapEnv,
    work: Work,
    state: SwapPrefixResume,
    leg: Leg,
    price: u128,
)
    requires
        work.has_paths(),
        state.fee_rate_manager.updated().valid(),
        MIN_SQRT_PRICE <= price <= MAX_SQRT_PRICE,
        tick_math::tick_in_range(leg.index as int),
    ensures
        ({
            let after = env.after_moved(work, state, leg, price);
            let placed = env.after_placed(work, state, leg, price);
            &&& work.grows_to(after, 122)
            &&& placed.grows_to(after, 89)
            &&& env.moved(state, leg, price) is Ok && state.fee_rate_manager.updated().skips(
                state.liquidity,
            ) ==> (Work { adaptive_skips: placed.adaptive_skips + 1, ..placed }).grows_to(after, 88)
        }),
{
    reveal(SwapEnv::after_moved);
    let manager = state.fee_rate_manager.updated();
    let after = env.after_moved(work, state, leg, price);
    let placed = env.after_placed(work, state, leg, price);
    let skipped = Work { adaptive_skips: placed.adaptive_skips + 1, ..placed };
    counters::lemma_no_growth(work);
    if price == leg.price {
        assert(work.grows_to(placed, 1)) by {
            reveal(Work::grows_to);
        }
        counters::lemma_growth_by_more(work, placed, 1, 33);
    } else if price != state.sqrt_price {
        lemma_sqrt_to_tick_grows(work, price as nat);
        counters::lemma_growth_by_more(work, placed, 32, 33);
    } else {
        counters::lemma_growth_by_more(work, placed, 0, 33);
    }
    lemma_keeps_paths(work, placed, 33);
    if env.moved(state, leg, price) is Ok && manager.skips(state.liquidity) {
        assert(placed.grows_to(skipped, 1)) by {
            reveal(Work::grows_to);
        }
        lemma_keeps_paths(placed, skipped, 1);
        lemma_skip_grows(manager, skipped, price, leg.price, leg.index);
        counters::lemma_growth_adds(placed, skipped, after, 1, 88);
    } else {
        counters::lemma_no_growth(placed);
        counters::lemma_growth_by_more(placed, placed, 0, 89);
    }
    counters::lemma_growth_adds(work, placed, after, 33, 89);
}

/// The stages of a step that is computed within a leg, and that it adds at most 92.
pub proof fn lemma_priced_grows(
    env: SwapEnv,
    work: Work,
    state: SwapPrefixResume,
    leg: Leg,
    remaining: u64,
    rate: u16,
)
    requires
        work.has_paths(),
    ensures
        ({
            let begun = Work { substeps: work.substeps + 1, ..work };
            let bounded = state.fee_rate_manager.updated().after_bounded(begun, state.liquidity);
            let stepped = env.step_of(state, leg).after_step(bounded, remaining);
            let after = env.after_priced(work, state, leg, remaining, rate);
            &&& work.grows_to(after, 92)
            &&& begun.grows_to(after, 91)
            &&& bounded.grows_to(after, 73)
            &&& stepped.grows_to(after, 2)
        }),
{
    reveal(SwapEnv::after_priced);
    let begun = Work { substeps: work.substeps + 1, ..work };
    let manager = state.fee_rate_manager.updated();
    let bounded = manager.after_bounded(begun, state.liquidity);
    let spec = env.step_of(state, leg);
    let stepped = spec.after_step(bounded, remaining);
    let after = env.after_priced(work, state, leg, remaining, rate);
    assert(work.grows_to(begun, 1)) by {
        reveal(Work::grows_to);
    }
    lemma_keeps_paths(work, begun, 1);
    lemma_bounded_grows(manager, begun, state.liquidity);
    lemma_keeps_paths(begun, bounded, 18);
    law_step_grows(spec, bounded, remaining);
    lemma_keeps_paths(bounded, stepped, 71);
    match spec.step(remaining) {
        Err(_) => {
            counters::lemma_no_growth(stepped);
            counters::lemma_growth_by_more(stepped, stepped, 0, 2);
        },
        Ok(step) => {
            law_step_fees_grow(
                stepped,
                step.fee_amount as nat,
                rate as nat,
                state.liquidity as nat,
            );
        },
    }
    counters::lemma_growth_adds(bounded, stepped, after, 71, 2);
    counters::lemma_growth_adds(begun, bounded, after, 18, 73);
    counters::lemma_growth_adds(work, begun, after, 1, 91);
}

/// The stages of a step within a leg, and that it adds at most 214.
pub proof fn lemma_within_grows(
    env: SwapEnv,
    work: Work,
    state: SwapPrefixResume,
    leg: Leg,
    remaining: u64,
    out: u64,
    rate: u16,
)
    requires
        work.has_paths(),
        env.valid(),
        env.is_sound_within(state, leg),
    ensures
        ({
            let priced = env.after_priced(work, state, leg, remaining, rate);
            let after = env.after_within(work, state, leg, remaining, out, rate);
            &&& work.grows_to(after, 214)
            &&& priced.grows_to(after, 122)
        }),
{
    let spec = env.step_of(state, leg);
    let priced = env.after_priced(work, state, leg, remaining, rate);
    let after = env.after_within(work, state, leg, remaining, out, rate);
    lemma_priced_grows(env, work, state, leg, remaining, rate);
    lemma_keeps_paths(work, priced, 92);
    counters::lemma_no_growth(priced);
    counters::lemma_growth_by_more(priced, priced, 0, 122);
    if let Ok(step) = spec.step(remaining) {
        walk::lemma_step_is_sound(env, state, leg);
        if !spec.reaches(remaining) {
            walk::lemma_fell_short(env, state, leg, remaining);
        }
        lemma_moved_grows(env, priced, state, leg, step.next_sqrt_price);
    }
    counters::lemma_growth_adds(work, priced, after, 92, 122);
}

/// How much the rest of a walk adds at most.
pub open spec fn growth_ahead(env: SwapEnv, point: WalkPoint) -> int {
    match point {
        WalkPoint::Top { state, remaining, .. } => if remaining == 0 || state.sqrt_price
            == env.limit {
            0
        } else {
            300 * env.way_from(state) + 300
        },
        WalkPoint::Within { state, leg, .. } => 300 * env.way_within(state, leg) + 281,
        _ => 0,
    }
}

/// How many points are left of a walk at most.
pub open spec fn points_ahead(env: SwapEnv, point: WalkPoint) -> int {
    match point {
        WalkPoint::Top { state, remaining, .. } => if remaining == 0 || state.sqrt_price
            == env.limit {
            1
        } else {
            2 * env.way_from(state) + 3
        },
        WalkPoint::Within { state, leg, .. } => 2 * env.way_within(state, leg) + 2,
        _ => 0,
    }
}

/// The next point of a walk adds no more than it brings the walk closer to its end.
proof fn lemma_point_grows(env: SwapEnv, point: WalkPoint, work: Work, rate: u16)
    requires
        env.valid(),
        env.is_sound_at(point),
        work.has_paths(),
        !point.is_end(),
    ensures
        env.is_sound_at(env.next(point)),
        0 <= points_ahead(env, env.next(point)) < points_ahead(env, point),
        growth_ahead(env, env.next(point)) <= growth_ahead(env, point),
        work.grows_to(
            env.after_point(work, point, rate),
            growth_ahead(env, point) - growth_ahead(env, env.next(point)),
        ),
        point matches WalkPoint::Top { state, remaining, .. } ==> remaining > 0 && state.sqrt_price
            != env.limit ==> (Work { tick_steps: work.tick_steps + 1, ..work }).grows_to(
            env.after_point(work, point, rate),
            18,
        ),
{
    let spare = growth_ahead(env, point) - growth_ahead(env, env.next(point));
    let after = env.after_point(work, point, rate);
    match point {
        WalkPoint::Top { state, remaining, .. } => {
            if remaining == 0 || state.sqrt_price == env.limit {
                counters::lemma_no_growth(work);
            } else {
                let stepped = Work { tick_steps: work.tick_steps + 1, ..work };
                walk::lemma_leg_is_sound(env, state);
                assert(work.grows_to(stepped, 1)) by {
                    reveal(Work::grows_to);
                }
                lemma_keeps_paths(work, stepped, 1);
                lemma_leg_grows(env, stepped, state);
                counters::lemma_growth_adds(work, stepped, after, 1, 18);
                counters::lemma_growth_by_more(work, after, 19, spare);
            }
        },
        WalkPoint::Within { state, leg, remaining, out } => {
            walk::lemma_way_within(env, state, leg);
            walk::lemma_step_is_sound(env, state, leg);
            walk::lemma_reached(env, state, leg);
            if !env.step_of(state, leg).reaches(remaining) {
                walk::lemma_fell_short(env, state, leg, remaining);
            }
            lemma_within_grows(env, work, state, leg, remaining, out, rate);
            counters::lemma_growth_by_more(work, after, 214, spare);
        },
        _ => {},
    }
}

/// A walk from a sound point ends, and adds no more than its way ahead lets it.
pub proof fn lemma_walk_grows(env: SwapEnv, point: WalkPoint, work: Work, rate: u16) -> (n: nat)
    requires
        env.valid(),
        env.is_sound_at(point),
        work.has_paths(),
    ensures
        env.run(point, n).is_end(),
        work.grows_to(env.run_work(work, point, rate, n), growth_ahead(env, point)),
    decreases points_ahead(env, point),
{
    if point.is_end() {
        walk::lemma_run(env, point, 0);
        assert(env.run_work(work, point, rate, 0) == work);
        counters::lemma_no_growth(work);
        0
    } else {
        let next = env.next(point);
        let after = env.after_point(work, point, rate);
        let ahead = growth_ahead(env, next);
        let spare = growth_ahead(env, point) - ahead;
        lemma_point_grows(env, point, work, rate);
        lemma_keeps_paths(work, after, spare);
        let n = lemma_walk_grows(env, next, after, rate);
        walk::lemma_run(env, point, 0);
        walk::lemma_run(env, point, 1);
        assert(env.run_work(work, point, rate, 1) == after) by {
            reveal_with_fuel(SwapEnv::run_work, 2);
        }
        walk::lemma_run_work_adds(env, rate, point, work, 1, n);
        counters::lemma_growth_adds(
            work,
            after,
            env.run_work(after, next, rate, n),
            spare,
            ahead,
        );
        1 + n
    }
}

/// What a walk has counted by some point grows to what it has counted at its end.
proof fn lemma_outcome_is_ahead(
    env: SwapEnv,
    rate: u16,
    start: WalkPoint,
    started: Work,
    to: WalkPoint,
    counted: Work,
)
    requires
        env.valid(),
        env.is_sound_at(to),
        env.leads_with(rate, start, started, to, counted),
        counted.has_paths(),
    ensures
        counted.grows_to(env.outcome_work(started, start, rate), growth_ahead(env, to)),
{
    let n = choose|n: nat| #[trigger]
        env.run(start, n) == to && env.run_work(started, start, rate, n) == counted;
    let m = lemma_walk_grows(env, to, counted, rate);
    walk::lemma_run_work_adds(env, rate, start, started, n, m);
    walk::lemma_outcome_with(
        env,
        rate,
        start,
        started,
        env.run(start, n + m),
        env.run_work(started, start, rate, n + m),
    );
}

/// A recorder that can count a walk can count it up to every point.
pub proof fn lemma_walk_is_held(
    env: SwapEnv,
    rate: u16,
    start: WalkPoint,
    started: Work,
    to: WalkPoint,
    counted: Work,
    recorder: Recorder,
)
    requires
        env.valid(),
        env.is_sound_at(to),
        env.leads_with(rate, start, started, to, counted),
        counted.has_paths(),
        recorder.can_hold(env.outcome_work(started, start, rate)),
    ensures
        recorder.can_hold(counted),
        recorder.can_hold(env.after_point(counted, to, rate)),
        env.after_point(counted, to, rate).has_paths(),
        to matches WalkPoint::Top { state, remaining, .. } ==> remaining > 0 && state.sqrt_price
            != env.limit ==> recorder.can_hold(
            Work { tick_steps: counted.tick_steps + 1, ..counted },
        ),
{
    let end = env.outcome_work(started, start, rate);
    lemma_outcome_is_ahead(env, rate, start, started, to, counted);
    counters::lemma_holds_before(recorder, counted, end, growth_ahead(env, to));
    if !to.is_end() {
        let next = env.next(to);
        let after = env.after_point(counted, to, rate);
        lemma_point_grows(env, to, counted, rate);
        lemma_keeps_paths(counted, after, growth_ahead(env, to) - growth_ahead(env, next));
        walk::lemma_leads_with_on(env, rate, start, started, to, counted);
        lemma_outcome_is_ahead(env, rate, start, started, next, after);
        counters::lemma_holds_before(recorder, after, end, growth_ahead(env, next));
        if let WalkPoint::Top { state, remaining, .. } = to {
            if remaining > 0 && state.sqrt_price != env.limit {
                counters::lemma_holds_before(
                    recorder,
                    Work { tick_steps: counted.tick_steps + 1, ..counted },
                    after,
                    18,
                );
            }
        }
    }
}

} // verus!
