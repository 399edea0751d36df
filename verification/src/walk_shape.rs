//! What the counts say of the shape of a walk: its legs and the steps within them.

use crate::adaptive_fee::AdaptiveFeeInfo;
use crate::counters::Work;
use crate::fee_rate_manager;
use crate::fee_rate_manager::FeeRateManager;
use crate::pool::WhirlpoolFacade;
use crate::record;
use crate::swap;
use crate::swap_step::StepSpec;
use crate::tick_array::TickSequence;
use crate::tick_math;
use crate::token_math;
use crate::walk;
use crate::walk::{Leg, SwapEnv, SwapPrefixResume, WalkPoint};
use vstd::prelude::*;

verus! {

/// Nothing but arithmetic was counted: the legs and the steps are as they were.
spec fn same_shape(before: Work, after: Work) -> bool {
    &&& after.tick_steps == before.tick_steps
    &&& after.substeps == before.substeps
    &&& after.swap_steps == before.swap_steps
}

/// Token amounts are arithmetic.
proof fn lemma_deltas_keep_shape(work: Work, p: u128, q: u128, liquidity: u128, round_up: bool)
    ensures
        same_shape(work, token_math::after_delta_a(work, p, q, liquidity, round_up)),
        same_shape(work, token_math::after_delta_b(work, p, q, liquidity)),
{
    reveal(token_math::after_delta_a);
    reveal(token_math::after_delta_b);
    reveal(record::after_u256_mul);
    reveal(record::after_u256_div);
}

/// The sqrt prices that amounts lead to are arithmetic.
proof fn lemma_prices_keep_shape(work: Work, p: u128, liquidity: u128, amount: u64)
    ensures
        same_shape(work, token_math::after_next_from_a(work, p, liquidity, amount)),
        same_shape(work, token_math::after_next_from_b(work, liquidity, amount)),
{
    reveal(token_math::after_next_from_a);
    reveal(token_math::after_next_from_b);
    reveal(record::after_u256_mul);
    reveal(record::after_u256_div);
}

/// Fees are arithmetic.
proof fn lemma_fees_keep_shape(work: Work, amount: u64, fee_rate: u32, share: nat, liquidity: nat)
    ensures
        same_shape(work, token_math::after_apply_fee(work, amount, fee_rate)),
        same_shape(work, token_math::after_reverse_fee(work, amount, fee_rate)),
        same_shape(work, record::after_step_fees(work, amount as nat, share, liquidity)),
{
    reveal(token_math::after_apply_fee);
    reveal(token_math::after_reverse_fee);
    reveal(record::after_udiv);
    reveal(record::after_step_fees);
}

/// A step counts as one.
proof fn lemma_step_counts_once(s: StepSpec, work: Work, remaining: u64)
    ensures
        same_shape(
            Work { swap_steps: work.swap_steps + 1, ..work },
            s.after_step(work, remaining),
        ),
{
    reveal(StepSpec::after_step);
    let called = Work { swap_steps: work.swap_steps + 1, ..work };
    let known = s.after_input(called, s.target);
    let begun = token_math::after_apply_fee(known, remaining, s.fee_rate);
    lemma_deltas_keep_shape(called, s.start, s.target, s.liquidity, true);
    lemma_fees_keep_shape(known, remaining, s.fee_rate, 0, 0);
    let given = s.after_output(begun, s.target);
    lemma_deltas_keep_shape(begun, s.start, s.target, s.liquidity, false);
    if let Ok(needed) = s.input_to(s.target) {
        lemma_fees_keep_shape(given, needed, s.fee_rate, 0, 0);
    }
    let moved = s.after_price(begun, s.net(remaining));
    lemma_prices_keep_shape(begun, s.start, s.liquidity, s.net(remaining));
    if let Ok(price) = s.price_after(s.net(remaining)) {
        let given = s.after_output(moved, price);
        lemma_deltas_keep_shape(moved, s.start, price, s.liquidity, false);
        lemma_deltas_keep_shape(given, s.start, price, s.liquidity, true);
    }
}

/// Ticks and their sqrt prices are arithmetic.
proof fn lemma_ticks_keep_shape(work: Work, tick: int, price: nat)
    ensures
        same_shape(work, tick_math::after_ladder(work, tick)),
        same_shape(work, tick_math::after_sqrt_to_tick(work, price)),
{
    reveal(tick_math::after_ladder);
    reveal(tick_math::after_sqrt_to_tick);
}

/// What a fee rate counts is arithmetic.
proof fn lemma_manager_keeps_shape(
    m: FeeRateManager,
    work: Work,
    liquidity: u128,
    price: u128,
    next_price: u128,
    next_index: i32,
)
    ensures
        same_shape(work, m.after_starting(work)),
        same_shape(work, m.after_bounded(work, liquidity)),
        same_shape(work, m.after_skip(work, price, next_price, next_index)),
{
    reveal(FeeRateManager::after_starting);
    reveal(FeeRateManager::after_bounded);
    reveal(FeeRateManager::after_skip);
    reveal(tick_math::after_ladder);
    reveal(tick_math::after_sqrt_to_tick);
}

/// A step within a leg counts as one step, both of the leg and of the arithmetic.
proof fn lemma_within_counts_once(
    env: SwapEnv,
    work: Work,
    state: SwapPrefixResume,
    leg: Leg,
    remaining: u64,
    out: u64,
    protocol_fee_rate: u16,
)
    ensures
        same_shape(
            Work { substeps: work.substeps + 1, swap_steps: work.swap_steps + 1, ..work },
            env.after_within(work, state, leg, remaining, out, protocol_fee_rate),
        ),
{
    reveal(SwapEnv::after_priced);
    reveal(SwapEnv::after_moved);
    let manager = state.fee_rate_manager.updated();
    let begun = Work { substeps: work.substeps + 1, ..work };
    let bounded = manager.after_bounded(begun, state.liquidity);
    lemma_manager_keeps_shape(manager, begun, state.liquidity, 0, 0, 0);
    lemma_step_counts_once(env.step_of(state, leg), bounded, remaining);
    let stepped = env.step_of(state, leg).after_step(bounded, remaining);
    if let Ok(step) = env.step_of(state, leg).step(remaining) {
        let charged = record::after_step_fees(
            stepped,
            step.fee_amount as nat,
            protocol_fee_rate as nat,
            state.liquidity as nat,
        );
        lemma_fees_keep_shape(
            stepped,
            step.fee_amount,
            0,
            protocol_fee_rate as nat,
            state.liquidity as nat,
        );
        let price = step.next_sqrt_price;
        lemma_ticks_keep_shape(charged, 0, price as nat);
        let placed = if price == leg.price {
            Work { liquidity_crossings: charged.liquidity_crossings + 1, ..charged }
        } else if price != state.sqrt_price {
            tick_math::after_sqrt_to_tick(charged, price as nat)
        } else {
            charged
        };
        lemma_manager_keeps_shape(
            manager,
            Work { adaptive_skips: placed.adaptive_skips + 1, ..placed },
            state.liquidity,
            price,
            leg.price,
            leg.index,
        );
    }
}

/// Every step within a leg is one computed step.
proof fn lemma_steps_agree(
    env: SwapEnv,
    work: Work,
    from: WalkPoint,
    protocol_fee_rate: u16,
    n: nat,
)
    ensures
        env.run_work(work, from, protocol_fee_rate, n).swap_steps - work.swap_steps == env.run_work(
            work,
            from,
            protocol_fee_rate,
            n,
        ).substeps - work.substeps,
    decreases n,
{
    if n > 0 {
        let m = (n - 1) as nat;
        lemma_steps_agree(env, work, from, protocol_fee_rate, m);
        let counted = env.run_work(work, from, protocol_fee_rate, m);
        match env.run(from, m) {
            WalkPoint::Top { state, .. } => {
                if let Ok(leg) = env.leg(state) {
                    lemma_ticks_keep_shape(
                        Work { tick_steps: counted.tick_steps + 1, ..counted },
                        leg.index as int,
                        0,
                    );
                }
            },
            WalkPoint::Within { state, leg, remaining, out } => {
                lemma_within_counts_once(
                    env,
                    counted,
                    state,
                    leg,
                    remaining,
                    out,
                    protocol_fee_rate,
                );
            },
            _ => {},
        }
    }
}

/// A swap computes one step for each step that it counts within its legs.
pub proof fn law_every_substep_is_a_swap_step(
    work: Work,
    amount: u64,
    sqrt_price_limit: u128,
    pool: WhirlpoolFacade,
    ticks: TickSequence,
    a_to_b: bool,
    timestamp: u64,
    info: Option<AdaptiveFeeInfo>,
)
    ensures
        ({
            let counted = swap::work_of(
                work,
                amount,
                sqrt_price_limit,
                pool,
                ticks,
                a_to_b,
                timestamp,
                info,
            );
            counted.swap_steps - work.swap_steps == counted.substeps - work.substeps
        }),
{
    if let Ok(state) = swap::starting_state(pool, a_to_b, timestamp, info) {
        let env = swap::env_of(ticks, sqrt_price_limit, a_to_b);
        let from = WalkPoint::Top { state, remaining: amount, out: 0 };
        let n = choose|n: nat| (#[trigger] env.run(from, n)).is_end();
        lemma_manager_keeps_shape(state.fee_rate_manager, work, 0, 0, 0, 0);
        lemma_steps_agree(
            env,
            state.fee_rate_manager.after_starting(work),
            from,
            pool.protocol_fee_rate,
            n,
        );
    }
}

/// The points of a walk with a fee that does not adapt: every leg takes one step.
spec fn is_plain(env: SwapEnv, point: WalkPoint, work: Work, counted: Work) -> bool {
    match point {
        WalkPoint::Top { state, remaining, .. } => {
            &&& state.fee_rate_manager is Static
            &&& remaining > 0 && state.sqrt_price != env.limit ==> env.is_sound(state)
            &&& counted.tick_steps - work.tick_steps == counted.substeps - work.substeps
        },
        WalkPoint::Within { state, leg, .. } => {
            &&& state.fee_rate_manager is Static
            &&& env.is_sound_within(state, leg)
            &&& counted.tick_steps - work.tick_steps == counted.substeps - work.substeps + 1
        },
        WalkPoint::Done { .. } => counted.tick_steps - work.tick_steps == counted.substeps
            - work.substeps,
        WalkPoint::Failed(_) => true,
    }
}

/// Without a fee that adapts, a walk goes from leg to leg.
proof fn lemma_plain_walk(
    env: SwapEnv,
    work: Work,
    from: WalkPoint,
    protocol_fee_rate: u16,
    n: nat,
)
    requires
        env.valid(),
        is_plain(env, from, work, work),
    ensures
        is_plain(
            env,
            env.run(from, n),
            work,
            env.run_work(work, from, protocol_fee_rate, n),
        ),
    decreases n,
{
    walk::lemma_run(env, from, n);
    if n > 0 {
        let m = (n - 1) as nat;
        lemma_plain_walk(env, work, from, protocol_fee_rate, m);
        let counted = env.run_work(work, from, protocol_fee_rate, m);
        match env.run(from, m) {
            WalkPoint::Top { state, remaining, .. } => {
                if remaining > 0 && state.sqrt_price != env.limit {
                    walk::lemma_leg_is_sound(env, state);
                    if let Ok(leg) = env.leg(state) {
                        lemma_ticks_keep_shape(
                            Work { tick_steps: counted.tick_steps + 1, ..counted },
                            leg.index as int,
                            0,
                        );
                    }
                }
            },
            WalkPoint::Within { state, leg, remaining, out } => {
                lemma_within_counts_once(
                    env,
                    counted,
                    state,
                    leg,
                    remaining,
                    out,
                    protocol_fee_rate,
                );
                walk::lemma_reached(env, state, leg);
                if !env.step_of(state, leg).reaches(remaining) {
                    walk::lemma_fell_short(env, state, leg, remaining);
                }
            },
            _ => {},
        }
    }
}

/// A swap at a fee that does not adapt takes one step for each leg, where it comes to an end.
pub proof fn law_static_fee_takes_one_step_per_leg(
    work: Work,
    amount: u64,
    sqrt_price_limit: u128,
    pool: WhirlpoolFacade,
    ticks: TickSequence,
    a_to_b: bool,
    timestamp: u64,
)
    requires
        swap::is_valid_pool(pool),
        ticks.well_formed(),
        swap::swap_of(amount, sqrt_price_limit, pool, ticks, a_to_b, timestamp, None) is Ok,
    ensures
        ({
            let counted = swap::work_of(
                work,
                amount,
                sqrt_price_limit,
                pool,
                ticks,
                a_to_b,
                timestamp,
                None,
            );
            counted.substeps - work.substeps == counted.tick_steps - work.tick_steps
        }),
{
    let state = swap::starting_state(pool, a_to_b, timestamp, None)->Ok_0;
    let env = swap::env_of(ticks, sqrt_price_limit, a_to_b);
    let from = WalkPoint::Top { state, remaining: amount, out: 0 };
    let started = state.fee_rate_manager.after_starting(work);
    let n = choose|n: nat| (#[trigger] env.run(from, n)).is_end();
    swap::lemma_start_is_sound(sqrt_price_limit, pool, ticks, a_to_b, timestamp, None);
    lemma_manager_keeps_shape(state.fee_rate_manager, work, 0, 0, 0, 0);
    lemma_plain_walk(env, started, from, pool.protocol_fee_rate, n);
}

} // verus!
