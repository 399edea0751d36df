//! What a walk has put in and given, where it stops, and what a swap makes of it.

use crate::adaptive_fee::AdaptiveFeeInfo;
use crate::amount_laws;
use crate::cost_laws;
use crate::count_laws;
use crate::counters::Work;
use crate::crossing_laws;
use crate::error::CoreError;
use crate::fee_rate_manager::FeeRateManager;
use crate::pool::WhirlpoolFacade;
use crate::swap;
use crate::swap::SwapAmounts;
use crate::swap_step;
use crate::swap_step::SwapStepQuote;
use crate::tick_array::TickSequence;
use crate::tick_laws;
use crate::tick_math;
use crate::walk;
use crate::walk::{Leg, SwapEnv, SwapPrefixResume, WalkPoint};
use vstd::prelude::*;

verus! {

/// The step that a walk makes at a point, where it makes one.
pub open spec fn step_at(env: SwapEnv, point: WalkPoint) -> Option<SwapStepQuote> {
    match point {
        WalkPoint::Within { state, leg, remaining, .. } => match env.step_of(state, leg).step(
            remaining,
        ) {
            Ok(step) => Some(step),
            Err(_) => None,
        },
        _ => None,
    }
}

/// What the first `n` points of a walk have taken: what their steps put in, with their fees.
pub open spec fn taken_by(env: SwapEnv, from: WalkPoint, n: nat) -> int
    decreases n,
{
    if n == 0 {
        0
    } else {
        taken_by(env, from, (n - 1) as nat) + match step_at(env, env.run(from, (n - 1) as nat)) {
            Some(step) => step.amount_in + step.fee_amount,
            None => 0,
        }
    }
}

/// What the steps of the first `n` points of a walk have given.
pub open spec fn given_by(env: SwapEnv, from: WalkPoint, n: nat) -> int
    decreases n,
{
    if n == 0 {
        0
    } else {
        given_by(env, from, (n - 1) as nat) + match step_at(env, env.run(from, (n - 1) as nat)) {
            Some(step) => step.amount_out as int,
            None => 0,
        }
    }
}

/// What is left of the amount at a point, where the walk was not refused.
pub open spec fn left_at(point: WalkPoint) -> Option<u64> {
    match point {
        WalkPoint::Top { remaining, .. } => Some(remaining),
        WalkPoint::Within { remaining, .. } => Some(remaining),
        WalkPoint::Done { remaining, .. } => Some(remaining),
        WalkPoint::Failed(_) => None,
    }
}

/// What has come out at a point, where the walk was not refused.
pub open spec fn out_at(point: WalkPoint) -> Option<u64> {
    match point {
        WalkPoint::Top { out, .. } => Some(out),
        WalkPoint::Within { out, .. } => Some(out),
        WalkPoint::Done { out, .. } => Some(out),
        WalkPoint::Failed(_) => None,
    }
}

/// At every point of a walk that was not refused, what is left and what its steps have taken make up
/// the amount, and what has come out is what its steps have given.
pub proof fn law_walk_adds_up(env: SwapEnv, origin: SwapPrefixResume, amount: u64, n: nat)
    ensures
        ({
            let from = WalkPoint::Top { state: origin, remaining: amount, out: 0 };
            let point = env.run(from, n);
            &&& left_at(point) matches Some(left) ==> left + taken_by(env, from, n) == amount
            &&& out_at(point) matches Some(out) ==> out == given_by(env, from, n)
            &&& 0 <= taken_by(env, from, n)
            &&& 0 <= given_by(env, from, n)
        }),
    decreases n,
{
    let from = WalkPoint::Top { state: origin, remaining: amount, out: 0 };
    walk::lemma_run(env, from, n);
    if n > 0 {
        law_walk_adds_up(env, origin, amount, (n - 1) as nat);
    }
}

/// A walk goes from step to step: it starts a leg while something is left and the limit has not been
/// reached, and stays in that leg until its end or until nothing is left. It is at the sqrt price that
/// its last step got to, and at the tick that this makes: beyond the end of its leg, at the tick of the
/// sqrt price where that moved elsewhere, and where it was if it did not move. It is done exactly once
/// nothing is left or the limit has been reached.
pub proof fn law_walk_goes_on(env: SwapEnv, point: WalkPoint)
    requires
        env.valid(),
        env.is_sound_at(point),
    ensures
        match point {
            WalkPoint::Top { state, remaining, out } => match env.next(point) {
                WalkPoint::Done { remaining: left, out: given } => {
                    &&& remaining == 0 || state.sqrt_price == env.limit
                    &&& left == remaining && given == out
                },
                WalkPoint::Within { state: same, leg, remaining: left, out: given } => {
                    &&& remaining != 0 && state.sqrt_price != env.limit
                    &&& same == state && left == remaining && given == out
                    &&& leg.price == tick_math::sqrt_price_at(leg.index as int)
                    // The walk stops at the limit where that comes first.
                    &&& leg.target == leg.price || leg.target == env.limit
                    &&& env.a_to_b ==> leg.target >= leg.price && leg.target >= env.limit
                    &&& !env.a_to_b ==> leg.target <= leg.price && leg.target <= env.limit
                },
                WalkPoint::Failed(_) => remaining != 0 && state.sqrt_price != env.limit,
                WalkPoint::Top { .. } => false,
            },
            WalkPoint::Within { state, leg, remaining, out } => match step_at(env, point) {
                None => env.next(point) is Failed,
                Some(step) => {
                    let price = step.next_sqrt_price;
                    let tick = if price == leg.price {
                        if env.a_to_b {
                            leg.index - 1
                        } else {
                            leg.index as int
                        }
                    } else if price == state.sqrt_price {
                        state.tick_index as int
                    } else {
                        tick_math::tick_of(price as nat)
                    };
                    let stays = price != leg.target && step.amount_in + step.fee_amount < remaining;
                    match env.next(point) {
                        WalkPoint::Done { .. } => false,
                        WalkPoint::Failed(e) => {
                            ||| out + step.amount_out > u64::MAX && e
                                == CoreError::ArithmeticOverflow
                            ||| price == leg.price && e == CoreError::LiquidityOverflow
                        },
                        WalkPoint::Top { state: after, .. } => {
                            &&& !stays
                            &&& after.sqrt_price == price && after.tick_index == tick
                        },
                        WalkPoint::Within { state: after, leg: same, .. } => {
                            &&& stays
                            &&& same == leg
                            &&& after.sqrt_price == price && after.tick_index == tick
                        },
                    }
                },
            },
            _ => env.next(point) == point,
        },
{
    match point {
        WalkPoint::Top { state, remaining, .. } => {
            if remaining > 0 && state.sqrt_price != env.limit {
                walk::lemma_leg_is_sound(env, state);
            }
        },
        WalkPoint::Within { state, leg, remaining, .. } => {
            lemma_step_in_range(env, state, leg);
            amount_laws::law_step_pays_for_its_way(env.step_of(state, leg), remaining);
            if let Some(step) = step_at(env, point) {
                if step.next_sqrt_price != leg.price {
                    tick_math::lemma_tick_estimates(step.next_sqrt_price as nat);
                }
            }
        },
        _ => {},
    }
}

/// The operands of a step of a walk are in range, and so is the sqrt price that it gets to.
proof fn lemma_step_in_range(env: SwapEnv, state: SwapPrefixResume, leg: Leg)
    requires
        env.valid(),
        env.is_sound_within(state, leg),
    ensures
        amount_laws::is_a_step(env.step_of(state, leg)),
        env.step_of(state, leg).valid(),
        forall|remaining: u64|
            (#[trigger] env.step_of(state, leg).step(remaining)) matches Ok(step)
                ==> amount_laws::is_a_price(step.next_sqrt_price as int),
{
    walk::lemma_step_is_sound(env, state, leg);
    let s = env.step_of(state, leg);
    assert forall|remaining: u64| (#[trigger] s.step(remaining)) matches Ok(
        step,
    ) implies amount_laws::is_a_price(s.step(remaining)->Ok_0.next_sqrt_price as int) by {
        if !s.reaches(remaining) {
            swap_step::law_partial_step_falls_short(s, remaining);
        }
    }
}

/// A walk goes in its direction, up to the end of its leg and never beyond the limit: the sqrt price
/// that a step gets to lies between the one before it and where the leg stops.
pub proof fn law_price_goes_one_way(env: SwapEnv, point: WalkPoint)
    requires
        env.valid(),
        env.is_sound_at(point),
    ensures
        point matches WalkPoint::Within { state, leg, .. } ==> {
            step_at(env, point) matches Some(step) ==> {
                let (p, q) = (state.sqrt_price, step.next_sqrt_price);
                &&& env.a_to_b && leg.target <= p ==> env.limit <= leg.target <= q <= p
                &&& !env.a_to_b && p <= leg.target ==> p <= q <= leg.target <= env.limit
            }
        },
{
    if let WalkPoint::Within { state, leg, remaining, .. } = point {
        let s = env.step_of(state, leg);
        walk::lemma_step_is_sound(env, state, leg);
        if !s.reaches(remaining) {
            swap_step::law_partial_step_falls_short(s, remaining);
        }
    }
}

/// The fee tier of a pool, as its seed spells it, is another than that of its tick spacing.
pub open spec fn fee_adapts(pool: WhirlpoolFacade) -> bool {
    pool.fee_tier_index_seed@[0] + 256 * pool.fee_tier_index_seed@[1] != pool.tick_spacing
}

/// What a swap is refused for before it is walked, in this order: a limit outside the price range, a
/// limit that does not lie ahead, nothing put in, and an adaptive fee that the pool does not have or a
/// missing one that it has. No limit is the end of the price range.
pub proof fn law_swap_is_refused_at_once(
    amount: u64,
    limit: u128,
    pool: WhirlpoolFacade,
    ticks: TickSequence,
    a_to_b: bool,
    timestamp: u64,
    info: Option<AdaptiveFeeInfo>,
)
    ensures
        ({
            let result = swap::swap_of(amount, limit, pool, ticks, a_to_b, timestamp, info);
            let behind = if a_to_b {
                limit >= pool.sqrt_price
            } else {
                limit <= pool.sqrt_price
            };
            let refused = |e: CoreError| result == Err::<SwapAmounts, CoreError>(e);
            if limit == 0 {
                result == swap::swap_of(
                    amount,
                    if a_to_b {
                        4295048016
                    } else {
                        79226673515401279992447579055
                    },
                    pool,
                    ticks,
                    a_to_b,
                    timestamp,
                    info,
                )
            } else if !amount_laws::is_a_price(limit as int) {
                refused(CoreError::SqrtPriceLimitOutOfBounds)
            } else if behind {
                refused(CoreError::InvalidSqrtPriceLimitDirection)
            } else if amount == 0 {
                refused(CoreError::ZeroTradableAmount)
            } else if fee_adapts(pool) != (info is Some) {
                refused(CoreError::InvalidAdaptiveFeeInfo)
            } else {
                true
            }
        }),
{
}

/// The end of the walk of a swap.
proof fn lemma_swap_ends(
    amount: u64,
    limit: u128,
    pool: WhirlpoolFacade,
    ticks: TickSequence,
    a_to_b: bool,
    timestamp: u64,
    info: Option<AdaptiveFeeInfo>,
) -> (n: nat)
    requires
        swap::is_valid_swap(limit, pool, a_to_b, info),
        ticks.well_formed(),
        swap::limit_error(limit, pool.sqrt_price, a_to_b) is None,
        swap::starting_state(pool, a_to_b, timestamp, info) is Ok,
    ensures
        ({
            let env = swap::env_of(ticks, limit, a_to_b);
            let state = swap::starting_state(pool, a_to_b, timestamp, info)->Ok_0;
            let from = WalkPoint::Top { state, remaining: amount, out: 0 };
            &&& env.run(from, n).is_end()
            &&& env.outcome(from) == env.run(from, n)
            &&& forall|work: Work, rate: u16| #[trigger]
                env.outcome_work(work, from, rate) == env.run_work(work, from, rate, n)
        }),
{
    let env = swap::env_of(ticks, limit, a_to_b);
    let state = swap::starting_state(pool, a_to_b, timestamp, info)->Ok_0;
    let from = WalkPoint::Top { state, remaining: amount, out: 0 };
    swap::law_every_swap_ends(amount, limit, pool, ticks, a_to_b, timestamp, info);
    choose|n: nat| (#[trigger] env.run(from, n)).is_end()
}

/// A swap starts at the sqrt price, the tick and the liquidity of its pool. Where it succeeds, its input
/// token is what the steps of its walk have taken, no more than the amount and all of it unless the walk
/// got to the limit, and its output token what they have given: token A in and token B out on the way
/// down, the other way round on the way up.
pub proof fn law_swap_adds_up(
    amount: u64,
    limit: u128,
    pool: WhirlpoolFacade,
    ticks: TickSequence,
    a_to_b: bool,
    timestamp: u64,
    info: Option<AdaptiveFeeInfo>,
) -> (n: nat)
    requires
        swap::is_valid_swap(limit, pool, a_to_b, info),
        ticks.well_formed(),
    ensures
        swap::swap_of(amount, limit, pool, ticks, a_to_b, timestamp, info) matches Ok(result) ==> {
            let env = swap::env_of(ticks, limit, a_to_b);
            let state = swap::starting_state(pool, a_to_b, timestamp, info)->Ok_0;
            let from = WalkPoint::Top { state, remaining: amount, out: 0 };
            let taken = taken_by(env, from, n);
            let given = given_by(env, from, n);
            &&& swap::starting_state(pool, a_to_b, timestamp, info) is Ok
            &&& state.sqrt_price == pool.sqrt_price
            &&& state.tick_index == pool.tick_current_index
            &&& state.liquidity == pool.liquidity
            &&& state.fee_rate_manager matches FeeRateManager::Static { static_fee_rate }
                ==> !fee_adapts(pool) && static_fee_rate == pool.fee_rate
            &&& state.fee_rate_manager matches FeeRateManager::Adaptive(adaptive) ==> fee_adapts(
                pool,
            ) && adaptive.static_fee_rate == pool.fee_rate && adaptive.a_to_b == a_to_b
            &&& env.limit == if limit == 0 {
                if a_to_b {
                    4295048016
                } else {
                    79226673515401279992447579055
                }
            } else {
                limit as int
            }
            &&& env.a_to_b == a_to_b && env.ticks == ticks
            &&& env.run(from, n) is Done
            &&& a_to_b ==> result.token_a == taken && result.token_b == given
            &&& !a_to_b ==> result.token_b == taken && result.token_a == given
            &&& taken <= amount
            &&& taken < amount ==> stopped_at_the_limit(env, from, n)
        },
{
    let mut n = 0nat;
    if swap::limit_error(limit, pool.sqrt_price, a_to_b) is None && amount > 0 {
        if let Ok(state) = swap::starting_state(pool, a_to_b, timestamp, info) {
            let env = swap::env_of(ticks, limit, a_to_b);
            let from = WalkPoint::Top { state, remaining: amount, out: 0 };
            n = lemma_swap_ends(amount, limit, pool, ticks, a_to_b, timestamp, info);
            law_walk_adds_up(env, state, amount, n);
            if env.run(from, n) is Done {
                lemma_done_at_the_limit(env, state, amount, n);
            }
        }
    }
    n
}

/// The walk got to the limit within its first `n` points.
pub open spec fn stopped_at_the_limit(env: SwapEnv, from: WalkPoint, n: nat) -> bool {
    exists|m: nat|
        m < n && (#[trigger] env.run(from, m) matches WalkPoint::Top { state, .. }
            && state.sqrt_price == env.limit)
}

/// A walk that is done with something left got to the limit.
proof fn lemma_done_at_the_limit(env: SwapEnv, origin: SwapPrefixResume, amount: u64, n: nat)
    requires
        env.run(WalkPoint::Top { state: origin, remaining: amount, out: 0 }, n) is Done,
    ensures
        ({
            let from = WalkPoint::Top { state: origin, remaining: amount, out: 0 };
            left_at(env.run(from, n)) matches Some(left) && (left > 0 ==> stopped_at_the_limit(
                env,
                from,
                n,
            ))
        }),
    decreases n,
{
    let from = WalkPoint::Top { state: origin, remaining: amount, out: 0 };
    walk::lemma_run(env, from, n);
    if n > 0 {
        let m = (n - 1) as nat;
        if env.run(from, m) is Done {
            lemma_done_at_the_limit(env, origin, amount, m);
        } else {
            assert(env.run(from, m) is Top);
        }
    }
}

/// Counts with the arithmetic and the ticks of others, and with what they count of a step of a walk.
pub open spec fn with_steps_of(work: Work, other: Work) -> Work {
    cost_laws::with_arithmetic_of(
        tick_laws::with_ticks_of(
            Work {
                substeps: other.substeps,
                swap_steps: other.swap_steps,
                liquidity_crossings: other.liquidity_crossings,
                adaptive_skips: other.adaptive_skips,
                skip_tick_div_qbits: other.skip_tick_div_qbits,
                skip_tick_div_setbits: other.skip_tick_div_setbits,
                ..work
            },
            other,
        ),
        other,
    )
}

/// The divisions of the fee of a step, where it can be computed: one for the protocol's share where that
/// has a rate, and one for the growth of the fee where there is liquidity.
pub open spec fn fee_divisions(computed: bool, liquidity: u128, protocol_fee_rate: u16) -> int {
    count_laws::one_if(computed && protocol_fee_rate > 0) + count_laws::one_if(
        computed && liquidity > 0,
    )
}

/// What a walk counts from point to point. A leg is counted once, with a ladder for the tick at its end,
/// and so is a step, with the arithmetic that it makes. A crossing is counted for each step that lands on
/// the end of its leg, a skip for each that the fee was not updated on; the tick of a sqrt price is found
/// where a step moved elsewhere, and for a skip that did not land there. Each `u128` division is counted
/// for itself or as a step of a 256-bit division, but for those of the fee.
pub proof fn law_point_is_counted(
    env: SwapEnv,
    work: Work,
    point: WalkPoint,
    protocol_fee_rate: u16,
)
    requires
        env.valid(),
        env.is_sound_at(point),
        work.has_paths(),
    ensures
        ({
            let after = env.after_point(work, point, protocol_fee_rate);
            let next = env.next(point);
            match point {
                WalkPoint::Top { .. } => match next {
                    WalkPoint::Within { .. } => {
                        &&& after.tick_steps == work.tick_steps + 1
                        &&& tick_laws::ladders(after) == tick_laws::ladders(work) + 1
                        &&& after.sqrt_to_tick_calls == work.sqrt_to_tick_calls
                        &&& after == tick_laws::with_ticks_of(
                            (Work { tick_steps: after.tick_steps, ..work }),
                            after,
                        )
                    },
                    WalkPoint::Failed(_) => after == (Work {
                        tick_steps: work.tick_steps + 1,
                        ..work
                    }),
                    _ => after == work,
                },
                WalkPoint::Within { state, leg, remaining, .. } => {
                    let s = env.step_of(state, leg);
                    let skips = state.fee_rate_manager.skips(state.liquidity);
                    &&& after.substeps == work.substeps + 1
                    &&& after.swap_steps == work.swap_steps + 1
                    &&& after == with_steps_of(work, after)
                    &&& cost_laws::other_divisions(after) - cost_laws::other_divisions(work)
                        == fee_divisions(
                        step_at(env, point) is Some,
                        state.liquidity,
                        protocol_fee_rate,
                    )
                    &&& step_at(env, point) matches Some(step) ==> {
                        let price = step.next_sqrt_price;
                        let lands = price == leg.price;
                        let crossings = after.liquidity_crossings - work.liquidity_crossings;
                        let skipped = after.adaptive_skips - work.adaptive_skips;
                        let found = after.sqrt_to_tick_calls - work.sqrt_to_tick_calls;
                        &&& cost_laws::step_is_counted(
                            work,
                            after,
                            env.a_to_b,
                            amount_laws::covers_the_way(s, remaining),
                            remaining * (1_000_000 - s.fee_rate) >= 1_000_000,
                        )
                        &&& next !is Failed ==> crossings == count_laws::one_if(lands)
                        &&& next !is Failed ==> skipped == count_laws::one_if(skips)
                        &&& next !is Failed ==> found == count_laws::one_if(
                            !lands && price != state.sqrt_price,
                        ) + count_laws::one_if(!lands && skips)
                    }
                },
                _ => after == work,
            }
        }),
        env.after_point(work, point, protocol_fee_rate).has_paths(),
{
    let after = env.after_point(work, point, protocol_fee_rate);
    match point {
        WalkPoint::Top { state, remaining, .. } => {
            if remaining > 0 && state.sqrt_price != env.limit {
                walk::lemma_leg_is_sound(env, state);
                if let Ok(leg) = env.leg(state) {
                    tick_laws::law_ladder_is_counted(
                        Work { tick_steps: work.tick_steps + 1, ..work },
                        leg.index as int,
                    );
                }
            }
        },
        WalkPoint::Within { state, leg, remaining, out } => {
            lemma_priced_is_counted(env, work, state, leg, remaining, protocol_fee_rate);
            let priced = env.after_priced(work, state, leg, remaining, protocol_fee_rate);
            if let Some(step) = step_at(env, point) {
                lemma_step_in_range(env, state, leg);
                lemma_moved_is_counted(env, priced, state, leg, step.next_sqrt_price);
            }
        },
        _ => {},
    }
}

/// What the step itself adds.
proof fn lemma_priced_is_counted(
    env: SwapEnv,
    work: Work,
    state: SwapPrefixResume,
    leg: Leg,
    remaining: u64,
    protocol_fee_rate: u16,
)
    requires
        env.valid(),
        env.is_sound_within(state, leg),
        work.has_paths(),
    ensures
        ({
            let after = env.after_priced(work, state, leg, remaining, protocol_fee_rate);
            let s = env.step_of(state, leg);
            &&& after.substeps == work.substeps + 1
            &&& after.swap_steps == work.swap_steps + 1
            &&& after.sqrt_to_tick_calls == work.sqrt_to_tick_calls
            &&& after == cost_laws::with_arithmetic_of(
                tick_laws::with_ticks_of(
                    (Work { substeps: after.substeps, swap_steps: after.swap_steps, ..work }),
                    after,
                ),
                after,
            )
            &&& s.step(remaining) is Ok ==> cost_laws::step_is_counted(
                work,
                after,
                env.a_to_b,
                amount_laws::covers_the_way(s, remaining),
                remaining * (1_000_000 - s.fee_rate) >= 1_000_000,
            )
            &&& after.has_paths()
            &&& cost_laws::other_divisions(after) - cost_laws::other_divisions(work)
                == fee_divisions(s.step(remaining) is Ok, state.liquidity, protocol_fee_rate)
        }),
{
    reveal(SwapEnv::after_priced);
    let s = env.step_of(state, leg);
    let manager = state.fee_rate_manager.updated();
    let begun = Work { substeps: work.substeps + 1, ..work };
    let bounded = manager.after_bounded(begun, state.liquidity);
    lemma_step_in_range(env, state, leg);
    tick_laws::law_fee_bounds_are_counted(manager, begun, state.liquidity);
    assert(bounded.udiv_paths == work.udiv_paths);
    cost_laws::law_step_is_counted(s, bounded, remaining);
    if let Ok(step) = s.step(remaining) {
        count_laws::lemma_step_fee_divisions(
            s.after_step(bounded, remaining),
            step.fee_amount as nat,
            protocol_fee_rate as nat,
            state.liquidity as nat,
        );
    }
}

/// What the move of the sqrt price adds.
proof fn lemma_moved_is_counted(
    env: SwapEnv,
    work: Work,
    state: SwapPrefixResume,
    leg: Leg,
    price: u128,
)
    requires
        env.valid(),
        env.is_sound_within(state, leg),
        amount_laws::is_a_price(price as int),
    ensures
        ({
            let after = env.after_moved(work, state, leg, price);
            let skips = state.fee_rate_manager.skips(state.liquidity);
            let lands = price == leg.price;
            &&& after == tick_laws::with_ticks_of(
                (Work {
                    liquidity_crossings: after.liquidity_crossings,
                    adaptive_skips: after.adaptive_skips,
                    skip_tick_div_qbits: after.skip_tick_div_qbits,
                    skip_tick_div_setbits: after.skip_tick_div_setbits,
                    ..work
                }),
                after,
            )
            &&& after.liquidity_crossings - work.liquidity_crossings == count_laws::one_if(lands)
            &&& env.moved(state, leg, price) is Ok ==> after.adaptive_skips - work.adaptive_skips
                == count_laws::one_if(skips)
            &&& env.moved(state, leg, price) is Ok ==> after.sqrt_to_tick_calls
                - work.sqrt_to_tick_calls == count_laws::one_if(
                !lands && price != state.sqrt_price,
            ) + count_laws::one_if(!lands && skips)
        }),
{
    reveal(SwapEnv::after_moved);
    let manager = state.fee_rate_manager.updated();
    let placed = env.after_placed(work, state, leg, price);
    tick_laws::law_sqrt_to_tick_is_counted(work, price as nat);
    if let FeeRateManager::Adaptive(adaptive) = manager {
        tick_laws::law_skip_is_counted(
            adaptive,
            Work { adaptive_skips: placed.adaptive_skips + 1, ..placed },
            price,
            leg.price,
            leg.index,
        );
    }
}

/// A leg starts at a point: something is left, and the limit has not been reached.
pub open spec fn begins_a_leg(env: SwapEnv, point: WalkPoint) -> bool {
    point matches WalkPoint::Top { state, remaining, .. } && remaining != 0 && state.sqrt_price
        != env.limit
}

/// How many legs have been started within the first `n` points of a walk.
pub open spec fn legs_begun(env: SwapEnv, from: WalkPoint, n: nat) -> int
    decreases n,
{
    if n == 0 {
        0
    } else {
        legs_begun(env, from, (n - 1) as nat) + count_laws::one_if(
            begins_a_leg(env, env.run(from, (n - 1) as nat)),
        )
    }
}

/// How many steps have been made within the first `n` points of a walk.
pub open spec fn steps_made(env: SwapEnv, from: WalkPoint, n: nat) -> int
    decreases n,
{
    if n == 0 {
        0
    } else {
        steps_made(env, from, (n - 1) as nat) + count_laws::one_if(
            env.run(from, (n - 1) as nat) is Within,
        )
    }
}

/// The divisions of the fees of the first `n` points of a walk.
pub open spec fn fees_divided(env: SwapEnv, from: WalkPoint, rate: u16, n: nat) -> int
    decreases n,
{
    if n == 0 {
        0
    } else {
        let point = env.run(from, (n - 1) as nat);
        fees_divided(env, from, rate, (n - 1) as nat) + match point {
            WalkPoint::Within { state, .. } => fee_divisions(
                step_at(env, point) is Some,
                state.liquidity,
                rate,
            ),
            _ => 0,
        }
    }
}

/// What a walk has counted of its legs, its steps and the divisions of its fees.
proof fn lemma_run_is_counted(env: SwapEnv, work: Work, from: WalkPoint, rate: u16, n: nat)
    requires
        env.valid(),
        env.is_sound_at(from),
        work.has_paths(),
    ensures
        env.is_sound_at(env.run(from, n)),
        env.run_work(work, from, rate, n).has_paths(),
        ({
            let after = env.run_work(work, from, rate, n);
            &&& after.tick_steps - work.tick_steps == legs_begun(env, from, n)
            &&& after.substeps - work.substeps == steps_made(env, from, n)
            &&& after.swap_steps - work.swap_steps == steps_made(env, from, n)
            &&& cost_laws::other_divisions(after) - cost_laws::other_divisions(work)
                == fees_divided(env, from, rate, n)
        }),
    decreases n,
{
    walk::lemma_run(env, from, n);
    if n > 0 {
        let m = (n - 1) as nat;
        lemma_run_is_counted(env, work, from, rate, m);
        let point = env.run(from, m);
        law_point_is_counted(env, env.run_work(work, from, rate, m), point, rate);
        crossing_laws::lemma_next_is_sound(env, point);
    }
}

/// A swap that is refused at once counts nothing. Another counts the legs and the steps of its walk, to
/// its end, with the divisions that the protocol's rate asks of its fees.
pub proof fn law_swap_is_counted(
    work: Work,
    amount: u64,
    limit: u128,
    pool: WhirlpoolFacade,
    ticks: TickSequence,
    a_to_b: bool,
    timestamp: u64,
    info: Option<AdaptiveFeeInfo>,
) -> (n: nat)
    requires
        swap::is_valid_swap(limit, pool, a_to_b, info),
        ticks.well_formed(),
        work.has_paths(),
    ensures
        ({
            let after = swap::work_of(work, amount, limit, pool, ticks, a_to_b, timestamp, info);
            let env = swap::env_of(ticks, limit, a_to_b);
            if swap::limit_error(limit, pool.sqrt_price, a_to_b) is Some || amount == 0 {
                after == work
            } else {
                match swap::starting_state(pool, a_to_b, timestamp, info) {
                    Err(_) => after == work,
                    Ok(state) => {
                        let from = WalkPoint::Top { state, remaining: amount, out: 0 };
                        let rate = pool.protocol_fee_rate;
                        &&& env.run(from, n).is_end()
                        &&& after.tick_steps - work.tick_steps == legs_begun(env, from, n)
                        &&& after.substeps - work.substeps == steps_made(env, from, n)
                        &&& after.swap_steps - work.swap_steps == steps_made(env, from, n)
                        &&& cost_laws::other_divisions(after) - cost_laws::other_divisions(work)
                            == fees_divided(env, from, rate, n)
                    },
                }
            }
        }),
{
    let mut n = 0nat;
    if swap::limit_error(limit, pool.sqrt_price, a_to_b) is None && amount > 0 {
        if let Ok(state) = swap::starting_state(pool, a_to_b, timestamp, info) {
            let env = swap::env_of(ticks, limit, a_to_b);
            let from = WalkPoint::Top { state, remaining: amount, out: 0 };
            let started = state.fee_rate_manager.after_starting(work);
            n = lemma_swap_ends(amount, limit, pool, ticks, a_to_b, timestamp, info);
            tick_laws::law_fee_bounds_are_counted(state.fee_rate_manager, work, 0);
            assert(started.udiv_paths == work.udiv_paths);
            swap::lemma_start_is_sound(limit, pool, ticks, a_to_b, timestamp, info);
            lemma_run_is_counted(env, started, from, pool.protocol_fee_rate, n);
        }
    }
    n
}

} // verus!
