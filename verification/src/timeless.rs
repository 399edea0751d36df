//! What the clock decides of a swap.
//!
//! A walk does not read the time at which the reference of its fee rate was moved. So the clock
//! decides only which way `update_reference` goes at the start: two clocks at which it goes the same
//! way give the same swap, the same counts and the same table.

use crate::adaptive_fee::{AdaptiveFeeInfo, AdaptiveFeeVariablesFacade};
use crate::counters::Work;
use crate::error::CoreError;
use crate::fee_rate_manager::{AdaptiveFeeRate, FeeRateManager};
use crate::pool::WhirlpoolFacade;
use crate::prefix_laws;
use crate::swap;
use crate::swap_prefix;
use crate::swap_prefix::{PrefixTable, SwapPrefixRow, SwapPrefixTail};
use crate::tick_array::TickSequence;
use crate::walk;
use crate::walk::{Leg, SwapEnv, SwapPrefixResume, WalkPoint};
use vstd::prelude::*;

verus! {

/// A fee rate with another time at which its reference was moved.
pub open spec fn retimed_manager(manager: FeeRateManager, timestamp: u64) -> FeeRateManager {
    match manager {
        FeeRateManager::Static { .. } => manager,
        FeeRateManager::Adaptive(adaptive) => FeeRateManager::Adaptive(
            AdaptiveFeeRate {
                variables: AdaptiveFeeVariablesFacade {
                    last_reference_update_timestamp: timestamp,
                    ..adaptive.variables
                },
                ..adaptive
            },
        ),
    }
}

/// A state with another time at which the reference of its fee rate was moved.
pub open spec fn retimed_state(state: SwapPrefixResume, timestamp: u64) -> SwapPrefixResume {
    SwapPrefixResume {
        fee_rate_manager: retimed_manager(state.fee_rate_manager, timestamp),
        ..state
    }
}

/// A point with another time at which the reference of its fee rate was moved.
pub open spec fn retimed(point: WalkPoint, timestamp: u64) -> WalkPoint {
    match point {
        WalkPoint::Top { state, remaining, out } => WalkPoint::Top {
            state: retimed_state(state, timestamp),
            remaining,
            out,
        },
        WalkPoint::Within { state, leg, remaining, out } => WalkPoint::Within {
            state: retimed_state(state, timestamp),
            leg,
            remaining,
            out,
        },
        _ => point,
    }
}

/// A fee rate does not read the time at which its reference was moved.
proof fn lemma_manager_is_timeless(manager: FeeRateManager, timestamp: u64)
    ensures
        ({
            let other = retimed_manager(manager, timestamp);
            &&& other.updated() == retimed_manager(manager.updated(), timestamp)
            &&& other.total_rate() == manager.total_rate()
            &&& other.advanced() == retimed_manager(manager.advanced(), timestamp)
            &&& forall|target: u128, liquidity: u128| #[trigger]
                other.bounded(target, liquidity) == manager.bounded(target, liquidity)
            &&& forall|liquidity: u128| #[trigger]
                other.skips(liquidity) == manager.skips(liquidity)
        }),
{
}

/// A fee rate does not read the time at which its reference was moved after a skip.
proof fn lemma_skip_is_timeless(
    manager: FeeRateManager,
    timestamp: u64,
    price: u128,
    next_price: u128,
    next_index: i32,
)
    ensures
        retimed_manager(manager, timestamp).advanced_after_skip(price, next_price, next_index)
            == retimed_manager(
            manager.advanced_after_skip(price, next_price, next_index),
            timestamp,
        ),
{
    if let FeeRateManager::Adaptive(adaptive) = manager {
        let other = AdaptiveFeeRate {
            variables: AdaptiveFeeVariablesFacade {
                last_reference_update_timestamp: timestamp,
                ..adaptive.variables
            },
            ..adaptive
        };
        assert(other.last_traversed(price, next_price, next_index) == adaptive.last_traversed(
            price,
            next_price,
            next_index,
        ));
    }
}

/// A step does not read the time at which the reference was moved.
proof fn lemma_step_is_timeless(
    env: SwapEnv,
    state: SwapPrefixResume,
    leg: Leg,
    price: u128,
    timestamp: u64,
)
    ensures
        env.step_of(retimed_state(state, timestamp), leg) == env.step_of(state, leg),
        env.moved(retimed_state(state, timestamp), leg, price) == (match env.moved(
            state,
            leg,
            price,
        ) {
            Ok(after) => Ok::<SwapPrefixResume, CoreError>(retimed_state(after, timestamp)),
            Err(e) => Err(e),
        }),
{
    lemma_manager_is_timeless(state.fee_rate_manager, timestamp);
    lemma_manager_is_timeless(state.fee_rate_manager.updated(), timestamp);
    lemma_skip_is_timeless(
        state.fee_rate_manager.updated(),
        timestamp,
        price,
        leg.price,
        leg.index,
    );
}

/// A walk does not read the time at which the reference was moved.
proof fn lemma_walk_is_timeless(env: SwapEnv, from: WalkPoint, timestamp: u64, n: nat)
    ensures
        env.run(retimed(from, timestamp), n) == retimed(env.run(from, n), timestamp),
    decreases n,
{
    walk::lemma_run(env, from, n);
    walk::lemma_run(env, retimed(from, timestamp), n);
    if n > 0 {
        lemma_walk_is_timeless(env, from, timestamp, (n - 1) as nat);
        if let WalkPoint::Within { state, leg, remaining, .. } = env.run(from, (n - 1) as nat) {
            lemma_step_is_timeless(env, state, leg, 0, timestamp);
            if let Ok(step) = env.step_of(state, leg).step(remaining) {
                lemma_step_is_timeless(env, state, leg, step.next_sqrt_price, timestamp);
            }
        }
    }
}

/// A fee rate counts the same whenever its reference was moved.
proof fn lemma_manager_counts_alike(
    manager: FeeRateManager,
    work: Work,
    liquidity: u128,
    price: u128,
    next_price: u128,
    next_index: i32,
    timestamp: u64,
)
    ensures
        ({
            let other = retimed_manager(manager, timestamp);
            &&& other.after_starting(work) == manager.after_starting(work)
            &&& other.after_bounded(work, liquidity) == manager.after_bounded(work, liquidity)
            &&& other.after_skip(work, price, next_price, next_index) == manager.after_skip(
                work,
                price,
                next_price,
                next_index,
            )
        }),
{
    reveal(FeeRateManager::after_starting);
    reveal(FeeRateManager::after_bounded);
    reveal(FeeRateManager::after_skip);
    lemma_manager_is_timeless(manager, timestamp);
}

/// A point counts the same whenever the reference was moved.
proof fn lemma_point_counts_alike(
    env: SwapEnv,
    work: Work,
    point: WalkPoint,
    rate: u16,
    timestamp: u64,
)
    ensures
        env.after_point(work, retimed(point, timestamp), rate) == env.after_point(
            work,
            point,
            rate,
        ),
        env.share_fits(retimed(point, timestamp), rate) == env.share_fits(point, rate),
{
    if let WalkPoint::Within { state, leg, remaining, out } = point {
        let manager = state.fee_rate_manager.updated();
        let other = retimed_state(state, timestamp);
        lemma_manager_is_timeless(state.fee_rate_manager, timestamp);
        lemma_manager_is_timeless(manager, timestamp);
        lemma_step_is_timeless(env, state, leg, 0, timestamp);
        let begun = Work { substeps: work.substeps + 1, ..work };
        lemma_manager_counts_alike(manager, begun, state.liquidity, 0, 0, 0, timestamp);
        let priced = env.after_priced(work, state, leg, remaining, rate);
        assert(env.after_priced(work, other, leg, remaining, rate) == priced) by {
            reveal(SwapEnv::after_priced);
        }
        if let Ok(step) = env.step_of(state, leg).step(remaining) {
            let price = step.next_sqrt_price;
            let placed = env.after_placed(priced, state, leg, price);
            lemma_step_is_timeless(env, state, leg, price, timestamp);
            lemma_manager_counts_alike(
                manager,
                Work { adaptive_skips: placed.adaptive_skips + 1, ..placed },
                0,
                price,
                leg.price,
                leg.index,
                timestamp,
            );
            assert(env.after_moved(priced, other, leg, price) == env.after_moved(
                priced,
                state,
                leg,
                price,
            )) by {
                reveal(SwapEnv::after_moved);
            }
        }
    }
}

/// A walk counts the same whenever the reference was moved.
proof fn lemma_walk_counts_alike(
    env: SwapEnv,
    from: WalkPoint,
    work: Work,
    rate: u16,
    timestamp: u64,
    n: nat,
)
    ensures
        env.run_work(work, retimed(from, timestamp), rate, n) == env.run_work(work, from, rate, n),
    decreases n,
{
    if n > 0 {
        let before = (n - 1) as nat;
        lemma_walk_counts_alike(env, from, work, rate, timestamp, before);
        lemma_walk_is_timeless(env, from, timestamp, before);
        lemma_point_counts_alike(
            env,
            env.run_work(work, from, rate, before),
            env.run(from, before),
            rate,
            timestamp,
        );
    }
}

/// `update_reference` goes the same way at two clocks, where the fee adapts.
pub open spec fn same_branch(t1: u64, t2: u64, info: Option<AdaptiveFeeInfo>) -> bool {
    info matches Some(info) ==> info.variables.reference_update(t1, info.constants)
        == info.variables.reference_update(t2, info.constants)
}

/// The time at which the reference of a state was moved.
pub open spec fn reference_time(state: SwapPrefixResume) -> u64 {
    match state.fee_rate_manager {
        FeeRateManager::Adaptive(adaptive) => adaptive.variables.last_reference_update_timestamp,
        _ => 0,
    }
}

/// Two clocks in the same branch start a walk in states that differ in that time alone.
proof fn lemma_starts_alike(
    pool: WhirlpoolFacade,
    a_to_b: bool,
    t1: u64,
    t2: u64,
    info: Option<AdaptiveFeeInfo>,
)
    requires
        same_branch(t1, t2, info),
    ensures
        match (
            swap::starting_state(pool, a_to_b, t1, info),
            swap::starting_state(pool, a_to_b, t2, info),
        ) {
            (Ok(s1), Ok(s2)) => s2 == retimed_state(s1, reference_time(s2)),
            (Err(e1), Err(e2)) => e1 == e2,
            _ => false,
        },
{
}

/// Two clocks at which `update_reference` goes the same way give the same swap, and count the same
/// where it can be walked. So a swap that was quoted at one clock can be walked and counted at
/// another.
pub proof fn law_reference_branch_decides_the_swap(
    amount: u64,
    sqrt_price_limit: u128,
    pool: WhirlpoolFacade,
    ticks: TickSequence,
    a_to_b: bool,
    t1: u64,
    t2: u64,
    info: Option<AdaptiveFeeInfo>,
    work: Work,
)
    requires
        same_branch(t1, t2, info),
    ensures
        swap::swap_of(amount, sqrt_price_limit, pool, ticks, a_to_b, t1, info) == swap::swap_of(
            amount,
            sqrt_price_limit,
            pool,
            ticks,
            a_to_b,
            t2,
            info,
        ),
        swap::shares_fit(amount, sqrt_price_limit, pool, ticks, a_to_b, t1, info)
            == swap::shares_fit(amount, sqrt_price_limit, pool, ticks, a_to_b, t2, info),
        swap::is_valid_swap(sqrt_price_limit, pool, a_to_b, info) && ticks.well_formed()
            ==> swap::work_of(
            work,
            amount,
            sqrt_price_limit,
            pool,
            ticks,
            a_to_b,
            t1,
            info,
        ) == swap::work_of(work, amount, sqrt_price_limit, pool, ticks, a_to_b, t2, info),
{
    let env = swap::env_of(ticks, sqrt_price_limit, a_to_b);
    let rate = pool.protocol_fee_rate;
    lemma_starts_alike(pool, a_to_b, t1, t2, info);
    if let (Ok(s1), Ok(s2)) = (
        swap::starting_state(pool, a_to_b, t1, info),
        swap::starting_state(pool, a_to_b, t2, info),
    ) {
        reveal(SwapEnv::shares_fit);
        let time = reference_time(s2);
        let from = WalkPoint::Top { state: s1, remaining: amount, out: 0 };
        let other = WalkPoint::Top { state: s2, remaining: amount, out: 0 };
        assert(other == retimed(from, time));
        assert forall|n: nat| #![trigger env.run(from, n)]
            #![trigger env.run(other, n)]
            env.run(other, n) == retimed(env.run(from, n), time) && env.share_fits(
                env.run(other, n),
                rate,
            ) == env.share_fits(env.run(from, n), rate) by {
            lemma_walk_is_timeless(env, from, time, n);
            lemma_point_counts_alike(env, work, env.run(from, n), rate, time);
        }
        if exists|n: nat| (#[trigger] env.run(from, n)).is_end() {
            let n = choose|n: nat| (#[trigger] env.run(from, n)).is_end();
            assert(env.run(other, n) == env.run(from, n));
            walk::lemma_outcome(env, from, env.run(from, n));
            walk::lemma_outcome(env, other, env.run(from, n));
        }
        if swap::is_valid_swap(sqrt_price_limit, pool, a_to_b, info) && ticks.well_formed()
            && swap::limit_error(sqrt_price_limit, pool.sqrt_price, a_to_b) is None {
            swap::law_every_swap_ends(amount, sqrt_price_limit, pool, ticks, a_to_b, t1, info);
            let started = s1.fee_rate_manager.after_starting(work);
            lemma_manager_counts_alike(s1.fee_rate_manager, work, 0, 0, 0, 0, time);
            let n = choose|n: nat| (#[trigger] env.run(from, n)).is_end();
            assert(env.run(from, n).is_end());
            assert(env.run(other, n) == env.run(from, n));
            lemma_walk_counts_alike(env, from, started, rate, time, n);
            let end = env.run(from, n);
            let counted = env.run_work(started, from, rate, n);
            walk::lemma_outcome_with(env, rate, from, started, end, counted);
            walk::lemma_outcome_with(env, rate, other, started, end, counted);
        }
    }
}

/// A tail with another time at which the reference of its fee rate was moved.
pub open spec fn retimed_tail(tail: SwapPrefixTail, timestamp: u64) -> SwapPrefixTail {
    match tail {
        SwapPrefixTail::More(state) => SwapPrefixTail::More(
            Box::new(retimed_state(*state, timestamp)),
        ),
        _ => tail,
    }
}

/// A state stays sound whenever its reference was moved, and has as far to go.
proof fn lemma_soundness_is_timeless(
    env: SwapEnv,
    state: SwapPrefixResume,
    leg: Leg,
    timestamp: u64,
)
    ensures
        ({
            let other = retimed_state(state, timestamp);
            &&& env.is_sound(other) == env.is_sound(state)
            &&& env.is_sound_within(other, leg) == env.is_sound_within(state, leg)
            &&& env.way_from(other) == env.way_from(state)
            &&& env.way_within(other, leg) == env.way_within(state, leg)
            &&& env.leg(other) == env.leg(state)
        }),
{
}

/// A step is filled the same whenever the reference was moved, and leads to the same state.
proof fn lemma_fill_is_timeless(
    env: SwapEnv,
    rows: Seq<SwapPrefixRow>,
    state: SwapPrefixResume,
    leg: Leg,
    timestamp: u64,
)
    ensures
        ({
            let other = retimed_state(state, timestamp);
            &&& swap_prefix::unit_of(env, other, leg) == swap_prefix::unit_of(env, state, leg)
            &&& swap_prefix::full_fill(env, rows, other, leg) == swap_prefix::full_fill(
                env,
                rows,
                state,
                leg,
            )
            &&& swap_prefix::full_fill(env, rows, state, leg) matches Some(full) ==> env.moved(
                other,
                leg,
                full.next_sqrt_price,
            ) == (match env.moved(state, leg, full.next_sqrt_price) {
                Ok(after) => Ok::<SwapPrefixResume, CoreError>(retimed_state(after, timestamp)),
                Err(e) => Err(e),
            })
        }),
{
    lemma_step_is_timeless(env, state, leg, 0, timestamp);
    if let Some(full) = swap_prefix::full_fill(env, rows, state, leg) {
        lemma_step_is_timeless(env, state, leg, full.next_sqrt_price, timestamp);
    }
}

/// The legs of a table are built the same whenever the reference was moved.
proof fn lemma_legs_are_timeless(
    env: SwapEnv,
    rows: Seq<SwapPrefixRow>,
    state: SwapPrefixResume,
    up_to: int,
    timestamp: u64,
)
    requires
        env.valid(),
        env.is_sound(state),
    ensures
        ({
            let built = swap_prefix::legs_built(env, rows, state, up_to);
            swap_prefix::legs_built(env, rows, retimed_state(state, timestamp), up_to) == (
                built.0,
                retimed_tail(built.1, timestamp),
            )
        }),
    decreases 2 * env.way_from(state) + 1,
{
    walk::lemma_leg_is_sound(env, state);
    match env.leg(state) {
        Err(_) => {
            let leg = Leg { tick: None, index: 0, price: 0, target: 0 };
            lemma_soundness_is_timeless(env, state, leg, timestamp);
        },
        Ok(leg) => {
            lemma_soundness_is_timeless(env, state, leg, timestamp);
            lemma_steps_are_timeless(env, rows, state, leg, up_to, timestamp);
        },
    }
}

/// So are its steps.
#[verifier::rlimit(40)]
proof fn lemma_steps_are_timeless(
    env: SwapEnv,
    rows: Seq<SwapPrefixRow>,
    state: SwapPrefixResume,
    leg: Leg,
    up_to: int,
    timestamp: u64,
)
    requires
        env.valid(),
        env.is_sound_within(state, leg),
    ensures
        ({
            let built = swap_prefix::steps_built(env, rows, state, leg, up_to);
            swap_prefix::steps_built(env, rows, retimed_state(state, timestamp), leg, up_to) == (
                built.0,
                retimed_tail(built.1, timestamp),
            )
        }),
    decreases 2 * env.way_within(state, leg),
{
    let other = retimed_state(state, timestamp);
    lemma_soundness_is_timeless(env, state, leg, timestamp);
    lemma_fill_is_timeless(env, rows, state, leg, timestamp);
    if let Some(full) = swap_prefix::full_fill(env, rows, state, leg) {
        let step = env.moved(state, leg, full.next_sqrt_price);
        if let Ok(after) = step {
            let longer = swap_prefix::with_row(rows, swap_prefix::unit_of(env, state, leg), full);
            assert(env.moved(other, leg, full.next_sqrt_price) == Ok::<SwapPrefixResume, CoreError>(
                retimed_state(after, timestamp),
            ));
            walk::lemma_reached(env, state, leg);
            if after.sqrt_price != leg.target {
                lemma_steps_are_timeless(env, longer, after, leg, up_to, timestamp);
            } else if after.sqrt_price != env.limit && swap_prefix::total_in(
                longer,
                longer.len() as int,
            ) <= up_to {
                lemma_legs_are_timeless(env, longer, after, up_to, timestamp);
            }
        } else {
            assert(env.moved(other, leg, full.next_sqrt_price) is Err);
        }
    }
}

/// Tables that are started at two clocks at which `update_reference` goes the same way hold the same
/// rows and the same tail once they have quoted the same amounts, but for the time at which the
/// reference was moved in a state from which the walk goes on. They answer every amount alike.
pub proof fn law_reference_branch_decides_the_table(
    sqrt_price_limit: u128,
    pool: WhirlpoolFacade,
    ticks: TickSequence,
    a_to_b: bool,
    t1: u64,
    t2: u64,
    info: Option<AdaptiveFeeInfo>,
    amounts: Seq<u64>,
    amount: u64,
)
    requires
        same_branch(t1, t2, info),
        swap::is_valid_swap(sqrt_price_limit, pool, a_to_b, info),
        ticks.well_formed(),
    ensures
        ({
            let one = prefix_laws::quoted_all(
                PrefixTable::starting(sqrt_price_limit, pool, a_to_b, t1, info),
                ticks,
                a_to_b,
                amounts,
            );
            let other = prefix_laws::quoted_all(
                PrefixTable::starting(sqrt_price_limit, pool, a_to_b, t2, info),
                ticks,
                a_to_b,
                amounts,
            );
            &&& other.rows == one.rows
            &&& other.limit == one.limit
            &&& other.tail == match other.origin {
                Some(origin) => retimed_tail(one.tail, reference_time(origin)),
                None => one.tail,
            }
            &&& other.answer(ticks, a_to_b, amount) == one.answer(ticks, a_to_b, amount)
        }),
{
    let env = swap::env_of(ticks, sqrt_price_limit, a_to_b);
    let one = PrefixTable::starting(sqrt_price_limit, pool, a_to_b, t1, info);
    let other = PrefixTable::starting(sqrt_price_limit, pool, a_to_b, t2, info);
    lemma_starts_alike(pool, a_to_b, t1, t2, info);
    swap_prefix::lemma_starting_tracks(sqrt_price_limit, pool, ticks, a_to_b, t1, info);
    swap_prefix::lemma_starting_tracks(sqrt_price_limit, pool, ticks, a_to_b, t2, info);
    prefix_laws::lemma_quotes_keep_the_start(one, ticks, a_to_b, amounts);
    prefix_laws::lemma_quotes_keep_the_start(other, ticks, a_to_b, amounts);
    law_reference_branch_decides_the_swap(
        amount,
        sqrt_price_limit,
        pool,
        ticks,
        a_to_b,
        t1,
        t2,
        info,
        Work::none(),
    );
    swap_prefix::law_table_quotes_the_swap(
        one,
        amount,
        sqrt_price_limit,
        pool,
        ticks,
        a_to_b,
        t1,
        info,
    );
    swap_prefix::law_table_quotes_the_swap(
        other,
        amount,
        sqrt_price_limit,
        pool,
        ticks,
        a_to_b,
        t2,
        info,
    );
    if amounts.len() > 0 {
        let largest = prefix_laws::lemma_has_largest(amounts);
        prefix_laws::law_only_the_largest_quote_counts(one, ticks, a_to_b, amounts, largest);
        prefix_laws::law_only_the_largest_quote_counts(other, ticks, a_to_b, amounts, largest);
        if let (Some(s1), Some(s2)) = (one.origin, other.origin) {
            lemma_legs_are_timeless(
                env,
                Seq::empty(),
                s1,
                largest as int,
                reference_time(s2),
            );
        }
    }
}

} // verus!
