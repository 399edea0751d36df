//! Exact-in swaps, walked from start to end.

use crate::adaptive_fee;
use crate::adaptive_fee::AdaptiveFeeInfo;
use crate::counters;
use crate::counters::{snapshot, Recorder, SwapCounters, Work};
use crate::error::CoreError;
use crate::fee_rate_manager;
use crate::fee_rate_manager::{floor_division, group_start_price, FeeRateManager};
use crate::growth;
use crate::pool::WhirlpoolFacade;
use crate::tick_array::{TickArraySequence, TickSequence};
use crate::tick_math;
use crate::tick_math::{MAX_SQRT_PRICE, MAX_TICK_INDEX, MIN_SQRT_PRICE, MIN_TICK_INDEX};
use crate::walk;
use crate::walk::{
    count_tick_step, find_leg, price_step, take_step, Leg, SwapEnv, SwapPrefixResume, WalkPoint,
};
use vstd::prelude::*;

verus! {

/// What a swap moved, and the work that it took where that was counted.
#[derive(Debug, Clone, Copy, PartialEq, Eq)]
pub struct SwapResult {
    pub token_a: u64,
    pub token_b: u64,
    pub counters: SwapCounters,
}

/// What a swap moves.
pub ghost struct SwapAmounts {
    pub token_a: u64,
    pub token_b: u64,
}

/// A pool whose sqrt price and tick are in range.
pub open spec fn is_valid_pool(pool: WhirlpoolFacade) -> bool {
    &&& MIN_SQRT_PRICE <= pool.sqrt_price <= MAX_SQRT_PRICE
    &&& tick_math::tick_in_range(pool.tick_current_index as int)
}

/// The sqrt price is not beyond the tick group of the tick, where the fee adapts.
pub open spec fn is_in_its_group(
    pool: WhirlpoolFacade,
    a_to_b: bool,
    info: Option<AdaptiveFeeInfo>,
) -> bool {
    info matches Some(info) ==> {
        let size = info.constants.tick_group_size;
        let group = adaptive_fee::tick_group(pool.tick_current_index as int, size);
        info.constants.adaptive_fee_control_factor != 0 ==> if a_to_b {
            fee_rate_manager::group_start(group, size) <= pool.sqrt_price
        } else {
            pool.sqrt_price <= fee_rate_manager::group_start(group + 1, size)
        }
    }
}

/// An adaptive fee whose volatility and reference are in range, where there is one.
pub open spec fn is_valid_info(info: Option<AdaptiveFeeInfo>) -> bool {
    info matches Some(info) ==> info.constants.valid() && info.variables.valid(info.constants)
}

/// A swap that is refused at once, or whose pool and adaptive fee are valid.
pub open spec fn is_valid_swap(
    sqrt_price_limit: u128,
    pool: WhirlpoolFacade,
    a_to_b: bool,
    info: Option<AdaptiveFeeInfo>,
) -> bool {
    limit_error(sqrt_price_limit, pool.sqrt_price, a_to_b) is None && has_its_info(pool, info)
        ==> is_valid_pool(pool) && is_valid_info(info) && is_in_its_group(pool, a_to_b, info)
}

/// A pool comes with an adaptive fee exactly where its fee adapts.
pub open spec fn has_its_info(pool: WhirlpoolFacade, info: Option<AdaptiveFeeInfo>) -> bool {
    (pool.fee_tier_index() != pool.tick_spacing) == (info is Some)
}

/// The limit of a swap: where none is given, the end of the price range.
pub open spec fn limit_of(sqrt_price_limit: u128, a_to_b: bool) -> u128 {
    if sqrt_price_limit != 0 {
        sqrt_price_limit
    } else if a_to_b {
        MIN_SQRT_PRICE
    } else {
        MAX_SQRT_PRICE
    }
}

/// Why the limit of a swap is refused.
pub open spec fn limit_error(sqrt_price_limit: u128, sqrt_price: u128, a_to_b: bool) -> Option<
    CoreError,
> {
    let limit = limit_of(sqrt_price_limit, a_to_b);
    if limit < MIN_SQRT_PRICE || limit > MAX_SQRT_PRICE {
        Some(CoreError::SqrtPriceLimitOutOfBounds)
    } else if if a_to_b {
        limit >= sqrt_price
    } else {
        limit <= sqrt_price
    } {
        Some(CoreError::InvalidSqrtPriceLimitDirection)
    } else {
        None
    }
}

/// The state in which a swap starts, once its limit has been accepted.
pub open spec fn starting_state(
    pool: WhirlpoolFacade,
    a_to_b: bool,
    timestamp: u64,
    info: Option<AdaptiveFeeInfo>,
) -> Result<SwapPrefixResume, CoreError> {
    if !has_its_info(pool, info) {
        Err(CoreError::InvalidAdaptiveFeeInfo)
    } else {
        match FeeRateManager::starting(
            a_to_b,
            pool.tick_current_index as int,
            timestamp,
            pool.fee_rate,
            info,
        ) {
            Err(e) => Err(e),
            Ok(fee_rate_manager) => Ok(
                SwapPrefixResume {
                    sqrt_price: pool.sqrt_price,
                    tick_index: pool.tick_current_index,
                    liquidity: pool.liquidity,
                    fee_rate_manager,
                },
            ),
        }
    }
}

/// What a swap walks over.
pub open spec fn env_of(ticks: TickSequence, sqrt_price_limit: u128, a_to_b: bool) -> SwapEnv {
    SwapEnv { ticks, limit: limit_of(sqrt_price_limit, a_to_b), a_to_b }
}

/// The result of a walk that put in an amount.
pub open spec fn result_of(end: WalkPoint, amount: u64, a_to_b: bool) -> Result<
    SwapAmounts,
    CoreError,
> {
    match end {
        WalkPoint::Done { remaining, out } => {
            let swapped = (amount - remaining) as u64;
            Ok(
                if a_to_b {
                    SwapAmounts { token_a: swapped, token_b: out }
                } else {
                    SwapAmounts { token_a: out, token_b: swapped }
                },
            )
        },
        WalkPoint::Failed(e) => Err(e),
        _ => Err(CoreError::ArithmeticOverflow),
    }
}

/// The result of an exact-in swap.
pub open spec fn swap_of(
    amount: u64,
    sqrt_price_limit: u128,
    pool: WhirlpoolFacade,
    ticks: TickSequence,
    a_to_b: bool,
    timestamp: u64,
    info: Option<AdaptiveFeeInfo>,
) -> Result<SwapAmounts, CoreError> {
    match limit_error(sqrt_price_limit, pool.sqrt_price, a_to_b) {
        Some(e) => Err(e),
        None => if amount == 0 {
            Err(CoreError::ZeroTradableAmount)
        } else {
            match starting_state(pool, a_to_b, timestamp, info) {
                Err(e) => Err(e),
                Ok(state) => result_of(
                    env_of(ticks, sqrt_price_limit, a_to_b).outcome(
                        WalkPoint::Top { state, remaining: amount, out: 0 },
                    ),
                    amount,
                    a_to_b,
                ),
            }
        },
    }
}

/// What has been counted once an exact-in swap has been walked.
pub open spec fn work_of(
    work: Work,
    amount: u64,
    sqrt_price_limit: u128,
    pool: WhirlpoolFacade,
    ticks: TickSequence,
    a_to_b: bool,
    timestamp: u64,
    info: Option<AdaptiveFeeInfo>,
) -> Work {
    if limit_error(sqrt_price_limit, pool.sqrt_price, a_to_b) is Some || amount == 0 {
        work
    } else {
        match starting_state(pool, a_to_b, timestamp, info) {
            Err(_) => work,
            Ok(state) => env_of(ticks, sqrt_price_limit, a_to_b).outcome_work(
                state.fee_rate_manager.after_starting(work),
                WalkPoint::Top { state, remaining: amount, out: 0 },
                pool.protocol_fee_rate,
            ),
        }
    }
}

/// At no step of a swap is the protocol's share of the fee more than the fee.
pub open spec fn shares_fit(
    amount: u64,
    sqrt_price_limit: u128,
    pool: WhirlpoolFacade,
    ticks: TickSequence,
    a_to_b: bool,
    timestamp: u64,
    info: Option<AdaptiveFeeInfo>,
) -> bool {
    limit_error(sqrt_price_limit, pool.sqrt_price, a_to_b) is None && amount > 0 ==> {
        starting_state(pool, a_to_b, timestamp, info) matches Ok(state) ==> env_of(
            ticks,
            sqrt_price_limit,
            a_to_b,
        ).shares_fit(
            WalkPoint::Top { state, remaining: amount, out: 0 },
            pool.protocol_fee_rate,
        )
    }
}

/// A protocol that takes no more than the fee has no share above it, whatever is swapped.
pub proof fn law_shares_fit(
    amount: u64,
    sqrt_price_limit: u128,
    pool: WhirlpoolFacade,
    ticks: TickSequence,
    a_to_b: bool,
    timestamp: u64,
    info: Option<AdaptiveFeeInfo>,
)
    requires
        pool.protocol_fee_rate <= 10_000,
    ensures
        shares_fit(amount, sqrt_price_limit, pool, ticks, a_to_b, timestamp, info),
{
    if let Ok(state) = starting_state(pool, a_to_b, timestamp, info) {
        walk::lemma_shares_fit(
            env_of(ticks, sqrt_price_limit, a_to_b),
            WalkPoint::Top { state, remaining: amount, out: 0 },
            pool.protocol_fee_rate,
        );
    }
}

/// Room that is enough to count any swap.
pub const SWAP_ROOM: u32 = 1_100_000_000;

/// The state in which a swap starts is sound.
pub proof fn lemma_start_is_sound(
    sqrt_price_limit: u128,
    pool: WhirlpoolFacade,
    ticks: TickSequence,
    a_to_b: bool,
    timestamp: u64,
    info: Option<AdaptiveFeeInfo>,
)
    requires
        is_valid_swap(sqrt_price_limit, pool, a_to_b, info),
        limit_error(sqrt_price_limit, pool.sqrt_price, a_to_b) is None,
    ensures
        starting_state(pool, a_to_b, timestamp, info) matches Ok(state) ==> env_of(
            ticks,
            sqrt_price_limit,
            a_to_b,
        ).is_sound(state),
{
    let tick = pool.tick_current_index as int;
    let env = env_of(ticks, sqrt_price_limit, a_to_b);
    if let Ok(state) = starting_state(pool, a_to_b, timestamp, info) {
        fee_rate_manager::lemma_starting(a_to_b, tick, timestamp, pool.fee_rate, info);
        if let FeeRateManager::Adaptive(adaptive) = state.fee_rate_manager {
            walk::lemma_starting_bound_is_ahead(env, adaptive, state.sqrt_price);
        }
    }
}

/// Every swap comes to an end: its walk is done or fails after finitely many steps.
pub proof fn law_every_swap_ends(
    amount: u64,
    sqrt_price_limit: u128,
    pool: WhirlpoolFacade,
    ticks: TickSequence,
    a_to_b: bool,
    timestamp: u64,
    info: Option<AdaptiveFeeInfo>,
)
    requires
        is_valid_swap(sqrt_price_limit, pool, a_to_b, info),
        ticks.well_formed(),
        limit_error(sqrt_price_limit, pool.sqrt_price, a_to_b) is None,
    ensures
        starting_state(pool, a_to_b, timestamp, info) matches Ok(state) ==> env_of(
            ticks,
            sqrt_price_limit,
            a_to_b,
        ).outcome(WalkPoint::Top { state, remaining: amount, out: 0 }).is_end(),
{
    if let Ok(state) = starting_state(pool, a_to_b, timestamp, info) {
        let env = env_of(ticks, sqrt_price_limit, a_to_b);
        lemma_start_is_sound(sqrt_price_limit, pool, ticks, a_to_b, timestamp, info);
        walk::lemma_walk_ends(env, WalkPoint::Top { state, remaining: amount, out: 0 });
    }
}

/// A swap takes no count down, and none up by more than [`SWAP_ROOM`].
pub proof fn law_swap_grows(
    work: Work,
    amount: u64,
    sqrt_price_limit: u128,
    pool: WhirlpoolFacade,
    ticks: TickSequence,
    a_to_b: bool,
    timestamp: u64,
    info: Option<AdaptiveFeeInfo>,
)
    requires
        is_valid_swap(sqrt_price_limit, pool, a_to_b, info),
        ticks.well_formed(),
        work.has_paths(),
    ensures
        work.grows_to(
            work_of(work, amount, sqrt_price_limit, pool, ticks, a_to_b, timestamp, info),
            SWAP_ROOM as int,
        ),
{
    let env = env_of(ticks, sqrt_price_limit, a_to_b);
    let rate = pool.protocol_fee_rate;
    let after = work_of(work, amount, sqrt_price_limit, pool, ticks, a_to_b, timestamp, info);
    counters::lemma_no_growth(work);
    counters::lemma_growth_by_more(work, work, 0, SWAP_ROOM as int);
    if limit_error(sqrt_price_limit, pool.sqrt_price, a_to_b) is None && amount > 0 {
        if let Ok(state) = starting_state(pool, a_to_b, timestamp, info) {
            let start = WalkPoint::Top { state, remaining: amount, out: 0 };
            let started = state.fee_rate_manager.after_starting(work);
            lemma_start_is_sound(sqrt_price_limit, pool, ticks, a_to_b, timestamp, info);
            walk::lemma_leg_is_sound(env, state);
            growth::lemma_starting_grows(state.fee_rate_manager, work);
            growth::lemma_keeps_paths(work, started, 36);
            let n = growth::lemma_walk_grows(env, start, started, rate);
            walk::lemma_outcome_with(
                env,
                rate,
                start,
                started,
                env.run(start, n),
                env.run_work(started, start, rate, n),
            );
            let ahead = growth::growth_ahead(env, start);
            counters::lemma_growth_adds(work, started, after, 36, ahead);
            counters::lemma_growth_by_more(work, after, 36 + ahead, SWAP_ROOM as int);
        }
    }
}

/// A recorder with [`SWAP_ROOM`] can count any swap.
pub proof fn law_swap_fits_its_room(
    recorder: Recorder,
    amount: u64,
    sqrt_price_limit: u128,
    pool: WhirlpoolFacade,
    ticks: TickSequence,
    a_to_b: bool,
    timestamp: u64,
    info: Option<AdaptiveFeeInfo>,
)
    requires
        is_valid_swap(sqrt_price_limit, pool, a_to_b, info),
        ticks.well_formed(),
        recorder.has_room(SWAP_ROOM as int),
    ensures
        recorder.can_hold(
            work_of(
                recorder.counters@,
                amount,
                sqrt_price_limit,
                pool,
                ticks,
                a_to_b,
                timestamp,
                info,
            ),
        ),
{
    let work = recorder.counters@;
    let after = work_of(work, amount, sqrt_price_limit, pool, ticks, a_to_b, timestamp, info);
    law_swap_grows(work, amount, sqrt_price_limit, pool, ticks, a_to_b, timestamp, info);
    counters::lemma_room_holds(recorder, after, SWAP_ROOM as int);
}

/// A pool whose sqrt price lies between those of its tick and of the next one is in its tick group, in
/// both directions.
pub proof fn law_price_at_its_tick_is_in_its_group(
    pool: WhirlpoolFacade,
    a_to_b: bool,
    info: Option<AdaptiveFeeInfo>,
)
    requires
        is_valid_pool(pool),
        is_valid_info(info),
        tick_math::sqrt_price_at(pool.tick_current_index as int) <= pool.sqrt_price,
        pool.tick_current_index < MAX_TICK_INDEX ==> pool.sqrt_price <= tick_math::sqrt_price_at(
            pool.tick_current_index + 1,
        ),
    ensures
        is_in_its_group(pool, a_to_b, info),
{
    if let Some(info) = info {
        let tick = pool.tick_current_index as int;
        let size = info.constants.tick_group_size;
        let group = adaptive_fee::tick_group(tick, size);
        walk::lemma_tick_group(tick, size as int);
        walk::lemma_group_start_and_tick(group, size, tick);
        if tick < MAX_TICK_INDEX {
            walk::lemma_group_start_and_tick(group + 1, size, tick + 1);
        } else {
            walk::lemma_group_start_and_tick(group + 1, size, tick);
        }
    }
}

/// Whether a swap is refused at once, or its pool and adaptive fee are valid.
pub fn swap_is_valid(
    sqrt_price_limit: u128,
    whirlpool: &WhirlpoolFacade,
    a_to_b: bool,
    adaptive_fee_info: &Option<AdaptiveFeeInfo>,
) -> (r: bool)
    ensures
        r == is_valid_swap(sqrt_price_limit, *whirlpool, a_to_b, *adaptive_fee_info),
{
    let limit: u128 = if sqrt_price_limit != 0 {
        sqrt_price_limit
    } else if a_to_b {
        MIN_SQRT_PRICE
    } else {
        MAX_SQRT_PRICE
    };
    if limit < MIN_SQRT_PRICE || limit > MAX_SQRT_PRICE || (a_to_b && limit
        >= whirlpool.sqrt_price) || (!a_to_b && limit <= whirlpool.sqrt_price)
        || whirlpool.is_initialized_with_adaptive_fee() != adaptive_fee_info.is_some() {
        return true;
    }
    if whirlpool.sqrt_price < MIN_SQRT_PRICE || whirlpool.sqrt_price > MAX_SQRT_PRICE
        || whirlpool.tick_current_index < MIN_TICK_INDEX || whirlpool.tick_current_index
        > MAX_TICK_INDEX {
        return false;
    }
    match adaptive_fee_info {
        None => true,
        Some(info) => {
            if !info.constants.is_valid() || !info.variables.is_valid(&info.constants) {
                return false;
            }
            if info.constants.adaptive_fee_control_factor == 0 {
                return true;
            }
            let size: u16 = info.constants.tick_group_size;
            let group: i64 = floor_division(whirlpool.tick_current_index, size) as i64;
            let mut uncounted = Recorder::new();
            if a_to_b {
                group_start_price(group, size, &mut uncounted) <= whirlpool.sqrt_price
            } else {
                whirlpool.sqrt_price <= group_start_price(group + 1, size, &mut uncounted)
            }
        },
    }
}

/// Whether at no step of a swap the protocol's share of the fee is more than the fee. A protocol that
/// takes no more than the fee needs no look at the steps.
#[verifier::rlimit(40)]
pub fn swap_shares_fit(
    token_amount: u64,
    sqrt_price_limit: u128,
    whirlpool: WhirlpoolFacade,
    tick_sequence: &TickArraySequence,
    a_to_b: bool,
    timestamp: u64,
    adaptive_fee_info: Option<AdaptiveFeeInfo>,
) -> (r: bool)
    requires
        is_valid_swap(sqrt_price_limit, whirlpool, a_to_b, adaptive_fee_info),
        tick_sequence@.well_formed(),
    ensures
        r == shares_fit(
            token_amount,
            sqrt_price_limit,
            whirlpool,
            tick_sequence@,
            a_to_b,
            timestamp,
            adaptive_fee_info,
        ),
{
    if whirlpool.protocol_fee_rate <= 10_000 {
        proof {
            law_shares_fit(
                token_amount,
                sqrt_price_limit,
                whirlpool,
                tick_sequence@,
                a_to_b,
                timestamp,
                adaptive_fee_info,
            );
        }
        return true;
    }
    let limit: u128 = if sqrt_price_limit != 0 {
        sqrt_price_limit
    } else if a_to_b {
        MIN_SQRT_PRICE
    } else {
        MAX_SQRT_PRICE
    };
    if limit < MIN_SQRT_PRICE || limit > MAX_SQRT_PRICE || (a_to_b && limit
        >= whirlpool.sqrt_price) || (!a_to_b && limit <= whirlpool.sqrt_price) || token_amount == 0
        || whirlpool.is_initialized_with_adaptive_fee() != adaptive_fee_info.is_some() {
        return true;
    }
    let mut uncounted = Recorder::new();
    let fee_rate_manager = match FeeRateManager::new(
        a_to_b,
        whirlpool.tick_current_index,
        timestamp,
        whirlpool.fee_rate,
        &adaptive_fee_info,
        &mut uncounted,
    ) {
        Ok(fee_rate_manager) => fee_rate_manager,
        Err(_) => return true,
    };
    let mut state = SwapPrefixResume {
        sqrt_price: whirlpool.sqrt_price,
        tick_index: whirlpool.tick_current_index,
        liquidity: whirlpool.liquidity,
        fee_rate_manager,
    };
    let mut remaining: u64 = token_amount;
    let mut out: u64 = 0;
    let rate: u16 = whirlpool.protocol_fee_rate;
    let ghost env = env_of(tick_sequence@, sqrt_price_limit, a_to_b);
    let ghost start = WalkPoint::Top { state, remaining, out };
    let ghost fits = env.shares_fit(start, rate);
    proof {
        walk::lemma_shares_at_start(env, rate, start);
        lemma_start_is_sound(
            sqrt_price_limit,
            whirlpool,
            tick_sequence@,
            a_to_b,
            timestamp,
            adaptive_fee_info,
        );
    }
    while remaining > 0 && state.sqrt_price != limit
        invariant
            env.valid(),
            env.ticks == tick_sequence@,
            env.limit == limit,
            env.a_to_b == a_to_b,
            !uncounted.on,
            remaining > 0 && state.sqrt_price != limit ==> env.is_sound(state),
            env.leads_sharing(rate, start, WalkPoint::Top { state, remaining, out }),
            fits == env.shares_fit(start, rate),
            fits == shares_fit(
                token_amount,
                sqrt_price_limit,
                whirlpool,
                tick_sequence@,
                a_to_b,
                timestamp,
                adaptive_fee_info,
            ),
        decreases
                if remaining == 0 || state.sqrt_price == limit {
                    0
                } else {
                    env.way_from(state) + 1
                },
    {
        proof {
            let top = WalkPoint::Top { state, remaining, out };
            walk::lemma_leg_is_sound(env, state);
            walk::lemma_shares_on(env, rate, start, top);
        }
        let ghost way = env.way_from(state);
        let leg = match find_leg(&state, tick_sequence, limit, a_to_b, &mut uncounted) {
            Ok(leg) => leg,
            Err(e) => {
                proof {
                    walk::lemma_shares_to_the_end(env, rate, start, WalkPoint::Failed(e));
                }
                return true;
            },
        };
        loop
            invariant_except_break
                remaining > 0,
                env.is_sound_within(state, leg),
                0 <= env.way_within(state, leg) <= way,
                env.leads_sharing(
                    rate,
                    start,
                    WalkPoint::Within { state, leg, remaining, out },
                ),
            invariant
                env.valid(),
                env.ticks == tick_sequence@,
                env.limit == limit,
                env.a_to_b == a_to_b,
                !uncounted.on,
                fits == env.shares_fit(start, rate),
                fits == shares_fit(
                    token_amount,
                    sqrt_price_limit,
                    whirlpool,
                    tick_sequence@,
                    a_to_b,
                    timestamp,
                    adaptive_fee_info,
                ),
            ensures
                env.leads_sharing(rate, start, WalkPoint::Top { state, remaining, out }),
                remaining > 0 && state.sqrt_price != limit ==> env.is_sound(state)
                    && 0 <= env.way_from(state) < way,
            decreases env.way_within(state, leg),
        {
            proof {
                let point = WalkPoint::Within { state, leg, remaining, out };
                walk::lemma_step_is_sound(env, state, leg);
                walk::lemma_reached(env, state, leg);
                walk::lemma_shares_on(env, rate, start, point);
            }
            if !share_fits(&state, &leg, remaining, rate, a_to_b, Ghost(out), Ghost(env)) {
                return false;
            }
            let stepped = take_step(
                &state,
                &leg,
                remaining,
                out,
                rate,
                a_to_b,
                &mut uncounted,
                Ghost(env),
            );
            match stepped {
                Ok((after, left, total)) => {
                    state = after;
                    remaining = left;
                    out = total;
                },
                Err(e) => {
                    proof {
                        walk::lemma_shares_to_the_end(env, rate, start, WalkPoint::Failed(e));
                    }
                    return true;
                },
            }
            if remaining == 0 || state.sqrt_price == leg.target {
                break;
            }
        }
    }
    proof {
        let top = WalkPoint::Top { state, remaining, out };
        walk::lemma_shares_on(env, rate, start, top);
        walk::lemma_shares_to_the_end(env, rate, start, WalkPoint::Done { remaining, out });
    }
    true
}

/// Whether the protocol's share of the fee of the next step within a leg is no more than the fee.
fn share_fits(
    state: &SwapPrefixResume,
    leg: &Leg,
    remaining: u64,
    protocol_fee_rate: u16,
    a_to_b: bool,
    Ghost(out): Ghost<u64>,
    Ghost(env): Ghost<SwapEnv>,
) -> (r: bool)
    requires
        env.a_to_b == a_to_b,
        env.step_of(*state, *leg).valid(),
        state.fee_rate_manager.updated().valid(),
    ensures
        r == env.share_fits(
            WalkPoint::Within { state: *state, leg: *leg, remaining, out },
            protocol_fee_rate,
        ),
{
    let mut uncounted = Recorder::new();
    match price_step(
        state,
        leg,
        remaining,
        protocol_fee_rate,
        a_to_b,
        &mut uncounted,
        Ghost(env),
    ) {
        Ok((step, _manager, _skipped)) => {
            proof {
                assert(0 <= step.fee_amount * protocol_fee_rate <= 0xffff_ffff_ffff_ffff * 0xffff)
                    by (nonlinear_arith)
                    requires
                        0 <= step.fee_amount <= 0xffff_ffff_ffff_ffff,
                        0 <= protocol_fee_rate <= 0xffff,
                ;
            }
            step.fee_amount as u128 * protocol_fee_rate as u128 / 10_000 <= step.fee_amount as u128
        },
        Err(_) => true,
    }
}

/// Walk an exact-in swap of `token_amount` from start to end. The recorder counts the work, which
/// the result reports and which does not change it.
#[verifier::rlimit(40)]
pub fn compute_swap(
    token_amount: u64,
    sqrt_price_limit: u128,
    whirlpool: WhirlpoolFacade,
    tick_sequence: &TickArraySequence,
    a_to_b: bool,
    timestamp: u64,
    adaptive_fee_info: Option<AdaptiveFeeInfo>,
    recorder: &mut Recorder,
) -> (r: Result<SwapResult, CoreError>)
    requires
        is_valid_swap(sqrt_price_limit, whirlpool, a_to_b, adaptive_fee_info),
        tick_sequence@.well_formed(),
        old(recorder).can_hold(
            work_of(
                old(recorder).counters@,
                token_amount,
                sqrt_price_limit,
                whirlpool,
                tick_sequence@,
                a_to_b,
                timestamp,
                adaptive_fee_info,
            ),
        ),
        old(recorder).on ==> shares_fit(
            token_amount,
            sqrt_price_limit,
            whirlpool,
            tick_sequence@,
            a_to_b,
            timestamp,
            adaptive_fee_info,
        ),
    ensures
        match (
            swap_of(
                token_amount,
                sqrt_price_limit,
                whirlpool,
                tick_sequence@,
                a_to_b,
                timestamp,
                adaptive_fee_info,
            ),
            r,
        ) {
            (Ok(amounts), Ok(result)) => {
                &&& result.token_a == amounts.token_a
                &&& result.token_b == amounts.token_b
                &&& result.counters@ == if old(recorder).on {
                    final(recorder).counters@.since(old(recorder).counters@)
                } else {
                    Work::none()
                }
            },
            (Err(expected), Err(e)) => e == expected,
            _ => false,
        },
        old(recorder).becomes(
            *final(recorder),
            work_of(
                old(recorder).counters@,
                token_amount,
                sqrt_price_limit,
                whirlpool,
                tick_sequence@,
                a_to_b,
                timestamp,
                adaptive_fee_info,
            ),
        ),
{
    let ghost r0 = *recorder;
    let ghost work0 = recorder.counters@;
    let before = snapshot(recorder);
    let limit: u128 = if sqrt_price_limit != 0 {
        sqrt_price_limit
    } else if a_to_b {
        MIN_SQRT_PRICE
    } else {
        MAX_SQRT_PRICE
    };
    if limit < MIN_SQRT_PRICE || limit > MAX_SQRT_PRICE {
        return Err(CoreError::SqrtPriceLimitOutOfBounds);
    }
    if (a_to_b && limit >= whirlpool.sqrt_price) || (!a_to_b && limit <= whirlpool.sqrt_price) {
        return Err(CoreError::InvalidSqrtPriceLimitDirection);
    }
    if token_amount == 0 {
        return Err(CoreError::ZeroTradableAmount);
    }
    if whirlpool.is_initialized_with_adaptive_fee() != adaptive_fee_info.is_some() {
        return Err(CoreError::InvalidAdaptiveFeeInfo);
    }
    let ghost env = env_of(tick_sequence@, sqrt_price_limit, a_to_b);
    let ghost rate = whirlpool.protocol_fee_rate;
    proof {
        lemma_start_is_sound(
            sqrt_price_limit,
            whirlpool,
            tick_sequence@,
            a_to_b,
            timestamp,
            adaptive_fee_info,
        );
        if let Ok(state) = starting_state(whirlpool, a_to_b, timestamp, adaptive_fee_info) {
            let start = WalkPoint::Top { state, remaining: token_amount, out: 0 };
            let started = state.fee_rate_manager.after_starting(work0);
            growth::lemma_starting_grows(state.fee_rate_manager, work0);
            growth::lemma_keeps_paths(work0, started, 36);
            walk::lemma_leads_with_nothing(env, rate, start, started);
            growth::lemma_walk_is_held(env, rate, start, started, start, started, r0);
        }
    }
    let fee_rate_manager = FeeRateManager::new(
        a_to_b,
        whirlpool.tick_current_index,
        timestamp,
        whirlpool.fee_rate,
        &adaptive_fee_info,
        recorder,
    )?;
    let mut state = SwapPrefixResume {
        sqrt_price: whirlpool.sqrt_price,
        tick_index: whirlpool.tick_current_index,
        liquidity: whirlpool.liquidity,
        fee_rate_manager,
    };
    let mut remaining: u64 = token_amount;
    let mut out: u64 = 0;
    let ghost start = WalkPoint::Top { state, remaining, out };
    let ghost started = fee_rate_manager.after_starting(work0);
    let ghost mut work = started;
    while remaining > 0 && state.sqrt_price != limit
        invariant
            env.valid(),
            env.ticks == tick_sequence@,
            env.limit == limit,
            env.a_to_b == a_to_b,
            rate == whirlpool.protocol_fee_rate,
            remaining <= token_amount,
            env.leads_with(
                rate,
                start,
                started,
                WalkPoint::Top { state, remaining, out },
                work,
            ),
            remaining > 0 && state.sqrt_price != limit ==> env.is_sound(state),
            r0.can_hold(env.outcome_work(started, start, rate)),
            r0.on ==> env.shares_fit(start, rate),
            r0.becomes(*recorder, work),
            work.has_paths(),
            swap_of(
                token_amount,
                sqrt_price_limit,
                whirlpool,
                tick_sequence@,
                a_to_b,
                timestamp,
                adaptive_fee_info,
            ) == result_of(env.outcome(start), token_amount, a_to_b),
            work_of(
                work0,
                token_amount,
                sqrt_price_limit,
                whirlpool,
                tick_sequence@,
                a_to_b,
                timestamp,
                adaptive_fee_info,
            ) == env.outcome_work(started, start, rate),
            *old(recorder) == r0,
            r0.counters@ == work0,
        decreases
                if remaining == 0 || state.sqrt_price == limit {
                    0
                } else if a_to_b {
                    state.tick_index + 500_000
                } else {
                    500_000 - state.tick_index
                },
    {
        let ghost top = WalkPoint::Top { state, remaining, out };
        proof {
            walk::lemma_leads_with_on(env, rate, start, started, top, work);
            walk::lemma_leg_is_sound(env, state);
            growth::lemma_walk_is_held(env, rate, start, started, top, work, r0);
        }
        count_tick_step(recorder);
        let found = find_leg(&state, tick_sequence, limit, a_to_b, recorder);
        proof {
            work = env.after_point(work, top, rate);
        }
        let leg = match found {
            Ok(leg) => leg,
            Err(e) => {
                proof {
                    walk::lemma_outcome_with(
                        env,
                        rate,
                        start,
                        started,
                        WalkPoint::Failed(e),
                        work,
                    );
                }
                return Err(e);
            },
        };
        loop
            invariant_except_break
                remaining > 0,
                env.leads_with(
                    rate,
                    start,
                    started,
                    WalkPoint::Within { state, leg, remaining, out },
                    work,
                ),
                env.is_sound_within(state, leg),
            invariant
                env.valid(),
                env.ticks == tick_sequence@,
                env.limit == limit,
                env.a_to_b == a_to_b,
                rate == whirlpool.protocol_fee_rate,
                remaining <= token_amount,
                r0.can_hold(env.outcome_work(started, start, rate)),
                r0.on ==> env.shares_fit(start, rate),
                r0.becomes(*recorder, work),
                work.has_paths(),
                swap_of(
                    token_amount,
                    sqrt_price_limit,
                    whirlpool,
                    tick_sequence@,
                    a_to_b,
                    timestamp,
                    adaptive_fee_info,
                ) == result_of(env.outcome(start), token_amount, a_to_b),
                work_of(
                    work0,
                    token_amount,
                    sqrt_price_limit,
                    whirlpool,
                    tick_sequence@,
                    a_to_b,
                    timestamp,
                    adaptive_fee_info,
                ) == env.outcome_work(started, start, rate),
                *old(recorder) == r0,
                r0.counters@ == work0,
            ensures
                env.leads_with(
                    rate,
                    start,
                    started,
                    WalkPoint::Top { state, remaining, out },
                    work,
                ),
                remaining > 0 && state.sqrt_price != limit ==> {
                    &&& env.is_sound(state)
                    &&& state.tick_index == if a_to_b {
                        leg.index - 1
                    } else {
                        leg.index as int
                    }
                },
            decreases
                    if a_to_b {
                        state.fee_rate_manager.group() + 2_000_000
                    } else {
                        2_000_000 - state.fee_rate_manager.group()
                    },
        {
            let ghost point = WalkPoint::Within { state, leg, remaining, out };
            proof {
                walk::lemma_leads_with_on(env, rate, start, started, point, work);
                walk::lemma_reached(env, state, leg);
                growth::lemma_walk_is_held(env, rate, start, started, point, work, r0);
                if r0.on {
                    walk::lemma_share_fits_there(env, rate, start, started, point, work);
                }
            }
            let stepped = take_step(
                &state,
                &leg,
                remaining,
                out,
                whirlpool.protocol_fee_rate,
                a_to_b,
                recorder,
                Ghost(env),
            );
            proof {
                work = env.after_point(work, point, rate);
            }
            match stepped {
                Ok((after, left, total)) => {
                    state = after;
                    remaining = left;
                    out = total;
                },
                Err(e) => {
                    proof {
                        walk::lemma_outcome_with(
                            env,
                            rate,
                            start,
                            started,
                            WalkPoint::Failed(e),
                            work,
                        );
                    }
                    return Err(e);
                },
            }
            if remaining == 0 || state.sqrt_price == leg.target {
                break;
            }
        }
    }
    proof {
        let top = WalkPoint::Top { state, remaining, out };
        walk::lemma_leads_with_on(env, rate, start, started, top, work);
        walk::lemma_outcome_with(
            env,
            rate,
            start,
            started,
            WalkPoint::Done { remaining, out },
            work,
        );
        counters::law_since_itself_is_none(before);
    }
    let counted = snapshot(recorder).since(&before);
    if a_to_b {
        Ok(SwapResult { token_a: token_amount - remaining, token_b: out, counters: counted })
    } else {
        Ok(SwapResult { token_a: out, token_b: token_amount - remaining, counters: counted })
    }
}

} // verus!
