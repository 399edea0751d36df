//! What the fee rate of a swap is, told by the tick group alone.
//!
//! The fee rate of a step is that of the tick group in which it runs: it grows with the distance of
//! the group from the reference, the same way on both sides, until the volatility is at its maximum.
//! A walk changes the group and nothing else.

use crate::adaptive_fee::{
    AdaptiveFeeConstantsFacade, AdaptiveFeeInfo, AdaptiveFeeVariablesFacade, ReferenceUpdate,
};
use crate::arith;
use crate::error::CoreError;
use crate::fee_rate_manager;
use crate::fee_rate_manager::{AdaptiveFeeRate, FeeRateManager};
use crate::tick_math;
use crate::tick_math::{MAX_SQRT_PRICE, MAX_TICK_INDEX, MIN_SQRT_PRICE, MIN_TICK_INDEX};
use crate::walk;
use crate::walk::{Leg, SwapEnv, SwapPrefixResume, WalkPoint};
use vstd::prelude::*;

verus! {

/// How many tick groups lie between two.
pub open spec fn groups_apart(g: int, r: int) -> int {
    if g >= r {
        g - r
    } else {
        r - g
    }
}

/// The volatility in tick group `g`: that of the reference and `10_000` for each group that it is
/// away from the reference group, up to a maximum.
pub open spec fn volatility_in_group(
    variables: AdaptiveFeeVariablesFacade,
    constants: AdaptiveFeeConstantsFacade,
    g: int,
) -> int {
    let volatility = variables.volatility_reference + 10_000 * groups_apart(
        g,
        variables.tick_group_index_reference as int,
    );
    if volatility < constants.max_volatility_accumulator {
        volatility
    } else {
        constants.max_volatility_accumulator as int
    }
}

/// The fee rate in tick group `g`: the static one and the square of the ticks that the volatility
/// stands for, times the control factor, rounded up, and `100_000` at most.
pub open spec fn rate_in_group(
    static_fee_rate: u16,
    variables: AdaptiveFeeVariablesFacade,
    constants: AdaptiveFeeConstantsFacade,
    g: int,
) -> int {
    let crossed = volatility_in_group(variables, constants, g) * constants.tick_group_size;
    let product = constants.adaptive_fee_control_factor * (crossed * crossed);
    let rate = static_fee_rate + (product + 9_999_999_999_999) / 10_000_000_000_000;
    if rate < 100_000 {
        rate
    } else {
        100_000
    }
}

/// A fee that adapts has the rate of its tick group, in both directions.
pub proof fn law_rate_is_that_of_the_group(adaptive: AdaptiveFeeRate)
    ensures
        adaptive.updated().total_rate() == rate_in_group(
            adaptive.static_fee_rate,
            adaptive.variables,
            adaptive.constants,
            adaptive.tick_group_index as int,
        ),
        adaptive.variables.volatility_reference <= adaptive.constants.max_volatility_accumulator
            ==> adaptive.updated().variables.volatility_accumulator == volatility_in_group(
            adaptive.variables,
            adaptive.constants,
            adaptive.tick_group_index as int,
        ),
{
    let g = adaptive.tick_group_index as int;
    let volatility = volatility_in_group(adaptive.variables, adaptive.constants, g);
    let crossed = volatility * adaptive.constants.tick_group_size;
    let product = adaptive.constants.adaptive_fee_control_factor * (crossed * crossed);
    let d = 10_000_000_000_000int;
    assert(adaptive.updated().variables.volatility_accumulator == volatility);
    arith::lemma_div_mod(product, d);
    if product % d == 0 {
        arith::lemma_div_mod_unique(product + d - 1, d, product / d, d - 1);
    } else {
        arith::lemma_div_mod_unique(
            product + d - 1,
            d,
            product / d + 1,
            product % d - 1,
        );
    }
}

/// Two fees that differ in nothing but the direction and the tick group have the same rate where the
/// groups are as far from the reference, and the one that is further away is never the lower one.
pub proof fn law_rate_grows_with_the_distance(near: AdaptiveFeeRate, far: AdaptiveFeeRate)
    requires
        far.static_fee_rate == near.static_fee_rate,
        far.constants == near.constants,
        far.variables.volatility_reference == near.variables.volatility_reference,
        far.variables.tick_group_index_reference == near.variables.tick_group_index_reference,
        groups_apart(
            near.tick_group_index as int,
            near.variables.tick_group_index_reference as int,
        ) <= groups_apart(
            far.tick_group_index as int,
            far.variables.tick_group_index_reference as int,
        ),
    ensures
        near.updated().total_rate() <= far.updated().total_rate(),
        groups_apart(
            near.tick_group_index as int,
            near.variables.tick_group_index_reference as int,
        ) == groups_apart(
            far.tick_group_index as int,
            far.variables.tick_group_index_reference as int,
        ) ==> near.updated().total_rate() == far.updated().total_rate(),
{
    law_rate_is_that_of_the_group(near);
    law_rate_is_that_of_the_group(far);
    let size = near.constants.tick_group_size as int;
    let control = near.constants.adaptive_fee_control_factor as int;
    let a = volatility_in_group(near.variables, near.constants, near.tick_group_index as int);
    let b = volatility_in_group(far.variables, far.constants, far.tick_group_index as int);
    assert(0 <= a <= b);
    assert(0 <= a * size <= b * size) by (nonlinear_arith)
        requires
            0 <= a <= b,
            size >= 0,
    ;
    let (x, y) = (a * size, b * size);
    assert(x * x <= y * y) by (nonlinear_arith)
        requires
            0 <= x <= y,
    ;
    let (p, q) = (x * x, y * y);
    assert(control * p <= control * q) by (nonlinear_arith)
        requires
            p <= q,
            control >= 0,
    ;
}

/// The two fee rates differ in the tick group and the volatility that was measured there alone.
pub open spec fn same_fee(one: FeeRateManager, other: FeeRateManager) -> bool {
    match (one, other) {
        (
            FeeRateManager::Static { static_fee_rate: s1 },
            FeeRateManager::Static { static_fee_rate: s2 },
        ) => s1 == s2,
        (FeeRateManager::Adaptive(a1), FeeRateManager::Adaptive(a2)) => {
            &&& a1.a_to_b == a2.a_to_b
            &&& a1.static_fee_rate == a2.static_fee_rate
            &&& a1.constants == a2.constants
            &&& a1.variables.volatility_reference == a2.variables.volatility_reference
            &&& a1.variables.tick_group_index_reference == a2.variables.tick_group_index_reference
            &&& a1.core_lower_bound == a2.core_lower_bound
            &&& a1.core_upper_bound == a2.core_upper_bound
        },
        _ => false,
    }
}

/// The state of a point, where it has one.
pub open spec fn state_at(point: WalkPoint) -> Option<SwapPrefixResume> {
    match point {
        WalkPoint::Top { state, .. } => Some(state),
        WalkPoint::Within { state, .. } => Some(state),
        _ => None,
    }
}

/// A step keeps the fee but for the tick group.
proof fn lemma_step_keeps_the_fee(env: SwapEnv, point: WalkPoint)
    ensures
        state_at(env.next(point)) matches Some(after) ==> (state_at(point) matches Some(state)
            && same_fee(state.fee_rate_manager, after.fee_rate_manager)),
{
}

/// A walk keeps the fee that it started with, but for the tick group: the static fee rate, what is
/// constant of it, its reference and the core range.
pub proof fn law_walk_keeps_the_fee(env: SwapEnv, origin: SwapPrefixResume, amount: u64, n: nat)
    ensures
        state_at(
            env.run(WalkPoint::Top { state: origin, remaining: amount, out: 0 }, n),
        ) matches Some(state) ==> same_fee(origin.fee_rate_manager, state.fee_rate_manager),
    decreases n,
{
    let from = WalkPoint::Top { state: origin, remaining: amount, out: 0 };
    walk::lemma_run(env, from, n);
    if n > 0 {
        law_walk_keeps_the_fee(env, origin, amount, (n - 1) as nat);
        lemma_step_keeps_the_fee(env, env.run(from, (n - 1) as nat));
    }
}

/// Every step of a walk pays the fee rate of the tick group in which it runs, over the reference with
/// which the walk started, and the static rate where the fee does not adapt.
pub proof fn law_step_pays_the_rate_of_its_group(
    env: SwapEnv,
    origin: SwapPrefixResume,
    amount: u64,
    n: nat,
)
    ensures
        env.run(
            WalkPoint::Top { state: origin, remaining: amount, out: 0 },
            n,
        ) matches WalkPoint::Within { state, leg, .. } ==> env.step_of(state, leg).fee_rate == (
        match origin.fee_rate_manager {
            FeeRateManager::Static { static_fee_rate } => static_fee_rate as int,
            FeeRateManager::Adaptive(adaptive) => rate_in_group(
                adaptive.static_fee_rate,
                adaptive.variables,
                adaptive.constants,
                state.fee_rate_manager.group(),
            ),
        }),
{
    let point = env.run(WalkPoint::Top { state: origin, remaining: amount, out: 0 }, n);
    law_walk_keeps_the_fee(env, origin, amount, n);
    if let WalkPoint::Within { state, leg, .. } = point {
        if let FeeRateManager::Adaptive(adaptive) = state.fee_rate_manager {
            law_rate_is_that_of_the_group(adaptive);
            if let FeeRateManager::Adaptive(first) = origin.fee_rate_manager {
                assert(rate_in_group(
                    adaptive.static_fee_rate,
                    adaptive.variables,
                    adaptive.constants,
                    adaptive.tick_group_index as int,
                ) == rate_in_group(
                    first.static_fee_rate,
                    first.variables,
                    first.constants,
                    adaptive.tick_group_index as int,
                ));
            }
        }
    }
}

/// The tick group in which a walk goes on after a step: the next one in its direction, and where the
/// fee was not updated on the way, the one after the group that the step ended in, where that is
/// further. A sqrt price at the start of a group ends the group before it on the way up.
pub proof fn law_groups_advance(
    env: SwapEnv,
    state: SwapPrefixResume,
    leg: Leg,
    price: u128,
    after: SwapPrefixResume,
)
    requires
        env.valid(),
        env.is_sound_within(state, leg),
        env.moved(state, leg, price) == Ok::<SwapPrefixResume, CoreError>(after),
        state.fee_rate_manager is Adaptive,
        MIN_SQRT_PRICE <= price <= MAX_SQRT_PRICE,
    ensures
        ({
            let adaptive = state.fee_rate_manager->Adaptive_0;
            let size = adaptive.constants.tick_group_size as int;
            let g = adaptive.tick_group_index as int;
            let next = after.fee_rate_manager.group();
            // A group of the core range, where the fee can change, is followed by the next one.
            let updates = adaptive.constants.adaptive_fee_control_factor != 0 && state.liquidity
                != 0 && (adaptive.core_lower_bound matches Some((low, _)) ==> low <= g) && (
            adaptive.core_upper_bound matches Some((high, _)) ==> g <= high);
            let t = if price == leg.price {
                leg.index as int
            } else {
                tick_math::tick_of(price as nat)
            };
            let at_its_tick = -443_636 <= t <= 443_636 && price == tick_math::sqrt_price_at(t);
            &&& updates ==> next == if env.a_to_b {
                g - 1
            } else {
                g + 1
            }
            &&& !updates && env.a_to_b ==> (next + 1) * size <= t && (next == g - 1 || (next < g - 1
                && t < (next + 2) * size))
            &&& !updates && !env.a_to_b && at_its_tick ==> t <= next * size && (next == g + 1 || (
            next > g + 1 && (next - 1) * size < t))
            &&& !updates && !env.a_to_b && !at_its_tick ==> t < next * size && (next == g + 1 || (
            next > g + 1 && (next - 1) * size <= t))
        }),
{
    let adaptive = state.fee_rate_manager->Adaptive_0;
    let size = adaptive.constants.tick_group_size as int;
    let g = adaptive.tick_group_index as int;
    tick_math::lemma_tick_estimates(price as nat);
    let t = if price == leg.price {
        leg.index as int
    } else {
        tick_math::tick_of(price as nat)
    };
    let q = t / size;
    arith::lemma_div_mod(t, size);
    assert(-500_000 <= q <= 500_000) by (nonlinear_arith)
        requires
            t == size * q + t % size,
            0 <= t % size < size,
            size >= 1,
            -443_637 <= t <= 443_636,
    ;
    assert((q - 1) * size == q * size - size) by (nonlinear_arith);
    assert((q + 1) * size == q * size + size) by (nonlinear_arith);
    assert(q >= g ==> g * size <= q * size) by (nonlinear_arith)
        requires
            size >= 1,
    ;
    assert(q <= g ==> (q + 1) * size <= (g + 1) * size) by (nonlinear_arith)
        requires
            size >= 1,
    ;
    assert(q - 1 <= g ==> q * size <= (g + 1) * size) by (nonlinear_arith)
        requires
            size >= 1,
    ;
}

/// The sqrt price of a tick index, or of the end of the tick range that it is beyond.
pub open spec fn price_of_boundary(tick: int) -> int {
    tick_math::sqrt_price_at(
        if tick < -443_636 {
            -443_636
        } else if tick > 443_636 {
            443_636
        } else {
            tick
        },
    ) as int
}

/// The core range is where the fee changes: from its ends on outwards the volatility is at its
/// maximum, and inside it is not. Its ends are at the sqrt prices of their tick groups, and it has one
/// on a side exactly where that is within the tick range.
pub proof fn law_core_is_where_the_fee_changes(info: AdaptiveFeeInfo, g: int)
    requires
        info.constants.valid(),
        info.variables.valid(info.constants),
    ensures
        ({
            let r = info.variables.tick_group_index_reference as int;
            let size = info.constants.tick_group_size as int;
            let max = info.constants.max_volatility_accumulator as int;
            let full = |h: int| volatility_in_group(info.variables, info.constants, h) == max;
            // The innermost group on a side in which the volatility is at its maximum.
            let lower_edge = g <= r && full(g) && (g == r || !full(g + 1));
            let upper_edge = g >= r && full(g) && (g == r || !full(g - 1));
            &&& lower_edge ==> fee_rate_manager::core_lower(info) == if g * size > MIN_TICK_INDEX {
                Some((g as i32, price_of_boundary(g * size) as u128))
            } else {
                None
            }
            &&& upper_edge ==> fee_rate_manager::core_upper(info) == if (g + 1) * size
                < MAX_TICK_INDEX {
                Some((g as i32, price_of_boundary((g + 1) * size) as u128))
            } else {
                None
            }
            &&& fee_rate_manager::core_lower(info) matches Some((low, _)) ==> {
                &&& low <= r
                &&& g <= low ==> full(g)
                &&& low < g <= r ==> !full(g)
            }
            &&& fee_rate_manager::core_upper(info) matches Some((high, _)) ==> {
                &&& high >= r
                &&& g >= high ==> full(g)
                &&& r <= g < high ==> !full(g)
            }
        }),
{
    let r = info.variables.tick_group_index_reference as int;
    let size = info.constants.tick_group_size as int;
    let max = info.constants.max_volatility_accumulator as int;
    let span = max - info.variables.volatility_reference;
    let radius = fee_rate_manager::core_radius(info);
    fee_rate_manager::lemma_core_range(info);
    arith::lemma_ceil_at_most(span, 10_000, radius);
    arith::lemma_ceil_at_most(span, 10_000, radius - 1);
    assert((g + 1) * size == g * size + size) by (nonlinear_arith);
    assert(g <= r && volatility_in_group(info.variables, info.constants, g) == max ==> r - g
        >= radius);
    assert(g >= r && volatility_in_group(info.variables, info.constants, g) == max ==> g - r
        >= radius);
}

/// A fee that is not updated on the way does not change there: beyond an end of the core range every
/// group further out has the same fee rate.
pub proof fn law_skipped_groups_have_one_rate(
    static_fee_rate: u16,
    info: AdaptiveFeeInfo,
    g: int,
    h: int,
)
    requires
        info.constants.valid(),
        info.variables.valid(info.constants),
        (fee_rate_manager::core_lower(info) matches Some((low, _)) && g < low && h <= low) || (
        fee_rate_manager::core_upper(info) matches Some((high, _)) && g > high && h >= high),
    ensures
        rate_in_group(static_fee_rate, info.variables, info.constants, g) == rate_in_group(
            static_fee_rate,
            info.variables,
            info.constants,
            h,
        ),
{
    law_core_is_where_the_fee_changes(info, g);
    law_core_is_where_the_fee_changes(info, h);
}

/// Where a step stops that heads for a target: there, or while the fee can change at the end of its tick
/// group, whichever comes first. On its way to the core range that is the end of the range.
pub open spec fn is_the_bound(
    adaptive: AdaptiveFeeRate,
    target: u128,
    liquidity: u128,
    bound: int,
) -> bool {
    let size = adaptive.constants.tick_group_size;
    let g = adaptive.tick_group_index as int;
    let below = adaptive.core_lower_bound matches Some((low, _)) && g < low;
    let above = adaptive.core_upper_bound matches Some((high, _)) && g > high;
    let end = if below && !adaptive.a_to_b {
        Some(price_of_boundary((adaptive.core_lower_bound->0).0 * size))
    } else if above && adaptive.a_to_b && !below {
        Some(price_of_boundary(((adaptive.core_upper_bound->0).0 + 1) * size))
    } else if below || above {
        None
    } else if adaptive.a_to_b {
        Some(price_of_boundary(g * size))
    } else {
        Some(price_of_boundary((g + 1) * size))
    };
    &&& adaptive.constants.adaptive_fee_control_factor == 0 || liquidity == 0 ==> bound == target
    &&& adaptive.constants.adaptive_fee_control_factor != 0 && liquidity != 0 ==> match end {
        None => bound == target,
        Some(end) => {
            &&& bound == target || bound == end
            &&& adaptive.a_to_b ==> bound >= target && bound >= end
            &&& !adaptive.a_to_b ==> bound <= target && bound <= end
        },
    }
}

/// The fee is not updated on the way exactly where it cannot change: where it does not adapt, where there
/// is no liquidity, and outside of the core range.
pub open spec fn cannot_change(adaptive: AdaptiveFeeRate, liquidity: u128) -> bool {
    let g = adaptive.tick_group_index as int;
    ||| adaptive.constants.adaptive_fee_control_factor == 0
    ||| liquidity == 0
    ||| adaptive.core_lower_bound matches Some((low, _)) && g < low
    ||| adaptive.core_upper_bound matches Some((high, _)) && g > high
}

/// A fee bounds the step that heads for a target by where its tick group ends, and is skipped exactly
/// where it cannot change.
pub proof fn law_step_stops_at_the_end_of_its_group(
    adaptive: AdaptiveFeeRate,
    target: u128,
    liquidity: u128,
)
    requires
        adaptive.valid(),
    ensures
        is_the_bound(adaptive, target, liquidity, adaptive.bounded(target, liquidity) as int),
        adaptive.skips(liquidity) == cannot_change(adaptive, liquidity),
{
    let size = adaptive.constants.tick_group_size;
    let g = adaptive.tick_group_index as int;
    fee_rate_manager::lemma_group_starts_ordered(g, g + 1, size);
    if let Some((low, _)) = adaptive.core_lower_bound {
        fee_rate_manager::lemma_group_starts_ordered(low as int, low as int, size);
        tick_math::law_sqrt_price_range(fee_rate_manager::clamped(low * size));
    }
    if let Some((high, _)) = adaptive.core_upper_bound {
        fee_rate_manager::lemma_group_starts_ordered(high + 1, high + 1, size);
        tick_math::law_sqrt_price_range(fee_rate_manager::clamped((high + 1) * size));
    }
    tick_math::law_sqrt_price_range(fee_rate_manager::clamped(g * size));
    tick_math::law_sqrt_price_range(fee_rate_manager::clamped((g + 1) * size));
}

/// Every step of a walk starts where the walk is, with its liquidity and in its direction, and heads for
/// where its leg stops, no further than its fee holds.
pub proof fn law_step_of_a_walk_stops_with_its_fee(
    env: SwapEnv,
    state: SwapPrefixResume,
    leg: Leg,
)
    requires
        env.valid(),
        env.is_sound_within(state, leg),
    ensures
        ({
            let step = env.step_of(state, leg);
            &&& step.start == state.sqrt_price
            &&& step.liquidity == state.liquidity
            &&& step.a_to_b == env.a_to_b
            &&& match state.fee_rate_manager {
                FeeRateManager::Static { static_fee_rate } => {
                    &&& step.target == leg.target
                    &&& step.fee_rate == static_fee_rate
                    &&& !state.fee_rate_manager.skips(state.liquidity)
                },
                FeeRateManager::Adaptive(adaptive) => {
                    &&& is_the_bound(adaptive, leg.target, state.liquidity, step.target as int)
                    &&& state.fee_rate_manager.skips(state.liquidity) == cannot_change(
                        adaptive,
                        state.liquidity,
                    )
                },
            }
        }),
{
    if let FeeRateManager::Adaptive(adaptive) = state.fee_rate_manager {
        law_step_stops_at_the_end_of_its_group(adaptive, leg.target, state.liquidity);
    }
}

/// What becomes of the reference at the start of a swap. A clock behind the last use is refused. A
/// reference that is older than an hour, or was not used for the decay period, is forgotten; one that
/// was used within the filter period stays; another moves to the group of the swap and keeps its part
/// of the volatility.
pub proof fn law_reference_follows_the_clock(
    variables: AdaptiveFeeVariablesFacade,
    constants: AdaptiveFeeConstantsFacade,
    group: i32,
    t: u64,
)
    requires
        constants.valid(),
    ensures
        ({
            let moved = variables.last_reference_update_timestamp;
            let major = variables.last_major_swap_timestamp;
            let refused = t < moved || t < major;
            let idle = t - (if moved >= major {
                moved
            } else {
                major
            });
            let updated = variables.with_reference(group, t, constants);
            let branch = variables.reference_update(t, constants);
            &&& branch.number() == if refused {
                0int
            } else if t - moved > 3_600 {
                1
            } else if idle < constants.filter_period {
                2
            } else if idle < constants.decay_period {
                3
            } else {
                4
            }
            &&& refused <==> updated is Err
            &&& updated matches Err(e) ==> e == CoreError::InvalidTimestamp
            &&& updated matches Ok(after) ==> {
                let old = t - moved > 3_600;
                let kept = !old && idle < constants.filter_period;
                let reduced = !old && !kept && idle < constants.decay_period;
                &&& after.last_major_swap_timestamp == major
                &&& after.volatility_accumulator == variables.volatility_accumulator
                &&& kept ==> after == variables
                &&& !kept ==> after.tick_group_index_reference == group
                    && after.last_reference_update_timestamp == t
                &&& reduced ==> 10_000 * after.volatility_reference
                    <= variables.volatility_accumulator * constants.reduction_factor < 10_000 * (
                after.volatility_reference + 1)
                &&& !kept && !reduced ==> after.volatility_reference == 0
                &&& variables.reference_update(t, constants) == if old {
                    ReferenceUpdate::Expired
                } else if kept {
                    ReferenceUpdate::Kept
                } else if reduced {
                    ReferenceUpdate::Reduced
                } else {
                    ReferenceUpdate::Reset
                }
            }
        }),
{
    let product = variables.volatility_accumulator * constants.reduction_factor;
    arith::lemma_div_mod(product, 10_000);
    assert(0 <= product <= variables.volatility_accumulator * 10_000) by (nonlinear_arith)
        requires
            product == variables.volatility_accumulator * constants.reduction_factor,
            0 <= constants.reduction_factor <= 10_000,
            0 <= variables.volatility_accumulator,
    ;
}

/// The branches of `update_reference` are told apart by their numbers, so that two clocks with one number
/// go the same way.
pub proof fn law_branches_are_told_apart(
    variables: AdaptiveFeeVariablesFacade,
    constants: AdaptiveFeeConstantsFacade,
    t1: u64,
    t2: u64,
)
    ensures
        ({
            let one = variables.reference_update(t1, constants);
            let other = variables.reference_update(t2, constants);
            &&& one.number() == other.number() <==> one == other
            &&& one.number() <= 4
        }),
{
}

/// A swap starts with the static fee rate of its pool, in the tick group that holds its tick, over the
/// updated reference, and a fee does not adapt where there is no information on it.
pub proof fn law_swap_starts_in_its_group(
    a_to_b: bool,
    tick: int,
    timestamp: u64,
    static_fee_rate: u16,
    info: Option<AdaptiveFeeInfo>,
)
    requires
        tick_math::tick_in_range(tick),
        info matches Some(info) ==> info.constants.valid() && info.variables.valid(info.constants),
    ensures
        match (FeeRateManager::starting(a_to_b, tick, timestamp, static_fee_rate, info), info) {
            (Ok(FeeRateManager::Static { static_fee_rate: rate }), None) => rate == static_fee_rate,
            (Ok(FeeRateManager::Adaptive(adaptive)), Some(info)) => {
                let size = info.constants.tick_group_size;
                let g = adaptive.tick_group_index;
                &&& adaptive.a_to_b == a_to_b
                &&& adaptive.static_fee_rate == static_fee_rate
                &&& adaptive.constants == info.constants
                &&& g * size <= tick < (g + 1) * size
                &&& info.variables.with_reference(g, timestamp, info.constants) == Ok::<
                    AdaptiveFeeVariablesFacade,
                    CoreError,
                >(adaptive.variables)
                &&& adaptive.core_lower_bound == fee_rate_manager::core_lower(
                    AdaptiveFeeInfo { variables: adaptive.variables, ..info },
                )
                &&& adaptive.core_upper_bound == fee_rate_manager::core_upper(
                    AdaptiveFeeInfo { variables: adaptive.variables, ..info },
                )
            },
            (Err(e), Some(info)) => {
                &&& e == CoreError::InvalidTimestamp
                &&& timestamp < info.variables.last_reference_update_timestamp || timestamp
                    < info.variables.last_major_swap_timestamp
            },
            _ => false,
        },
{
    fee_rate_manager::lemma_starting(a_to_b, tick, timestamp, static_fee_rate, info);
}

} // verus!
