//! What a walk crosses, told by the ticks of its arrays alone.
//!
//! A leg ends at the nearest initialized tick ahead, and crossing that tick adds its net liquidity on
//! the way up and takes it off on the way down. So the liquidity at any point of a walk is that at its
//! start and the net liquidity of the initialized ticks in between.

use crate::arith;
use crate::error::CoreError;
use crate::tick_array;
use crate::tick_array::{TickArrayFacade, TickFacade, TickSequence, TICK_ARRAY_SIZE};
use crate::tick_math;
use crate::tick_math::{MAX_TICK_INDEX, MIN_TICK_INDEX};
use crate::walk;
use crate::walk::{Leg, SwapEnv, SwapPrefixResume, WalkPoint};
use vstd::prelude::*;

verus! {

/// Slot `j` of array `k` holds an initialized tick within the tick range.
pub open spec fn slot_is_initialized(ticks: TickSequence, k: int, j: int) -> bool {
    &&& 0 <= k < ticks.arrays.len()
    &&& 0 <= j < TICK_ARRAY_SIZE
    &&& ticks.arrays[k].ticks@[j].initialized
    &&& MIN_TICK_INDEX <= slot_index(ticks, k, j) <= MAX_TICK_INDEX
}

/// The tick index of slot `j` of array `k`.
pub open spec fn slot_index(ticks: TickSequence, k: int, j: int) -> int {
    ticks.arrays[k].start_tick_index + j * ticks.spacing
}

/// An initialized slot of an array is an initialized tick, and the tick at its tick index is the one
/// in the slot.
pub proof fn law_initialized_slots_are_ticks(ticks: TickSequence, k: int, j: int)
    requires
        ticks.well_formed(),
        slot_is_initialized(ticks, k, j),
    ensures
        ticks.initialized_at(slot_index(ticks, k, j)),
        ticks.tick_at(slot_index(ticks, k, j)) == ticks.arrays[k].ticks@[j],
{
    let s = ticks.spacing as int;
    let size = TICK_ARRAY_SIZE as int;
    let n = ticks.arrays.len() as int;
    let first = ticks.first();
    let index = slot_index(ticks, k, j);
    let slot = size * k + j;
    assert(ticks.arrays[k].start_tick_index == first + k * (size * s));
    assert(index - first == slot * s) by (nonlinear_arith)
        requires
            index == first + k * (size * s) + j * s,
            slot == size * k + j,
    ;
    arith::lemma_div_mod_unique(slot * s, s, slot, 0);
    arith::lemma_div_mod_unique(slot, size, k, j);
    assert(ticks.arrays.last() == ticks.arrays[n - 1]);
    assert(ticks.arrays[n - 1].start_tick_index == first + (n - 1) * (size * s));
    assert(0 <= slot * s && slot * s <= (n - 1) * (size * s) + size * s - 1) by (nonlinear_arith)
        requires
            0 <= slot,
            slot == size * k + j,
            k <= n - 1,
            j <= size - 1,
            s >= 1,
            size > 0,
    {
        assert(size * k <= size * (n - 1));
        assert(slot <= size * (n - 1) + size - 1);
        assert(slot * s <= (size * (n - 1) + size - 1) * s);
        assert((size * (n - 1) + size - 1) * s == (n - 1) * (size * s) + size * s - s);
    }
}

/// An initialized tick is in a slot of one of the arrays.
pub proof fn law_initialized_ticks_are_in_slots(ticks: TickSequence, index: int) -> (slot: (int, int))
    requires
        ticks.well_formed(),
        ticks.initialized_at(index),
    ensures
        slot_is_initialized(ticks, slot.0, slot.1),
        slot_index(ticks, slot.0, slot.1) == index,
{
    let s = ticks.spacing as int;
    let size = TICK_ARRAY_SIZE as int;
    let first = ticks.first();
    let slot = ticks.slot(index);
    let (k, j) = (slot / size, slot % size);
    tick_array::lemma_slot(ticks, index);
    arith::lemma_div_mod(index - first, s);
    arith::lemma_div_mod(slot, size);
    assert(k >= 0) by (nonlinear_arith)
        requires
            slot == size * k + j,
            0 <= slot,
            j < size,
            size > 0,
    ;
    assert(ticks.arrays[k].start_tick_index == first + k * (size * s));
    assert(slot_index(ticks, k, j) == index) by (nonlinear_arith)
        requires
            slot_index(ticks, k, j) == first + k * (size * s) + j * s,
            slot == size * k + j,
            index - first == s * slot,
    ;
    (k, j)
}

/// Looking down from a tick index finds the nearest initialized slot that is not above it, or the
/// first index that the arrays cover where there is none.
proof fn lemma_nothing_before(ticks: TickSequence, index: int, floor: int, i: int)
    requires
        floor <= i <= index,
        ticks.initialized_at(i),
    ensures
        ticks.last_initialized(index, floor) matches Some(found) && i <= found <= index,
    decreases index - i,
{
    if index > i {
        lemma_nothing_before(ticks, index - 1, floor, i);
    }
}

/// Looking up finds the nearest one above.
proof fn lemma_nothing_between(ticks: TickSequence, index: int, ceiling: int, i: int)
    requires
        index <= i <= ceiling,
        ticks.initialized_at(i),
    ensures
        ticks.first_initialized(index, ceiling) matches Some(found) && index <= found <= i,
    decreases i - index,
{
    if index < i {
        lemma_nothing_between(ticks, index + 1, ceiling, i);
    }
}

/// A leg ends at the nearest initialized tick ahead: on the way down at or below the tick of the
/// state, on the way up above it. It comes with that tick, and no initialized tick lies before it.
/// Where there is none ahead, it ends at the last tick index that the arrays cover.
pub proof fn law_leg_ends_at_the_next_tick(env: SwapEnv, state: SwapPrefixResume, leg: Leg)
    requires
        env.valid(),
        env.leg(state) == Ok::<Leg, CoreError>(leg),
    ensures
        env.a_to_b ==> leg.index <= state.tick_index,
        !env.a_to_b ==> leg.index > state.tick_index,
        forall|i: int|
            #![trigger env.ticks.initialized_at(i)]
            env.ticks.initialized_at(i) ==> if env.a_to_b {
                !(leg.index < i <= state.tick_index)
            } else {
                !(state.tick_index < i < leg.index)
            },
        leg.tick == if env.ticks.initialized_at(leg.index as int) {
            Some(env.ticks.tick_at(leg.index as int))
        } else {
            None::<TickFacade>
        },
        leg.tick is None && env.a_to_b ==> leg.index == if env.ticks.arrays[0].start_tick_index
            > MIN_TICK_INDEX {
            env.ticks.arrays[0].start_tick_index
        } else {
            MIN_TICK_INDEX
        },
        leg.tick is None && !env.a_to_b ==> {
            let end = env.ticks.arrays.last().start_tick_index + TICK_ARRAY_SIZE * env.ticks.spacing
                - 1;
            leg.index == if end < MAX_TICK_INDEX {
                end
            } else {
                MAX_TICK_INDEX as int
            }
        },
        leg.price == tick_math::sqrt_price_at(leg.index as int) as u128,
        leg.target == if env.a_to_b == (leg.price >= env.limit) {
            leg.price
        } else {
            env.limit
        },
{
    let ticks = env.ticks;
    let from = state.tick_index as int;
    tick_array::lemma_last_initialized(ticks, from, ticks.start_index());
    tick_array::lemma_first_initialized(ticks, from + 1, ticks.end_index());
    assert forall|i: int|
        #![trigger ticks.initialized_at(i)]
        ticks.initialized_at(i) implies if env.a_to_b {
        !(leg.index < i <= state.tick_index)
    } else {
        !(state.tick_index < i < leg.index)
    } by {
        if env.a_to_b && i <= from {
            lemma_nothing_before(ticks, from, ticks.start_index(), i);
        }
        if !env.a_to_b && from < i {
            lemma_nothing_between(ticks, from + 1, ticks.end_index(), i);
        }
    }
    if env.a_to_b {
        if leg.tick is None && ticks.initialized_at(leg.index as int) {
            lemma_nothing_before(ticks, from, ticks.start_index(), leg.index as int);
        }
    } else {
        if leg.tick is None && ticks.initialized_at(leg.index as int) {
            lemma_nothing_between(ticks, from + 1, ticks.end_index(), leg.index as int);
        }
    }
}

/// There is a leg wherever the tick of the state is covered by the arrays: on the way down exactly
/// there, on the way up below the last index and not more than one spacing before the first.
pub proof fn law_leg_is_found_within_the_arrays(env: SwapEnv, state: SwapPrefixResume)
    requires
        env.valid(),
    ensures
        ({
            let first = env.ticks.arrays[0].start_tick_index as int;
            let end = env.ticks.arrays.last().start_tick_index + TICK_ARRAY_SIZE * env.ticks.spacing;
            let t = state.tick_index as int;
            match env.leg(state) {
                Ok(_) => if env.a_to_b {
                    MIN_TICK_INDEX <= t <= MAX_TICK_INDEX && first <= t < end
                } else {
                    &&& t < MAX_TICK_INDEX
                    &&& t < end - 1
                    &&& t >= first - env.ticks.spacing || t >= MIN_TICK_INDEX - env.ticks.spacing
                    &&& first > MIN_TICK_INDEX ==> t >= first - env.ticks.spacing
                    &&& first <= MIN_TICK_INDEX ==> t >= MIN_TICK_INDEX - env.ticks.spacing
                },
                Err(e) => {
                    &&& e == CoreError::InvalidTickArraySequence
                    &&& if env.a_to_b {
                        t < MIN_TICK_INDEX || t > MAX_TICK_INDEX || t < first || t >= end
                    } else {
                        ||| t >= MAX_TICK_INDEX
                        ||| t >= end - 1
                        ||| first > MIN_TICK_INDEX && t < first - env.ticks.spacing
                        ||| first <= MIN_TICK_INDEX && t < MIN_TICK_INDEX - env.ticks.spacing
                    }
                },
            }
        }),
{
}

/// The net liquidity of the tick at a tick index, `0` where none is initialized there.
pub open spec fn net_at(ticks: TickSequence, index: int) -> int {
    if ticks.initialized_at(index) {
        ticks.tick_at(index).liquidity_net as int
    } else {
        0
    }
}

/// The net liquidity of all initialized ticks above `low`, up to `high`.
pub open spec fn net_over(ticks: TickSequence, low: int, high: int) -> int
    decreases high - low,
{
    if high <= low {
        0
    } else {
        net_over(ticks, low, high - 1) + net_at(ticks, high)
    }
}

/// The net liquidity of two adjacent ranges adds up.
proof fn lemma_net_splits(ticks: TickSequence, low: int, middle: int, high: int)
    requires
        low <= middle <= high,
    ensures
        net_over(ticks, low, high) == net_over(ticks, low, middle) + net_over(ticks, middle, high),
    decreases high - middle,
{
    if middle < high {
        lemma_net_splits(ticks, low, middle, high - 1);
    }
}

/// A range without initialized ticks has no net liquidity.
proof fn lemma_no_net(ticks: TickSequence, low: int, high: int)
    requires
        forall|i: int| low < i <= high ==> !#[trigger] ticks.initialized_at(i),
    ensures
        net_over(ticks, low, high) == 0,
    decreases high - low,
{
    if low < high {
        lemma_no_net(ticks, low, high - 1);
        assert(!ticks.initialized_at(high));
    }
}

/// The liquidity at a point of a walk is that at its start, less the net liquidity of every
/// initialized tick that was crossed on the way down, or with it on the way up.
pub open spec fn liquidity_adds_up(
    env: SwapEnv,
    origin: SwapPrefixResume,
    point: WalkPoint,
) -> bool {
    let t = origin.tick_index as int;
    match point {
        WalkPoint::Top { state, remaining, .. } => remaining > 0 && state.sqrt_price != env.limit
            ==> if env.a_to_b {
            &&& state.tick_index <= t
            &&& state.liquidity == origin.liquidity - net_over(env.ticks, state.tick_index as int, t)
        } else {
            &&& state.tick_index >= t
            &&& state.liquidity == origin.liquidity + net_over(env.ticks, t, state.tick_index as int)
        },
        WalkPoint::Within { state, leg, .. } => if env.a_to_b {
            &&& leg.index <= t
            &&& state.liquidity == origin.liquidity - net_over(env.ticks, leg.index as int, t)
        } else {
            &&& leg.index > t
            &&& state.liquidity == origin.liquidity + net_over(env.ticks, t, leg.index - 1)
        },
        _ => true,
    }
}

/// The arrays of a sequence are those that are there: an array is among them exactly where it was given,
/// and they are as many as were not missing.
pub proof fn law_present_arrays_are_given(
    arrays: Seq<Option<TickArrayFacade>>,
    array: TickArrayFacade,
)
    ensures
        tick_array::present(arrays).contains(array) <==> arrays.contains(Some(array)),
        tick_array::present(arrays).len() <= arrays.len(),
        tick_array::present(arrays).len() == arrays.len() <==> !arrays.contains(
            None::<TickArrayFacade>,
        ),
    decreases arrays.len(),
{
    if arrays.len() > 0 {
        let earlier = arrays.drop_last();
        let last = arrays.last();
        law_present_arrays_are_given(earlier, array);
        let before = tick_array::present(earlier);
        assert(arrays =~= earlier.push(last));
        assert forall|x: Option<TickArrayFacade>| #[trigger] arrays.contains(x) <==> (
        earlier.contains(x) || x == last) by {
            if earlier.contains(x) {
                let i = choose|i: int| 0 <= i < earlier.len() && earlier[i] == x;
                assert(arrays[i] == x);
            }
            if x == last {
                assert(arrays[arrays.len() - 1] == x);
            }
            if arrays.contains(x) && x != last {
                let i = choose|i: int| 0 <= i < arrays.len() && arrays[i] == x;
                assert(earlier[i] == x);
            }
        }
        if let Some(x) = last {
            let now = tick_array::present(arrays);
            assert(now == before.push(x));
            assert(now[before.len() as int] == x);
            if before.contains(array) {
                let i = choose|i: int| 0 <= i < before.len() && before[i] == array;
                assert(now[i] == array);
            }
            if now.contains(array) && array != x {
                let i = choose|i: int| 0 <= i < now.len() && now[i] == array;
                assert(before[i] == array);
            }
        }
    }
}

/// The leg of a point within one ends at a tick of the arrays, and comes with that tick.
spec fn leg_is_of_the_ticks(env: SwapEnv, point: WalkPoint) -> bool {
    point matches WalkPoint::Within { leg, .. } ==> leg.tick == if env.ticks.initialized_at(
        leg.index as int,
    ) {
        Some(env.ticks.tick_at(leg.index as int))
    } else {
        None::<TickFacade>
    }
}

/// The next point of a walk is sound where the point is.
pub proof fn lemma_next_is_sound(env: SwapEnv, point: WalkPoint)
    requires
        env.valid(),
        env.is_sound_at(point),
    ensures
        env.is_sound_at(env.next(point)),
{
    match point {
        WalkPoint::Top { state, remaining, .. } => {
            if remaining > 0 && state.sqrt_price != env.limit {
                walk::lemma_leg_is_sound(env, state);
            }
        },
        WalkPoint::Within { state, leg, remaining, .. } => {
            walk::lemma_step_is_sound(env, state, leg);
            walk::lemma_reached(env, state, leg);
            if !env.step_of(state, leg).reaches(remaining) {
                walk::lemma_fell_short(env, state, leg, remaining);
            }
        },
        _ => {},
    }
}

/// The next point of a walk has the liquidity that adds up where the point has.
proof fn lemma_liquidity_adds_up(env: SwapEnv, origin: SwapPrefixResume, point: WalkPoint)
    requires
        env.valid(),
        env.is_sound_at(point),
        liquidity_adds_up(env, origin, point),
        leg_is_of_the_ticks(env, point),
    ensures
        liquidity_adds_up(env, origin, env.next(point)),
        leg_is_of_the_ticks(env, env.next(point)),
{
    let ticks = env.ticks;
    let t = origin.tick_index as int;
    match point {
        WalkPoint::Top { state, remaining, .. } => {
            if remaining > 0 && state.sqrt_price != env.limit {
                if let Ok(leg) = env.leg(state) {
                    law_leg_ends_at_the_next_tick(env, state, leg);
                    let at = state.tick_index as int;
                    let end = leg.index as int;
                    if env.a_to_b {
                        lemma_no_net(ticks, end, at);
                        lemma_net_splits(ticks, end, at, t);
                    } else {
                        lemma_no_net(ticks, at, end - 1);
                        lemma_net_splits(ticks, t, at, end - 1);
                    }
                }
            }
        },
        WalkPoint::Within { state, leg, remaining, .. } => {
            walk::lemma_step_is_sound(env, state, leg);
            walk::lemma_reached(env, state, leg);
            if !env.step_of(state, leg).reaches(remaining) {
                walk::lemma_fell_short(env, state, leg, remaining);
            }
            let end = leg.index as int;
            if env.a_to_b {
                lemma_net_splits(ticks, end - 1, end, t);
            } else {
                lemma_net_splits(ticks, t, end - 1, end);
            }
            assert(net_over(ticks, end - 1, end) == net_over(ticks, end - 1, end - 1) + net_at(
                ticks,
                end,
            ));
        },
        _ => {},
    }
}

/// Everywhere on a walk the liquidity is that at its start and the net liquidity of the initialized
/// ticks that it has crossed: taken off on the way down, added on the way up.
pub proof fn law_liquidity_follows_the_ticks(
    env: SwapEnv,
    origin: SwapPrefixResume,
    amount: u64,
    n: nat,
)
    requires
        env.valid(),
        env.is_sound(origin),
    ensures
        liquidity_adds_up(
            env,
            origin,
            env.run(WalkPoint::Top { state: origin, remaining: amount, out: 0 }, n),
        ),
{
    lemma_liquidity_on_the_way(env, origin, amount, n);
}

/// So it is, at every number of points.
proof fn lemma_liquidity_on_the_way(
    env: SwapEnv,
    origin: SwapPrefixResume,
    amount: u64,
    n: nat,
)
    requires
        env.valid(),
        env.is_sound(origin),
    ensures
        ({
            let point = env.run(WalkPoint::Top { state: origin, remaining: amount, out: 0 }, n);
            &&& env.is_sound_at(point)
            &&& liquidity_adds_up(env, origin, point)
            &&& leg_is_of_the_ticks(env, point)
        }),
    decreases n,
{
    let from = WalkPoint::Top { state: origin, remaining: amount, out: 0 };
    walk::lemma_run(env, from, n);
    if n > 0 {
        lemma_liquidity_on_the_way(env, origin, amount, (n - 1) as nat);
        lemma_next_is_sound(env, env.run(from, (n - 1) as nat));
        lemma_liquidity_adds_up(env, origin, env.run(from, (n - 1) as nat));
    }
}

/// A step that lands on the end of its leg crosses the tick there: the walk goes on with the net
/// liquidity of that tick too, and fails exactly where that leaves the range of a liquidity. A step
/// that lands elsewhere crosses nothing.
pub proof fn law_step_crosses_the_tick_it_lands_on(
    env: SwapEnv,
    origin: SwapPrefixResume,
    amount: u64,
    n: nat,
)
    requires
        env.valid(),
        env.is_sound(origin),
    ensures
        ({
            let point = env.run(WalkPoint::Top { state: origin, remaining: amount, out: 0 }, n);
            point matches WalkPoint::Within { state, leg, remaining, out } ==> {
                let t = origin.tick_index as int;
                let end = leg.index as int;
                let crossed = if env.a_to_b {
                    origin.liquidity - net_over(env.ticks, end - 1, t)
                } else {
                    origin.liquidity + net_over(env.ticks, t, end)
                };
                env.step_of(state, leg).step(remaining) matches Ok(step) ==> step.amount_in
                    + step.fee_amount <= remaining ==> out + step.amount_out <= u64::MAX ==> {
                    let landed = step.next_sqrt_price == tick_math::sqrt_price_at(end);
                    match env.next(point) {
                        WalkPoint::Failed(e) => {
                            &&& landed
                            &&& !(0 <= crossed <= u128::MAX)
                            &&& e == CoreError::LiquidityOverflow
                        },
                        WalkPoint::Top { state: after, .. } => {
                            &&& landed ==> after.liquidity == crossed
                            &&& !landed ==> after.liquidity == state.liquidity
                        },
                        WalkPoint::Within { state: after, .. } => {
                            &&& landed ==> after.liquidity == crossed
                            &&& !landed ==> after.liquidity == state.liquidity
                        },
                        WalkPoint::Done { .. } => false,
                    }
                }
            }
        }),
{
    let point = env.run(WalkPoint::Top { state: origin, remaining: amount, out: 0 }, n);
    lemma_liquidity_on_the_way(env, origin, amount, n);
    if let WalkPoint::Within { state, leg, .. } = point {
        let t = origin.tick_index as int;
        let end = leg.index as int;
        if env.a_to_b {
            lemma_net_splits(env.ticks, end - 1, end, t);
        } else {
            lemma_net_splits(env.ticks, t, end - 1, end);
        }
        assert(net_over(env.ticks, end - 1, end) == net_over(env.ticks, end - 1, end - 1) + net_at(
            env.ticks,
            end,
        ));
    }
}

} // verus!
