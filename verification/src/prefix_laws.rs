//! What holds of every prefix table, however it came to be built as far as it is.

use crate::adaptive_fee;
use crate::adaptive_fee::AdaptiveFeeInfo;
use crate::amount_laws;
use crate::error::CoreError;
use crate::fee_laws;
use crate::pool::WhirlpoolFacade;
use crate::swap;
use crate::swap_prefix;
use crate::swap_prefix::{
    PrefixTable, SwapPrefixResume, SwapPrefixRow, SwapPrefixTail, SwapPrefixUnit,
};
use crate::swap_step::SwapStepQuote;
use crate::tick_array::TickSequence;
use crate::walk;
use crate::walk::{Leg, SwapEnv};
use crate::walk_laws;
use vstd::prelude::*;

verus! {

/// The rows of a table rise: what they consume rises strictly from above `0`, and what they give
/// never falls.
pub proof fn law_rows_rise(table: PrefixTable, ticks: TickSequence, a_to_b: bool, i: int, j: int)
    requires
        table.tracks(ticks, a_to_b),
        0 <= i < j < table.rows.len(),
    ensures
        0 < table.rows[i].cum_in < table.rows[j].cum_in,
        table.rows[i].cum_out <= table.rows[j].cum_out,
    decreases j - i,
{
    assert(swap_prefix::row_adds_up(table.rows, j, a_to_b));
    if i < j - 1 {
        law_rows_rise(table, ticks, a_to_b, i, j - 1);
    }
}

/// Each row adds to the totals what the `u64::MAX` fill of its sub-step takes and gives. That fill
/// succeeds, reaches its target and takes something.
pub proof fn law_rows_add_up(table: PrefixTable, ticks: TickSequence, a_to_b: bool, k: int)
    requires
        table.tracks(ticks, a_to_b),
        0 <= k < table.rows.len(),
    ensures
        table.rows[k].unit.step(a_to_b).step(u64::MAX) matches Ok(full) && {
            &&& full.next_sqrt_price == table.rows[k].unit.target
            &&& full.amount_in + full.fee_amount > 0
            &&& table.rows[k].cum_in == swap_prefix::total_in(table.rows, k) + full.amount_in
                + full.fee_amount
            &&& table.rows[k].cum_out == swap_prefix::total_out(table.rows, k) + full.amount_out
        },
{
    assert(swap_prefix::row_adds_up(table.rows, k, a_to_b));
    if k > 0 {
        law_rows_rise(table, ticks, a_to_b, k - 1, k);
    }
}

/// What the tail answers past the last row: nothing where the walk stops, what the rows give where
/// it is capped, and a replay of the open step with what is left of the amount.
pub proof fn law_tail_answers(table: PrefixTable, ticks: TickSequence, a_to_b: bool, amount: u64)
    requires
        table.tracks(ticks, a_to_b),
        amount > swap_prefix::total_in(table.rows, table.rows.len() as int),
    ensures
        ({
            let n = table.rows.len() as int;
            let given = swap_prefix::total_out(table.rows, n);
            let left = (amount - swap_prefix::total_in(table.rows, n)) as u64;
            match table.tail {
                SwapPrefixTail::Stop => table.answer(ticks, a_to_b, amount) == 0,
                SwapPrefixTail::Capped => table.answer(ticks, a_to_b, amount) == given,
                SwapPrefixTail::Open(unit) => table.answer(ticks, a_to_b, amount)
                    == unit.replayed(given, left, a_to_b),
                SwapPrefixTail::More(_) => true,
            }
        }),
{
    let env = SwapEnv { ticks, limit: table.limit, a_to_b };
    if let Some(origin) = table.origin {
        swap_prefix::lemma_tail_answers(env, origin, table.rows, table.tail);
        assert(swap_prefix::tail_answers(env, origin, table.rows, table.tail, amount));
    }
}

/// What a row answers: its total to the amount that it ends with, and a replay of its step with what
/// is left to one that ends within it.
pub proof fn law_row_answers(
    table: PrefixTable,
    ticks: TickSequence,
    a_to_b: bool,
    k: int,
    amount: u64,
)
    requires
        table.tracks(ticks, a_to_b),
        0 <= k < table.rows.len(),
        swap_prefix::total_in(table.rows, k) < amount <= table.rows[k].cum_in,
    ensures
        table.answer(ticks, a_to_b, amount) == if amount == table.rows[k].cum_in {
            table.rows[k].cum_out
        } else {
            table.rows[k].unit.replayed(
                swap_prefix::total_out(table.rows, k),
                (amount - swap_prefix::total_in(table.rows, k)) as u64,
                a_to_b,
            )
        },
{
    let env = SwapEnv { ticks, limit: table.limit, a_to_b };
    if let Some(origin) = table.origin {
        assert(swap_prefix::row_answers(env, origin, table.rows, k, amount));
    }
}

/// The inputs of the rows are the amounts at which a row is exhausted: they rise, each is what the steps
/// up to there take, and the amount of each is answered by what the rows up to there give.
pub proof fn law_row_inputs_exhaust_their_rows(
    table: PrefixTable,
    ticks: TickSequence,
    a_to_b: bool,
    k: int,
    amount: u64,
)
    requires
        table.tracks(ticks, a_to_b),
        0 <= k < table.rows.len(),
        amount == table.inputs()[k],
    ensures
        table.inputs().len() == table.rows.len(),
        k > 0 ==> table.inputs()[k - 1] < table.inputs()[k],
        table.answer(ticks, a_to_b, amount) == table.rows[k].cum_out,
        table.rows[k].unit.step(a_to_b).step(u64::MAX) matches Ok(full) && table.inputs()[k] == (
        if k > 0 {
            table.inputs()[k - 1] as int
        } else {
            0
        }) + full.amount_in + full.fee_amount,
{
    law_rows_add_up(table, ticks, a_to_b, k);
    law_row_answers(table, ticks, a_to_b, k, amount);
}

/// A table starts without rows at the sqrt price, the tick and the liquidity of its pool, with its walk
/// still to come; or it has stopped, exactly where the limit is outside the price range or does not lie
/// ahead, where the adaptive fee is not that of the pool, or where the clock is behind it.
pub proof fn law_table_starts_at_its_pool(
    limit: u128,
    pool: WhirlpoolFacade,
    a_to_b: bool,
    timestamp: u64,
    info: Option<AdaptiveFeeInfo>,
)
    requires
        swap::is_valid_swap(limit, pool, a_to_b, info),
    ensures
        ({
            let table = PrefixTable::starting(limit, pool, a_to_b, timestamp, info);
            let end = if limit != 0 {
                limit as int
            } else if a_to_b {
                4295048016
            } else {
                79226673515401279992447579055
            };
            let behind = if a_to_b {
                end >= pool.sqrt_price
            } else {
                end <= pool.sqrt_price
            };
            let late = info matches Some(info) && (timestamp
                < info.variables.last_reference_update_timestamp || timestamp
                < info.variables.last_major_swap_timestamp);
            let refused = !amount_laws::is_a_price(end) || behind || walk_laws::fee_adapts(pool)
                != (info is Some) || late;
            &&& table.limit == end
            &&& table.rows.len() == 0
            &&& refused ==> table.origin is None && table.tail is Stop
            &&& !refused ==> {
                &&& table.tail matches SwapPrefixTail::More(state) && table.origin == Some(*state)
                &&& table.origin matches Some(state) && {
                    &&& state.sqrt_price == pool.sqrt_price
                    &&& state.tick_index == pool.tick_current_index
                    &&& state.liquidity == pool.liquidity
                }
            }
        }),
{
    if swap::limit_error(limit, pool.sqrt_price, a_to_b) is None && swap::has_its_info(pool, info) {
        fee_laws::law_swap_starts_in_its_group(
            a_to_b,
            pool.tick_current_index as int,
            timestamp,
            pool.fee_rate,
            info,
        );
        if let Some(info) = info {
            fee_laws::law_reference_follows_the_clock(
                info.variables,
                info.constants,
                adaptive_fee::tick_group(
                    pool.tick_current_index as int,
                    info.constants.tick_group_size,
                ) as i32,
                timestamp,
            );
        }
    }
}

/// A replay of a step adds what the step gives to what came out before it, with the amount that is left
/// spent on the way. It answers nothing where that amount gets to the target, where the step cannot be
/// computed, and where the total does not fit.
pub proof fn law_replay_is_a_part_of_its_step(
    unit: SwapPrefixUnit,
    out: u64,
    remainder: u64,
    a_to_b: bool,
)
    requires
        amount_laws::is_a_step(unit.step(a_to_b)),
    ensures
        ({
            let s = unit.step(a_to_b);
            let total = unit.replayed(out, remainder, a_to_b);
            &&& s.start == unit.start && s.target == unit.target && s.a_to_b == a_to_b
            &&& s.liquidity == unit.liquidity && s.fee_rate == unit.fee_rate
            &&& amount_laws::covers_the_way(s, remainder) ==> total == 0
            &&& s.step(remainder) is Err ==> total == 0
            &&& !amount_laws::covers_the_way(s, remainder) ==> {
                s.step(remainder) matches Ok(step) ==> {
                    &&& step.amount_in + step.fee_amount == remainder
                    &&& total == if out + step.amount_out <= u64::MAX {
                        out + step.amount_out
                    } else {
                        0
                    }
                }
            }
        }),
{
    amount_laws::law_step_pays_for_its_way(unit.step(a_to_b), remainder);
}

/// A quote only adds rows: those that were built stay as they are, and so does what the table
/// answers to every amount.
pub proof fn law_quotes_only_add_rows(
    table: PrefixTable,
    ticks: TickSequence,
    a_to_b: bool,
    amount: u64,
    other: u64,
)
    requires
        table.tracks(ticks, a_to_b),
    ensures
        table.rows.is_prefix_of(table.quoted_to(ticks, a_to_b, amount as int).rows),
        table.quoted_to(ticks, a_to_b, amount as int).tracks(ticks, a_to_b),
        table.quoted_to(ticks, a_to_b, amount as int).answer(ticks, a_to_b, other) == table.answer(
            ticks,
            a_to_b,
            other,
        ),
{
    swap_prefix::lemma_extended(table, ticks, a_to_b, amount as int);
}

/// A table whose walk has ended stays as it is, whatever it is extended to.
pub proof fn law_ended_table_stays(
    table: PrefixTable,
    ticks: TickSequence,
    a_to_b: bool,
    up_to: int,
)
    requires
        !(table.tail is More),
    ensures
        table.extended(ticks, a_to_b, up_to) == table,
        table.quoted_to(ticks, a_to_b, up_to) == table,
{
}

/// Where there is no leg ahead, the table stops as it is.
pub proof fn law_missing_leg_stops_the_table(
    env: SwapEnv,
    rows: Seq<SwapPrefixRow>,
    state: SwapPrefixResume,
    up_to: int,
)
    requires
        env.valid(),
        env.is_sound(state),
        env.leg(state) is Err,
    ensures
        swap_prefix::legs_built(env, rows, state, up_to) == (rows, SwapPrefixTail::Stop),
{
}

/// A step whose `u64::MAX` fill fails, falls short of its target or makes a total overflow leaves
/// the table open at it, without a row for it.
pub proof fn law_unfilled_step_opens_the_table(
    env: SwapEnv,
    rows: Seq<SwapPrefixRow>,
    state: SwapPrefixResume,
    leg: Leg,
    up_to: int,
)
    requires
        env.valid(),
        env.is_sound_within(state, leg),
        swap_prefix::full_fill(env, rows, state, leg) is None,
    ensures
        swap_prefix::steps_built(env, rows, state, leg, up_to) == (
            rows,
            SwapPrefixTail::Open(swap_prefix::unit_of(env, state, leg)),
        ),
{
}

/// A crossing that fails leaves the table open at its step, without a row for it, and stops it where
/// the step takes nothing.
pub proof fn law_failing_crossing_ends_the_table(
    env: SwapEnv,
    rows: Seq<SwapPrefixRow>,
    state: SwapPrefixResume,
    leg: Leg,
    up_to: int,
)
    requires
        env.valid(),
        env.is_sound_within(state, leg),
        swap_prefix::full_fill(env, rows, state, leg) matches Some(full) && env.moved(
            state,
            leg,
            full.next_sqrt_price,
        ) is Err,
    ensures
        ({
            let full = swap_prefix::full_fill(env, rows, state, leg)->0;
            swap_prefix::steps_built(env, rows, state, leg, up_to) == (
                rows,
                if full.amount_in + full.fee_amount > 0 {
                    SwapPrefixTail::Open(swap_prefix::unit_of(env, state, leg))
                } else {
                    SwapPrefixTail::Stop
                },
            )
        }),
{
}

/// A step that gets to the price limit caps the table behind its row, and one that gets past `up_to`
/// at the end of its leg leaves more to come from there.
pub proof fn law_end_of_a_leg(
    env: SwapEnv,
    rows: Seq<SwapPrefixRow>,
    state: SwapPrefixResume,
    leg: Leg,
    after: SwapPrefixResume,
    up_to: int,
)
    requires
        env.valid(),
        env.is_sound_within(state, leg),
        swap_prefix::full_fill(env, rows, state, leg) matches Some(full) && env.moved(
            state,
            leg,
            full.next_sqrt_price,
        ) == Ok::<SwapPrefixResume, CoreError>(after),
        after.sqrt_price == leg.target,
    ensures
        ({
            let full = swap_prefix::full_fill(env, rows, state, leg)->0;
            let unit = swap_prefix::unit_of(env, state, leg);
            let longer = swap_prefix::with_row(rows, unit, full);
            let built = swap_prefix::steps_built(env, rows, state, leg, up_to);
            &&& after.sqrt_price == env.limit ==> built == (longer, SwapPrefixTail::Capped)
            &&& after.sqrt_price != env.limit && swap_prefix::total_in(longer, longer.len() as int)
                > up_to ==> built == (longer, SwapPrefixTail::More(Box::new(after)))
        }),
{
}

/// What has been built, taken on to an amount.
spec fn taken_on(
    env: SwapEnv,
    built: (Seq<SwapPrefixRow>, SwapPrefixTail),
    up_to: int,
) -> (Seq<SwapPrefixRow>, SwapPrefixTail) {
    match built.1 {
        SwapPrefixTail::More(state) => if swap_prefix::total_in(built.0, built.0.len() as int)
            <= up_to {
            swap_prefix::legs_built(env, built.0, *state, up_to)
        } else {
            built
        },
        _ => built,
    }
}

/// Legs that are built to one amount and then to a larger one are those built to the larger one.
proof fn lemma_legs_taken_on(
    env: SwapEnv,
    rows: Seq<SwapPrefixRow>,
    state: SwapPrefixResume,
    up_to: int,
    further: int,
)
    requires
        env.valid(),
        env.is_sound(state),
        up_to <= further,
    ensures
        taken_on(env, swap_prefix::legs_built(env, rows, state, up_to), further)
            == swap_prefix::legs_built(env, rows, state, further),
    decreases 2 * env.way_from(state) + 1,
{
    walk::lemma_leg_is_sound(env, state);
    if let Ok(leg) = env.leg(state) {
        lemma_steps_taken_on(env, rows, state, leg, up_to, further);
    }
}

/// So are the steps of a leg.
proof fn lemma_steps_taken_on(
    env: SwapEnv,
    rows: Seq<SwapPrefixRow>,
    state: SwapPrefixResume,
    leg: Leg,
    up_to: int,
    further: int,
)
    requires
        env.valid(),
        env.is_sound_within(state, leg),
        up_to <= further,
    ensures
        taken_on(env, swap_prefix::steps_built(env, rows, state, leg, up_to), further)
            == swap_prefix::steps_built(env, rows, state, leg, further),
    decreases 2 * env.way_within(state, leg),
{
    if let Some(full) = swap_prefix::full_fill(env, rows, state, leg) {
        if let Ok(after) = env.moved(state, leg, full.next_sqrt_price) {
            let longer = swap_prefix::with_row(rows, swap_prefix::unit_of(env, state, leg), full);
            walk::lemma_reached(env, state, leg);
            if after.sqrt_price != leg.target {
                lemma_steps_taken_on(env, longer, after, leg, up_to, further);
            } else if after.sqrt_price != env.limit && swap_prefix::total_in(
                longer,
                longer.len() as int,
            ) <= up_to {
                lemma_legs_taken_on(env, longer, after, up_to, further);
            }
        }
    }
}

/// Legs that leave more to come have got past the amount that they were built to.
proof fn lemma_legs_get_past(
    env: SwapEnv,
    rows: Seq<SwapPrefixRow>,
    state: SwapPrefixResume,
    up_to: int,
)
    requires
        env.valid(),
        env.is_sound(state),
    ensures
        ({
            let (built, tail) = swap_prefix::legs_built(env, rows, state, up_to);
            tail is More ==> swap_prefix::total_in(built, built.len() as int) > up_to
        }),
    decreases 2 * env.way_from(state) + 1,
{
    walk::lemma_leg_is_sound(env, state);
    if let Ok(leg) = env.leg(state) {
        lemma_steps_get_past(env, rows, state, leg, up_to);
    }
}

/// So have the steps of a leg.
proof fn lemma_steps_get_past(
    env: SwapEnv,
    rows: Seq<SwapPrefixRow>,
    state: SwapPrefixResume,
    leg: Leg,
    up_to: int,
)
    requires
        env.valid(),
        env.is_sound_within(state, leg),
    ensures
        ({
            let (built, tail) = swap_prefix::steps_built(env, rows, state, leg, up_to);
            tail is More ==> swap_prefix::total_in(built, built.len() as int) > up_to
        }),
    decreases 2 * env.way_within(state, leg),
{
    if let Some(full) = swap_prefix::full_fill(env, rows, state, leg) {
        if let Ok(after) = env.moved(state, leg, full.next_sqrt_price) {
            let longer = swap_prefix::with_row(rows, swap_prefix::unit_of(env, state, leg), full);
            walk::lemma_reached(env, state, leg);
            if after.sqrt_price != leg.target {
                lemma_steps_get_past(env, longer, after, leg, up_to);
            } else if after.sqrt_price != env.limit && swap_prefix::total_in(
                longer,
                longer.len() as int,
            ) <= up_to {
                lemma_legs_get_past(env, longer, after, up_to);
            }
        }
    }
}

/// A table that was extended to an amount, or has quoted it, has an end or consumes more than that: so
/// every amount up to there is answered by what is built. One that consumed more already is left as it
/// is by a quote.
pub proof fn law_table_is_built_past_its_quotes(
    table: PrefixTable,
    ticks: TickSequence,
    a_to_b: bool,
    amount: u64,
)
    requires
        table.tracks(ticks, a_to_b),
    ensures
        ({
            let further = table.extended(ticks, a_to_b, amount as int);
            let quoted = table.quoted_to(ticks, a_to_b, amount as int);
            &&& further.tail is More ==> swap_prefix::total_in(
                further.rows,
                further.rows.len() as int,
            ) > amount
            &&& quoted.tail is More ==> swap_prefix::total_in(
                quoted.rows,
                quoted.rows.len() as int,
            ) > amount
            &&& swap_prefix::total_in(table.rows, table.rows.len() as int) > amount ==> quoted
                == table
        }),
{
    let env = SwapEnv { ticks, limit: table.limit, a_to_b };
    if let SwapPrefixTail::More(state) = table.tail {
        lemma_legs_get_past(env, table.rows, *state, amount as int);
    }
}

/// A row is the step that the walk makes there: its operands are those of the step, and a fill that
/// consumes something adds one row, one that does not adds none.
pub proof fn law_row_is_of_its_step(
    env: SwapEnv,
    rows: Seq<SwapPrefixRow>,
    state: SwapPrefixResume,
    leg: Leg,
    full: SwapStepQuote,
)
    requires
        totals_fit(rows, full),
    ensures
        ({
            let unit = swap_prefix::unit_of(env, state, leg);
            let n = rows.len() as int;
            let longer = swap_prefix::with_row(rows, unit, full);
            let consumed = full.amount_in + full.fee_amount;
            &&& unit.start == state.sqrt_price
            &&& unit.liquidity == state.liquidity
            &&& unit.step(env.a_to_b) == env.step_of(state, leg)
            &&& rows.is_prefix_of(longer)
            &&& consumed == 0 ==> longer.len() == n
            &&& consumed > 0 ==> longer.len() == n + 1 && longer[n].unit == unit
            &&& consumed > 0 && n > 0 ==> longer[n].cum_in == rows[n - 1].cum_in + consumed
                && longer[n].cum_out == rows[n - 1].cum_out + full.amount_out
            &&& consumed > 0 && n == 0 ==> longer[n].cum_in == consumed && longer[n].cum_out
                == full.amount_out
        }),
{
}

/// The totals with a fill fit.
pub open spec fn totals_fit(rows: Seq<SwapPrefixRow>, full: SwapStepQuote) -> bool {
    rows.len() > 0 ==> {
        &&& rows.last().cum_in + full.amount_in + full.fee_amount <= u128::MAX
        &&& rows.last().cum_out + full.amount_out <= u64::MAX
    }
}

/// Two quotes leave the table that a quote of the larger amount leaves.
pub proof fn law_larger_quote_decides(
    table: PrefixTable,
    ticks: TickSequence,
    a_to_b: bool,
    first: u64,
    second: u64,
)
    requires
        table.tracks(ticks, a_to_b),
    ensures
        table.quoted_to(ticks, a_to_b, first as int).quoted_to(ticks, a_to_b, second as int)
            == table.quoted_to(ticks, a_to_b, if first <= second {
            second as int
        } else {
            first as int
        }),
{
    let env = SwapEnv { ticks, limit: table.limit, a_to_b };
    swap_prefix::lemma_extended(table, ticks, a_to_b, first as int);
    if first <= second && table.goes_on_at(first as int) {
        if let SwapPrefixTail::More(state) = table.tail {
            lemma_legs_taken_on(env, table.rows, *state, first as int, second as int);
        }
    }
}

/// The table that quotes of some amounts leave, one after the other.
pub open spec fn quoted_all(
    table: PrefixTable,
    ticks: TickSequence,
    a_to_b: bool,
    amounts: Seq<u64>,
) -> PrefixTable
    decreases amounts.len(),
{
    if amounts.len() == 0 {
        table
    } else {
        quoted_all(table, ticks, a_to_b, amounts.drop_last()).quoted_to(
            ticks,
            a_to_b,
            amounts.last() as int,
        )
    }
}

/// Quotes keep the state from which the walk of a table starts, and its limit.
pub proof fn lemma_quotes_keep_the_start(
    table: PrefixTable,
    ticks: TickSequence,
    a_to_b: bool,
    amounts: Seq<u64>,
)
    ensures
        quoted_all(table, ticks, a_to_b, amounts).origin == table.origin,
        quoted_all(table, ticks, a_to_b, amounts).limit == table.limit,
    decreases amounts.len(),
{
    if amounts.len() > 0 {
        lemma_quotes_keep_the_start(table, ticks, a_to_b, amounts.drop_last());
    }
}

/// The largest of some amounts.
pub open spec fn is_largest(amounts: Seq<u64>, largest: u64) -> bool {
    &&& amounts.contains(largest)
    &&& forall|i: int| 0 <= i < amounts.len() ==> #[trigger] amounts[i] <= largest
}

/// The rows and the tail of a table depend only on where it started and on the largest amount that
/// it has quoted: neither on the other amounts nor on their order.
pub proof fn law_only_the_largest_quote_counts(
    table: PrefixTable,
    ticks: TickSequence,
    a_to_b: bool,
    amounts: Seq<u64>,
    largest: u64,
)
    requires
        table.tracks(ticks, a_to_b),
        is_largest(amounts, largest),
    ensures
        quoted_all(table, ticks, a_to_b, amounts) == table.quoted_to(
            ticks,
            a_to_b,
            largest as int,
        ),
    decreases amounts.len(),
{
    let earlier = amounts.drop_last();
    let last = amounts.last();
    assert(forall|i: int| 0 <= i < earlier.len() ==> earlier[i] == amounts[i]);
    if earlier.len() > 0 {
        let before = lemma_has_largest(earlier);
        law_only_the_largest_quote_counts(table, ticks, a_to_b, earlier, before);
        law_larger_quote_decides(table, ticks, a_to_b, before, last);
        let at = choose|i: int| 0 <= i < amounts.len() && amounts[i] == largest;
        assert(amounts[amounts.len() - 1] <= largest);
        let at_before = choose|i: int| 0 <= i < earlier.len() && earlier[i] == before;
        assert(amounts[at_before] <= largest);
        if at < earlier.len() {
            assert(earlier[at] <= before);
        }
    }
}

/// Some amounts have a largest one.
pub proof fn lemma_has_largest(amounts: Seq<u64>) -> (largest: u64)
    requires
        amounts.len() > 0,
    ensures
        is_largest(amounts, largest),
    decreases amounts.len(),
{
    let last = amounts.last();
    assert(amounts[amounts.len() - 1] == last);
    if amounts.len() == 1 {
        last
    } else {
        let earlier = amounts.drop_last();
        let before = lemma_has_largest(earlier);
        let at = choose|i: int| 0 <= i < earlier.len() && earlier[i] == before;
        assert(amounts[at] == before);
        assert(forall|i: int| 0 <= i < earlier.len() ==> earlier[i] == amounts[i]);
        if before <= last {
            assert forall|i: int| 0 <= i < amounts.len() implies #[trigger] amounts[i] <= last by {
                if i < earlier.len() {
                    assert(earlier[i] <= before);
                }
            }
            last
        } else {
            assert forall|i: int| 0 <= i < amounts.len() implies #[trigger] amounts[i] <= before by {
                if i < earlier.len() {
                    assert(earlier[i] <= before);
                }
            }
            before
        }
    }
}

} // verus!
