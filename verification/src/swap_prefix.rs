//! A prefix table over the walk of [`compute_swap`](crate::swap::compute_swap): the running totals
//! after each sub-step, so that an exact-in quote is a binary search plus one partial fill instead
//! of a walk.
//!
//! **Why a table can exist at all.** A sub-step that *reaches* its bounded target consumes an input
//! that does not depend on the trade — `a_t + fee(a_t)` where `a_t` is the fixed delta to the target
//! and `fee(a_t) = ceil(a_t·D/(D−f)) − a_t` — for an output that does not either, and it leaves
//! behind a state (price, tick, liquidity, the adaptive-fee manager) that is the same for every
//! amount that completes it. The step reaches its target iff `floor(rem·(D−f)/D) ≥ a_t`, which is
//! exactly `rem ≥ ceil(a_t·D/(D−f))`, so the running total of consumed inputs is also the sequence
//! of thresholds at which each further sub-step is entered. The manager's only dependence on the
//! clock is which branch `update_reference` took at construction — the caller keys its table on
//! that
//! ([`reference_branch`](crate::adaptive_fee::AdaptiveFeeVariablesFacade::reference_branch)).
//!
//! **The walk ends three ways, and an amount past the last row must answer as the walk would.**
//! [`SwapPrefixTail::Stop`] is an error that does not depend on the amount (the tick sequence ran
//! out, liquidity overflowed): every such amount quotes `0`. [`SwapPrefixTail::Capped`] is the walk
//! ending normally at the price limit with input left, so it quotes the last row's output.
//! [`SwapPrefixTail::Open`] is a sub-step that no `u64` amount completes *and carries on* — its
//! `u64::MAX` fill errored, fell short of its target, pushed the running total past `u64::MAX`, or
//! its crossing fails — and it is replayed with the remainder, so a partial is the walk's partial
//! and an error is the walk's error. The walk can never continue past such a unit, so no resume
//! state is kept for it.
//!
//! Built incrementally, whole outer steps at a time: the first quote walks just past its own amount
//! and records where it stopped; a smaller amount is a lookup, a larger one resumes.

use crate::adaptive_fee::AdaptiveFeeInfo;
use crate::counters::Recorder;
use crate::fee_rate_manager::FeeRateManager;
use crate::pool::WhirlpoolFacade;
use crate::swap;
use crate::swap_step;
use crate::swap_step::{compute_swap_step, StepSpec, SwapStepQuote};
use crate::tick_array::{TickArraySequence, TickSequence};
use crate::tick_math::{MAX_SQRT_PRICE, MIN_SQRT_PRICE};
use crate::walk;
pub use crate::walk::SwapPrefixResume;
use crate::walk::{find_leg, move_to, Leg, SwapEnv, WalkPoint};
use vstd::prelude::*;

verus! {

/// One sub-step of the walk that consumed input, with the operands a partial fill of it is replayed
/// from.
#[derive(Clone, Copy, Debug, PartialEq, Eq)]
pub struct SwapPrefixUnit {
    pub start: u128,
    pub target: u128,
    pub liquidity: u128,
    pub fee_rate: u32,
}

/// The running totals **after** one consuming sub-step.
#[derive(Clone, Copy, Debug)]
pub struct SwapPrefixRow {
    pub cum_in: u128,
    pub cum_out: u64,
    pub unit: SwapPrefixUnit,
}

/// How the table ends: what an amount past its last row quotes.
#[derive(Clone, Debug)]
pub enum SwapPrefixTail {
    Stop,
    Capped,
    Open(SwapPrefixUnit),
    More(Box<SwapPrefixResume>),
}

impl SwapPrefixUnit {
    /// The operands of the sub-step.
    pub open spec fn step(self, a_to_b: bool) -> StepSpec {
        StepSpec {
            fee_rate: self.fee_rate,
            liquidity: self.liquidity,
            start: self.start,
            target: self.target,
            a_to_b,
        }
    }

    /// What the walk has given once it has filled the sub-step with the remainder, and `0` where
    /// that fails or where it reaches the target.
    pub open spec fn replayed(self, out: u64, remainder: u64, a_to_b: bool) -> u64 {
        match self.step(a_to_b).step(remainder) {
            Err(_) => 0,
            Ok(step) => if step.next_sqrt_price == self.target || out + step.amount_out
                > u64::MAX {
                0
            } else {
                (out + step.amount_out) as u64
            },
        }
    }
}

/// What comes out of a walk, and `0` where it fails.
pub open spec fn output_of(end: WalkPoint) -> u64 {
    match end {
        WalkPoint::Done { out, .. } => out,
        _ => 0,
    }
}

/// The start of a walk that puts in an amount.
pub open spec fn walk_start(origin: SwapPrefixResume, amount: u64) -> WalkPoint {
    WalkPoint::Top { state: origin, remaining: amount, out: 0 }
}

/// The walk that puts in an amount ends and gives `out`.
pub open spec fn gives(env: SwapEnv, origin: SwapPrefixResume, amount: u64, out: u64) -> bool {
    let end = env.outcome(walk_start(origin, amount));
    end.is_end() && output_of(end) == out
}

/// What the first `k` rows consume.
pub open spec fn total_in(rows: Seq<SwapPrefixRow>, k: int) -> int {
    if k == 0 {
        0
    } else {
        rows[k - 1].cum_in as int
    }
}

/// What the first `k` rows give.
pub open spec fn total_out(rows: Seq<SwapPrefixRow>, k: int) -> u64 {
    if k == 0 {
        0
    } else {
        rows[k - 1].cum_out
    }
}

/// An amount that ends within row `k` is answered by a partial fill of it, and one that ends with
/// it by its total.
pub open spec fn row_answers(
    env: SwapEnv,
    origin: SwapPrefixResume,
    rows: Seq<SwapPrefixRow>,
    k: int,
    amount: u64,
) -> bool {
    &&& total_in(rows, k) < amount < rows[k].cum_in ==> gives(
        env,
        origin,
        amount,
        rows[k].unit.replayed(
            total_out(rows, k),
            (amount - total_in(rows, k)) as u64,
            env.a_to_b,
        ),
    )
    &&& amount == rows[k].cum_in ==> gives(env, origin, amount, rows[k].cum_out)
}

/// A row adds to the totals what a fill of its sub-step takes and gives that reaches the target.
pub open spec fn row_adds_up(rows: Seq<SwapPrefixRow>, k: int, a_to_b: bool) -> bool {
    rows[k].unit.step(a_to_b).step(u64::MAX) matches Ok(full) && {
        &&& full.next_sqrt_price == rows[k].unit.target
        &&& rows[k].cum_in == total_in(rows, k) + full.amount_in + full.fee_amount
        &&& rows[k].cum_out == total_out(rows, k) + full.amount_out
    }
}

/// Every row answers as the walk does, and consumes something.
pub open spec fn rows_answer(
    env: SwapEnv,
    origin: SwapPrefixResume,
    rows: Seq<SwapPrefixRow>,
) -> bool {
    &&& forall|i: int, j: int|
        0 <= i < j < rows.len() ==> (#[trigger] rows[i]).cum_in < (#[trigger] rows[j]).cum_in
    &&& forall|k: int| 0 <= k < rows.len() ==> 0 < (#[trigger] rows[k]).cum_in
    &&& forall|k: int|
        0 <= k < rows.len() ==> (#[trigger] rows[k]).unit.step(env.a_to_b).valid()
    &&& forall|k: int| 0 <= k < rows.len() ==> #[trigger] row_adds_up(rows, k, env.a_to_b)
    &&& forall|k: int, amount: u64|
        0 <= k < rows.len() ==> #[trigger] row_answers(env, origin, rows, k, amount)
}

/// The walk that puts in more than the rows consume gets past them to the top of a leg.
pub open spec fn gets_to_top(
    env: SwapEnv,
    origin: SwapPrefixResume,
    rows: Seq<SwapPrefixRow>,
    state: SwapPrefixResume,
    amount: u64,
) -> bool {
    let n = rows.len() as int;
    amount > total_in(rows, n) ==> env.leads(
        walk_start(origin, amount),
        WalkPoint::Top {
            state,
            remaining: (amount - total_in(rows, n)) as u64,
            out: total_out(rows, n),
        },
    )
}

/// The walk that puts in more than the rows consume gets past them within a leg.
pub open spec fn gets_within(
    env: SwapEnv,
    origin: SwapPrefixResume,
    rows: Seq<SwapPrefixRow>,
    state: SwapPrefixResume,
    leg: Leg,
    amount: u64,
) -> bool {
    let n = rows.len() as int;
    amount > total_in(rows, n) ==> env.leads(
        walk_start(origin, amount),
        WalkPoint::Within {
            state,
            leg,
            remaining: (amount - total_in(rows, n)) as u64,
            out: total_out(rows, n),
        },
    )
}

/// What the tail says of an amount past the rows.
pub open spec fn tail_answers(
    env: SwapEnv,
    origin: SwapPrefixResume,
    rows: Seq<SwapPrefixRow>,
    tail: SwapPrefixTail,
    amount: u64,
) -> bool {
    let n = rows.len() as int;
    amount > total_in(rows, n) ==> match tail {
        SwapPrefixTail::Stop => gives(env, origin, amount, 0),
        SwapPrefixTail::Capped => gives(env, origin, amount, total_out(rows, n)),
        SwapPrefixTail::Open(unit) => gives(
            env,
            origin,
            amount,
            unit.replayed(total_out(rows, n), (amount - total_in(rows, n)) as u64, env.a_to_b),
        ),
        SwapPrefixTail::More(state) => gets_to_top(env, origin, rows, *state, amount),
    }
}

/// Every walk that puts in more than the rows consume gets past them to the top of a leg.
pub open spec fn arrives_at_top(
    env: SwapEnv,
    origin: SwapPrefixResume,
    rows: Seq<SwapPrefixRow>,
    state: SwapPrefixResume,
) -> bool {
    forall|amount: u64| #[trigger] gets_to_top(env, origin, rows, state, amount)
}

/// Every walk that puts in more than the rows consume gets past them within a leg.
pub open spec fn arrives_within(
    env: SwapEnv,
    origin: SwapPrefixResume,
    rows: Seq<SwapPrefixRow>,
    state: SwapPrefixResume,
    leg: Leg,
) -> bool {
    &&& env.is_sound_within(state, leg)
    &&& forall|amount: u64| #[trigger] gets_within(env, origin, rows, state, leg, amount)
}

/// The unit of the next step within a leg.
pub open spec fn unit_of(env: SwapEnv, state: SwapPrefixResume, leg: Leg) -> SwapPrefixUnit {
    let step = env.step_of(state, leg);
    SwapPrefixUnit {
        start: step.start,
        target: step.target,
        liquidity: step.liquidity,
        fee_rate: step.fee_rate,
    }
}

/// The `u64::MAX` fill of the next step within a leg, where it reaches its target and the totals
/// with it fit.
pub open spec fn full_fill(
    env: SwapEnv,
    rows: Seq<SwapPrefixRow>,
    state: SwapPrefixResume,
    leg: Leg,
) -> Option<SwapStepQuote> {
    match env.step_of(state, leg).step(u64::MAX) {
        Err(_) => None,
        Ok(full) => if full.next_sqrt_price != env.step_of(state, leg).target || full.amount_in
            + full.fee_amount > u64::MAX || total_out(rows, rows.len() as int) + full.amount_out
            > u64::MAX {
            None
        } else {
            Some(full)
        },
    }
}

/// The rows with that of a fill, where it consumes something.
pub open spec fn with_row(
    rows: Seq<SwapPrefixRow>,
    unit: SwapPrefixUnit,
    full: SwapStepQuote,
) -> Seq<SwapPrefixRow> {
    let n = rows.len() as int;
    let consumed = full.amount_in + full.fee_amount;
    if consumed == 0 {
        rows
    } else {
        rows.push(
            SwapPrefixRow {
                cum_in: (total_in(rows, n) + consumed) as u128,
                cum_out: (total_out(rows, n) + full.amount_out) as u64,
                unit,
            },
        )
    }
}

/// The walk gets to the top of a leg, and there is no such leg.
pub open spec fn stops_at_top(
    env: SwapEnv,
    origin: SwapPrefixResume,
    rows: Seq<SwapPrefixRow>,
    state: SwapPrefixResume,
) -> bool {
    &&& arrives_at_top(env, origin, rows, state)
    &&& state.sqrt_price != env.limit
    &&& env.leg(state) is Err
}

/// The walk gets to a step that any amount completes without consuming anything, and the crossing
/// after it fails.
pub open spec fn stops_within(
    env: SwapEnv,
    origin: SwapPrefixResume,
    rows: Seq<SwapPrefixRow>,
    state: SwapPrefixResume,
    leg: Leg,
) -> bool {
    &&& arrives_within(env, origin, rows, state, leg)
    &&& full_fill(env, rows, state, leg) matches Some(full) && full.amount_in + full.fee_amount == 0
        && env.moved(state, leg, full.next_sqrt_price) is Err
}

/// The walk gets to the price limit.
pub open spec fn caps_at(
    env: SwapEnv,
    origin: SwapPrefixResume,
    rows: Seq<SwapPrefixRow>,
    state: SwapPrefixResume,
) -> bool {
    &&& arrives_at_top(env, origin, rows, state)
    &&& state.sqrt_price == env.limit
}

/// The walk gets to a step whose `u64::MAX` fill fails, falls short of its target or makes a total
/// overflow, or whose crossing fails after it has consumed something.
pub open spec fn opens_at(
    env: SwapEnv,
    origin: SwapPrefixResume,
    rows: Seq<SwapPrefixRow>,
    state: SwapPrefixResume,
    leg: Leg,
) -> bool {
    &&& arrives_within(env, origin, rows, state, leg)
    &&& full_fill(env, rows, state, leg) matches Some(full) ==> full.amount_in + full.fee_amount > 0
        && env.moved(state, leg, full.next_sqrt_price) is Err
}

/// The table can go on from a state: it is sound, before the limit, and the table has no more rows
/// than the walk has come.
pub open spec fn goes_on_from(
    env: SwapEnv,
    rows: Seq<SwapPrefixRow>,
    state: SwapPrefixResume,
) -> bool {
    &&& env.is_sound(state)
    &&& state.sqrt_price != env.limit
    &&& rows.len() + env.way_from(state) <= 3_500_000
}

/// The tail tells how the walk past the rows ended, or where it goes on.
pub open spec fn tail_holds(
    env: SwapEnv,
    origin: SwapPrefixResume,
    rows: Seq<SwapPrefixRow>,
    tail: SwapPrefixTail,
) -> bool {
    match tail {
        SwapPrefixTail::Stop => {
            ||| exists|state: SwapPrefixResume| #[trigger] stops_at_top(env, origin, rows, state)
            ||| exists|state: SwapPrefixResume, leg: Leg| #[trigger]
                stops_within(env, origin, rows, state, leg)
        },
        SwapPrefixTail::Capped => exists|state: SwapPrefixResume| #[trigger]
            caps_at(env, origin, rows, state),
        SwapPrefixTail::Open(unit) => exists|state: SwapPrefixResume, leg: Leg| #[trigger]
            opens_at(env, origin, rows, state, leg) && unit == unit_of(env, state, leg),
        SwapPrefixTail::More(state) => {
            &&& goes_on_from(env, rows, *state)
            &&& arrives_at_top(env, origin, rows, *state)
        },
    }
}

/// The rows and the tail after the legs from a state on, until the rows are past `up_to` or the walk
/// ends.
pub open spec fn legs_built(
    env: SwapEnv,
    rows: Seq<SwapPrefixRow>,
    state: SwapPrefixResume,
    up_to: int,
) -> (Seq<SwapPrefixRow>, SwapPrefixTail)
    decreases 2 * env.way_from(state) + 1,
    when env.valid() && env.is_sound(state)
{
    match env.leg(state) {
        Err(_) => (rows, SwapPrefixTail::Stop),
        Ok(leg) => {
            proof {
                walk::lemma_leg_is_sound(env, state);
            }
            steps_built(env, rows, state, leg, up_to)
        },
    }
}

/// The rows and the tail after the rest of a leg from a state on, and after the legs that follow.
pub open spec fn steps_built(
    env: SwapEnv,
    rows: Seq<SwapPrefixRow>,
    state: SwapPrefixResume,
    leg: Leg,
    up_to: int,
) -> (Seq<SwapPrefixRow>, SwapPrefixTail)
    decreases 2 * env.way_within(state, leg),
    when env.valid() && env.is_sound_within(state, leg)
{
    let unit = unit_of(env, state, leg);
    match full_fill(env, rows, state, leg) {
        None => (rows, SwapPrefixTail::Open(unit)),
        Some(full) => match env.moved(state, leg, full.next_sqrt_price) {
            Err(_) => (
                rows,
                if full.amount_in + full.fee_amount > 0 {
                    SwapPrefixTail::Open(unit)
                } else {
                    SwapPrefixTail::Stop
                },
            ),
            Ok(after) => {
                let longer = with_row(rows, unit, full);
                proof {
                    walk::lemma_reached(env, state, leg);
                }
                if after.sqrt_price != leg.target {
                    steps_built(env, longer, after, leg, up_to)
                } else if after.sqrt_price == env.limit {
                    (longer, SwapPrefixTail::Capped)
                } else if total_in(longer, longer.len() as int) > up_to {
                    (longer, SwapPrefixTail::More(Box::new(after)))
                } else {
                    legs_built(env, longer, after, up_to)
                }
            },
        },
    }
}

/// A prefix table, and the state from which its walk starts where the swap is not refused.
pub ghost struct PrefixTable {
    pub origin: Option<SwapPrefixResume>,
    pub rows: Seq<SwapPrefixRow>,
    pub tail: SwapPrefixTail,
    pub limit: u128,
}

impl PrefixTable {
    /// The table answers every amount as the walk over the ticks does.
    pub open spec fn tracks(self, ticks: TickSequence, a_to_b: bool) -> bool {
        let env = SwapEnv { ticks, limit: self.limit, a_to_b };
        match self.origin {
            None => self.rows.len() == 0 && self.tail is Stop,
            Some(origin) => {
                &&& env.valid()
                &&& rows_answer(env, origin, self.rows)
                &&& tail_holds(env, origin, self.rows, self.tail)
            },
        }
    }

    /// What each row ends with.
    pub open spec fn inputs(self) -> Seq<u128> {
        Seq::new(self.rows.len(), |k: int| self.rows[k].cum_in)
    }

    /// The walk goes on past everything built, and an amount may get there.
    pub open spec fn goes_on_at(self, amount: int) -> bool {
        self.tail is More && total_in(self.rows, self.rows.len() as int) <= amount
    }

    /// The table with the legs that follow, until it is past `up_to` or the walk ends. A table whose
    /// walk has ended stays as it is.
    pub open spec fn extended(self, ticks: TickSequence, a_to_b: bool, up_to: int) -> Self {
        let env = SwapEnv { ticks, limit: self.limit, a_to_b };
        match self.tail {
            SwapPrefixTail::More(state) => {
                let (rows, tail) = legs_built(env, self.rows, *state, up_to);
                PrefixTable { rows, tail, ..self }
            },
            _ => self,
        }
    }

    /// The table once an amount has been quoted: extended just past it, where it was not built that
    /// far.
    pub open spec fn quoted_to(self, ticks: TickSequence, a_to_b: bool, amount: int) -> Self {
        if self.goes_on_at(amount) {
            self.extended(ticks, a_to_b, amount)
        } else {
            self
        }
    }

    /// What an exact-in swap of an amount gives, and `0` where it is refused.
    pub open spec fn answer(self, ticks: TickSequence, a_to_b: bool, amount: u64) -> u64 {
        let env = SwapEnv { ticks, limit: self.limit, a_to_b };
        match self.origin {
            Some(origin) if amount > 0 => output_of(env.outcome(walk_start(origin, amount))),
            _ => 0,
        }
    }
}

/// The walk's running totals for one pool state, direction and reference branch.
#[derive(Clone, Debug)]
pub struct SwapPrefixTable {
    rows: Vec<SwapPrefixRow>,
    tail: SwapPrefixTail,
    /// The clock the table was built against. Any timestamp in the same reference branch walks
    /// identically, so a caller re-running the counted walk for this table's quotes can use it.
    timestamp: u64,
    sqrt_price_limit: u128,
    /// Where the walk starts, unless the swap is refused.
    origin: Option<SwapPrefixResume>,
}

impl View for SwapPrefixTable {
    type V = PrefixTable;

    closed spec fn view(&self) -> PrefixTable {
        PrefixTable {
            origin: self.origin,
            rows: self.rows@,
            tail: self.tail,
            limit: self.sqrt_price_limit,
        }
    }
}

/// The walk that gets to an end gives its output.
proof fn lemma_gives(env: SwapEnv, origin: SwapPrefixResume, amount: u64, end: WalkPoint)
    requires
        env.leads(walk_start(origin, amount), end),
        end.is_end(),
    ensures
        gives(env, origin, amount, output_of(end)),
{
    walk::lemma_outcome(env, walk_start(origin, amount), end);
}

/// A remainder that does not reach the target is answered by a partial fill.
proof fn lemma_partial_answer(
    env: SwapEnv,
    origin: SwapPrefixResume,
    state: SwapPrefixResume,
    leg: Leg,
    amount: u64,
    remaining: u64,
    out: u64,
)
    requires
        env.valid(),
        env.is_sound_within(state, leg),
        env.leads(
            walk_start(origin, amount),
            WalkPoint::Within { state, leg, remaining, out },
        ),
        !env.step_of(state, leg).reaches(remaining),
    ensures
        gives(
            env,
            origin,
            amount,
            unit_of(env, state, leg).replayed(out, remaining, env.a_to_b),
        ),
{
    let start = walk_start(origin, amount);
    let point = WalkPoint::Within { state, leg, remaining, out };
    let step = env.step_of(state, leg);
    assert(unit_of(env, state, leg).step(env.a_to_b) == step);
    walk::lemma_leads_on(env, start, point);
    walk::lemma_fell_short(env, state, leg, remaining);
    let next = env.next(point);
    if next is Failed {
        lemma_gives(env, origin, amount, next);
    } else {
        walk::lemma_leads_on(env, start, next);
        lemma_gives(env, origin, amount, env.next(next));
    }
}

/// A step that the whole range of amounts does not complete is answered by a replay.
proof fn lemma_open_answer(
    env: SwapEnv,
    origin: SwapPrefixResume,
    state: SwapPrefixResume,
    leg: Leg,
    amount: u64,
    remaining: u64,
    out: u64,
)
    requires
        env.valid(),
        env.is_sound_within(state, leg),
        env.leads(
            walk_start(origin, amount),
            WalkPoint::Within { state, leg, remaining, out },
        ),
        env.step_of(state, leg).step(u64::MAX) matches Ok(full) ==> full.next_sqrt_price
            != env.step_of(state, leg).target || out + full.amount_out > u64::MAX || env.moved(
            state,
            leg,
            full.next_sqrt_price,
        ) is Err,
    ensures
        gives(
            env,
            origin,
            amount,
            unit_of(env, state, leg).replayed(out, remaining, env.a_to_b),
        ),
{
    let start = walk_start(origin, amount);
    let point = WalkPoint::Within { state, leg, remaining, out };
    let step = env.step_of(state, leg);
    assert(unit_of(env, state, leg).step(env.a_to_b) == step);
    walk::lemma_step_is_sound(env, state, leg);
    swap_step::law_reach_threshold(step, remaining);
    swap_step::law_reach_threshold(step, u64::MAX);
    if step.reaches(remaining) {
        assert(step.reaches(u64::MAX));
        walk::lemma_leads_on(env, start, point);
        lemma_gives(env, origin, amount, env.next(point));
    } else {
        lemma_partial_answer(env, origin, state, leg, amount, remaining, out);
    }
}

/// A remainder that completes a step leaves the walk behind it.
proof fn lemma_completed(
    env: SwapEnv,
    origin: SwapPrefixResume,
    state: SwapPrefixResume,
    leg: Leg,
    amount: u64,
    remaining: u64,
    out: u64,
    after: SwapPrefixResume,
)
    requires
        env.valid(),
        env.is_sound_within(state, leg),
        env.leads(
            walk_start(origin, amount),
            WalkPoint::Within { state, leg, remaining, out },
        ),
        env.step_of(state, leg).step(u64::MAX) matches Ok(full) && full.next_sqrt_price
            == env.step_of(state, leg).target && out + full.amount_out <= u64::MAX && env.moved(
            state,
            leg,
            full.next_sqrt_price,
        ) == Ok::<SwapPrefixResume, crate::error::CoreError>(after),
    ensures
        ({
            let full = env.step_of(state, leg).step(u64::MAX)->Ok_0;
            let consumed = full.amount_in + full.fee_amount;
            let total = (out + full.amount_out) as u64;
            let left = (remaining - consumed) as u64;
            &&& consumed <= u64::MAX
            &&& consumed == 0 ==> full.amount_out == 0
            &&& remaining < consumed ==> gives(
                env,
                origin,
                amount,
                unit_of(env, state, leg).replayed(out, remaining, env.a_to_b),
            )
            &&& remaining == consumed ==> gives(env, origin, amount, total)
            &&& remaining > consumed && after.sqrt_price == leg.target ==> env.leads(
                walk_start(origin, amount),
                WalkPoint::Top { state: after, remaining: left, out: total },
            )
            &&& remaining > consumed && after.sqrt_price != leg.target ==> env.leads(
                walk_start(origin, amount),
                WalkPoint::Within { state: after, leg, remaining: left, out: total },
            )
        }),
{
    let start = walk_start(origin, amount);
    let point = WalkPoint::Within { state, leg, remaining, out };
    let step = env.step_of(state, leg);
    let full = step.step(u64::MAX)->Ok_0;
    walk::lemma_step_is_sound(env, state, leg);
    if !step.reaches(u64::MAX) {
        walk::lemma_fell_short(env, state, leg, u64::MAX);
    }
    swap_step::law_reached_step_is_fixed(step, remaining);
    swap_step::law_reached_step_is_fixed(step, u64::MAX);
    let consumed = full.amount_in + full.fee_amount;
    if consumed == 0 {
        swap_step::law_nothing_for_nothing(step);
    }
    if remaining < consumed {
        lemma_partial_answer(env, origin, state, leg, amount, remaining, out);
    } else {
        walk::lemma_leads_on(env, start, point);
        if remaining == consumed {
            walk::lemma_leads_on(env, start, env.next(point));
            lemma_gives(env, origin, amount, env.next(env.next(point)));
        }
    }
}

/// A fill that reaches its target consumes no more than was put in.
proof fn lemma_fill_fits(env: SwapEnv, state: SwapPrefixResume, leg: Leg)
    requires
        env.valid(),
        env.is_sound_within(state, leg),
    ensures
        env.step_of(state, leg).step(u64::MAX) matches Ok(full) ==> full.next_sqrt_price
            == env.step_of(state, leg).target ==> full.amount_in + full.fee_amount <= u64::MAX,
{
    let step = env.step_of(state, leg);
    walk::lemma_step_is_sound(env, state, leg);
    if !step.reaches(u64::MAX) {
        walk::lemma_fell_short(env, state, leg, u64::MAX);
    } else if step.full() is Ok {
        swap_step::law_reached_step_is_fixed(step, u64::MAX);
    }
}

/// A fill that reaches its target without consuming anything gives nothing.
proof fn lemma_nothing_given(env: SwapEnv, state: SwapPrefixResume, leg: Leg)
    requires
        env.valid(),
        env.is_sound_within(state, leg),
    ensures
        env.step_of(state, leg).step(u64::MAX) matches Ok(full) ==> full.next_sqrt_price
            == env.step_of(state, leg).target && full.amount_in + full.fee_amount == 0
            ==> full.amount_out == 0,
{
    let step = env.step_of(state, leg);
    walk::lemma_step_is_sound(env, state, leg);
    if !step.reaches(u64::MAX) {
        walk::lemma_fell_short(env, state, leg, u64::MAX);
    } else if step.full() matches Ok(full) && full.amount_in + full.fee_amount == 0 {
        swap_step::law_nothing_for_nothing(step);
    }
}

/// A step that no amount gets past is answered by a replay, and by nothing where it consumes
/// nothing.
proof fn lemma_last_step_answers(
    env: SwapEnv,
    origin: SwapPrefixResume,
    rows: Seq<SwapPrefixRow>,
    state: SwapPrefixResume,
    leg: Leg,
    tail: SwapPrefixTail,
)
    requires
        env.valid(),
        match tail {
            SwapPrefixTail::Open(unit) => unit == unit_of(env, state, leg) && opens_at(
                env,
                origin,
                rows,
                state,
                leg,
            ),
            SwapPrefixTail::Stop => stops_within(env, origin, rows, state, leg),
            _ => false,
        },
    ensures
        tail matches SwapPrefixTail::Open(unit) ==> unit.step(env.a_to_b).valid(),
        forall|amount: u64| #[trigger] tail_answers(env, origin, rows, tail, amount),
{
    walk::lemma_step_is_sound(env, state, leg);
    lemma_fill_fits(env, state, leg);
    let n = rows.len() as int;
    let step = env.step_of(state, leg);
    let out = total_out(rows, n);
    assert forall|amount: u64| #[trigger] tail_answers(env, origin, rows, tail, amount) by {
        assert(gets_within(env, origin, rows, state, leg, amount));
        if amount > total_in(rows, n) {
            let remaining = (amount - total_in(rows, n)) as u64;
            lemma_open_answer(env, origin, state, leg, amount, remaining, out);
            if tail is Stop {
                swap_step::law_reach_threshold(step, remaining);
                swap_step::law_reach_threshold(step, u64::MAX);
            }
        }
    }
}

/// The tail answers every amount past the rows as the walk does.
pub proof fn lemma_tail_answers(
    env: SwapEnv,
    origin: SwapPrefixResume,
    rows: Seq<SwapPrefixRow>,
    tail: SwapPrefixTail,
)
    requires
        env.valid(),
        tail_holds(env, origin, rows, tail),
    ensures
        tail matches SwapPrefixTail::Open(unit) ==> unit.step(env.a_to_b).valid(),
        forall|amount: u64| #[trigger] tail_answers(env, origin, rows, tail, amount),
{
    match tail {
        SwapPrefixTail::Stop => {
            if exists|state: SwapPrefixResume| #[trigger] stops_at_top(env, origin, rows, state) {
                let state = choose|state: SwapPrefixResume| #[trigger]
                    stops_at_top(env, origin, rows, state);
                lemma_leg_entered(env, origin, rows, state);
            } else {
                let (state, leg) = choose|state: SwapPrefixResume, leg: Leg| #[trigger]
                    stops_within(env, origin, rows, state, leg);
                lemma_last_step_answers(env, origin, rows, state, leg, tail);
            }
        },
        SwapPrefixTail::Capped => {
            let state = choose|state: SwapPrefixResume| #[trigger]
                caps_at(env, origin, rows, state);
            lemma_limit_reached(env, origin, rows, state);
        },
        SwapPrefixTail::Open(unit) => {
            let (state, leg) = choose|state: SwapPrefixResume, leg: Leg| #[trigger]
                opens_at(env, origin, rows, state, leg) && unit == unit_of(env, state, leg);
            lemma_last_step_answers(env, origin, rows, state, leg, tail);
        },
        SwapPrefixTail::More(state) => {
            assert forall|amount: u64| #[trigger]
                tail_answers(env, origin, rows, tail, amount) by {
                assert(gets_to_top(env, origin, rows, *state, amount));
            }
        },
    }
}

/// The walk that gets to the top of a leg goes on within it, or fails where there is none.
proof fn lemma_leg_entered(
    env: SwapEnv,
    origin: SwapPrefixResume,
    rows: Seq<SwapPrefixRow>,
    state: SwapPrefixResume,
)
    requires
        state.sqrt_price != env.limit,
        forall|amount: u64| #[trigger] gets_to_top(env, origin, rows, state, amount),
    ensures
        match env.leg(state) {
            Err(_) => forall|amount: u64| #[trigger]
                tail_answers(env, origin, rows, SwapPrefixTail::Stop, amount),
            Ok(leg) => forall|amount: u64| #[trigger]
                gets_within(env, origin, rows, state, leg, amount),
        },
{
    let n = rows.len() as int;
    match env.leg(state) {
        Err(_) => assert forall|amount: u64| #[trigger]
            tail_answers(env, origin, rows, SwapPrefixTail::Stop, amount) by {
            assert(gets_to_top(env, origin, rows, state, amount));
            if amount > total_in(rows, n) {
                let top = WalkPoint::Top {
                    state,
                    remaining: (amount - total_in(rows, n)) as u64,
                    out: total_out(rows, n),
                };
                walk::lemma_leads_on(env, walk_start(origin, amount), top);
                lemma_gives(env, origin, amount, env.next(top));
            }
        },
        Ok(leg) => assert forall|amount: u64| #[trigger]
            gets_within(env, origin, rows, state, leg, amount) by {
            assert(gets_to_top(env, origin, rows, state, amount));
            if amount > total_in(rows, n) {
                let top = WalkPoint::Top {
                    state,
                    remaining: (amount - total_in(rows, n)) as u64,
                    out: total_out(rows, n),
                };
                walk::lemma_leads_on(env, walk_start(origin, amount), top);
            }
        },
    }
}

/// The walk that gets to the limit ends there.
proof fn lemma_limit_reached(
    env: SwapEnv,
    origin: SwapPrefixResume,
    rows: Seq<SwapPrefixRow>,
    state: SwapPrefixResume,
)
    requires
        state.sqrt_price == env.limit,
        forall|amount: u64| #[trigger] gets_to_top(env, origin, rows, state, amount),
    ensures
        forall|amount: u64| #[trigger]
            tail_answers(env, origin, rows, SwapPrefixTail::Capped, amount),
{
    let n = rows.len() as int;
    assert forall|amount: u64| #[trigger]
        tail_answers(env, origin, rows, SwapPrefixTail::Capped, amount) by {
        assert(gets_to_top(env, origin, rows, state, amount));
        if amount > total_in(rows, n) {
            let top = WalkPoint::Top {
                state,
                remaining: (amount - total_in(rows, n)) as u64,
                out: total_out(rows, n),
            };
            walk::lemma_leads_on(env, walk_start(origin, amount), top);
            lemma_gives(env, origin, amount, env.next(top));
        }
    }
}

/// A step is completed by some amount and leads to a state, and the rows are those with its row,
/// where it consumes something.
spec fn completes(
    env: SwapEnv,
    rows: Seq<SwapPrefixRow>,
    state: SwapPrefixResume,
    leg: Leg,
    after: SwapPrefixResume,
    longer: Seq<SwapPrefixRow>,
) -> bool {
    let n = rows.len() as int;
    full_fill(env, rows, state, leg) matches Some(full) && {
        &&& env.moved(state, leg, full.next_sqrt_price) == Ok::<
            SwapPrefixResume,
            crate::error::CoreError,
        >(after)
        &&& longer == with_row(rows, unit_of(env, state, leg), full)
        &&& total_in(rows, n) + full.amount_in + full.fee_amount <= u128::MAX
    }
}

/// An amount that gets to a step which is completed is answered by its row, or gets past it.
proof fn lemma_amount_completed(
    env: SwapEnv,
    origin: SwapPrefixResume,
    rows: Seq<SwapPrefixRow>,
    state: SwapPrefixResume,
    leg: Leg,
    after: SwapPrefixResume,
    longer: Seq<SwapPrefixRow>,
    amount: u64,
)
    requires
        env.valid(),
        env.is_sound_within(state, leg),
        gets_within(env, origin, rows, state, leg, amount),
        completes(env, rows, state, leg, after, longer),
    ensures
        longer.len() > rows.len() ==> row_answers(env, origin, longer, rows.len() as int, amount),
        after.sqrt_price == leg.target ==> gets_to_top(env, origin, longer, after, amount),
        after.sqrt_price != leg.target ==> gets_within(env, origin, longer, after, leg, amount),
        total_out(longer, longer.len() as int) == total_out(rows, rows.len() as int)
            + env.step_of(state, leg).step(u64::MAX)->Ok_0.amount_out,
{
    let n = rows.len() as int;
    let full = env.step_of(state, leg).step(u64::MAX)->Ok_0;
    let consumed = full.amount_in + full.fee_amount;
    if consumed > 0 {
        assert(total_in(longer, n) == total_in(rows, n));
        assert(total_out(longer, n) == total_out(rows, n));
    } else {
        walk::lemma_step_is_sound(env, state, leg);
        if !env.step_of(state, leg).reaches(u64::MAX) {
            walk::lemma_fell_short(env, state, leg, u64::MAX);
        }
        swap_step::law_nothing_for_nothing(env.step_of(state, leg));
    }
    if amount > total_in(rows, n) {
        lemma_completed(
            env,
            origin,
            state,
            leg,
            amount,
            (amount - total_in(rows, n)) as u64,
            total_out(rows, n),
            after,
        );
    }
}

/// A step that is completed leaves a table with its row, where it consumes something, and the walk
/// behind it.
proof fn lemma_row_added(
    env: SwapEnv,
    origin: SwapPrefixResume,
    rows: Seq<SwapPrefixRow>,
    state: SwapPrefixResume,
    leg: Leg,
    after: SwapPrefixResume,
    longer: Seq<SwapPrefixRow>,
)
    requires
        env.valid(),
        env.is_sound_within(state, leg),
        rows_answer(env, origin, rows),
        forall|amount: u64| #[trigger] gets_within(env, origin, rows, state, leg, amount),
        completes(env, rows, state, leg, after, longer),
    ensures
        rows_answer(env, origin, longer),
        total_out(longer, longer.len() as int) == total_out(rows, rows.len() as int)
            + env.step_of(state, leg).step(u64::MAX)->Ok_0.amount_out,
        after.sqrt_price == leg.target ==> forall|amount: u64| #[trigger]
            gets_to_top(env, origin, longer, after, amount),
        after.sqrt_price != leg.target ==> forall|amount: u64| #[trigger]
            gets_within(env, origin, longer, after, leg, amount),
{
    let n = rows.len() as int;
    assert(gets_within(env, origin, rows, state, leg, 0));
    lemma_amount_completed(env, origin, rows, state, leg, after, longer, 0);
    if longer.len() > n {
        assert forall|amount: u64| #[trigger] row_answers(env, origin, longer, n, amount) by {
            assert(gets_within(env, origin, rows, state, leg, amount));
            lemma_amount_completed(env, origin, rows, state, leg, after, longer, amount);
        }
        walk::lemma_step_is_sound(env, state, leg);
        lemma_rows_answer_with_another(env, origin, rows, longer[n]);
    }
    if after.sqrt_price == leg.target {
        assert forall|amount: u64| #[trigger]
            gets_to_top(env, origin, longer, after, amount) by {
            assert(gets_within(env, origin, rows, state, leg, amount));
            lemma_amount_completed(env, origin, rows, state, leg, after, longer, amount);
        }
    } else {
        assert forall|amount: u64| #[trigger]
            gets_within(env, origin, longer, after, leg, amount) by {
            assert(gets_within(env, origin, rows, state, leg, amount));
            lemma_amount_completed(env, origin, rows, state, leg, after, longer, amount);
        }
    }
}

/// Each row adds at most two `u64` amounts.
proof fn lemma_totals_are_bounded(rows: Seq<SwapPrefixRow>, a_to_b: bool, k: int)
    requires
        0 <= k <= rows.len(),
        forall|i: int| 0 <= i < rows.len() ==> #[trigger] row_adds_up(rows, i, a_to_b),
    ensures
        0 <= total_in(rows, k) <= 2 * u64::MAX * k,
    decreases k,
{
    if k > 0 {
        lemma_totals_are_bounded(rows, a_to_b, k - 1);
        assert(row_adds_up(rows, k - 1, a_to_b));
    }
}

/// The legs that are built from a state on leave rows and a tail that answer as the walk does, and
/// that are past `up_to` where the walk goes on.
proof fn lemma_legs_built(
    env: SwapEnv,
    origin: SwapPrefixResume,
    rows: Seq<SwapPrefixRow>,
    state: SwapPrefixResume,
    up_to: int,
)
    requires
        env.valid(),
        goes_on_from(env, rows, state),
        rows_answer(env, origin, rows),
        arrives_at_top(env, origin, rows, state),
    ensures
        ({
            let (built, tail) = legs_built(env, rows, state, up_to);
            &&& rows_answer(env, origin, built)
            &&& tail_holds(env, origin, built, tail)
            &&& rows.is_prefix_of(built)
            &&& tail is More ==> total_in(built, built.len() as int) > up_to
        }),
    decreases 2 * env.way_from(state) + 1,
{
    walk::lemma_leg_is_sound(env, state);
    lemma_leg_entered(env, origin, rows, state);
    match env.leg(state) {
        Err(_) => {
            assert(stops_at_top(env, origin, rows, state));
        },
        Ok(leg) => {
            lemma_steps_built(env, origin, rows, state, leg, up_to);
        },
    }
}

/// The steps that are built from a state within a leg on do so too.
proof fn lemma_steps_built(
    env: SwapEnv,
    origin: SwapPrefixResume,
    rows: Seq<SwapPrefixRow>,
    state: SwapPrefixResume,
    leg: Leg,
    up_to: int,
)
    requires
        env.valid(),
        rows.len() + env.way_within(state, leg) <= 3_500_000,
        env.way_within(state, leg) >= 0,
        rows_answer(env, origin, rows),
        arrives_within(env, origin, rows, state, leg),
    ensures
        ({
            let (built, tail) = steps_built(env, rows, state, leg, up_to);
            &&& rows_answer(env, origin, built)
            &&& tail_holds(env, origin, built, tail)
            &&& rows.is_prefix_of(built)
            &&& tail is More ==> total_in(built, built.len() as int) > up_to
        }),
    decreases 2 * env.way_within(state, leg),
{
    match full_fill(env, rows, state, leg) {
        None => {
            assert(opens_at(env, origin, rows, state, leg));
        },
        Some(full) => match env.moved(state, leg, full.next_sqrt_price) {
            Err(_) => {
                if full.amount_in + full.fee_amount > 0 {
                    assert(opens_at(env, origin, rows, state, leg));
                } else {
                    assert(stops_within(env, origin, rows, state, leg));
                }
            },
            Ok(after) => {
                let longer = with_row(rows, unit_of(env, state, leg), full);
                lemma_totals_are_bounded(rows, env.a_to_b, rows.len() as int);
                walk::lemma_reached(env, state, leg);
                lemma_row_added(env, origin, rows, state, leg, after, longer);
                if after.sqrt_price != leg.target {
                    lemma_steps_built(env, origin, longer, after, leg, up_to);
                } else if after.sqrt_price == env.limit {
                    assert(caps_at(env, origin, longer, after));
                } else if total_in(longer, longer.len() as int) <= up_to {
                    lemma_legs_built(env, origin, longer, after, up_to);
                }
            },
        },
    }
}

/// An extension keeps a table to its walk, only adds rows, and takes it past `up_to` where the walk
/// goes on.
pub proof fn lemma_extended(table: PrefixTable, ticks: TickSequence, a_to_b: bool, up_to: int)
    requires
        table.tracks(ticks, a_to_b),
    ensures
        table.extended(ticks, a_to_b, up_to).tracks(ticks, a_to_b),
        table.rows.is_prefix_of(table.extended(ticks, a_to_b, up_to).rows),
        !table.extended(ticks, a_to_b, up_to).goes_on_at(up_to),
{
    let env = SwapEnv { ticks, limit: table.limit, a_to_b };
    if let SwapPrefixTail::More(state) = table.tail {
        lemma_legs_built(env, table.origin->0, table.rows, *state, up_to);
    }
}

/// The rows keep their answers while others come after them.
proof fn lemma_rows_answer_with_another(
    env: SwapEnv,
    origin: SwapPrefixResume,
    rows: Seq<SwapPrefixRow>,
    row: SwapPrefixRow,
)
    requires
        rows_answer(env, origin, rows),
        row.cum_in > total_in(rows, rows.len() as int),
        row.unit.step(env.a_to_b).valid(),
        row_adds_up(rows.push(row), rows.len() as int, env.a_to_b),
        forall|amount: u64| #[trigger]
            row_answers(env, origin, rows.push(row), rows.len() as int, amount),
    ensures
        rows_answer(env, origin, rows.push(row)),
{
    let longer = rows.push(row);
    assert forall|k: int| 0 <= k < longer.len() implies #[trigger] row_adds_up(
        longer,
        k,
        env.a_to_b,
    ) by {
        if k < rows.len() {
            assert(row_adds_up(rows, k, env.a_to_b));
        }
    }
    assert forall|k: int, amount: u64| 0 <= k < longer.len() implies #[trigger] row_answers(
        env,
        origin,
        longer,
        k,
        amount,
    ) by {
        if k < rows.len() {
            assert(row_answers(env, origin, rows, k, amount));
        }
    }
    assert forall|i: int, j: int| 0 <= i < j < longer.len() implies (
    #[trigger] longer[i]).cum_in < (#[trigger] longer[j]).cum_in by {
        if j == rows.len() && i < rows.len() - 1 {
            assert(rows[i].cum_in < rows[rows.len() - 1].cum_in);
        }
    }
}

/// The state from which the walk of a swap starts, where the swap is not refused.
pub open spec fn origin_of(
    sqrt_price_limit: u128,
    pool: WhirlpoolFacade,
    a_to_b: bool,
    timestamp: u64,
    info: Option<AdaptiveFeeInfo>,
) -> Option<SwapPrefixResume> {
    if swap::limit_error(sqrt_price_limit, pool.sqrt_price, a_to_b) is Some {
        None
    } else {
        match swap::starting_state(pool, a_to_b, timestamp, info) {
            Ok(state) => Some(state),
            Err(_) => None,
        }
    }
}

impl PrefixTable {
    /// A table that has not walked yet. It stops at once where the swap is refused.
    pub open spec fn starting(
        sqrt_price_limit: u128,
        pool: WhirlpoolFacade,
        a_to_b: bool,
        timestamp: u64,
        info: Option<AdaptiveFeeInfo>,
    ) -> Self {
        let origin = origin_of(sqrt_price_limit, pool, a_to_b, timestamp, info);
        PrefixTable {
            origin,
            rows: Seq::empty(),
            tail: match origin {
                None => SwapPrefixTail::Stop,
                Some(state) => SwapPrefixTail::More(Box::new(state)),
            },
            limit: swap::limit_of(sqrt_price_limit, a_to_b),
        }
    }
}

/// A table that has not walked yet tracks the walk.
pub proof fn lemma_starting_tracks(
    sqrt_price_limit: u128,
    pool: WhirlpoolFacade,
    ticks: TickSequence,
    a_to_b: bool,
    timestamp: u64,
    info: Option<AdaptiveFeeInfo>,
)
    requires
        swap::is_valid_swap(sqrt_price_limit, pool, a_to_b, info),
        ticks.well_formed(),
    ensures
        PrefixTable::starting(sqrt_price_limit, pool, a_to_b, timestamp, info).tracks(
            ticks,
            a_to_b,
        ),
{
    let table = PrefixTable::starting(sqrt_price_limit, pool, a_to_b, timestamp, info);
    let env = SwapEnv { ticks, limit: table.limit, a_to_b };
    if let Some(origin) = table.origin {
        swap::lemma_start_is_sound(sqrt_price_limit, pool, ticks, a_to_b, timestamp, info);
        walk::lemma_leg_is_sound(env, origin);
        assert forall|amount: u64| #[trigger]
            gets_to_top(env, origin, table.rows, origin, amount) by {
            walk::lemma_leads_to_itself(env, walk_start(origin, amount));
        }
    }
}

/// One sub-step filled with the remainder `r`, through the walk's own `compute_swap_step` on the
/// walk's own operands, with the walk's own checked arithmetic — so an error here is the walk's
/// error (`0`).
///
/// A replay that **reaches** its target answers 0. On a row that is only ever partial-filled here
/// (`r` is below its consumption by construction) that never fires; on an `Open` unit it is the
/// definition — no amount completes an `Open` unit *and carries on*: either the fill itself fails at
/// any amount that reaches (an amount-independent error, or the running total overflowing), or the
/// crossing after it does.
pub fn replay(unit: SwapPrefixUnit, out: u64, r: u64, a_to_b: bool) -> (total: u64)
    requires
        unit.step(a_to_b).valid(),
    ensures
        total == unit.replayed(out, r, a_to_b),
{
    let mut uncounted = Recorder::new();
    let step = compute_swap_step(
        r,
        unit.fee_rate,
        unit.liquidity,
        unit.start,
        unit.target,
        a_to_b,
        &mut uncounted,
    );
    match step {
        Ok(step) => if step.next_sqrt_price == unit.target {
            0
        } else {
            match out.checked_add(step.amount_out) {
                Some(total) => total,
                None => 0,
            }
        },
        Err(_) => 0,
    }
}

impl SwapPrefixTable {
    /// An empty table positioned where the walk starts. Runs `compute_swap`'s gates in its order —
    /// limit bounds, direction, adaptive-info consistency, `FeeRateManager::new` (whose
    /// `update_reference` can refuse the timestamp) — each a `Stop`. The zero-amount gate is the
    /// caller's. With `sqrt_price_limit == 0` the direction's extreme is used, as `compute_swap`
    /// does.
    pub fn start(
        sqrt_price_limit: u128,
        whirlpool: WhirlpoolFacade,
        a_to_b: bool,
        timestamp: u64,
        adaptive_fee_info: Option<AdaptiveFeeInfo>,
    ) -> (table: Self)
        requires
            swap::is_valid_swap(sqrt_price_limit, whirlpool, a_to_b, adaptive_fee_info),
        ensures
            table@ == PrefixTable::starting(
                sqrt_price_limit,
                whirlpool,
                a_to_b,
                timestamp,
                adaptive_fee_info,
            ),
            table.built_at() == timestamp,
            forall|ticks: TickSequence|
                #![trigger table@.tracks(ticks, a_to_b)]
                ticks.well_formed() ==> table@.tracks(ticks, a_to_b),
    {
        let limit: u128 = if sqrt_price_limit == 0 {
            if a_to_b {
                MIN_SQRT_PRICE
            } else {
                MAX_SQRT_PRICE
            }
        } else {
            sqrt_price_limit
        };
        let mut uncounted = Recorder::new();
        let mut tail = SwapPrefixTail::Stop;
        let mut origin: Option<SwapPrefixResume> = None;
        if MIN_SQRT_PRICE <= limit && limit <= MAX_SQRT_PRICE && !(a_to_b && limit
            >= whirlpool.sqrt_price || !a_to_b && limit <= whirlpool.sqrt_price)
            && whirlpool.is_initialized_with_adaptive_fee() == adaptive_fee_info.is_some() {
            match FeeRateManager::new(
                a_to_b,
                whirlpool.tick_current_index,
                timestamp,
                whirlpool.fee_rate,
                &adaptive_fee_info,
                &mut uncounted,
            ) {
                Ok(fee_rate_manager) => {
                    let resume = SwapPrefixResume {
                        sqrt_price: whirlpool.sqrt_price,
                        tick_index: whirlpool.tick_current_index,
                        liquidity: whirlpool.liquidity,
                        fee_rate_manager,
                    };
                    tail = SwapPrefixTail::More(Box::new(resume));
                    origin = Some(resume);
                },
                Err(_) => {},
            }
        }
        let table = SwapPrefixTable {
            rows: Vec::new(),
            tail,
            timestamp,
            sqrt_price_limit: limit,
            origin,
        };
        proof {
            assert(table@.rows =~= Seq::empty());
            assert forall|ticks: TickSequence| ticks.well_formed() implies #[trigger] table@.tracks(
                ticks,
                a_to_b,
            ) by {
                lemma_starting_tracks(
                    sqrt_price_limit,
                    whirlpool,
                    ticks,
                    a_to_b,
                    timestamp,
                    adaptive_fee_info,
                );
            }
        }
        table
    }

    /// The clock this table was built against.
    pub closed spec fn built_at(&self) -> u64 {
        self.timestamp
    }

    /// The clock this table was built against.
    pub fn timestamp(&self) -> (r: u64)
        ensures
            r == self.built_at(),
    {
        self.timestamp
    }

    /// The rows that have been built.
    pub fn rows(&self) -> (r: &Vec<SwapPrefixRow>)
        ensures
            r@ == self@.rows,
    {
        &self.rows
    }

    /// How the table ends.
    pub fn tail(&self) -> (r: &SwapPrefixTail)
        ensures
            *r == self@.tail,
    {
        &self.tail
    }

    /// The input at which each row's sub-step is exactly exhausted — a test instrument, for quoting
    /// at every boundary and one unit either side.
    pub fn row_inputs(&self) -> (r: Vec<u128>)
        ensures
            r@ == self@.inputs(),
            r@.len() == self@.rows.len(),
            forall|k: int| 0 <= k < r@.len() ==> #[trigger] r@[k] == self@.rows[k].cum_in,
    {
        let mut inputs: Vec<u128> = Vec::new();
        let mut k: usize = 0;
        while k < self.rows.len()
            invariant
                k <= self.rows@.len(),
                inputs@.len() == k,
                forall|j: int| 0 <= j < k ==> #[trigger] inputs@[j] == self.rows@[j].cum_in,
            decreases self.rows@.len() - k,
        {
            inputs.push(self.rows[k].cum_in);
            k = k + 1;
        }
        inputs
    }

    /// Resume the walk from `More` and run whole outer steps of `compute_swap`'s loop, every
    /// sub-step filled with `u64::MAX`, until a row is past `up_to` or the walk ends. This is
    /// `compute_swap`'s control flow — the tick lookup, the limit clamp, the accumulator update,
    /// `get_bounded_sqrt_price_target`, the crossing, the tick-group advance — minus everything that
    /// does not feed the output.
    #[verifier::rlimit(40)]
    fn extend(&mut self, up_to: u128, tick_sequence: &TickArraySequence, a_to_b: bool)
        requires
            tick_sequence@.well_formed(),
            old(self)@.tracks(tick_sequence@, a_to_b),
        ensures
            final(self)@ == old(self)@.extended(tick_sequence@, a_to_b, up_to as int),
            final(self).built_at() == old(self).built_at(),
            final(self)@.tracks(tick_sequence@, a_to_b),
            old(self)@.rows.is_prefix_of(final(self)@.rows),
            !final(self)@.goes_on_at(up_to as int),
    {
        proof {
            lemma_extended(self@, tick_sequence@, a_to_b, up_to as int);
        }
        let mut rs: SwapPrefixResume = match &self.tail {
            SwapPrefixTail::More(resume) => **resume,
            _ => return,
        };
        let built: usize = self.rows.len();
        let mut cum_in: u128 = 0;
        let mut cum_out: u64 = 0;
        if built > 0 {
            cum_in = self.rows[built - 1].cum_in;
            cum_out = self.rows[built - 1].cum_out;
        }
        let limit: u128 = self.sqrt_price_limit;
        let mut uncounted = Recorder::new();
        let ghost env = SwapEnv { ticks: tick_sequence@, limit, a_to_b };
        let ghost extended = legs_built(env, self.rows@, rs, up_to as int);
        proof {
            lemma_totals_are_bounded(self.rows@, a_to_b, self.rows@.len() as int);
        }
        loop
            invariant
                !uncounted.on,
                env.valid(),
                env.ticks == tick_sequence@,
                env.limit == limit,
                env.a_to_b == a_to_b,
                self.sqrt_price_limit == limit,
                self.origin == old(self)@.origin,
                self.sqrt_price_limit == old(self)@.limit,
                self.timestamp == old(self).built_at(),
                goes_on_from(env, self.rows@, rs),
                extended == legs_built(env, self.rows@, rs, up_to as int),
                (PrefixTable { rows: extended.0, tail: extended.1, ..old(self)@ }) == old(
                    self,
                )@.extended(tick_sequence@, a_to_b, up_to as int),
                old(self)@.extended(tick_sequence@, a_to_b, up_to as int).tracks(
                    tick_sequence@,
                    a_to_b,
                ),
                old(self)@.rows.is_prefix_of(
                    old(self)@.extended(tick_sequence@, a_to_b, up_to as int).rows,
                ),
                !old(self)@.extended(tick_sequence@, a_to_b, up_to as int).goes_on_at(
                    up_to as int,
                ),
                cum_in == total_in(self.rows@, self.rows@.len() as int),
                cum_out == total_out(self.rows@, self.rows@.len() as int),
                cum_in <= 2 * u64::MAX * self.rows@.len(),
            decreases env.way_from(rs),
        {
            proof {
                walk::lemma_leg_is_sound(env, rs);
            }
            let leg = match find_leg(&rs, tick_sequence, limit, a_to_b, &mut uncounted) {
                Ok(leg) => leg,
                Err(_) => {
                    self.tail = SwapPrefixTail::Stop;
                    return;
                },
            };
            let ghost way = env.way_from(rs);
            loop
                invariant_except_break
                    env.is_sound_within(rs, leg),
                    0 <= env.way_within(rs, leg) <= way,
                    self.rows@.len() + env.way_within(rs, leg) <= 3_500_000,
                    extended == steps_built(env, self.rows@, rs, leg, up_to as int),
                invariant
                    !uncounted.on,
                    env.valid(),
                    env.ticks == tick_sequence@,
                    env.limit == limit,
                    env.a_to_b == a_to_b,
                    self.sqrt_price_limit == limit,
                    self.origin == old(self)@.origin,
                    self.sqrt_price_limit == old(self)@.limit,
                    self.timestamp == old(self).built_at(),
                    (PrefixTable { rows: extended.0, tail: extended.1, ..old(self)@ }) == old(
                        self,
                    )@.extended(tick_sequence@, a_to_b, up_to as int),
                    old(self)@.extended(tick_sequence@, a_to_b, up_to as int).tracks(
                        tick_sequence@,
                        a_to_b,
                    ),
                    old(self)@.rows.is_prefix_of(
                        old(self)@.extended(tick_sequence@, a_to_b, up_to as int).rows,
                    ),
                    !old(self)@.extended(tick_sequence@, a_to_b, up_to as int).goes_on_at(
                        up_to as int,
                    ),
                    cum_in == total_in(self.rows@, self.rows@.len() as int),
                    cum_out == total_out(self.rows@, self.rows@.len() as int),
                    cum_in <= 2 * u64::MAX * self.rows@.len(),
                ensures
                    extended == (if rs.sqrt_price == limit {
                        (self.rows@, SwapPrefixTail::Capped)
                    } else if cum_in > up_to {
                        (self.rows@, SwapPrefixTail::More(Box::new(rs)))
                    } else {
                        legs_built(env, self.rows@, rs, up_to as int)
                    }),
                    rs.sqrt_price != limit ==> {
                        &&& goes_on_from(env, self.rows@, rs)
                        &&& env.way_from(rs) < way
                    },
                decreases env.way_within(rs, leg),
            {
                proof {
                    walk::lemma_step_is_sound(env, rs, leg);
                    walk::lemma_reached(env, rs, leg);
                    lemma_fill_fits(env, rs, leg);
                }
                let mut manager = rs.fee_rate_manager;
                manager.update_volatility_accumulator();
                let total_fee_rate: u32 = manager.get_total_fee_rate();
                let (bounded, skipped) = manager.get_bounded_sqrt_price_target(
                    leg.target,
                    rs.liquidity,
                    &mut uncounted,
                );
                let unit = SwapPrefixUnit {
                    start: rs.sqrt_price,
                    target: bounded,
                    liquidity: rs.liquidity,
                    fee_rate: total_fee_rate,
                };
                assert(unit == unit_of(env, rs, leg));
                let filled = compute_swap_step(
                    u64::MAX,
                    total_fee_rate,
                    rs.liquidity,
                    rs.sqrt_price,
                    bounded,
                    a_to_b,
                    &mut uncounted,
                );
                let step = match filled {
                    Ok(step) if step.next_sqrt_price == bounded => step,
                    _ => {
                        self.tail = SwapPrefixTail::Open(unit);
                        return;
                    },
                };
                let (consumed, total_out) = match (
                    step.amount_in.checked_add(step.fee_amount),
                    cum_out.checked_add(step.amount_out),
                ) {
                    (Some(consumed), Some(total_out)) => (consumed, total_out),
                    _ => {
                        self.tail = SwapPrefixTail::Open(unit);
                        return;
                    },
                };
                assert(full_fill(env, self.rows@, rs, leg) == Some(step));
                let moved = move_to(
                    &rs,
                    &leg,
                    step.next_sqrt_price,
                    manager,
                    skipped,
                    a_to_b,
                    &mut uncounted,
                    Ghost(env),
                );
                match moved {
                    Err(_) => {
                        self.tail = if consumed > 0 {
                            SwapPrefixTail::Open(unit)
                        } else {
                            SwapPrefixTail::Stop
                        };
                        return;
                    },
                    Ok(after) => {
                        proof {
                            if consumed == 0 {
                                lemma_nothing_given(env, rs, leg);
                            }
                        }
                        cum_out = total_out;
                        cum_in = cum_in + consumed as u128;
                        if consumed > 0 {
                            self.rows.push(SwapPrefixRow { cum_in, cum_out, unit });
                        }
                        rs = after;
                    },
                }
                if rs.sqrt_price == leg.target {
                    break;
                }
            }
            if rs.sqrt_price == limit {
                self.tail = SwapPrefixTail::Capped;
                return;
            }
            if cum_in > up_to {
                self.tail = SwapPrefixTail::More(Box::new(rs));
                return;
            }
        }
    }

    /// How many rows an input of `x` completes outright.
    fn rows_completed(&self, x: u128) -> (k: usize)
        requires
            forall|i: int, j: int|
                0 <= i < j < self@.rows.len() ==> (#[trigger] self@.rows[i]).cum_in < (
                #[trigger] self@.rows[j]).cum_in,
        ensures
            k <= self@.rows.len(),
            forall|i: int| 0 <= i < k ==> (#[trigger] self@.rows[i]).cum_in <= x,
            forall|i: int| k <= i < self@.rows.len() ==> (#[trigger] self@.rows[i]).cum_in > x,
    {
        assert(self@.rows == self.rows@);
        let mut low: usize = 0;
        let mut high: usize = self.rows.len();
        while low < high
            invariant
                low <= high <= self.rows@.len(),
                forall|i: int, j: int|
                    0 <= i < j < self.rows@.len() ==> (#[trigger] self.rows@[i]).cum_in < (
                    #[trigger] self.rows@[j]).cum_in,
                forall|i: int| 0 <= i < low ==> (#[trigger] self.rows@[i]).cum_in <= x,
                forall|i: int|
                    high <= i < self.rows@.len() ==> (#[trigger] self.rows@[i]).cum_in > x,
            decreases high - low,
        {
            let middle: usize = low + (high - low) / 2;
            if self.rows[middle].cum_in <= x {
                low = middle + 1;
            } else {
                high = middle;
            }
        }
        low
    }

    /// The output of an exact-in swap of `amount_in`, as `compute_swap(amount_in, …)` would return
    /// it in the output token (`token_b` for `a_to_b`, `token_a` otherwise) — and `0` wherever
    /// `compute_swap` would return `Err`. An amount within what is built is a lookup that leaves the
    /// table as it is; a larger one resumes the walk until that is past it.
    pub fn quote(
        &mut self,
        amount_in: u64,
        tick_sequence: &TickArraySequence,
        a_to_b: bool,
    ) -> (out: u64)
        requires
            tick_sequence@.well_formed(),
            old(self)@.tracks(tick_sequence@, a_to_b),
        ensures
            out == old(self)@.answer(tick_sequence@, a_to_b, amount_in),
            final(self)@ == old(self)@.quoted_to(tick_sequence@, a_to_b, amount_in as int),
            final(self).built_at() == old(self).built_at(),
            final(self)@.tracks(tick_sequence@, a_to_b),
            old(self)@.rows.is_prefix_of(final(self)@.rows),
            !final(self)@.goes_on_at(amount_in as int),
    {
        let x: u128 = amount_in as u128;
        // Past everything built, and the walk would go on: extend until a row is past `x` or the
        // walk ends. An extension does that at once.
        while self.is_behind(x)
            invariant
                x == amount_in,
                tick_sequence@.well_formed(),
                self@.tracks(tick_sequence@, a_to_b),
                self@ == old(self)@ || self@ == old(self)@.extended(
                    tick_sequence@,
                    a_to_b,
                    x as int,
                ) && old(self)@.goes_on_at(x as int) && !self@.goes_on_at(x as int),
                self.built_at() == old(self).built_at(),
                old(self)@.rows.is_prefix_of(self@.rows),
            decreases
                    if self@.goes_on_at(x as int) {
                        1int
                    } else {
                        0
                    },
        {
            self.extend(x, tick_sequence, a_to_b);
        }
        let ghost env = SwapEnv { ticks: tick_sequence@, limit: self@.limit, a_to_b };
        let ghost origin = self@.origin->0;
        let ghost rows = self@.rows;
        // `rows[..k]` are the sub-steps `x` completes outright.
        let k: usize = self.rows_completed(x);
        let mut out: u64 = 0;
        let mut r: u64 = amount_in;
        if k > 0 {
            out = self.rows[k - 1].cum_out;
            r = (x - self.rows[k - 1].cum_in) as u64;
        }
        assert(out == total_out(rows, k as int));
        assert(r == x - total_in(rows, k as int));
        if r == 0 {
            // Exhausted exactly on a boundary: the walk breaks before the next sub-step.
            proof {
                if k > 0 {
                    assert(row_answers(env, origin, rows, k - 1, amount_in));
                }
            }
            return out;
        }
        if k < self.rows.len() {
            assert(rows[k as int].cum_in > x);
            assert(row_answers(env, origin, rows, k as int, amount_in));
            return replay(self.rows[k].unit, out, r, a_to_b);
        }
        proof {
            if self@.origin is Some {
                lemma_tail_answers(env, origin, rows, self@.tail);
                assert(tail_answers(env, origin, rows, self@.tail, amount_in));
            }
        }
        match &self.tail {
            SwapPrefixTail::Stop => 0,
            SwapPrefixTail::Capped => out,
            SwapPrefixTail::Open(unit) => replay(*unit, out, r, a_to_b),
            // The extension leaves the last row past `x`, so that there is no more to come.
            SwapPrefixTail::More(_) => 0,
        }
    }

    /// Whether the walk goes on past everything built, and `x` may get there.
    fn is_behind(&self, x: u128) -> (r: bool)
        ensures
            r == self@.goes_on_at(x as int),
    {
        match self.tail {
            SwapPrefixTail::More(_) => self.rows.len() == 0 || self.rows[self.rows.len() - 1].cum_in
                <= x,
            _ => false,
        }
    }
}

/// A row is only ever filled in part: no amount that ends before its total reaches its target.
pub proof fn law_rows_are_filled_in_part(
    table: PrefixTable,
    ticks: TickSequence,
    a_to_b: bool,
    k: int,
    amount: u64,
)
    requires
        table.tracks(ticks, a_to_b),
        0 <= k < table.rows.len(),
        total_in(table.rows, k) < amount < table.rows[k].cum_in,
    ensures
        !table.rows[k].unit.step(a_to_b).reaches((amount - total_in(table.rows, k)) as u64),
{
    let step = table.rows[k].unit.step(a_to_b);
    assert(row_adds_up(table.rows, k, a_to_b));
    if !step.reaches(u64::MAX) {
        swap_step::law_partial_step_falls_short(step, u64::MAX);
    }
    swap_step::law_reached_step_is_fixed(step, (amount - total_in(table.rows, k)) as u64);
}

/// What a swap puts out in the output token, and `0` where it is refused.
pub open spec fn quoted(
    result: Result<swap::SwapAmounts, crate::error::CoreError>,
    a_to_b: bool,
) -> u64 {
    match result {
        Ok(result) => if a_to_b {
            result.token_b
        } else {
            result.token_a
        },
        Err(_) => 0,
    }
}

/// A table answers every amount as the swap itself does: `quote` of a table from `start` is what
/// `compute_swap` puts out, and `0` where it fails, in whatever order the amounts are quoted.
pub proof fn law_table_quotes_the_swap(
    table: PrefixTable,
    amount: u64,
    sqrt_price_limit: u128,
    pool: WhirlpoolFacade,
    ticks: TickSequence,
    a_to_b: bool,
    timestamp: u64,
    info: Option<AdaptiveFeeInfo>,
)
    requires
        table.origin == origin_of(sqrt_price_limit, pool, a_to_b, timestamp, info),
        table.limit == swap::limit_of(sqrt_price_limit, a_to_b),
    ensures
        table.answer(ticks, a_to_b, amount) == quoted(
            swap::swap_of(amount, sqrt_price_limit, pool, ticks, a_to_b, timestamp, info),
            a_to_b,
        ),
{
}

} // verus!
