//! The walk of an exact-in swap, step by step.
//!
//! A swap walks from one initialized tick to the next, and within such a leg from one bound of the
//! fee rate to the next, until nothing is left of the amount or the sqrt price limit is reached.

use crate::counters;
use crate::counters::{Recorder, Work};
use crate::error::CoreError;
use crate::fee_rate_manager;
use crate::fee_rate_manager::{AdaptiveFeeRate, FeeRateManager};
use crate::growth;
use crate::record;
use crate::record::record_step_fees;
use crate::swap_step;
use crate::swap_step::{compute_swap_step, get_next_liquidity, StepSpec, SwapStepQuote};
use crate::tick_array::{TickArraySequence, TickFacade, TickSequence};
use crate::tick_math;
use crate::tick_math::{
    sqrt_price_to_tick_index, tick_index_to_sqrt_price, MAX_SQRT_PRICE, MAX_TICK_INDEX, MIN_SQRT_PRICE,
    MIN_TICK_INDEX,
};
use vstd::prelude::*;

verus! {

/// The state of a walk between two of its steps.
#[derive(Debug, Clone, Copy, PartialEq, Eq)]
pub struct SwapPrefixResume {
    pub sqrt_price: u128,
    pub tick_index: i32,
    pub liquidity: u128,
    pub fee_rate_manager: FeeRateManager,
}

/// The way to the next initialized tick.
#[derive(Debug, Clone, Copy, PartialEq, Eq)]
pub struct Leg {
    /// The tick at its end, where it is initialized.
    pub tick: Option<TickFacade>,
    pub index: i32,
    /// The sqrt price of the tick at its end.
    pub price: u128,
    /// Where the walk stops: at the tick, or at the limit before it.
    pub target: u128,
}

/// A point of a walk: its state, what is left of the amount and what has come out.
pub ghost enum WalkPoint {
    /// Before a leg.
    Top { state: SwapPrefixResume, remaining: u64, out: u64 },
    /// Within a leg.
    Within { state: SwapPrefixResume, leg: Leg, remaining: u64, out: u64 },
    /// At the end.
    Done { remaining: u64, out: u64 },
    /// Refused.
    Failed(CoreError),
}

/// What a swap walks over: the ticks, up to which sqrt price, and in which direction.
pub ghost struct SwapEnv {
    pub ticks: TickSequence,
    pub limit: u128,
    pub a_to_b: bool,
}

impl WalkPoint {
    /// The walk goes no further.
    pub open spec fn is_end(self) -> bool {
        self is Done || self is Failed
    }
}

impl SwapEnv {
    /// A sqrt price, or the limit where that comes first.
    pub open spec fn up_to_limit(self, price: u128) -> u128 {
        if self.a_to_b {
            fee_rate_manager::higher(price, self.limit)
        } else {
            fee_rate_manager::lower(price, self.limit)
        }
    }

    /// The leg that starts at a state.
    pub open spec fn leg(self, state: SwapPrefixResume) -> Result<Leg, CoreError> {
        let found = if self.a_to_b {
            self.ticks.prev(state.tick_index as int)
        } else {
            self.ticks.next(state.tick_index as int)
        };
        match found {
            Err(e) => Err(e),
            Ok((tick, index)) => {
                let price = tick_math::sqrt_price_at(index as int) as u128;
                Ok(Leg { tick, index, price, target: self.up_to_limit(price) })
            },
        }
    }

    /// The operands of the next step within a leg.
    pub open spec fn step_of(self, state: SwapPrefixResume, leg: Leg) -> StepSpec {
        let manager = state.fee_rate_manager.updated();
        StepSpec {
            fee_rate: manager.total_rate(),
            liquidity: state.liquidity,
            start: state.sqrt_price,
            target: manager.bounded(leg.target, state.liquidity),
            a_to_b: self.a_to_b,
        }
    }

    /// The fee rate after a step that moved the sqrt price.
    pub open spec fn manager_after(
        self,
        state: SwapPrefixResume,
        leg: Leg,
        price: u128,
    ) -> FeeRateManager {
        let manager = state.fee_rate_manager.updated();
        if manager.skips(state.liquidity) {
            manager.advanced_after_skip(price, leg.price, leg.index)
        } else {
            manager.advanced()
        }
    }

    /// The state after a step that moved the sqrt price, across the tick where it got there.
    pub open spec fn moved(
        self,
        state: SwapPrefixResume,
        leg: Leg,
        price: u128,
    ) -> Result<SwapPrefixResume, CoreError> {
        let fee_rate_manager = self.manager_after(state, leg, price);
        if price == leg.price {
            match swap_step::liquidity_beyond(state.liquidity, leg.tick, self.a_to_b) {
                Err(e) => Err(e),
                Ok(liquidity) => Ok(
                    SwapPrefixResume {
                        sqrt_price: price,
                        tick_index: (if self.a_to_b {
                            leg.index - 1
                        } else {
                            leg.index as int
                        }) as i32,
                        liquidity,
                        fee_rate_manager,
                    },
                ),
            }
        } else {
            Ok(
                SwapPrefixResume {
                    sqrt_price: price,
                    tick_index: if price != state.sqrt_price {
                        tick_math::tick_of(price as nat) as i32
                    } else {
                        state.tick_index
                    },
                    liquidity: state.liquidity,
                    fee_rate_manager,
                },
            )
        }
    }

    /// The point after a step.
    pub open spec fn after_step(
        self,
        state: SwapPrefixResume,
        leg: Leg,
        remaining: u64,
        out: u64,
        step: SwapStepQuote,
    ) -> WalkPoint {
        if step.amount_in + step.fee_amount > remaining || out + step.amount_out > u64::MAX {
            WalkPoint::Failed(CoreError::ArithmeticOverflow)
        } else {
            let remaining = (remaining - step.amount_in - step.fee_amount) as u64;
            let out = (out + step.amount_out) as u64;
            match self.moved(state, leg, step.next_sqrt_price) {
                Err(e) => WalkPoint::Failed(e),
                Ok(state) => if remaining == 0 || state.sqrt_price == leg.target {
                    WalkPoint::Top { state, remaining, out }
                } else {
                    WalkPoint::Within { state, leg, remaining, out }
                },
            }
        }
    }

    /// The next point of a walk.
    pub open spec fn next(self, point: WalkPoint) -> WalkPoint {
        match point {
            WalkPoint::Top { state, remaining, out } => if remaining == 0 || state.sqrt_price
                == self.limit {
                WalkPoint::Done { remaining, out }
            } else {
                match self.leg(state) {
                    Err(e) => WalkPoint::Failed(e),
                    Ok(leg) => WalkPoint::Within { state, leg, remaining, out },
                }
            },
            WalkPoint::Within { state, leg, remaining, out } => match self.step_of(
                state,
                leg,
            ).step(remaining) {
                Err(e) => WalkPoint::Failed(e),
                Ok(step) => self.after_step(state, leg, remaining, out, step),
            },
            WalkPoint::Done { .. } => point,
            WalkPoint::Failed(_) => point,
        }
    }

    /// The counts after the leg that starts at a state has been found: a ladder for its end.
    pub open spec fn after_leg(self, work: Work, state: SwapPrefixResume) -> Work {
        match self.leg(state) {
            Err(_) => work,
            Ok(leg) => tick_math::after_ladder(work, leg.index as int),
        }
    }

    /// The counts after the tick that a step leads to has been found: a crossing, or the tick of the
    /// sqrt price where that moved elsewhere.
    pub open spec fn after_placed(
        self,
        work: Work,
        state: SwapPrefixResume,
        leg: Leg,
        price: u128,
    ) -> Work {
        if price == leg.price {
            Work { liquidity_crossings: work.liquidity_crossings + 1, ..work }
        } else if price != state.sqrt_price {
            tick_math::after_sqrt_to_tick(work, price as nat)
        } else {
            work
        }
    }

    /// The counts after a step has moved the sqrt price: the tick that it leads to, and a skip.
    #[verifier::opaque]
    pub open spec fn after_moved(
        self,
        work: Work,
        state: SwapPrefixResume,
        leg: Leg,
        price: u128,
    ) -> Work {
        let manager = state.fee_rate_manager.updated();
        let placed = self.after_placed(work, state, leg, price);
        if self.moved(state, leg, price) is Ok && manager.skips(state.liquidity) {
            manager.after_skip(
                Work { adaptive_skips: placed.adaptive_skips + 1, ..placed },
                price,
                leg.price,
                leg.index,
            )
        } else {
            placed
        }
    }

    /// The counts after the next step within a leg has been computed, with the fee of the protocol.
    #[verifier::opaque]
    pub open spec fn after_priced(
        self,
        work: Work,
        state: SwapPrefixResume,
        leg: Leg,
        remaining: u64,
        protocol_fee_rate: u16,
    ) -> Work {
        let begun = Work { substeps: work.substeps + 1, ..work };
        let bounded = state.fee_rate_manager.updated().after_bounded(begun, state.liquidity);
        let stepped = self.step_of(state, leg).after_step(bounded, remaining);
        match self.step_of(state, leg).step(remaining) {
            Err(_) => stepped,
            Ok(step) => record::after_step_fees(
                stepped,
                step.fee_amount as nat,
                protocol_fee_rate as nat,
                state.liquidity as nat,
            ),
        }
    }

    /// The counts after the next step within a leg.
    pub open spec fn after_within(
        self,
        work: Work,
        state: SwapPrefixResume,
        leg: Leg,
        remaining: u64,
        out: u64,
        protocol_fee_rate: u16,
    ) -> Work {
        let priced = self.after_priced(work, state, leg, remaining, protocol_fee_rate);
        match self.step_of(state, leg).step(remaining) {
            Err(_) => priced,
            Ok(step) => if step.amount_in + step.fee_amount > remaining || out + step.amount_out
                > u64::MAX {
                priced
            } else {
                self.after_moved(priced, state, leg, step.next_sqrt_price)
            },
        }
    }

    /// The counts after the next point of a walk.
    pub open spec fn after_point(
        self,
        work: Work,
        point: WalkPoint,
        protocol_fee_rate: u16,
    ) -> Work {
        match point {
            WalkPoint::Top { state, remaining, .. } => if remaining == 0 || state.sqrt_price
                == self.limit {
                work
            } else {
                self.after_leg(Work { tick_steps: work.tick_steps + 1, ..work }, state)
            },
            WalkPoint::Within { state, leg, remaining, out } => self.after_within(
                work,
                state,
                leg,
                remaining,
                out,
                protocol_fee_rate,
            ),
            _ => work,
        }
    }

    /// The counts `n` points further.
    pub open spec fn run_work(
        self,
        work: Work,
        from: WalkPoint,
        protocol_fee_rate: u16,
        n: nat,
    ) -> Work
        decreases n,
    {
        if n == 0 {
            work
        } else {
            self.after_point(
                self.run_work(work, from, protocol_fee_rate, (n - 1) as nat),
                self.run(from, (n - 1) as nat),
                protocol_fee_rate,
            )
        }
    }

    /// The walk from `from` gets to `to`, and counts from `work` to `counted` on the way.
    pub open spec fn leads_with(
        self,
        protocol_fee_rate: u16,
        from: WalkPoint,
        work: Work,
        to: WalkPoint,
        counted: Work,
    ) -> bool {
        exists|n: nat| #[trigger]
            self.run(from, n) == to && self.run_work(work, from, protocol_fee_rate, n) == counted
    }

    /// What the walk from a point has counted at its end.
    pub open spec fn outcome_work(
        self,
        work: Work,
        from: WalkPoint,
        protocol_fee_rate: u16,
    ) -> Work {
        self.run_work(
            work,
            from,
            protocol_fee_rate,
            choose|n: nat| (#[trigger] self.run(from, n)).is_end(),
        )
    }

    /// The point of a walk `n` points further.
    #[verifier::opaque]
    pub open spec fn run(self, point: WalkPoint, n: nat) -> WalkPoint
        decreases n,
    {
        if n == 0 {
            point
        } else {
            self.next(self.run(point, (n - 1) as nat))
        }
    }

    /// The protocol's share of the fee of the next step is no more than the fee.
    pub open spec fn share_fits(self, point: WalkPoint, protocol_fee_rate: u16) -> bool {
        match point {
            WalkPoint::Within { state, leg, remaining, .. } => self.step_of(state, leg).step(
                remaining,
            ) matches Ok(step) ==> record::protocol_share(
                step.fee_amount as nat,
                protocol_fee_rate as nat,
            ) <= step.fee_amount,
            _ => true,
        }
    }

    /// It is no more than that at every point of a walk.
    #[verifier::opaque]
    pub open spec fn shares_fit(self, from: WalkPoint, protocol_fee_rate: u16) -> bool {
        forall|n: nat| self.share_fits(#[trigger] self.run(from, n), protocol_fee_rate)
    }

    /// The walk from `from` gets to `to`, and it is no more than that on the way.
    #[verifier::opaque]
    pub open spec fn leads_sharing(
        self,
        protocol_fee_rate: u16,
        from: WalkPoint,
        to: WalkPoint,
    ) -> bool {
        exists|n: nat|
            #![trigger self.run(from, n)]
            self.run(from, n) == to && forall|m: nat|
                m < n ==> self.share_fits(#[trigger] self.run(from, m), protocol_fee_rate)
    }

    /// The walk from `from` gets to `to`.
    pub open spec fn leads(self, from: WalkPoint, to: WalkPoint) -> bool {
        exists|n: nat| #[trigger] self.run(from, n) == to
    }

    /// How the walk from a point ends.
    pub open spec fn outcome(self, from: WalkPoint) -> WalkPoint {
        self.run(from, choose|n: nat| (#[trigger] self.run(from, n)).is_end())
    }
}

/// A run takes the points one by one.
pub proof fn lemma_run(env: SwapEnv, from: WalkPoint, n: nat)
    ensures
        env.run(from, n) == if n == 0 {
            from
        } else {
            env.next(env.run(from, (n - 1) as nat))
        },
{
    reveal(SwapEnv::run);
}

/// Running on from where a run got to.
proof fn lemma_run_adds(env: SwapEnv, from: WalkPoint, n: nat, m: nat)
    ensures
        env.run(env.run(from, n), m) == env.run(from, n + m),
    decreases m,
{
    lemma_run(env, env.run(from, n), m);
    lemma_run(env, from, n + m);
    if m > 0 {
        lemma_run_adds(env, from, n, (m - 1) as nat);
        assert((n + m - 1) as nat == n + (m - 1) as nat);
    }
}

/// A walk that has ended stays there.
proof fn lemma_end_stays(env: SwapEnv, end: WalkPoint, n: nat)
    requires
        end.is_end(),
    ensures
        env.run(end, n) == end,
    decreases n,
{
    lemma_run(env, end, n);
    if n > 0 {
        lemma_end_stays(env, end, (n - 1) as nat);
    }
}

/// Every point leads to itself.
pub proof fn lemma_leads_to_itself(env: SwapEnv, point: WalkPoint)
    ensures
        env.leads(point, point),
{
    lemma_run(env, point, 0);
}

/// A walk that gets to a point gets to the next one.
pub proof fn lemma_leads_on(env: SwapEnv, from: WalkPoint, to: WalkPoint)
    requires
        env.leads(from, to),
    ensures
        env.leads(from, env.next(to)),
{
    let n = choose|n: nat| env.run(from, n) == to;
    lemma_run(env, from, n + 1);
}

/// A walk that gets to an end has that outcome.
#[verifier::rlimit(40)]
pub proof fn lemma_outcome(env: SwapEnv, from: WalkPoint, end: WalkPoint)
    requires
        env.leads(from, end),
        end.is_end(),
    ensures
        env.outcome(from) == end,
{
    let n = choose|n: nat| env.run(from, n) == end;
    assert(env.run(from, n).is_end());
    let m = choose|m: nat| (#[trigger] env.run(from, m)).is_end();
    assert(env.run(from, m).is_end());
    if n <= m {
        lemma_run_adds(env, from, n, (m - n) as nat);
        lemma_end_stays(env, end, (m - n) as nat);
    } else {
        lemma_run_adds(env, from, m, (n - m) as nat);
        lemma_end_stays(env, env.run(from, m), (n - m) as nat);
    }
}

/// A walk that counts starts with what was counted.
pub proof fn lemma_leads_with_nothing(
    env: SwapEnv,
    protocol_fee_rate: u16,
    point: WalkPoint,
    work: Work,
)
    ensures
        env.leads_with(protocol_fee_rate, point, work, point, work),
{
    lemma_run(env, point, 0);
    assert(env.run_work(work, point, protocol_fee_rate, 0) == work);
}

/// A walk that gets to a point gets to the next one, and counts what that takes.
pub proof fn lemma_leads_with_on(
    env: SwapEnv,
    protocol_fee_rate: u16,
    from: WalkPoint,
    work: Work,
    to: WalkPoint,
    counted: Work,
)
    requires
        env.leads_with(protocol_fee_rate, from, work, to, counted),
    ensures
        env.leads_with(
            protocol_fee_rate,
            from,
            work,
            env.next(to),
            env.after_point(counted, to, protocol_fee_rate),
        ),
{
    let n = choose|n: nat| #[trigger]
        env.run(from, n) == to && env.run_work(work, from, protocol_fee_rate, n) == counted;
    lemma_run(env, from, n + 1);
    assert(env.run_work(work, from, protocol_fee_rate, n + 1) == env.after_point(
        counted,
        to,
        protocol_fee_rate,
    ));
}

/// Running on from where a run got to, counting on from what it counted.
pub proof fn lemma_run_work_adds(
    env: SwapEnv,
    protocol_fee_rate: u16,
    from: WalkPoint,
    work: Work,
    n: nat,
    m: nat,
)
    ensures
        env.run(env.run(from, n), m) == env.run(from, n + m),
        env.run_work(
            env.run_work(work, from, protocol_fee_rate, n),
            env.run(from, n),
            protocol_fee_rate,
            m,
        ) == env.run_work(work, from, protocol_fee_rate, n + m),
    decreases m,
{
    lemma_run(env, env.run(from, n), m);
    lemma_run(env, from, n + m);
    if m > 0 {
        lemma_run_work_adds(env, protocol_fee_rate, from, work, n, (m - 1) as nat);
        assert((n + m - 1) as nat == n + (m - 1) as nat);
    }
}

/// A rate of no more than one leaves no share above its fee.
pub proof fn lemma_shares_fit(env: SwapEnv, from: WalkPoint, protocol_fee_rate: u16)
    requires
        protocol_fee_rate <= 10_000,
    ensures
        env.shares_fit(from, protocol_fee_rate),
{
    reveal(SwapEnv::shares_fit);
    assert forall|n: nat|
        env.share_fits(#[trigger] env.run(from, n), protocol_fee_rate) by {
        if let WalkPoint::Within { state, leg, remaining, .. } = env.run(from, n) {
            if let Ok(step) = env.step_of(state, leg).step(remaining) {
                assert(step.fee_amount * protocol_fee_rate <= step.fee_amount * 10_000)
                    by (nonlinear_arith)
                    requires
                        step.fee_amount >= 0,
                        protocol_fee_rate <= 10_000,
                ;
            }
        }
    }
}

/// A walk shares nothing at its start.
pub proof fn lemma_shares_at_start(env: SwapEnv, protocol_fee_rate: u16, from: WalkPoint)
    ensures
        env.leads_sharing(protocol_fee_rate, from, from),
{
    reveal(SwapEnv::leads_sharing);
    lemma_run(env, from, 0);
}

/// A share that fits leads on, and one that does not fits not at every point.
pub proof fn lemma_shares_on(
    env: SwapEnv,
    protocol_fee_rate: u16,
    from: WalkPoint,
    to: WalkPoint,
)
    requires
        env.leads_sharing(protocol_fee_rate, from, to),
    ensures
        env.share_fits(to, protocol_fee_rate) ==> env.leads_sharing(
            protocol_fee_rate,
            from,
            env.next(to),
        ),
        !env.share_fits(to, protocol_fee_rate) ==> !env.shares_fit(from, protocol_fee_rate),
{
    reveal(SwapEnv::leads_sharing);
    reveal(SwapEnv::shares_fit);
    let n = choose|n: nat|
        #![trigger env.run(from, n)]
        env.run(from, n) == to && forall|m: nat|
            m < n ==> env.share_fits(#[trigger] env.run(from, m), protocol_fee_rate);
    lemma_run(env, from, n + 1);
}

/// Shares that fit up to the end of a walk fit at every point.
pub proof fn lemma_shares_to_the_end(
    env: SwapEnv,
    protocol_fee_rate: u16,
    from: WalkPoint,
    end: WalkPoint,
)
    requires
        env.leads_sharing(protocol_fee_rate, from, end),
        end.is_end(),
    ensures
        env.shares_fit(from, protocol_fee_rate),
{
    reveal(SwapEnv::leads_sharing);
    reveal(SwapEnv::shares_fit);
    let n = choose|n: nat|
        #![trigger env.run(from, n)]
        env.run(from, n) == end && forall|m: nat|
            m < n ==> env.share_fits(#[trigger] env.run(from, m), protocol_fee_rate);
    assert forall|m: nat| env.share_fits(#[trigger] env.run(from, m), protocol_fee_rate) by {
        if m >= n {
            lemma_run_adds(env, from, n, (m - n) as nat);
            lemma_end_stays(env, end, (m - n) as nat);
        }
    }
}

/// Shares that fit at every point fit where a walk gets to.
pub proof fn lemma_share_fits_there(
    env: SwapEnv,
    protocol_fee_rate: u16,
    from: WalkPoint,
    work: Work,
    to: WalkPoint,
    counted: Work,
)
    requires
        env.leads_with(protocol_fee_rate, from, work, to, counted),
        env.shares_fit(from, protocol_fee_rate),
    ensures
        env.share_fits(to, protocol_fee_rate),
{
    reveal(SwapEnv::shares_fit);
    let n = choose|n: nat| #[trigger]
        env.run(from, n) == to && env.run_work(work, from, protocol_fee_rate, n) == counted;
    assert(env.share_fits(env.run(from, n), protocol_fee_rate));
}

/// A walk that has ended counts no more.
#[verifier::rlimit(40)]
proof fn lemma_end_counts_no_more(
    env: SwapEnv,
    protocol_fee_rate: u16,
    from: WalkPoint,
    work: Work,
    n: nat,
    m: nat,
)
    requires
        n <= m,
        env.run(from, n).is_end(),
    ensures
        env.run(from, m) == env.run(from, n),
        env.run_work(work, from, protocol_fee_rate, m) == env.run_work(
            work,
            from,
            protocol_fee_rate,
            n,
        ),
    decreases m - n,
{
    if n < m {
        lemma_run(env, from, m);
        lemma_end_counts_no_more(env, protocol_fee_rate, from, work, n, (m - 1) as nat);
    }
}

/// A walk that gets to an end has that outcome, and has counted what it counted there.
#[verifier::rlimit(40)]
pub proof fn lemma_outcome_with(
    env: SwapEnv,
    protocol_fee_rate: u16,
    from: WalkPoint,
    work: Work,
    end: WalkPoint,
    counted: Work,
)
    requires
        env.leads_with(protocol_fee_rate, from, work, end, counted),
        end.is_end(),
    ensures
        env.outcome(from) == end,
        env.outcome_work(work, from, protocol_fee_rate) == counted,
{
    let n = choose|n: nat| #[trigger]
        env.run(from, n) == end && env.run_work(work, from, protocol_fee_rate, n) == counted;
    assert(env.run(from, n).is_end());
    let m = choose|m: nat| (#[trigger] env.run(from, m)).is_end();
    assert(env.run(from, m).is_end());
    if n <= m {
        lemma_end_counts_no_more(env, protocol_fee_rate, from, work, n, m);
    } else {
        lemma_end_counts_no_more(env, protocol_fee_rate, from, work, m, n);
    }
}

/// What a walk keeps true. The sqrt price never gets ahead of the bound of its fee rate, and the
/// tick group stays within reach of the ticks.
impl SwapEnv {
    /// There are ticks, and the limit is a sqrt price.
    pub open spec fn valid(self) -> bool {
        &&& self.ticks.well_formed()
        &&& MIN_SQRT_PRICE <= self.limit <= MAX_SQRT_PRICE
    }

    /// `to` does not lie behind `from`.
    pub open spec fn is_ahead(self, from: u128, to: u128) -> bool {
        if self.a_to_b {
            to <= from
        } else {
            from <= to
        }
    }

    /// The bound of an adaptive fee rate does not lie behind the sqrt price.
    pub open spec fn bound_is_ahead(self, adaptive: AdaptiveFeeRate, price: u128) -> bool {
        let size = adaptive.constants.tick_group_size;
        let group = adaptive.tick_group_index as int;
        &&& adaptive.a_to_b == self.a_to_b
        &&& adaptive.constants.adaptive_fee_control_factor != 0 ==> {
            &&& self.a_to_b && adaptive.above_core() ==> (adaptive.core_upper_bound->0).1 <= price
            &&& !self.a_to_b && adaptive.below_core() ==> price <= (adaptive.core_lower_bound->0).1
            &&& !adaptive.above_core() && !adaptive.below_core() ==> if self.a_to_b {
                fee_rate_manager::group_start(group, size) <= price
            } else {
                price <= fee_rate_manager::group_start(group + 1, size)
            }
        }
    }

    /// The tick group is not further ahead of a tick than a walk can have moved it.
    pub open spec fn group_is_near(self, adaptive: AdaptiveFeeRate, tick: int) -> bool {
        if self.a_to_b {
            tick - 900_000 <= adaptive.tick_group_index <= 500_000
        } else {
            -500_000 <= adaptive.tick_group_index <= tick + 900_000
        }
    }

    /// The fee rate fits the direction, the sqrt price and the tick.
    pub open spec fn manager_fits(self, manager: FeeRateManager, price: u128, tick: int) -> bool {
        manager matches FeeRateManager::Adaptive(adaptive) ==> {
            &&& adaptive.valid()
            &&& self.bound_is_ahead(adaptive, price)
            &&& self.group_is_near(adaptive, tick)
        }
    }

    /// How far a walk can still go from a tick, towards the ticks and the tick groups ahead.
    pub open spec fn way_ahead(self, tick: int, group: int) -> int {
        if self.a_to_b {
            tick + 500_000 + group + 2_000_000
        } else {
            500_000 - tick + 2_000_000 - group
        }
    }

    /// How far a walk can still go from a state.
    pub open spec fn way_from(self, state: SwapPrefixResume) -> int {
        self.way_ahead(state.tick_index as int, state.fee_rate_manager.group())
    }

    /// How far a walk can still go from a state within a leg.
    pub open spec fn way_within(self, state: SwapPrefixResume, leg: Leg) -> int {
        self.way_ahead(
            if self.a_to_b {
                leg.index as int
            } else {
                leg.index - 1
            },
            state.fee_rate_manager.group(),
        )
    }

    /// The sqrt price and the tick are in range, before the limit.
    pub open spec fn in_range(self, state: SwapPrefixResume) -> bool {
        &&& MIN_SQRT_PRICE <= state.sqrt_price <= MAX_SQRT_PRICE
        &&& MIN_TICK_INDEX - 1 <= state.tick_index <= MAX_TICK_INDEX
        &&& self.is_ahead(state.sqrt_price, self.limit)
    }

    /// A state from which a leg can start.
    pub open spec fn is_sound(self, state: SwapPrefixResume) -> bool {
        &&& self.in_range(state)
        &&& self.manager_fits(state.fee_rate_manager, state.sqrt_price, state.tick_index as int)
    }

    /// A state within a leg.
    pub open spec fn is_sound_within(self, state: SwapPrefixResume, leg: Leg) -> bool {
        &&& self.in_range(state)
        &&& tick_math::tick_in_range(leg.index as int)
        &&& leg.price == tick_math::sqrt_price_at(leg.index as int)
        &&& MIN_SQRT_PRICE <= leg.price <= MAX_SQRT_PRICE
        &&& leg.target == self.up_to_limit(leg.price)
        &&& self.manager_fits(
            state.fee_rate_manager,
            state.sqrt_price,
            if self.a_to_b {
                leg.index as int
            } else {
                leg.index - 1
            },
        )
    }
}

impl SwapEnv {
    /// A point at which a walk can go on, or has come to its end.
    pub open spec fn is_sound_at(self, point: WalkPoint) -> bool {
        match point {
            WalkPoint::Top { state, remaining, .. } => remaining > 0 && state.sqrt_price
                != self.limit ==> self.is_sound(state),
            WalkPoint::Within { state, leg, remaining, .. } => remaining > 0
                && self.is_sound_within(state, leg),
            _ => true,
        }
    }
}

/// A leg that starts at a sound state leads ahead.
pub proof fn lemma_leg_is_sound(env: SwapEnv, state: SwapPrefixResume)
    requires
        env.valid(),
        env.is_sound(state),
    ensures
        env.leg(state) matches Ok(leg) ==> {
            &&& env.is_sound_within(state, leg)
            &&& env.a_to_b ==> leg.index <= state.tick_index
            &&& !env.a_to_b ==> state.tick_index < leg.index
            &&& 0 <= env.way_within(state, leg) <= env.way_from(state)
        },
        0 <= env.way_from(state) <= 3_500_000,
{
    let tick = state.tick_index as int;
    crate::tick_array::law_neighbours_are_in_range(env.ticks, tick);
    if let Ok(leg) = env.leg(state) {
        let index = leg.index as int;
        tick_math::law_sqrt_price_range(index);
    }
}

/// A walk within a leg has some way ahead.
pub proof fn lemma_way_within(env: SwapEnv, state: SwapPrefixResume, leg: Leg)
    requires
        env.is_sound_within(state, leg),
    ensures
        env.way_within(state, leg) >= 0,
{
}

/// A fee rate that adapts is a fee rate.
pub proof fn law_fee_rate_is_limited(manager: FeeRateManager)
    ensures
        manager.total_rate() <= crate::adaptive_fee::FEE_RATE_HARD_LIMIT,
{
    if let FeeRateManager::Adaptive(adaptive) = manager {
        let crossed = adaptive.variables.volatility_accumulator
            * adaptive.constants.tick_group_size;
        let factor = adaptive.constants.adaptive_fee_control_factor as int;
        assert(factor * (crossed * crossed) >= 0) by (nonlinear_arith)
            requires
                factor >= 0,
        ;
    }
}

/// At the start of a walk the bound of the fee rate does not lie behind a sqrt price that is not
/// beyond the tick group.
pub proof fn lemma_starting_bound_is_ahead(env: SwapEnv, adaptive: AdaptiveFeeRate, price: u128)
    requires
        adaptive.valid(),
        adaptive.a_to_b == env.a_to_b,
        adaptive.constants.adaptive_fee_control_factor != 0 ==> if env.a_to_b {
            fee_rate_manager::group_start(
                adaptive.tick_group_index as int,
                adaptive.constants.tick_group_size,
            ) <= price
        } else {
            price <= fee_rate_manager::group_start(
                adaptive.tick_group_index + 1,
                adaptive.constants.tick_group_size,
            )
        },
    ensures
        env.bound_is_ahead(adaptive, price),
{
    let size = adaptive.constants.tick_group_size;
    let group = adaptive.tick_group_index as int;
    if let Some((upper, _)) = adaptive.core_upper_bound {
        if group > upper {
            fee_rate_manager::lemma_group_starts_ordered(upper + 1, group, size);
        }
    }
    if let Some((low, _)) = adaptive.core_lower_bound {
        if group < low {
            fee_rate_manager::lemma_group_starts_ordered(group + 1, low as int, size);
        }
    }
}

/// The step within a leg can be computed, towards a bound that is not beyond the target.
pub proof fn lemma_step_is_sound(env: SwapEnv, state: SwapPrefixResume, leg: Leg)
    requires
        env.valid(),
        env.is_sound_within(state, leg),
    ensures
        env.step_of(state, leg).valid(),
        env.is_ahead(env.step_of(state, leg).target, leg.target),
{
    law_fee_rate_is_limited(state.fee_rate_manager.updated());
    if let FeeRateManager::Adaptive(adaptive) = state.fee_rate_manager {
        lemma_bounds_in_range(adaptive);
    }
}

/// The bounds of an adaptive fee rate are sqrt prices.
proof fn lemma_bounds_in_range(adaptive: AdaptiveFeeRate)
    requires
        adaptive.valid(),
    ensures
        ({
            let size = adaptive.constants.tick_group_size;
            let group = adaptive.tick_group_index as int;
            &&& MIN_SQRT_PRICE <= fee_rate_manager::group_start(group, size) <= MAX_SQRT_PRICE
            &&& MIN_SQRT_PRICE <= fee_rate_manager::group_start(group + 1, size) <= MAX_SQRT_PRICE
            &&& adaptive.core_lower_bound matches Some((_, price)) ==> MIN_SQRT_PRICE <= price
                <= MAX_SQRT_PRICE
            &&& adaptive.core_upper_bound matches Some((_, price)) ==> MIN_SQRT_PRICE <= price
                <= MAX_SQRT_PRICE
        }),
{
    let size = adaptive.constants.tick_group_size;
    let group = adaptive.tick_group_index as int;
    fee_rate_manager::lemma_group_starts_ordered(group, group + 1, size);
    if let Some((low, _)) = adaptive.core_lower_bound {
        fee_rate_manager::lemma_group_starts_ordered(low as int, low as int, size);
    }
    if let Some((upper, _)) = adaptive.core_upper_bound {
        fee_rate_manager::lemma_group_starts_ordered(upper + 1, upper + 1, size);
    }
}

/// The tick group of a tick within one of the tick range.
pub proof fn lemma_tick_group(tick: int, size: int)
    requires
        size > 0,
        MIN_TICK_INDEX - 1 <= tick <= MAX_TICK_INDEX,
    ensures
        (tick / size) * size <= tick < (tick / size + 1) * size,
        -443637 <= tick / size <= 443636,
        tick >= MIN_TICK_INDEX ==> tick / size >= -443636,
{
    let group = tick / size;
    crate::arith::lemma_div_mod(tick, size);
    assert((group + 1) * size == group * size + size) by (nonlinear_arith);
    assert(group >= tick || group >= 0) by (nonlinear_arith)
        requires
            tick < (group + 1) * size,
            size >= 1,
    ;
    assert(group <= tick || group <= 0) by (nonlinear_arith)
        requires
            group * size <= tick,
            size >= 1,
    ;
}

/// A tick group that starts at or below a tick starts at or below its sqrt price, and one that
/// starts at or above it at or above.
pub proof fn lemma_group_start_and_tick(group: int, size: u16, tick: int)
    requires
        tick_math::tick_in_range(tick),
    ensures
        group * size <= tick ==> fee_rate_manager::group_start(group, size)
            <= tick_math::sqrt_price_at(tick),
        tick <= group * size ==> tick_math::sqrt_price_at(tick)
            <= fee_rate_manager::group_start(group, size),
        group * size <= MIN_TICK_INDEX ==> fee_rate_manager::group_start(group, size)
            == MIN_SQRT_PRICE,
        group * size >= MAX_TICK_INDEX ==> fee_rate_manager::group_start(group, size)
            == MAX_SQRT_PRICE,
{
    let start = fee_rate_manager::clamped(group * size);
    tick_math::law_sqrt_price_range(start);
    tick_math::law_sqrt_price_range(tick);
    if start <= tick {
        tick_math::law_sqrt_price_is_monotone(start, tick);
    }
    if tick <= start {
        tick_math::law_sqrt_price_is_monotone(tick, start);
    }
    tick_math::law_sqrt_price_range(MIN_TICK_INDEX as int);
    tick_math::law_sqrt_price_range(MAX_TICK_INDEX as int);
}

/// A step down that reaches its bound leaves the fee rate in a lower tick group, whose bound is
/// still ahead.
proof fn lemma_groups_go_down(
    env: SwapEnv,
    adaptive: AdaptiveFeeRate,
    price: u128,
    leg: Leg,
    liquidity: u128,
)
    requires
        env.valid(),
        env.a_to_b,
        env.manager_fits(FeeRateManager::Adaptive(adaptive), price, leg.index as int),
        tick_math::tick_in_range(leg.index as int),
        leg.price == tick_math::sqrt_price_at(leg.index as int),
        leg.target == env.up_to_limit(leg.price),
        adaptive.bounded(leg.target, liquidity) == leg.price || adaptive.bounded(
            leg.target,
            liquidity,
        ) != leg.target,
    ensures
        ({
            let bound = adaptive.bounded(leg.target, liquidity);
            let after = if adaptive.skips(liquidity) {
                adaptive.advanced_after_skip(bound, leg.price, leg.index)
            } else {
                adaptive.advanced()
            };
            &&& after.valid()
            &&& after.tick_group_index < adaptive.tick_group_index
            &&& env.bound_is_ahead(after, bound)
            &&& bound == leg.price ==> env.group_is_near(after, leg.index - 1)
            &&& bound != leg.target ==> env.group_is_near(after, leg.index as int)
        }),
{
    let size = adaptive.constants.tick_group_size;
    let group = adaptive.tick_group_index as int;
    let index = leg.index as int;
    let bound = adaptive.bounded(leg.target, liquidity);
    tick_math::law_sqrt_price_range(index);
    lemma_bounds_in_range(adaptive);
    lemma_group_start_and_tick(group, size, index);
    if adaptive.skips(liquidity) {
        let after = adaptive.advanced_after_skip(bound, leg.price, leg.index);
        let tick = if bound == leg.price {
            index
        } else {
            tick_math::lemma_tick_estimates(bound as nat);
            tick_math::tick_of(bound as nat)
        };
        let last = tick / (size as int);
        lemma_tick_group(tick, size as int);
        assert(last == adaptive.last_traversed(bound, leg.price, leg.index));
        let next = if last < group {
            last - 1
        } else {
            group - 1
        };
        assert(after.tick_group_index == next);
        if bound == leg.price {
            assert(next * size <= last * size) by (nonlinear_arith)
                requires
                    next <= last,
                    size >= 0,
            ;
            lemma_group_start_and_tick(next, size, index);
            if let Some((upper, _)) = adaptive.core_upper_bound {
                if next > upper {
                    fee_rate_manager::lemma_group_starts_ordered(upper + 1, next, size);
                }
            }
        } else {
            let upper = (adaptive.core_upper_bound->0).0;
            if next <= upper {
                fee_rate_manager::lemma_group_starts_ordered(next, upper + 1, size);
            }
        }
    } else {
        fee_rate_manager::lemma_group_starts_ordered(group - 1, group, size);
        if bound != leg.target {
            assert(group > -443636) by (nonlinear_arith)
                requires
                    group * size > -443636,
                    size >= 1,
            ;
        }
    }
}

/// A step up that reaches its bound leaves the fee rate in a higher tick group, whose bound is
/// still ahead.
proof fn lemma_groups_go_up(
    env: SwapEnv,
    adaptive: AdaptiveFeeRate,
    price: u128,
    leg: Leg,
    liquidity: u128,
)
    requires
        env.valid(),
        !env.a_to_b,
        env.manager_fits(FeeRateManager::Adaptive(adaptive), price, leg.index - 1),
        tick_math::tick_in_range(leg.index as int),
        leg.price == tick_math::sqrt_price_at(leg.index as int),
        leg.target == env.up_to_limit(leg.price),
        adaptive.bounded(leg.target, liquidity) == leg.price || adaptive.bounded(
            leg.target,
            liquidity,
        ) != leg.target,
    ensures
        ({
            let bound = adaptive.bounded(leg.target, liquidity);
            let after = if adaptive.skips(liquidity) {
                adaptive.advanced_after_skip(bound, leg.price, leg.index)
            } else {
                adaptive.advanced()
            };
            &&& after.valid()
            &&& after.tick_group_index > adaptive.tick_group_index
            &&& env.bound_is_ahead(after, bound)
            &&& bound == leg.price ==> env.group_is_near(after, leg.index as int)
            &&& bound != leg.target ==> env.group_is_near(after, leg.index - 1)
        }),
{
    let size = adaptive.constants.tick_group_size;
    let group = adaptive.tick_group_index as int;
    let index = leg.index as int;
    let bound = adaptive.bounded(leg.target, liquidity);
    tick_math::law_sqrt_price_range(index);
    lemma_bounds_in_range(adaptive);
    lemma_group_start_and_tick(group + 1, size, index);
    if adaptive.skips(liquidity) {
        let after = adaptive.advanced_after_skip(bound, leg.price, leg.index);
        let tick = if bound == leg.price {
            index
        } else {
            tick_math::lemma_tick_estimates(bound as nat);
            tick_math::tick_of(bound as nat)
        };
        lemma_tick_group(tick, size as int);
        let last = adaptive.last_traversed(bound, leg.price, leg.index);
        assert(last == tick / (size as int) || last == tick / (size as int) - 1);
        let next = if last > group {
            last + 1
        } else {
            group + 1
        };
        assert(after.tick_group_index == next);
        if bound == leg.price {
            assert(tick / (size as int) <= next);
            assert((tick / (size as int) + 1) * size <= (next + 1) * size) by (nonlinear_arith)
                requires
                    tick / (size as int) <= next,
                    size >= 0,
            ;
            lemma_group_start_and_tick(next + 1, size, index);
            if let Some((low, _)) = adaptive.core_lower_bound {
                if next < low {
                    fee_rate_manager::lemma_group_starts_ordered(next + 1, low as int, size);
                }
            }
        } else {
            let low = (adaptive.core_lower_bound->0).0;
            if next >= low {
                fee_rate_manager::lemma_group_starts_ordered(low as int, next + 1, size);
            }
        }
    } else {
        fee_rate_manager::lemma_group_starts_ordered(group + 1, group + 2, size);
        if bound != leg.target {
            assert(group + 1 < 443636) by (nonlinear_arith)
                requires
                    (group + 1) * size < 443636,
                    size >= 1,
            ;
        }
    }
}

/// A step that reaches its bound ends the leg in a sound state beyond its tick or at the limit, or
/// goes on within the leg with the fee rate of a tick group further ahead.
pub proof fn lemma_reached(env: SwapEnv, state: SwapPrefixResume, leg: Leg)
    requires
        env.valid(),
        env.is_sound_within(state, leg),
    ensures
        ({
            let bound = env.step_of(state, leg).target;
            env.moved(state, leg, bound) matches Ok(after) ==> {
                &&& after.sqrt_price == bound
                &&& bound == leg.target && bound != env.limit ==> {
                    &&& env.is_sound(after)
                    &&& after.tick_index == if env.a_to_b {
                        leg.index - 1
                    } else {
                        leg.index as int
                    }
                    &&& env.a_to_b ==> after.fee_rate_manager.group()
                        <= state.fee_rate_manager.group()
                    &&& !env.a_to_b ==> after.fee_rate_manager.group()
                        >= state.fee_rate_manager.group()
                    &&& 0 <= env.way_from(after) < env.way_within(state, leg)
                }
                &&& bound != leg.target ==> {
                    &&& env.is_sound_within(after, leg)
                    &&& env.a_to_b ==> after.fee_rate_manager.group()
                        < state.fee_rate_manager.group()
                    &&& !env.a_to_b ==> after.fee_rate_manager.group()
                        > state.fee_rate_manager.group()
                    &&& 0 <= env.way_within(after, leg) < env.way_within(state, leg)
                }
            }
        }),
{
    let bound = env.step_of(state, leg).target;
    lemma_step_is_sound(env, state, leg);
    if let Ok(after) = env.moved(state, leg, bound) {
        if bound != leg.target || bound != env.limit {
            tick_math::lemma_tick_estimates(bound as nat);
            if let FeeRateManager::Adaptive(adaptive) = state.fee_rate_manager {
                if env.a_to_b {
                    lemma_groups_go_down(
                        env,
                        adaptive.updated(),
                        state.sqrt_price,
                        leg,
                        state.liquidity,
                    );
                } else {
                    lemma_groups_go_up(
                        env,
                        adaptive.updated(),
                        state.sqrt_price,
                        leg,
                        state.liquidity,
                    );
                }
            }
        }
    }
}

/// A step that falls short moves the sqrt price without crossing the tick.
pub proof fn lemma_fell_short(env: SwapEnv, state: SwapPrefixResume, leg: Leg, remaining: u64)
    requires
        env.valid(),
        env.is_sound_within(state, leg),
        !env.step_of(state, leg).reaches(remaining),
    ensures
        env.step_of(state, leg).partial(remaining) matches Ok(step) ==> {
            &&& step.next_sqrt_price != env.step_of(state, leg).target
            &&& step.next_sqrt_price != leg.price
            &&& step.amount_in + step.fee_amount == remaining
            &&& MIN_SQRT_PRICE <= step.next_sqrt_price <= MAX_SQRT_PRICE
        },
{
    lemma_step_is_sound(env, state, leg);
    swap_step::law_partial_step_falls_short(env.step_of(state, leg), remaining);
}

/// A walk that ends from the next point on ends.
proof fn lemma_ends_before(env: SwapEnv, point: WalkPoint, n: nat)
    requires
        env.run(env.next(point), n).is_end(),
    ensures
        env.run(point, n + 1).is_end(),
{
    lemma_run(env, point, 0);
    lemma_run(env, point, 1);
    lemma_run_adds(env, point, 1, n);
    assert(1 + n == n + 1);
}

/// How far a walk has to go at a point: the ticks that are left, and the tick groups within a leg.
spec fn distance(env: SwapEnv, point: WalkPoint) -> (int, int) {
    match point {
        WalkPoint::Top { state, .. } => (
            if env.a_to_b {
                state.tick_index + 500_000
            } else {
                500_000 - state.tick_index
            },
            10_000_000,
        ),
        WalkPoint::Within { state, leg, .. } => if env.a_to_b {
            (leg.index + 500_000, state.fee_rate_manager.group() + 2_000_000)
        } else {
            (500_000 - leg.index + 1, 2_000_000 - state.fee_rate_manager.group())
        },
        _ => (0, 0),
    }
}

/// A walk from a sound point ends after some number of points.
proof fn lemma_ends_after(env: SwapEnv, point: WalkPoint) -> (n: nat)
    requires
        env.valid(),
        env.is_sound_at(point),
    ensures
        env.run(point, n).is_end(),
    decreases
            if point is Top && (point->Top_remaining == 0 || point->Top_state.sqrt_price
                == env.limit) {
                0
            } else {
                distance(env, point).0
            },
            distance(env, point).1,
{
    if point.is_end() {
        lemma_run(env, point, 0);
        0
    } else {
        match point {
            WalkPoint::Top { state, remaining, out } => {
                if remaining > 0 && state.sqrt_price != env.limit {
                    lemma_leg_is_sound(env, state);
                }
            },
            WalkPoint::Within { state, leg, remaining, out } => {
                lemma_step_is_sound(env, state, leg);
                lemma_reached(env, state, leg);
                if !env.step_of(state, leg).reaches(remaining) {
                    lemma_fell_short(env, state, leg, remaining);
                }
            },
            _ => {},
        }
        if env.next(point).is_end() {
            lemma_run(env, env.next(point), 0);
            lemma_ends_before(env, point, 0);
            1
        } else {
            let n = lemma_ends_after(env, env.next(point));
            lemma_ends_before(env, point, n);
            n + 1
        }
    }
}

/// A walk from a sound state ends.
pub proof fn lemma_walk_ends(env: SwapEnv, point: WalkPoint)
    requires
        env.valid(),
        point matches WalkPoint::Top { state, .. } && env.is_sound(state),
    ensures
        env.outcome(point).is_end(),
{
    let n = lemma_ends_after(env, point);
    assert(env.run(point, n).is_end());
}

/// Count a leg.
pub(crate) fn count_tick_step(recorder: &mut Recorder)
    requires
        old(recorder).can_hold(
            Work {
                tick_steps: old(recorder).counters@.tick_steps + 1,
                ..old(recorder).counters@
            },
        ),
    ensures
        old(recorder).becomes(
            *final(recorder),
            Work {
                tick_steps: old(recorder).counters@.tick_steps + 1,
                ..old(recorder).counters@
            },
        ),
{
    proof {
        reveal(Work::within);
    }
    if recorder.on {
        let ghost before = recorder.counters@;
        recorder.counters.tick_steps += 1;
        assert(recorder.counters@ =~= (Work { tick_steps: before.tick_steps + 1, ..before }));
    }
}

/// Count a step within a leg.
fn count_substep(recorder: &mut Recorder)
    requires
        old(recorder).can_hold(
            Work {
                substeps: old(recorder).counters@.substeps + 1,
                ..old(recorder).counters@
            },
        ),
    ensures
        old(recorder).becomes(
            *final(recorder),
            Work {
                substeps: old(recorder).counters@.substeps + 1,
                ..old(recorder).counters@
            },
        ),
{
    proof {
        reveal(Work::within);
    }
    if recorder.on {
        let ghost before = recorder.counters@;
        recorder.counters.substeps += 1;
        assert(recorder.counters@ =~= (Work { substeps: before.substeps + 1, ..before }));
    }
}

/// Count a crossing.
fn count_crossing(recorder: &mut Recorder)
    requires
        old(recorder).can_hold(
            Work {
                liquidity_crossings: old(recorder).counters@.liquidity_crossings + 1,
                ..old(recorder).counters@
            },
        ),
    ensures
        old(recorder).becomes(
            *final(recorder),
            Work {
                liquidity_crossings: old(recorder).counters@.liquidity_crossings + 1,
                ..old(recorder).counters@
            },
        ),
{
    proof {
        reveal(Work::within);
    }
    if recorder.on {
        let ghost before = recorder.counters@;
        recorder.counters.liquidity_crossings += 1;
        assert(recorder.counters@ =~= (Work { liquidity_crossings: before.liquidity_crossings + 1, ..before }));
    }
}

/// Count a skip.
fn count_skip(recorder: &mut Recorder)
    requires
        old(recorder).can_hold(
            Work {
                adaptive_skips: old(recorder).counters@.adaptive_skips + 1,
                ..old(recorder).counters@
            },
        ),
    ensures
        old(recorder).becomes(
            *final(recorder),
            Work {
                adaptive_skips: old(recorder).counters@.adaptive_skips + 1,
                ..old(recorder).counters@
            },
        ),
{
    proof {
        reveal(Work::within);
    }
    if recorder.on {
        let ghost before = recorder.counters@;
        recorder.counters.adaptive_skips += 1;
        assert(recorder.counters@ =~= (Work { adaptive_skips: before.adaptive_skips + 1, ..before }));
    }
}

/// Find the leg that starts at a state.
pub fn find_leg(
    state: &SwapPrefixResume,
    tick_sequence: &TickArraySequence,
    sqrt_price_limit: u128,
    a_to_b: bool,
    recorder: &mut Recorder,
) -> (r: Result<Leg, CoreError>)
    requires
        tick_sequence@.well_formed(),
        MIN_TICK_INDEX - 1 <= state.tick_index <= MAX_TICK_INDEX,
        old(recorder).can_hold(
            (SwapEnv { ticks: tick_sequence@, limit: sqrt_price_limit, a_to_b }).after_leg(
                old(recorder).counters@,
                *state,
            ),
        ),
    ensures
        r == (SwapEnv { ticks: tick_sequence@, limit: sqrt_price_limit, a_to_b }).leg(*state),
        old(recorder).becomes(
            *final(recorder),
            (SwapEnv { ticks: tick_sequence@, limit: sqrt_price_limit, a_to_b }).after_leg(
                old(recorder).counters@,
                *state,
            ),
        ),
{
    proof {
        crate::tick_array::law_neighbours_are_in_range(
            tick_sequence@,
            state.tick_index as int,
        );
    }
    let (tick, index) = if a_to_b {
        tick_sequence.prev_initialized_tick(state.tick_index)?
    } else {
        tick_sequence.next_initialized_tick(state.tick_index)?
    };
    let price: u128 = tick_index_to_sqrt_price(index, recorder);
    let target: u128 = if a_to_b == (price >= sqrt_price_limit) {
        price
    } else {
        sqrt_price_limit
    };
    Ok(Leg { tick, index, price, target })
}

/// Move the sqrt price within a leg, across its tick where that is reached. `manager` is the fee
/// rate of the step, and `skipped` whether it went without an update.
#[verifier::rlimit(40)]
pub(crate) fn move_to(
    state: &SwapPrefixResume,
    leg: &Leg,
    sqrt_price: u128,
    manager: FeeRateManager,
    skipped: bool,
    a_to_b: bool,
    recorder: &mut Recorder,
    Ghost(env): Ghost<SwapEnv>,
) -> (r: Result<SwapPrefixResume, CoreError>)
    requires
        env.a_to_b == a_to_b,
        env.is_sound_within(*state, *leg),
        manager == state.fee_rate_manager.updated(),
        skipped == manager.skips(state.liquidity),
        MIN_SQRT_PRICE <= sqrt_price <= MAX_SQRT_PRICE,
        old(recorder).can_hold(
            env.after_moved(old(recorder).counters@, *state, *leg, sqrt_price),
        ),
    ensures
        r == env.moved(*state, *leg, sqrt_price),
        old(recorder).becomes(
            *final(recorder),
            env.after_moved(old(recorder).counters@, *state, *leg, sqrt_price),
        ),
{
    proof {
        let work = recorder.counters@;
        let after = env.after_moved(work, *state, *leg, sqrt_price);
        let placed = env.after_placed(work, *state, *leg, sqrt_price);
        growth::lemma_moved_grows(env, work, *state, *leg, sqrt_price);
        counters::lemma_holds_before(*recorder, placed, after, 89);
        if env.moved(*state, *leg, sqrt_price) is Ok && skipped {
            counters::lemma_holds_before(
                *recorder,
                Work { adaptive_skips: placed.adaptive_skips + 1, ..placed },
                after,
                88,
            );
        }
        reveal(SwapEnv::after_moved);
    }
    let mut liquidity: u128 = state.liquidity;
    let mut tick_index: i32 = state.tick_index;
    if sqrt_price == leg.price {
        count_crossing(recorder);
        liquidity = get_next_liquidity(liquidity, leg.tick, a_to_b)?;
        tick_index = if a_to_b {
            leg.index - 1
        } else {
            leg.index
        };
    } else if sqrt_price != state.sqrt_price {
        tick_index = sqrt_price_to_tick_index(sqrt_price, recorder);
    }
    let mut fee_rate_manager = manager;
    if skipped {
        count_skip(recorder);
        fee_rate_manager.advance_tick_group_after_skip(
            sqrt_price,
            leg.price,
            leg.index,
            recorder,
        );
    } else {
        fee_rate_manager.advance_tick_group();
    }
    Ok(SwapPrefixResume { sqrt_price, tick_index, liquidity, fee_rate_manager })
}

/// Compute the next step within a leg, and count it with the fee of the protocol. Gives the step, the
/// fee rate and whether that goes without an update.
#[verifier::rlimit(40)]
pub(crate) fn price_step(
    state: &SwapPrefixResume,
    leg: &Leg,
    remaining: u64,
    protocol_fee_rate: u16,
    a_to_b: bool,
    recorder: &mut Recorder,
    Ghost(env): Ghost<SwapEnv>,
) -> (r: Result<(SwapStepQuote, FeeRateManager, bool), CoreError>)
    requires
        env.a_to_b == a_to_b,
        env.step_of(*state, *leg).valid(),
        state.fee_rate_manager.updated().valid(),
        old(recorder).can_hold(
            env.after_priced(
                old(recorder).counters@,
                *state,
                *leg,
                remaining,
                protocol_fee_rate,
            ),
        ),
        old(recorder).on ==> env.share_fits(
            WalkPoint::Within { state: *state, leg: *leg, remaining, out: 0 },
            protocol_fee_rate,
        ),
    ensures
        match r {
            Ok((step, manager, skipped)) => {
                &&& env.step_of(*state, *leg).step(remaining) == Ok::<SwapStepQuote, CoreError>(
                    step,
                )
                &&& manager == state.fee_rate_manager.updated()
                &&& skipped == manager.skips(state.liquidity)
            },
            Err(e) => env.step_of(*state, *leg).step(remaining) == Err::<SwapStepQuote, CoreError>(
                e,
            ),
        },
        old(recorder).becomes(
            *final(recorder),
            env.after_priced(
                old(recorder).counters@,
                *state,
                *leg,
                remaining,
                protocol_fee_rate,
            ),
        ),
{
    proof {
        let work = recorder.counters@;
        let after = env.after_priced(work, *state, *leg, remaining, protocol_fee_rate);
        let begun = Work { substeps: work.substeps + 1, ..work };
        let bounded = state.fee_rate_manager.updated().after_bounded(begun, state.liquidity);
        let stepped = env.step_of(*state, *leg).after_step(bounded, remaining);
        growth::lemma_priced_grows(env, work, *state, *leg, remaining, protocol_fee_rate);
        counters::lemma_holds_before(*recorder, begun, after, 91);
        counters::lemma_holds_before(*recorder, bounded, after, 73);
        counters::lemma_holds_before(*recorder, stepped, after, 2);
        reveal(SwapEnv::after_priced);
    }
    count_substep(recorder);
    let mut manager = state.fee_rate_manager;
    manager.update_volatility_accumulator();
    let total_fee_rate: u32 = manager.get_total_fee_rate();
    let (bounded, skipped) = manager.get_bounded_sqrt_price_target(
        leg.target,
        state.liquidity,
        recorder,
    );
    let stepped = compute_swap_step(
        remaining,
        total_fee_rate,
        state.liquidity,
        state.sqrt_price,
        bounded,
        a_to_b,
        recorder,
    );
    let step = stepped?;
    record_step_fees(recorder, step.fee_amount, protocol_fee_rate, state.liquidity);
    Ok((step, manager, skipped))
}

/// Take the next step within a leg, and count it. Gives the state, what
/// is left of the amount and what has come out.
#[verifier::rlimit(40)]
pub(crate) fn take_step(
    state: &SwapPrefixResume,
    leg: &Leg,
    remaining: u64,
    out: u64,
    protocol_fee_rate: u16,
    a_to_b: bool,
    recorder: &mut Recorder,
    Ghost(env): Ghost<SwapEnv>,
) -> (r: Result<(SwapPrefixResume, u64, u64), CoreError>)
    requires
        env.valid(),
        env.a_to_b == a_to_b,
        env.is_sound_within(*state, *leg),
        old(recorder).can_hold(
            env.after_within(
                old(recorder).counters@,
                *state,
                *leg,
                remaining,
                out,
                protocol_fee_rate,
            ),
        ),
        old(recorder).on ==> env.share_fits(
            WalkPoint::Within { state: *state, leg: *leg, remaining, out },
            protocol_fee_rate,
        ),
    ensures
        env.next(WalkPoint::Within { state: *state, leg: *leg, remaining, out }) == match r {
            Err(e) => WalkPoint::Failed(e),
            Ok((state, remaining, out)) => if remaining == 0 || state.sqrt_price == leg.target {
                WalkPoint::Top { state, remaining, out }
            } else {
                WalkPoint::Within { state, leg: *leg, remaining, out }
            },
        },
        r matches Ok((after, left, _)) ==> left <= remaining && (left > 0 ==> env.moved(
            *state,
            *leg,
            env.step_of(*state, *leg).target,
        ) == Ok::<SwapPrefixResume, CoreError>(after)),
        old(recorder).becomes(
            *final(recorder),
            env.after_within(
                old(recorder).counters@,
                *state,
                *leg,
                remaining,
                out,
                protocol_fee_rate,
            ),
        ),
{
    let ghost spec = env.step_of(*state, *leg);
    proof {
        lemma_step_is_sound(env, *state, *leg);
        if !spec.reaches(remaining) {
            lemma_fell_short(env, *state, *leg, remaining);
        }
        let work = recorder.counters@;
        growth::lemma_within_grows(env, work, *state, *leg, remaining, out, protocol_fee_rate);
        counters::lemma_holds_before(
            *recorder,
            env.after_priced(work, *state, *leg, remaining, protocol_fee_rate),
            env.after_within(work, *state, *leg, remaining, out, protocol_fee_rate),
            122,
        );
    }
    let priced = price_step(
        state,
        leg,
        remaining,
        protocol_fee_rate,
        a_to_b,
        recorder,
        Ghost(env),
    );
    let (step, manager, skipped) = priced?;
    if step.amount_in > remaining || step.fee_amount > remaining - step.amount_in || step.amount_out
        > u64::MAX - out {
        return Err(CoreError::ArithmeticOverflow);
    }
    let moved = move_to(
        state,
        leg,
        step.next_sqrt_price,
        manager,
        skipped,
        a_to_b,
        recorder,
        Ghost(env),
    );
    let after = moved?;
    Ok((after, remaining - step.amount_in - step.fee_amount, out + step.amount_out))
}

} // verus!
