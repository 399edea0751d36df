//! The fee rate of a swap as it walks.
//!
//! A fee that adapts changes from one tick group to the next, so that a swap stops at the boundary
//! of every tick group. It does not have to where the fee cannot change: outside of the core range
//! of groups, in which the volatility is below its maximum, and where there is no liquidity.

use crate::adaptive_fee;
use crate::adaptive_fee::{
    AdaptiveFeeConstantsFacade, AdaptiveFeeInfo, AdaptiveFeeVariablesFacade,
    ADAPTIVE_FEE_CONTROL_FACTOR_DENOMINATOR, FEE_RATE_HARD_LIMIT,
    VOLATILITY_ACCUMULATOR_SCALE_FACTOR,
};
use crate::arith;
use crate::bits;
use crate::bits::{leading_zeros_u64, set_bits_of};
use crate::counters;
use crate::counters::{Recorder, Work};
use crate::error::CoreError;
use crate::growth;
use crate::tick_math;
use crate::tick_math::{
    sqrt_price_to_tick_index, tick_index_to_sqrt_price, MAX_SQRT_PRICE, MAX_TICK_INDEX, MIN_SQRT_PRICE,
    MIN_TICK_INDEX,
};
use vstd::arithmetic::power2::*;
use vstd::prelude::*;

verus! {

/// A fee rate that adapts during a swap.
#[derive(Debug, Clone, Copy, PartialEq, Eq)]
pub struct AdaptiveFeeRate {
    pub a_to_b: bool,
    pub tick_group_index: i32,
    pub static_fee_rate: u16,
    pub constants: AdaptiveFeeConstantsFacade,
    pub variables: AdaptiveFeeVariablesFacade,
    /// The lowest tick group of the core range, and the sqrt price at which it starts.
    pub core_lower_bound: Option<(i32, u128)>,
    /// The highest tick group of the core range, and the sqrt price at which it ends.
    pub core_upper_bound: Option<(i32, u128)>,
}

/// The fee rate of a swap.
#[derive(Debug, Clone, Copy, PartialEq, Eq)]
pub enum FeeRateManager {
    /// A fee rate that stays as it is.
    Static { static_fee_rate: u16 },
    /// A fee rate that adapts.
    Adaptive(AdaptiveFeeRate),
}

/// A tick index, or the end of the tick range that it is beyond.
pub open spec fn clamped(tick: int) -> int {
    if tick < MIN_TICK_INDEX {
        MIN_TICK_INDEX as int
    } else if tick > MAX_TICK_INDEX {
        MAX_TICK_INDEX as int
    } else {
        tick
    }
}

/// The sqrt price at which a tick group starts.
pub open spec fn group_start(group: int, size: u16) -> u128 {
    tick_math::sqrt_price_at(clamped(group * size)) as u128
}

/// The counts after the sqrt price at which a tick group starts has been computed.
pub open spec fn after_group_start(work: Work, group: int, size: u16) -> Work {
    tick_math::after_ladder(work, clamped(group * size))
}

/// The magnitude of a tick in tick groups.
pub open spec fn groups_in(tick: int, size: int) -> nat {
    if tick >= 0 {
        (tick / size) as nat
    } else {
        (-tick / size) as nat
    }
}

/// The counts after a tick has been divided twice by the size of a tick group, by the bits of the
/// quotient and the set ones among them.
pub open spec fn after_tick_divs(work: Work, tick: int, size: int) -> Work {
    let quotient = groups_in(tick, size);
    Work {
        skip_tick_div_qbits: work.skip_tick_div_qbits + 2 * bits::bit_len(quotient),
        skip_tick_div_setbits: work.skip_tick_div_setbits + 2 * bits::set_bits(quotient),
        ..work
    }
}

/// The counts after the tick of the sqrt price behind a skip has been found, where it is not known,
/// with a ladder where that may be on a boundary.
pub open spec fn after_skip_tick(work: Work, price: u128, next_price: u128, size: int) -> Work {
    let tick = tick_math::tick_of(price as nat);
    let found = tick_math::after_sqrt_to_tick(work, price as nat);
    if price == next_price {
        work
    } else if tick % size == 0 && tick_math::tick_in_range(tick) {
        tick_math::after_ladder(found, tick)
    } else {
        found
    }
}

/// The greater one of two sqrt prices.
pub open spec fn higher(p: u128, q: u128) -> u128 {
    if p >= q {
        p
    } else {
        q
    }
}

/// The lesser one of two sqrt prices.
pub open spec fn lower(p: u128, q: u128) -> u128 {
    if p <= q {
        p
    } else {
        q
    }
}

/// How many tick groups away from the reference the volatility reaches its maximum.
pub open spec fn core_radius(info: AdaptiveFeeInfo) -> int {
    arith::ceil_div(
        info.constants.max_volatility_accumulator - info.variables.volatility_reference,
        VOLATILITY_ACCUMULATOR_SCALE_FACTOR as int,
    )
}

/// The lower end of the core range, where it is in the tick range.
pub open spec fn core_lower(info: AdaptiveFeeInfo) -> Option<(i32, u128)> {
    let group = info.variables.tick_group_index_reference - core_radius(info);
    let size = info.constants.tick_group_size;
    if group * size > MIN_TICK_INDEX {
        Some((group as i32, group_start(group, size)))
    } else {
        None
    }
}

/// The upper end of the core range, where it is in the tick range.
pub open spec fn core_upper(info: AdaptiveFeeInfo) -> Option<(i32, u128)> {
    let group = info.variables.tick_group_index_reference + core_radius(info);
    let size = info.constants.tick_group_size;
    if group * size + size < MAX_TICK_INDEX {
        Some((group as i32, group_start(group + 1, size)))
    } else {
        None
    }
}

impl AdaptiveFeeRate {
    /// Tick groups are not empty, and the bounds of the core range are at their sqrt prices.
    pub open spec fn valid(self) -> bool {
        let size = self.constants.tick_group_size;
        &&& size > 0
        &&& self.core_lower_bound matches Some((group, price)) ==> {
            &&& group <= 443636
            &&& group * size > MIN_TICK_INDEX
            &&& price == group_start(group as int, size)
        }
        &&& self.core_upper_bound matches Some((group, price)) ==> {
            &&& group >= -443637
            &&& group * size + size < MAX_TICK_INDEX
            &&& price == group_start(group + 1, size)
        }
    }

    /// The fee rate at the start of a swap, once the reference has been updated.
    pub open spec fn starting(
        a_to_b: bool,
        tick: int,
        static_fee_rate: u16,
        info: AdaptiveFeeInfo,
    ) -> Self {
        AdaptiveFeeRate {
            a_to_b,
            tick_group_index: adaptive_fee::tick_group(tick, info.constants.tick_group_size) as i32,
            static_fee_rate,
            constants: info.constants,
            variables: info.variables,
            core_lower_bound: core_lower(info),
            core_upper_bound: core_upper(info),
        }
    }

    /// The fee rate with the volatility of its tick group.
    pub open spec fn updated(self) -> Self {
        AdaptiveFeeRate {
            variables: self.variables.at_group(self.tick_group_index as int, self.constants),
            ..self
        }
    }

    /// The part of the fee rate that adapts: it grows with the square of the ticks crossed.
    pub open spec fn adaptive_rate(self) -> int {
        let crossed = self.variables.volatility_accumulator * self.constants.tick_group_size;
        let rate = arith::ceil_div(
            self.constants.adaptive_fee_control_factor * (crossed * crossed),
            ADAPTIVE_FEE_CONTROL_FACTOR_DENOMINATOR * 100_000_000,
        );
        if rate > FEE_RATE_HARD_LIMIT {
            FEE_RATE_HARD_LIMIT as int
        } else {
            rate
        }
    }

    /// The fee rate, which has an upper limit.
    pub open spec fn total_rate(self) -> u32 {
        let rate = self.static_fee_rate + self.adaptive_rate();
        if rate > FEE_RATE_HARD_LIMIT {
            FEE_RATE_HARD_LIMIT
        } else {
            rate as u32
        }
    }

    /// The tick group is below the core range.
    pub open spec fn below_core(self) -> bool {
        self.core_lower_bound matches Some((group, _)) && self.tick_group_index < group
    }

    /// The tick group is above the core range.
    pub open spec fn above_core(self) -> bool {
        self.core_upper_bound matches Some((group, _)) && self.tick_group_index > group
    }

    /// The fee cannot change on the way to the target, or to the core range.
    pub open spec fn skips(self, liquidity: u128) -> bool {
        ||| self.constants.adaptive_fee_control_factor == 0
        ||| liquidity == 0
        ||| self.below_core()
        ||| self.above_core()
    }

    /// The sqrt price up to which the fee rate holds, towards a target.
    pub open spec fn bounded(self, target: u128, liquidity: u128) -> u128 {
        let size = self.constants.tick_group_size;
        if self.constants.adaptive_fee_control_factor == 0 || liquidity == 0 {
            target
        } else if self.below_core() {
            if self.a_to_b {
                target
            } else {
                lower(target, (self.core_lower_bound->0).1)
            }
        } else if self.above_core() {
            if self.a_to_b {
                higher(target, (self.core_upper_bound->0).1)
            } else {
                target
            }
        } else if self.a_to_b {
            higher(target, group_start(self.tick_group_index as int, size))
        } else {
            lower(target, group_start(self.tick_group_index + 1, size))
        }
    }

    /// The fee rate in the next tick group.
    pub open spec fn advanced(self) -> Self {
        AdaptiveFeeRate {
            tick_group_index: (if self.a_to_b {
                self.tick_group_index - 1
            } else {
                self.tick_group_index + 1
            }) as i32,
            ..self
        }
    }

    /// The last tick group that a swap traversed to get to a sqrt price.
    pub open spec fn last_traversed(self, price: u128, next_price: u128, next_index: i32) -> int {
        let size = self.constants.tick_group_size as int;
        let tick = if price == next_price {
            next_index as int
        } else {
            tick_math::tick_of(price as nat)
        };
        let on_boundary = tick % size == 0 && (price == next_price || (tick_math::tick_in_range(
            tick,
        ) && price == tick_math::sqrt_price_at(tick)));
        if on_boundary && !self.a_to_b {
            tick / size - 1
        } else {
            tick / size
        }
    }

    /// The fee rate in the tick group after those that a swap traversed without stopping.
    pub open spec fn advanced_after_skip(
        self,
        price: u128,
        next_price: u128,
        next_index: i32,
    ) -> Self {
        let last = self.last_traversed(price, next_price, next_index);
        if (self.a_to_b && last < self.tick_group_index) || (!self.a_to_b && last
            > self.tick_group_index) {
            (AdaptiveFeeRate { tick_group_index: last as i32, ..self }).updated().advanced()
        } else {
            self.advanced()
        }
    }
}

impl FeeRateManager {
    /// The bounds of the core range are at their sqrt prices.
    pub open spec fn valid(self) -> bool {
        self matches FeeRateManager::Adaptive(adaptive) ==> adaptive.valid()
    }

    /// The fee rate with the volatility of its tick group.
    pub open spec fn updated(self) -> Self {
        match self {
            FeeRateManager::Static { .. } => self,
            FeeRateManager::Adaptive(adaptive) => FeeRateManager::Adaptive(adaptive.updated()),
        }
    }

    /// The fee rate.
    pub open spec fn total_rate(self) -> u32 {
        match self {
            FeeRateManager::Static { static_fee_rate } => static_fee_rate as u32,
            FeeRateManager::Adaptive(adaptive) => adaptive.total_rate(),
        }
    }

    /// The sqrt price up to which the fee rate holds, towards a target.
    pub open spec fn bounded(self, target: u128, liquidity: u128) -> u128 {
        match self {
            FeeRateManager::Static { .. } => target,
            FeeRateManager::Adaptive(adaptive) => adaptive.bounded(target, liquidity),
        }
    }

    /// The fee cannot change on the way to the target, or to the core range.
    pub open spec fn skips(self, liquidity: u128) -> bool {
        match self {
            FeeRateManager::Static { .. } => false,
            FeeRateManager::Adaptive(adaptive) => adaptive.skips(liquidity),
        }
    }

    /// The fee rate in the next tick group.
    pub open spec fn advanced(self) -> Self {
        match self {
            FeeRateManager::Static { .. } => self,
            FeeRateManager::Adaptive(adaptive) => FeeRateManager::Adaptive(adaptive.advanced()),
        }
    }

    /// The fee rate in the tick group after those that a swap traversed without stopping.
    pub open spec fn advanced_after_skip(
        self,
        price: u128,
        next_price: u128,
        next_index: i32,
    ) -> Self {
        match self {
            FeeRateManager::Static { .. } => self,
            FeeRateManager::Adaptive(adaptive) => FeeRateManager::Adaptive(
                adaptive.advanced_after_skip(price, next_price, next_index),
            ),
        }
    }

    /// The fee rate at the start of a swap.
    pub open spec fn starting(
        a_to_b: bool,
        tick: int,
        timestamp: u64,
        static_fee_rate: u16,
        info: Option<AdaptiveFeeInfo>,
    ) -> Result<Self, CoreError> {
        match info {
            None => Ok(FeeRateManager::Static { static_fee_rate }),
            Some(info) => match info.variables.with_reference(
                adaptive_fee::tick_group(tick, info.constants.tick_group_size) as i32,
                timestamp,
                info.constants,
            ) {
                Err(e) => Err(e),
                Ok(variables) => Ok(
                    FeeRateManager::Adaptive(
                        AdaptiveFeeRate::starting(
                            a_to_b,
                            tick,
                            static_fee_rate,
                            AdaptiveFeeInfo { variables, ..info },
                        ),
                    ),
                ),
            },
        }
    }

    /// The counts after the start of a swap: a ladder for each bound of the core range.
    #[verifier::opaque]
    pub open spec fn after_starting(self, work: Work) -> Work {
        match self {
            FeeRateManager::Static { .. } => work,
            FeeRateManager::Adaptive(adaptive) => {
                let size = adaptive.constants.tick_group_size;
                let low = match adaptive.core_lower_bound {
                    Some((group, _)) => after_group_start(work, group as int, size),
                    None => work,
                };
                match adaptive.core_upper_bound {
                    Some((group, _)) => after_group_start(low, group + 1, size),
                    None => low,
                }
            },
        }
    }

    /// The counts after the bound of the fee rate has been found: a ladder for the boundary of a
    /// tick group.
    #[verifier::opaque]
    pub open spec fn after_bounded(self, work: Work, liquidity: u128) -> Work {
        match self {
            FeeRateManager::Static { .. } => work,
            FeeRateManager::Adaptive(adaptive) => if adaptive.skips(liquidity) {
                work
            } else {
                after_group_start(
                    work,
                    if adaptive.a_to_b {
                        adaptive.tick_group_index as int
                    } else {
                        adaptive.tick_group_index + 1
                    },
                    adaptive.constants.tick_group_size,
                )
            },
        }
    }

    /// The counts after the tick groups have been advanced after a skip: the tick of the sqrt price
    /// where it is not known, a ladder where that may be on a boundary, and two divisions of the
    /// tick by the size of a group.
    #[verifier::opaque]
    pub open spec fn after_skip(
        self,
        work: Work,
        price: u128,
        next_price: u128,
        next_index: i32,
    ) -> Work {
        match self {
            FeeRateManager::Static { .. } => work,
            FeeRateManager::Adaptive(adaptive) => {
                let size = adaptive.constants.tick_group_size as int;
                after_tick_divs(
                    after_skip_tick(work, price, next_price, size),
                    if price == next_price {
                        next_index as int
                    } else {
                        tick_math::tick_of(price as nat)
                    },
                    size,
                )
            },
        }
    }

    /// The tick group that the fee rate is in, where it adapts.
    pub open spec fn group(self) -> int {
        match self {
            FeeRateManager::Static { .. } => 0,
            FeeRateManager::Adaptive(adaptive) => adaptive.tick_group_index as int,
        }
    }
}

/// `floor(x / d)`.
pub(crate) fn floor_division(x: i32, d: u16) -> (r: i32)
    requires
        d > 0,
    ensures
        r == x as int / d as int,
        x >= 0 ==> 0 <= r <= x,
        x < 0 ==> x <= r < 0,
{
    let wide: i64 = x as i64;
    let divisor: i64 = d as i64;
    proof {
        arith::lemma_div_mod(x as int, d as int);
        arith::lemma_floor_at_least(x as int, d as int, x as int);
        arith::lemma_floor_at_least(x as int, d as int, 0);
        arith::lemma_floor_at_least(x as int, d as int, x + 1);
        assert(x < 0 ==> d * x <= x) by (nonlinear_arith)
            requires
                d >= 1,
        ;
        assert(x >= 0 ==> d * (x + 1) > x) by (nonlinear_arith)
            requires
                d >= 1,
        ;
    }
    if x >= 0 {
        (wide / divisor) as i32
    } else {
        let up: i64 = (-wide + divisor - 1) / divisor;
        proof {
            let q = x as int / d as int;
            let r = x as int % d as int;
            assert((-q) * d == -(q * d)) by (nonlinear_arith);
            arith::lemma_div_mod_unique(-x + d - 1, d as int, -q, d - 1 - r);
        }
        (-up) as i32
    }
}

/// The sqrt price at which a tick group starts.
pub(crate) fn group_start_price(group: i64, size: u16, recorder: &mut Recorder) -> (r: u128)
    requires
        -0x8000_0000 <= group <= 0x8000_0000,
        old(recorder).can_hold(
            after_group_start(old(recorder).counters@, group as int, size),
        ),
    ensures
        r == group_start(group as int, size),
        MIN_SQRT_PRICE <= r <= MAX_SQRT_PRICE,
        old(recorder).becomes(
            *final(recorder),
            after_group_start(old(recorder).counters@, group as int, size),
        ),
{
    proof {
        assert(-0x8000_0000 * 0x1_0000 <= group * size <= 0x8000_0000 * 0x1_0000)
            by (nonlinear_arith)
            requires
                -0x8000_0000 <= group <= 0x8000_0000,
                0 <= size < 0x1_0000,
        ;
    }
    let tick: i64 = group * size as i64;
    let in_range: i32 = if tick < MIN_TICK_INDEX as i64 {
        MIN_TICK_INDEX
    } else if tick > MAX_TICK_INDEX as i64 {
        MAX_TICK_INDEX
    } else {
        tick as i32
    };
    tick_index_to_sqrt_price(in_range, recorder)
}

/// Record the two divisions of a tick by the size of a tick group.
fn record_tick_divs(tick: i32, size: u16, recorder: &mut Recorder)
    requires
        MIN_TICK_INDEX - 1 <= tick <= MAX_TICK_INDEX,
        size > 0,
        old(recorder).can_hold(
            after_tick_divs(old(recorder).counters@, tick as int, size as int),
        ),
    ensures
        old(recorder).becomes(
            *final(recorder),
            after_tick_divs(old(recorder).counters@, tick as int, size as int),
        ),
{
    proof {
        reveal(Work::within);
    }
    if !recorder.on {
        return;
    }
    let ghost before = recorder.counters@;
    let magnitude: u32 = if tick >= 0 {
        tick as u32
    } else {
        (-tick) as u32
    };
    let quotient: u32 = magnitude / size as u32;
    proof {
        assert(quotient <= magnitude) by (nonlinear_arith)
            requires
                quotient == magnitude / (size as u32),
                size >= 1,
        ;
        lemma2_to64();
        bits::lemma_bit_len_upper(quotient as nat, 19);
        bits::lemma_set_bits_at_most(quotient as nat, 19);
    }
    let width: u32 = 64 - leading_zeros_u64(quotient as u64);
    let set: u32 = set_bits_of(quotient);
    recorder.counters.skip_tick_div_qbits += 2 * width;
    recorder.counters.skip_tick_div_setbits += 2 * set;
    proof {
        assert(recorder.counters@ =~= after_tick_divs(before, tick as int, size as int));
    }
}

/// A later tick group does not start at a lower sqrt price.
pub proof fn lemma_group_starts_ordered(g1: int, g2: int, size: u16)
    requires
        g1 <= g2,
    ensures
        group_start(g1, size) <= group_start(g2, size),
        MIN_SQRT_PRICE <= group_start(g1, size),
        group_start(g2, size) <= MAX_SQRT_PRICE,
{
    assert(g1 * size <= g2 * size) by (nonlinear_arith)
        requires
            g1 <= g2,
            size >= 0,
    ;
    tick_math::law_sqrt_price_range(clamped(g1 * size));
    tick_math::law_sqrt_price_range(clamped(g2 * size));
    tick_math::law_sqrt_price_is_monotone(clamped(g1 * size), clamped(g2 * size));
}

/// The fee rate that a swap starts with is valid, in the tick group of the tick.
pub proof fn lemma_starting(
    a_to_b: bool,
    tick: int,
    timestamp: u64,
    static_fee_rate: u16,
    info: Option<AdaptiveFeeInfo>,
)
    requires
        tick_math::tick_in_range(tick),
        info matches Some(info) ==> info.constants.valid() && info.variables.valid(
            info.constants,
        ),
    ensures
        FeeRateManager::starting(a_to_b, tick, timestamp, static_fee_rate, info) matches Ok(m)
            ==> m.valid() && -443636 <= m.group() <= 443636,
        info matches Some(info) ==> {
            let group = adaptive_fee::tick_group(tick, info.constants.tick_group_size);
            &&& -443636 <= group <= 443636
            &&& group * info.constants.tick_group_size <= tick
            &&& tick < (group + 1) * info.constants.tick_group_size
        },
{
    if let Some(info) = info {
        let size = info.constants.tick_group_size;
        let group = adaptive_fee::tick_group(tick, size);
        arith::lemma_div_mod(tick, size as int);
        assert(group * size <= tick < group * size + size);
        assert(-443636 <= group <= 443636) by (nonlinear_arith)
            requires
                group * size <= tick < group * size + size,
                size >= 1,
                -443636 <= tick <= 443636,
        ;
        assert((group + 1) * size == group * size + size) by (nonlinear_arith);
        adaptive_fee::law_reference_update_keeps_validity(
            info.variables,
            info.constants,
            tick,
            timestamp,
        );
        if let Ok(variables) = info.variables.with_reference(
            group as i32,
            timestamp,
            info.constants,
        ) {
            lemma_core_range(AdaptiveFeeInfo { variables, ..info });
        }
    }
}

/// The core range around a valid reference.
pub proof fn lemma_core_range(info: AdaptiveFeeInfo)
    requires
        info.constants.valid(),
        info.variables.valid(info.constants),
    ensures
        0 <= core_radius(info) <= 429497,
        -443637 <= info.variables.tick_group_index_reference <= 443636,
        core_lower(info) matches Some((group, _)) ==> group
            == info.variables.tick_group_index_reference - core_radius(info),
        core_upper(info) matches Some((group, _)) ==> group
            == info.variables.tick_group_index_reference + core_radius(info),
        core_upper(info) matches Some((group, price)) ==> price == group_start(
            group + 1,
            info.constants.tick_group_size,
        ),
{
    let reference = info.variables.tick_group_index_reference as int;
    let size = info.constants.tick_group_size as int;
    assert(-443637 <= reference <= 443636) by (nonlinear_arith)
        requires
            -443636 - size <= reference * size <= 443636,
            size >= 1,
    ;
}

impl AdaptiveFeeRate {
    /// The part of the fee rate that adapts.
    fn compute_adaptive_fee_rate(&self) -> (r: u32)
        ensures
            r == self.adaptive_rate(),
            r <= FEE_RATE_HARD_LIMIT,
    {
        let accumulator: u64 = self.variables.volatility_accumulator as u64;
        let size: u64 = self.constants.tick_group_size as u64;
        let factor: u128 = self.constants.adaptive_fee_control_factor as u128;
        proof {
            assert(0 <= accumulator * size < 0x1_0000_0000_0000) by (nonlinear_arith)
                requires
                    0 <= accumulator < 0x1_0000_0000,
                    0 <= size < 0x1_0000,
            ;
        }
        let crossed: u128 = (accumulator * size) as u128;
        proof {
            assert(0 <= crossed * crossed < 0x1_0000_0000_0000 * 0x1_0000_0000_0000)
                by (nonlinear_arith)
                requires
                    0 <= crossed < 0x1_0000_0000_0000,
            ;
        }
        let squared: u128 = crossed * crossed;
        proof {
            assert(0 <= factor * squared <= 0xffff_ffff * 0x1_0000_0000_0000_0000_0000_0000)
                by (nonlinear_arith)
                requires
                    0 <= factor <= 0xffff_ffff,
                    0 <= squared <= 0x1_0000_0000_0000_0000_0000_0000,
            ;
        }
        let numerator: u128 = factor * squared;
        let denominator: u128 = ADAPTIVE_FEE_CONTROL_FACTOR_DENOMINATOR as u128 * 100_000_000;
        let mut rate: u128 = numerator / denominator;
        if numerator % denominator != 0 {
            rate = rate + 1;
        }
        if rate > FEE_RATE_HARD_LIMIT as u128 {
            FEE_RATE_HARD_LIMIT
        } else {
            rate as u32
        }
    }
}

impl FeeRateManager {
    /// The fee rate at the start of a swap. The clock is refused where it is behind the reference
    /// of an adaptive fee.
    pub fn new(
        a_to_b: bool,
        current_tick_index: i32,
        timestamp: u64,
        static_fee_rate: u16,
        adaptive_fee_info: &Option<AdaptiveFeeInfo>,
        recorder: &mut Recorder,
    ) -> (r: Result<Self, CoreError>)
        requires
            FeeRateManager::starting(
                a_to_b,
                current_tick_index as int,
                timestamp,
                static_fee_rate,
                *adaptive_fee_info,
            ) matches Ok(manager) ==> old(recorder).can_hold(
                manager.after_starting(old(recorder).counters@),
            ),
            tick_math::tick_in_range(current_tick_index as int),
            adaptive_fee_info matches Some(info) ==> info.constants.valid() && info.variables.valid(
                info.constants,
            ),
        ensures
            r == FeeRateManager::starting(
                a_to_b,
                current_tick_index as int,
                timestamp,
                static_fee_rate,
                *adaptive_fee_info,
            ),
            old(recorder).becomes(
                *final(recorder),
                match r {
                    Ok(manager) => manager.after_starting(old(recorder).counters@),
                    Err(_) => old(recorder).counters@,
                },
            ),
    {
        let ghost r0 = *recorder;
        proof {
            reveal(FeeRateManager::after_starting);
            if let Ok(manager) = FeeRateManager::starting(
                a_to_b,
                current_tick_index as int,
                timestamp,
                static_fee_rate,
                *adaptive_fee_info,
            ) {
                let after = manager.after_starting(r0.counters@);
                growth::lemma_starting_grows(manager, r0.counters@);
                if let FeeRateManager::Adaptive(adaptive) = manager {
                    if let Some((group, _)) = adaptive.core_lower_bound {
                        counters::lemma_holds_before(
                            r0,
                            after_group_start(
                                r0.counters@,
                                group as int,
                                adaptive.constants.tick_group_size,
                            ),
                            after,
                            18,
                        );
                    }
                }
            }
        }
        match adaptive_fee_info {
            None => Ok(FeeRateManager::Static { static_fee_rate }),
            Some(info) => {
                let constants = info.constants;
                let mut variables = info.variables;
                let size: u16 = constants.tick_group_size;
                let tick_group_index: i32 = floor_division(current_tick_index, size);
                variables.update_reference(tick_group_index, timestamp, &constants)?;
                let ghost after = AdaptiveFeeInfo { constants, variables };
                proof {
                    adaptive_fee::law_reference_update_keeps_validity(
                        info.variables,
                        constants,
                        current_tick_index as int,
                        timestamp,
                    );
                    lemma_core_range(after);
                }
                let span: u32 = constants.max_volatility_accumulator
                    - variables.volatility_reference;
                let mut radius: i64 = (span / VOLATILITY_ACCUMULATOR_SCALE_FACTOR) as i64;
                if span % VOLATILITY_ACCUMULATOR_SCALE_FACTOR != 0 {
                    radius = radius + 1;
                }
                let reference: i64 = variables.tick_group_index_reference as i64;
                let lower_group: i64 = reference - radius;
                let upper_group: i64 = reference + radius;
                proof {
                    assert(-1_000_000 * 0x1_0000 <= lower_group * size <= 1_000_000 * 0x1_0000)
                        by (nonlinear_arith)
                        requires
                            -1_000_000 <= lower_group <= 1_000_000,
                            0 <= size < 0x1_0000,
                    ;
                    assert(-1_000_000 * 0x1_0000 <= upper_group * size <= 1_000_000 * 0x1_0000)
                        by (nonlinear_arith)
                        requires
                            -1_000_000 <= upper_group <= 1_000_000,
                            0 <= size < 0x1_0000,
                    ;
                }
                let core_lower_bound: Option<(i32, u128)> = if lower_group * size as i64
                    > MIN_TICK_INDEX as i64 {
                    Some((lower_group as i32, group_start_price(lower_group, size, recorder)))
                } else {
                    None
                };
                let core_upper_bound: Option<(i32, u128)> = if upper_group * size as i64
                    + (size as i64) < MAX_TICK_INDEX as i64 {
                    Some((upper_group as i32, group_start_price(upper_group + 1, size, recorder)))
                } else {
                    None
                };
                Ok(
                    FeeRateManager::Adaptive(
                        AdaptiveFeeRate {
                            a_to_b,
                            tick_group_index,
                            static_fee_rate,
                            constants,
                            variables,
                            core_lower_bound,
                            core_upper_bound,
                        },
                    ),
                )
            },
        }
    }

    /// Update the volatility for the tick group.
    pub fn update_volatility_accumulator(&mut self)
        ensures
            *final(self) == old(self).updated(),
    {
        match self {
            FeeRateManager::Static { .. } => {},
            FeeRateManager::Adaptive(adaptive) => {
                let constants = adaptive.constants;
                adaptive.variables.update_volatility_accumulator(
                    adaptive.tick_group_index,
                    &constants,
                );
            },
        }
    }

    /// The fee rate.
    pub fn get_total_fee_rate(&self) -> (r: u32)
        ensures
            r == self.total_rate(),
            r <= FEE_RATE_HARD_LIMIT,
    {
        match self {
            FeeRateManager::Static { static_fee_rate } => *static_fee_rate as u32,
            FeeRateManager::Adaptive(adaptive) => {
                let rate: u32 = adaptive.static_fee_rate as u32
                    + adaptive.compute_adaptive_fee_rate();
                if rate > FEE_RATE_HARD_LIMIT {
                    FEE_RATE_HARD_LIMIT
                } else {
                    rate
                }
            },
        }
    }

    /// The sqrt price up to which the fee rate holds, towards a target, and whether the fee is not
    /// updated on the way there.
    pub fn get_bounded_sqrt_price_target(
        &self,
        sqrt_price: u128,
        liquidity: u128,
        recorder: &mut Recorder,
    ) -> (r: (u128, bool))
        requires
            self.valid(),
            old(recorder).can_hold(self.after_bounded(old(recorder).counters@, liquidity)),
        ensures
            r.0 == self.bounded(sqrt_price, liquidity),
            r.1 == self.skips(liquidity),
            old(recorder).becomes(
                *final(recorder),
                self.after_bounded(old(recorder).counters@, liquidity),
            ),
    {
        proof {
            reveal(FeeRateManager::after_bounded);
        }
        match self {
            FeeRateManager::Static { .. } => (sqrt_price, false),
            FeeRateManager::Adaptive(adaptive) => {
                if adaptive.constants.adaptive_fee_control_factor == 0 || liquidity == 0 {
                    return (sqrt_price, true);
                }
                if let Some((group, price)) = adaptive.core_lower_bound {
                    if adaptive.tick_group_index < group {
                        return if adaptive.a_to_b || sqrt_price <= price {
                            (sqrt_price, true)
                        } else {
                            (price, true)
                        };
                    }
                }
                if let Some((group, price)) = adaptive.core_upper_bound {
                    if adaptive.tick_group_index > group {
                        return if !adaptive.a_to_b || sqrt_price >= price {
                            (sqrt_price, true)
                        } else {
                            (price, true)
                        };
                    }
                }
                let size: u16 = adaptive.constants.tick_group_size;
                let group: i64 = adaptive.tick_group_index as i64;
                if adaptive.a_to_b {
                    let boundary: u128 = group_start_price(group, size, recorder);
                    if sqrt_price >= boundary {
                        (sqrt_price, false)
                    } else {
                        (boundary, false)
                    }
                } else {
                    let boundary: u128 = group_start_price(group + 1, size, recorder);
                    if sqrt_price <= boundary {
                        (sqrt_price, false)
                    } else {
                        (boundary, false)
                    }
                }
            },
        }
    }

    /// Move on to the next tick group.
    pub fn advance_tick_group(&mut self)
        requires
            -0x7fff_ffff <= old(self).group() <= 0x7fff_fffe,
        ensures
            *final(self) == old(self).advanced(),
    {
        match self {
            FeeRateManager::Static { .. } => {},
            FeeRateManager::Adaptive(adaptive) => {
                if adaptive.a_to_b {
                    adaptive.tick_group_index = adaptive.tick_group_index - 1;
                } else {
                    adaptive.tick_group_index = adaptive.tick_group_index + 1;
                }
            },
        }
    }

    /// Move on to the tick group after those that were traversed without an update.
    pub fn advance_tick_group_after_skip(
        &mut self,
        sqrt_price: u128,
        next_tick_sqrt_price: u128,
        next_tick_index: i32,
        recorder: &mut Recorder,
    )
        requires
            old(self).valid(),
            -0x7fff_ffff <= old(self).group() <= 0x7fff_fffe,
            MIN_SQRT_PRICE <= sqrt_price <= MAX_SQRT_PRICE,
            tick_math::tick_in_range(next_tick_index as int),
            old(recorder).can_hold(
                old(self).after_skip(
                    old(recorder).counters@,
                    sqrt_price,
                    next_tick_sqrt_price,
                    next_tick_index,
                ),
            ),
        ensures
            *final(self) == old(self).advanced_after_skip(
                sqrt_price,
                next_tick_sqrt_price,
                next_tick_index,
            ),
            old(recorder).becomes(
                *final(recorder),
                old(self).after_skip(
                    old(recorder).counters@,
                    sqrt_price,
                    next_tick_sqrt_price,
                    next_tick_index,
                ),
            ),
    {
        let ghost r0 = *recorder;
        proof {
            reveal(FeeRateManager::after_skip);
            let before = r0.counters@;
            let after = self.after_skip(
                before,
                sqrt_price,
                next_tick_sqrt_price,
                next_tick_index,
            );
            growth::lemma_skip_grows(
                *self,
                before,
                sqrt_price,
                next_tick_sqrt_price,
                next_tick_index,
            );
            if let FeeRateManager::Adaptive(adaptive) = *self {
                let known = after_skip_tick(
                    before,
                    sqrt_price,
                    next_tick_sqrt_price,
                    adaptive.constants.tick_group_size as int,
                );
                counters::lemma_holds_before(r0, known, after, 38);
                if sqrt_price != next_tick_sqrt_price {
                    counters::lemma_holds_before(
                        r0,
                        tick_math::after_sqrt_to_tick(before, sqrt_price as nat),
                        after,
                        56,
                    );
                }
            }
        }
        match self {
            FeeRateManager::Static { .. } => {},
            FeeRateManager::Adaptive(adaptive) => {
                let size: u16 = adaptive.constants.tick_group_size;
                let tick_index: i32 = if sqrt_price == next_tick_sqrt_price {
                    next_tick_index
                } else {
                    sqrt_price_to_tick_index(sqrt_price, recorder)
                };
                let group: i32 = floor_division(tick_index, size);
                proof {
                    arith::lemma_div_mod(tick_index as int, size as int);
                    assert(-0x8000_0000 <= group * size <= 0x7fff_ffff);
                }
                let mut on_boundary: bool = group as i64 * size as i64 == tick_index as i64;
                if on_boundary && sqrt_price != next_tick_sqrt_price {
                    on_boundary =
                    tick_index >= MIN_TICK_INDEX && sqrt_price == tick_index_to_sqrt_price(
                        tick_index,
                        recorder,
                    );
                }
                record_tick_divs(tick_index, size, recorder);
                let last_traversed: i32 = if on_boundary && !adaptive.a_to_b {
                    group - 1
                } else {
                    group
                };
                if (adaptive.a_to_b && last_traversed < adaptive.tick_group_index) || (
                !adaptive.a_to_b && last_traversed > adaptive.tick_group_index) {
                    adaptive.tick_group_index = last_traversed;
                    let constants = adaptive.constants;
                    adaptive.variables.update_volatility_accumulator(last_traversed, &constants);
                }
                if adaptive.a_to_b {
                    adaptive.tick_group_index = adaptive.tick_group_index - 1;
                } else {
                    adaptive.tick_group_index = adaptive.tick_group_index + 1;
                }
            },
        }
    }
}

} // verus!
