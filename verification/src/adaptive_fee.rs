//! The fee that adapts to the volatility of a pool.
//!
//! The volatility is measured in tick groups of a fixed number of ticks: how far the current group
//! is from a reference group, on top of a volatility that the reference was left with. How old the
//! reference is decides whether a swap keeps it, reduces it or resets it.

use crate::error::CoreError;
use crate::tick_math::{MAX_TICK_INDEX, MIN_TICK_INDEX};
use vstd::prelude::*;
use vstd::std_specs::convert::FromSpecImpl;

verus! {

/// The highest fee rate.
pub const FEE_RATE_HARD_LIMIT: u32 = 100_000;

/// The volatility of one tick group.
pub const VOLATILITY_ACCUMULATOR_SCALE_FACTOR: u32 = 10_000;

/// The denominator of reduction factors.
pub const REDUCTION_FACTOR_DENOMINATOR: u16 = 10_000;

/// The denominator of control factors.
pub const ADAPTIVE_FEE_CONTROL_FACTOR_DENOMINATOR: u32 = 100_000;

/// The age, in seconds, above which a reference is not used any more.
pub const MAX_REFERENCE_AGE: u64 = 3_600;

/// What stays the same about an adaptive fee.
#[derive(Debug, Clone, Copy, PartialEq, Eq)]
pub struct AdaptiveFeeConstantsFacade {
    pub filter_period: u16,
    pub decay_period: u16,
    pub adaptive_fee_control_factor: u32,
    pub reduction_factor: u16,
    pub max_volatility_accumulator: u32,
    pub tick_group_size: u16,
    pub major_swap_threshold_ticks: u16,
}

/// What changes about an adaptive fee.
#[derive(Debug, Clone, Copy, PartialEq, Eq)]
pub struct AdaptiveFeeVariablesFacade {
    pub last_reference_update_timestamp: u64,
    pub last_major_swap_timestamp: u64,
    pub volatility_reference: u32,
    pub tick_group_index_reference: i32,
    pub volatility_accumulator: u32,
}

/// The oracle of a pool with an adaptive fee.
#[derive(Debug, Clone, Copy, PartialEq, Eq)]
pub struct OracleFacade {
    pub trade_enable_timestamp: u64,
    pub adaptive_fee_constants: AdaptiveFeeConstantsFacade,
    pub adaptive_fee_variables: AdaptiveFeeVariablesFacade,
}

/// The adaptive fee of a pool.
#[derive(Debug, Clone, Copy, PartialEq, Eq)]
pub struct AdaptiveFeeInfo {
    pub constants: AdaptiveFeeConstantsFacade,
    pub variables: AdaptiveFeeVariablesFacade,
}

impl From<OracleFacade> for AdaptiveFeeInfo {
    /// The adaptive fee that an oracle keeps.
    fn from(oracle: OracleFacade) -> (r: Self) {
        AdaptiveFeeInfo {
            constants: oracle.adaptive_fee_constants,
            variables: oracle.adaptive_fee_variables,
        }
    }
}

impl FromSpecImpl<OracleFacade> for AdaptiveFeeInfo {
    open spec fn obeys_from_spec() -> bool {
        true
    }

    open spec fn from_spec(oracle: OracleFacade) -> Self {
        AdaptiveFeeInfo {
            constants: oracle.adaptive_fee_constants,
            variables: oracle.adaptive_fee_variables,
        }
    }
}

/// The tick group of a tick.
pub open spec fn tick_group(tick: int, size: u16) -> int {
    tick / (size as int)
}

impl AdaptiveFeeConstantsFacade {
    /// Tick groups are not empty, and a reduction does not increase.
    pub open spec fn valid(self) -> bool {
        &&& self.tick_group_size > 0
        &&& self.reduction_factor <= REDUCTION_FACTOR_DENOMINATOR
    }

    /// Whether tick groups are not empty, and a reduction does not increase.
    pub fn is_valid(&self) -> (r: bool)
        ensures
            r == self.valid(),
    {
        self.tick_group_size > 0 && self.reduction_factor <= REDUCTION_FACTOR_DENOMINATOR
    }
}

/// What becomes of the reference of an adaptive fee.
pub enum ReferenceUpdate {
    /// The clock is behind the reference.
    Refused,
    /// The reference is too old to use.
    Expired,
    /// The reference is so recent that it stays.
    Kept,
    /// The reference moves and keeps a part of the volatility.
    Reduced,
    /// The reference moves and the volatility is forgotten.
    Reset,
}

impl ReferenceUpdate {
    /// The number of the branch that this is.
    pub open spec fn number(self) -> u8 {
        match self {
            ReferenceUpdate::Refused => 0,
            ReferenceUpdate::Expired => 1,
            ReferenceUpdate::Kept => 2,
            ReferenceUpdate::Reduced => 3,
            ReferenceUpdate::Reset => 4,
        }
    }
}

impl AdaptiveFeeVariablesFacade {
    /// The volatility stays within its bound, and the reference is a tick group of a tick.
    pub open spec fn valid(self, constants: AdaptiveFeeConstantsFacade) -> bool {
        &&& self.volatility_reference <= constants.max_volatility_accumulator
        &&& self.volatility_accumulator <= constants.max_volatility_accumulator
        &&& MIN_TICK_INDEX - constants.tick_group_size <= self.tick_group_index_reference
            * constants.tick_group_size <= MAX_TICK_INDEX
    }

    /// Whether the volatility stays within its bound, and the reference is a tick group of a tick.
    pub fn is_valid(&self, constants: &AdaptiveFeeConstantsFacade) -> (r: bool)
        ensures
            r == self.valid(*constants),
    {
        let size: i64 = constants.tick_group_size as i64;
        let reference: i64 = self.tick_group_index_reference as i64;
        proof {
            assert(-0x8000_0000 * 0x1_0000 <= reference * size <= 0x8000_0000 * 0x1_0000)
                by (nonlinear_arith)
                requires
                    -0x8000_0000 <= reference <= 0x8000_0000,
                    0 <= size < 0x1_0000,
            ;
        }
        self.volatility_reference <= constants.max_volatility_accumulator
            && self.volatility_accumulator <= constants.max_volatility_accumulator
            && MIN_TICK_INDEX as i64 - size <= reference * size && reference * size
            <= MAX_TICK_INDEX as i64
    }

    /// The last time that the reference was moved, or that a major swap moved the price.
    pub open spec fn last_use(self) -> u64 {
        if self.last_reference_update_timestamp >= self.last_major_swap_timestamp {
            self.last_reference_update_timestamp
        } else {
            self.last_major_swap_timestamp
        }
    }

    /// What becomes of the reference at a time.
    pub open spec fn reference_update(
        self,
        timestamp: u64,
        constants: AdaptiveFeeConstantsFacade,
    ) -> ReferenceUpdate {
        if timestamp < self.last_use() {
            ReferenceUpdate::Refused
        } else if timestamp - self.last_reference_update_timestamp > MAX_REFERENCE_AGE {
            ReferenceUpdate::Expired
        } else if timestamp - self.last_use() < constants.filter_period {
            ReferenceUpdate::Kept
        } else if timestamp - self.last_use() < constants.decay_period {
            ReferenceUpdate::Reduced
        } else {
            ReferenceUpdate::Reset
        }
    }

    /// The reference moved to a tick group with a volatility.
    pub open spec fn moved(self, group: i32, volatility: u32, timestamp: u64) -> Self {
        AdaptiveFeeVariablesFacade {
            tick_group_index_reference: group,
            volatility_reference: volatility,
            last_reference_update_timestamp: timestamp,
            ..self
        }
    }

    /// The part of the volatility that a reference keeps.
    pub open spec fn reduced_volatility(self, constants: AdaptiveFeeConstantsFacade) -> u32 {
        (self.volatility_accumulator * constants.reduction_factor
            / (REDUCTION_FACTOR_DENOMINATOR as int)) as u32
    }

    /// The variables once the reference has been updated.
    pub open spec fn with_reference(
        self,
        group: i32,
        timestamp: u64,
        constants: AdaptiveFeeConstantsFacade,
    ) -> Result<Self, CoreError> {
        match self.reference_update(timestamp, constants) {
            ReferenceUpdate::Refused => Err(CoreError::InvalidTimestamp),
            ReferenceUpdate::Kept => Ok(self),
            ReferenceUpdate::Reduced => Ok(
                self.moved(group, self.reduced_volatility(constants), timestamp),
            ),
            ReferenceUpdate::Expired | ReferenceUpdate::Reset => Ok(
                self.moved(group, 0, timestamp),
            ),
        }
    }

    /// The volatility at a tick group.
    pub open spec fn volatility_at(self, group: int, constants: AdaptiveFeeConstantsFacade) -> u32 {
        let distance = if self.tick_group_index_reference >= group {
            self.tick_group_index_reference - group
        } else {
            group - self.tick_group_index_reference
        };
        let volatility = self.volatility_reference + distance * VOLATILITY_ACCUMULATOR_SCALE_FACTOR;
        if volatility <= constants.max_volatility_accumulator {
            volatility as u32
        } else {
            constants.max_volatility_accumulator
        }
    }

    /// The variables at a tick group.
    pub open spec fn at_group(self, group: int, constants: AdaptiveFeeConstantsFacade) -> Self {
        AdaptiveFeeVariablesFacade {
            volatility_accumulator: self.volatility_at(group, constants),
            ..self
        }
    }

    /// Update the reference for a swap that starts in a tick group, or refuse a clock that is
    /// behind.
    pub fn update_reference(
        &mut self,
        tick_group_index: i32,
        current_timestamp: u64,
        adaptive_fee_constants: &AdaptiveFeeConstantsFacade,
    ) -> (r: Result<(), CoreError>)
        requires
            adaptive_fee_constants.valid(),
        ensures
            match old(self).with_reference(
                tick_group_index,
                current_timestamp,
                *adaptive_fee_constants,
            ) {
                Ok(after) => r is Ok && *final(self) == after,
                Err(e) => r == Err::<(), CoreError>(e) && *final(self) == *old(self),
            },
    {
        let max_timestamp: u64 = if self.last_reference_update_timestamp
            >= self.last_major_swap_timestamp {
            self.last_reference_update_timestamp
        } else {
            self.last_major_swap_timestamp
        };
        if current_timestamp < max_timestamp {
            return Err(CoreError::InvalidTimestamp);
        }
        let reference_age: u64 = current_timestamp - self.last_reference_update_timestamp;
        if reference_age > MAX_REFERENCE_AGE {
            self.tick_group_index_reference = tick_group_index;
            self.volatility_reference = 0;
            self.last_reference_update_timestamp = current_timestamp;
            return Ok(());
        }
        let elapsed: u64 = current_timestamp - max_timestamp;
        if elapsed < adaptive_fee_constants.filter_period as u64 {
            return Ok(());
        }
        self.tick_group_index_reference = tick_group_index;
        self.last_reference_update_timestamp = current_timestamp;
        if elapsed < adaptive_fee_constants.decay_period as u64 {
            let accumulator: u64 = self.volatility_accumulator as u64;
            let factor: u64 = adaptive_fee_constants.reduction_factor as u64;
            proof {
                assert(0 <= accumulator * factor <= 0xffff_ffff * 10_000) by (nonlinear_arith)
                    requires
                        0 <= accumulator <= 0xffff_ffff,
                        0 <= factor <= 10_000,
                ;
            }
            self.volatility_reference = (accumulator * factor
                / REDUCTION_FACTOR_DENOMINATOR as u64) as u32;
        } else {
            self.volatility_reference = 0;
        }
        Ok(())
    }

    /// Which way `update_reference` goes at a time: 0 where it refuses the clock, 1 where the
    /// reference is too old, 2 where it stays, 3 where it is reduced and 4 where it is reset. Two
    /// clocks with the same answer leave swaps that walk alike.
    pub fn reference_branch(
        &self,
        current_timestamp: u64,
        adaptive_fee_constants: &AdaptiveFeeConstantsFacade,
    ) -> (r: u8)
        ensures
            r == self.reference_update(current_timestamp, *adaptive_fee_constants).number(),
            match self.reference_update(current_timestamp, *adaptive_fee_constants) {
                ReferenceUpdate::Refused => r == 0,
                ReferenceUpdate::Expired => r == 1,
                ReferenceUpdate::Kept => r == 2,
                ReferenceUpdate::Reduced => r == 3,
                ReferenceUpdate::Reset => r == 4,
            },
    {
        let max_timestamp: u64 = if self.last_reference_update_timestamp
            >= self.last_major_swap_timestamp {
            self.last_reference_update_timestamp
        } else {
            self.last_major_swap_timestamp
        };
        if current_timestamp < max_timestamp {
            return 0;
        }
        if current_timestamp - self.last_reference_update_timestamp > MAX_REFERENCE_AGE {
            return 1;
        }
        let elapsed: u64 = current_timestamp - max_timestamp;
        if elapsed < adaptive_fee_constants.filter_period as u64 {
            2
        } else if elapsed < adaptive_fee_constants.decay_period as u64 {
            3
        } else {
            4
        }
    }

    /// Update the volatility for a tick group.
    pub fn update_volatility_accumulator(
        &mut self,
        tick_group_index: i32,
        adaptive_fee_constants: &AdaptiveFeeConstantsFacade,
    )
        ensures
            *final(self) == old(self).at_group(tick_group_index as int, *adaptive_fee_constants),
    {
        let reference: i64 = self.tick_group_index_reference as i64;
        let group: i64 = tick_group_index as i64;
        let index_delta: u64 = if reference >= group {
            (reference - group) as u64
        } else {
            (group - reference) as u64
        };
        let scale: u64 = VOLATILITY_ACCUMULATOR_SCALE_FACTOR as u64;
        proof {
            assert(0 <= index_delta * scale <= 0x1_0000_0000 * 10_000) by (nonlinear_arith)
                requires
                    0 <= index_delta <= 0x1_0000_0000,
                    scale == 10_000,
            ;
        }
        let volatility: u64 = self.volatility_reference as u64 + index_delta * scale;
        let max: u32 = adaptive_fee_constants.max_volatility_accumulator;
        self.volatility_accumulator = if volatility <= max as u64 {
            volatility as u32
        } else {
            max
        };
    }
}

/// A reference that is updated for a tick stays valid.
pub proof fn law_reference_update_keeps_validity(
    variables: AdaptiveFeeVariablesFacade,
    constants: AdaptiveFeeConstantsFacade,
    tick: int,
    timestamp: u64,
)
    requires
        constants.valid(),
        variables.valid(constants),
        MIN_TICK_INDEX <= tick <= MAX_TICK_INDEX,
    ensures
        variables.with_reference(
            tick_group(tick, constants.tick_group_size) as i32,
            timestamp,
            constants,
        ) matches Ok(after) ==> after.valid(constants),
{
    let size = constants.tick_group_size as int;
    let group = tick_group(tick, constants.tick_group_size);
    crate::arith::lemma_div_mod(tick, size);
    assert(group * size <= tick < group * size + size);
    assert(-443636 <= group <= 443636) by (nonlinear_arith)
        requires
            group * size <= tick < group * size + size,
            size >= 1,
            -443636 <= tick <= 443636,
    ;
    let volatility = variables.volatility_accumulator as int;
    let factor = constants.reduction_factor as int;
    assert(0 <= volatility * factor <= volatility * 10_000) by (nonlinear_arith)
        requires
            volatility >= 0,
            0 <= factor <= 10_000,
    ;
}

/// Two clocks at which the reference goes the same way leave the same reference, but for the time
/// at which it was moved.
pub proof fn law_reference_branch_decides_the_reference(
    variables: AdaptiveFeeVariablesFacade,
    constants: AdaptiveFeeConstantsFacade,
    group: i32,
    t1: u64,
    t2: u64,
)
    requires
        variables.reference_update(t1, constants) == variables.reference_update(t2, constants),
    ensures
        match (
            variables.with_reference(group, t1, constants),
            variables.with_reference(group, t2, constants),
        ) {
            (Ok(v1), Ok(v2)) => v2 == (AdaptiveFeeVariablesFacade {
                last_reference_update_timestamp: v2.last_reference_update_timestamp,
                ..v1
            }),
            (Err(e1), Err(e2)) => e1 == e2,
            _ => false,
        },
{
}

} // verus!
