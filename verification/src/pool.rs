//! The state of a pool, as far as a swap reads it.

use vstd::prelude::*;

verus! {

/// A pool.
#[derive(Debug, Clone, Copy, PartialEq, Eq)]
pub struct WhirlpoolFacade {
    pub fee_tier_index_seed: [u8; 2],
    pub tick_spacing: u16,
    pub fee_rate: u16,
    pub protocol_fee_rate: u16,
    pub liquidity: u128,
    pub sqrt_price: u128,
    pub tick_current_index: i32,
}

impl Default for WhirlpoolFacade {
    /// A pool with nothing in it.
    fn default() -> (r: Self)
        ensures
            r.fee_tier_index_seed@ == seq![0u8, 0],
            r.tick_spacing == 0,
            r.fee_rate == 0,
            r.protocol_fee_rate == 0,
            r.liquidity == 0,
            r.sqrt_price == 0,
            r.tick_current_index == 0,
    {
        let fee_tier_index_seed: [u8; 2] = [0, 0];
        WhirlpoolFacade {
            fee_tier_index_seed,
            tick_spacing: 0,
            fee_rate: 0,
            protocol_fee_rate: 0,
            liquidity: 0,
            sqrt_price: 0,
            tick_current_index: 0,
        }
    }
}

impl WhirlpoolFacade {
    /// The index of the fee tier that the pool was made with.
    pub open spec fn fee_tier_index(self) -> int {
        self.fee_tier_index_seed@[0] + 256 * self.fee_tier_index_seed@[1]
    }

    /// Whether the fee of the pool adapts to its volatility: the fee tiers that do not adapt are
    /// indexed by their tick spacing.
    pub fn is_initialized_with_adaptive_fee(&self) -> (r: bool)
        ensures
            r == (self.fee_tier_index() != self.tick_spacing),
    {
        let index: u16 = self.fee_tier_index_seed[0] as u16 + 256
            * self.fee_tier_index_seed[1] as u16;
        index != self.tick_spacing
    }
}

} // verus!
