//! Exact-in swaps over concentrated liquidity, a prefix table that quotes them, and counters for
//! the work that they take.
//!
//! - [`swap`] walks a swap from start to end; [`walk`] says step by step what such a walk does.
//! - [`swap_prefix`] keeps the running totals of a walk, so that a quote is a lookup. It answers as
//!   the walk does. [`prefix_laws`] says what holds of every such table, and
//!   [`timeless`] what the clock decides of it.
//! - [`counters`] holds what has been counted, and [`record`] classifies arithmetic into the classes
//!   that its on-chain cost falls into, by way of [`div_path`] and [`long_div`]. [`growth`] says how
//!   far the counts of an operation go.
//! - What holds of the parts is said in [`amount_laws`] of amounts and sqrt prices, in [`tick_laws`] of
//!   ticks and their sqrt prices, in [`fee_laws`] of the fee rates of tick groups, in
//!   [`crossing_laws`] of the ticks that a walk crosses and in [`walk_laws`] of the walk and the swap;
//!   and what is counted of them in [`path_laws`], [`count_laws`] and [`cost_laws`].
//! - [`tick_math`], [`token_math`], [`swap_step`], [`tick_array`], [`pool`], [`adaptive_fee`] and
//!   [`fee_rate_manager`] are what a walk is made of.

pub mod adaptive_fee;
pub mod amount_laws;
pub mod arith;
pub mod bits;
pub mod cost_laws;
pub mod count_laws;
pub mod counters;
pub mod crossing_laws;
pub mod div_path;
pub mod error;
pub mod fee_laws;
pub mod fee_rate_manager;
pub mod growth;
pub mod limbs;
pub mod long_div;
pub mod path_laws;
pub mod pool;
pub mod prefix_laws;
pub mod record;
pub mod swap;
pub mod swap_prefix;
pub mod swap_step;
pub mod tick_array;
pub mod tick_laws;
pub mod tick_math;
pub mod timeless;
pub mod token_math;
pub mod u256;
pub mod walk;
pub mod walk_laws;
pub mod walk_shape;

pub use crate::adaptive_fee::{
    AdaptiveFeeConstantsFacade, AdaptiveFeeInfo, AdaptiveFeeVariablesFacade, OracleFacade,
};
pub use crate::counters::{
    bump, enabled, set_enabled, snapshot, Recorder, SwapCounters,
};
pub use crate::div_path::{udiv_path, UDIV_PATHS};
pub use crate::error::CoreError;
pub use crate::fee_rate_manager::FeeRateManager;
pub use crate::pool::WhirlpoolFacade;
pub use crate::swap::{compute_swap, swap_is_valid, swap_shares_fit, SwapResult, SWAP_ROOM};
pub use crate::swap_prefix::{
    SwapPrefixResume, SwapPrefixRow, SwapPrefixTable, SwapPrefixTail, SwapPrefixUnit,
};
pub use crate::tick_array::{TickArrayFacade, TickArraySequence, TickFacade};
pub use crate::tick_math::{sqrt_price_to_tick_index, tick_index_to_sqrt_price};
