//! What can go wrong in a swap.

use vstd::prelude::*;

verus! {

/// Why a swap, or a part of one, is refused.
#[derive(Debug, Clone, Copy, PartialEq, Eq, Structural)]
pub enum CoreError {
    /// No tick array was given.
    TickSequenceEmpty,
    /// The tick arrays do not follow one another without gaps.
    TickArrayNotEvenlySpaced,
    /// The walk has left the tick arrays.
    InvalidTickArraySequence,
    /// A number does not fit in the width that it is computed in.
    ArithmeticOverflow,
    /// A token amount does not fit in 64 bits.
    AmountExceedsMaxU64,
    /// A swap would move the sqrt price out of its range.
    SqrtPriceOutOfBounds,
    /// The sqrt price limit is not a sqrt price.
    SqrtPriceLimitOutOfBounds,
    /// The sqrt price limit lies on the wrong side of the sqrt price.
    InvalidSqrtPriceLimitDirection,
    /// There is nothing to trade.
    ZeroTradableAmount,
    /// The liquidity of a pool overflows at a tick.
    LiquidityOverflow,
    /// An adaptive-fee pool came without its oracle, or another pool with one.
    InvalidAdaptiveFeeInfo,
    /// The clock is behind the last use of the oracle.
    InvalidTimestamp,
}

} // verus!
