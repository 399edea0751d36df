//! Token amounts between two sqrt prices, the sqrt price that an amount leads to, and swap fees.

use crate::arith;
use crate::counters;
use crate::counters::{Recorder, Work};
use crate::error::CoreError;
use crate::growth;
use crate::record;
use crate::record::{record_u256_div, record_u256_mul, record_udiv};
use crate::tick_math::{MAX_SQRT_PRICE, MIN_SQRT_PRICE};
use crate::u256::{div_wide, mul_wide, rem_wide, U256};
use vstd::prelude::*;

verus! {

/// The denominator of fee rates.
pub const FEE_RATE_DENOMINATOR: u32 = 1_000_000;

/// One as a Q64 number.
pub open spec fn q64() -> int {
    0x1_0000_0000_0000_0000
}

/// The distance of two sqrt prices.
pub open spec fn gap(p: int, q: int) -> int {
    if p <= q {
        q - p
    } else {
        p - q
    }
}

/// A quotient rounded up or down.
pub open spec fn rounded(n: int, d: int, round_up: bool) -> int {
    if round_up {
        arith::ceil_div(n, d)
    } else {
        n / d
    }
}

/// A token amount, where it fits in 64 bits.
pub open spec fn token_amount(x: int) -> Result<u64, CoreError> {
    if x <= u64::MAX {
        Ok(x as u64)
    } else {
        Err(CoreError::AmountExceedsMaxU64)
    }
}

/// A sqrt price, where it is in the price range.
pub open spec fn sqrt_price_in_range(x: int) -> Result<u128, CoreError> {
    if MIN_SQRT_PRICE <= x <= MAX_SQRT_PRICE {
        Ok(x as u128)
    } else {
        Err(CoreError::SqrtPriceOutOfBounds)
    }
}

/// The first number that does not fit in 256 bits.
pub open spec fn u256_limit() -> int {
    0x1_0000_0000_0000_0000_0000_0000_0000_0000int
        * 0x1_0000_0000_0000_0000_0000_0000_0000_0000int
}

/// The amount of token A between two sqrt prices: `L * |p - q| / (p * q)`.
pub open spec fn amount_delta_a(p: u128, q: u128, liquidity: u128, round_up: bool) -> Result<
    u64,
    CoreError,
> {
    let n = liquidity * gap(p as int, q as int) * q64();
    if n >= u256_limit() {
        Err(CoreError::ArithmeticOverflow)
    } else {
        token_amount(rounded(n, p * q, round_up))
    }
}

/// The amount of token B between two sqrt prices: `L * |p - q|`.
pub open spec fn amount_delta_b(p: u128, q: u128, liquidity: u128, round_up: bool) -> Result<
    u64,
    CoreError,
> {
    token_amount(rounded(liquidity * gap(p as int, q as int), q64(), round_up))
}

/// The sqrt price that an amount of token A put in leads to, rounded up:
/// `L * p / (L + amount * p)`.
pub open spec fn next_sqrt_price_from_a(p: u128, liquidity: u128, amount: u64) -> Result<
    u128,
    CoreError,
> {
    if amount == 0 {
        Ok(p)
    } else if liquidity * p * q64() >= u256_limit() {
        Err(CoreError::ArithmeticOverflow)
    } else {
        sqrt_price_in_range(
            arith::ceil_div(liquidity * p * q64(), liquidity * q64() + amount * p),
        )
    }
}

/// The sqrt price that an amount of token B put in leads to, rounded down: `p + amount / L`.
pub open spec fn next_sqrt_price_from_b(p: u128, liquidity: u128, amount: u64) -> Result<
    u128,
    CoreError,
> {
    if amount == 0 {
        Ok(p)
    } else {
        sqrt_price_in_range(p + amount * q64() / (liquidity as int))
    }
}

/// What is left of an amount once the fee has been taken, rounded down.
pub open spec fn less_fee(amount: int, fee_rate: int) -> int {
    amount * (FEE_RATE_DENOMINATOR - fee_rate) / (FEE_RATE_DENOMINATOR as int)
}

/// The least amount that leaves `amount` once the fee has been taken.
pub open spec fn plus_fee(amount: int, fee_rate: int) -> int {
    arith::ceil_div(amount * FEE_RATE_DENOMINATOR, FEE_RATE_DENOMINATOR - fee_rate)
}

/// A fee rate below one.
pub open spec fn is_fee_rate(fee_rate: u32) -> bool {
    fee_rate < FEE_RATE_DENOMINATOR
}

/// The counts after the amount of token A between two sqrt prices has been computed: a
/// multiplication for each side of the fraction and a division, unless the upper side overflows.
#[verifier::opaque]
pub open spec fn after_delta_a(
    work: Work,
    p: u128,
    q: u128,
    liquidity: u128,
    round_up: bool,
) -> Work {
    let g = gap(p as int, q as int);
    let n = liquidity * g * q64();
    let called = Work { amount_delta_a_calls: work.amount_delta_a_calls + 1, ..work };
    let scaled = record::after_u256_mul(called, liquidity as nat, g as nat);
    if n >= u256_limit() {
        scaled
    } else {
        record::after_u256_div(
            record::after_u256_mul(scaled, p as nat, q as nat),
            n as nat,
            (p * q) as nat,
            true,
            round_up,
        )
    }
}

/// The counts after the amount of token B between two sqrt prices has been computed: a
/// multiplication.
#[verifier::opaque]
pub open spec fn after_delta_b(work: Work, p: u128, q: u128, liquidity: u128) -> Work {
    record::after_u256_mul(
        Work { amount_delta_b_calls: work.amount_delta_b_calls + 1, ..work },
        liquidity as nat,
        gap(p as int, q as int) as nat,
    )
}

/// The counts after the sqrt price that token A leads to has been computed: a multiplication for
/// each side of the fraction and a division, unless there is no amount or the upper side overflows.
#[verifier::opaque]
pub open spec fn after_next_from_a(work: Work, p: u128, liquidity: u128, amount: u64) -> Work {
    let called = Work { next_sqrt_from_a_calls: work.next_sqrt_from_a_calls + 1, ..work };
    let n = liquidity * p * q64();
    if amount == 0 {
        called
    } else if n >= u256_limit() {
        record::after_u256_mul(called, liquidity as nat, p as nat)
    } else {
        record::after_u256_div(
            record::after_u256_mul(
                record::after_u256_mul(called, liquidity as nat, p as nat),
                amount as nat,
                p as nat,
            ),
            n as nat,
            (liquidity * q64() + amount * p) as nat,
            true,
            true,
        )
    }
}

/// The counts after the sqrt price that token B leads to has been computed: a division that is no
/// call frame of its own, unless there is no amount.
#[verifier::opaque]
pub open spec fn after_next_from_b(work: Work, liquidity: u128, amount: u64) -> Work {
    let called = Work { next_sqrt_from_b_calls: work.next_sqrt_from_b_calls + 1, ..work };
    if amount == 0 {
        called
    } else {
        record::after_u256_div(
            called,
            (amount * q64()) as nat,
            liquidity as nat,
            false,
            false,
        )
    }
}

/// The counts after a fee has been taken off an amount.
#[verifier::opaque]
pub open spec fn after_apply_fee(work: Work, amount: u64, fee_rate: u32) -> Work {
    record::after_udiv(
        Work { u128_divs: work.u128_divs + 1, ..work },
        (amount * (FEE_RATE_DENOMINATOR - fee_rate)) as nat,
        FEE_RATE_DENOMINATOR as nat,
    )
}

/// The counts after a fee has been put on an amount. The chain divides the fee, and not the amount
/// with the fee.
#[verifier::opaque]
pub open spec fn after_reverse_fee(work: Work, amount: u64, fee_rate: u32) -> Work {
    record::after_udiv(
        Work { u128_divs: work.u128_divs + 1, ..work },
        (amount * fee_rate) as nat,
        (FEE_RATE_DENOMINATOR - fee_rate) as nat,
    )
}

/// An amount covers `needed` after the fee exactly from `plus_fee(needed)` on.
pub proof fn law_fee_threshold(amount: int, needed: int, fee_rate: u32)
    requires
        is_fee_rate(fee_rate),
    ensures
        less_fee(amount, fee_rate as int) >= needed <==> amount >= plus_fee(
            needed,
            fee_rate as int,
        ),
{
    let d = FEE_RATE_DENOMINATOR as int;
    let k = d - fee_rate;
    arith::lemma_floor_at_least(amount * k, d, needed);
    arith::lemma_ceil_at_most(needed * d, k, amount);
    assert(d * needed == needed * d && amount * k == k * amount) by (nonlinear_arith);
}

/// A fee is never negative: an amount with its fee is at least the amount, and an amount less its
/// fee at most the amount.
pub proof fn law_fee_is_not_negative(amount: int, fee_rate: u32)
    requires
        is_fee_rate(fee_rate),
        amount >= 0,
    ensures
        amount <= plus_fee(amount, fee_rate as int),
        0 <= less_fee(amount, fee_rate as int) <= amount,
        plus_fee(amount, fee_rate as int) == 0 <==> amount == 0,
{
    let d = FEE_RATE_DENOMINATOR as int;
    let k = d - fee_rate;
    arith::lemma_ceil_at_most(amount * d, k, amount - 1);
    arith::lemma_ceil_at_most(amount * d, k, 0);
    arith::lemma_floor_at_least(amount * k, d, amount + 1);
    arith::lemma_floor_at_least(amount * k, d, 0);
    assert(amount * d > k * (amount - 1)) by (nonlinear_arith)
        requires
            amount >= 0,
            0 < k <= d,
    ;
    assert(d * (amount + 1) > amount * k) by (nonlinear_arith)
        requires
            amount >= 0,
            0 < k <= d,
    ;
    assert(amount * k >= 0) by (nonlinear_arith)
        requires
            amount >= 0,
            k > 0,
    ;
}

/// Twice as wide a number shifted left by 64 bits, where that fits.
fn shift_left_64(x: U256) -> (r: Option<U256>)
    ensures
        x@ * q64() >= u256_limit() ==> r is None,
        x@ * q64() < u256_limit() ==> r is Some && r->0@ == x@ * q64(),
{
    if x.high >= 0x1_0000_0000_0000_0000 {
        return None;
    }
    let high: u128 = x.high * 0x1_0000_0000_0000_0000 + x.low / 0x1_0000_0000_0000_0000;
    let low: u128 = (x.low % 0x1_0000_0000_0000_0000) * 0x1_0000_0000_0000_0000;
    Some(U256 { high, low })
}

/// The quotient of two 256-bit numbers as a token amount.
fn divide_rounded(n: U256, d: U256, round_up: bool) -> (r: Result<u64, CoreError>)
    requires
        d@ > 0,
    ensures
        r == token_amount(rounded(n@ as int, d@ as int, round_up)),
{
    let quotient = div_wide(n, d);
    let rest = rem_wide(n, d);
    if quotient.high != 0 || quotient.low > 0xffff_ffff_ffff_ffff {
        return Err(CoreError::AmountExceedsMaxU64);
    }
    let mut result: u128 = quotient.low;
    if round_up && (rest.high != 0 || rest.low != 0) {
        result = result + 1;
    }
    if result > 0xffff_ffff_ffff_ffff {
        return Err(CoreError::AmountExceedsMaxU64);
    }
    Ok(result as u64)
}

/// The amount of token A between two sqrt prices.
pub fn try_get_amount_delta_a(
    sqrt_price_1: u128,
    sqrt_price_2: u128,
    liquidity: u128,
    round_up: bool,
    recorder: &mut Recorder,
) -> (r: Result<u64, CoreError>)
    requires
        sqrt_price_1 > 0,
        sqrt_price_2 > 0,
        old(recorder).can_hold(
            after_delta_a(
                old(recorder).counters@,
                sqrt_price_1,
                sqrt_price_2,
                liquidity,
                round_up,
            ),
        ),
    ensures
        r == amount_delta_a(sqrt_price_1, sqrt_price_2, liquidity, round_up),
        old(recorder).becomes(
            *final(recorder),
            after_delta_a(
                old(recorder).counters@,
                sqrt_price_1,
                sqrt_price_2,
                liquidity,
                round_up,
            ),
        ),
{
    let ghost r0 = *recorder;
    let ghost before = recorder.counters@;
    let ghost called = Work { amount_delta_a_calls: before.amount_delta_a_calls + 1, ..before };
    proof {
        reveal(after_delta_a);
        let g = gap(sqrt_price_1 as int, sqrt_price_2 as int);
        let after = after_delta_a(before, sqrt_price_1, sqrt_price_2, liquidity, round_up);
        let scaled = record::after_u256_mul(called, liquidity as nat, g as nat);
        let both = record::after_u256_mul(scaled, sqrt_price_1 as nat, sqrt_price_2 as nat);
        growth::lemma_delta_a_grows(before, sqrt_price_1, sqrt_price_2, liquidity, round_up);
        counters::lemma_holds_before(r0, called, after, 16);
        counters::lemma_holds_before(r0, scaled, after, 12);
        if liquidity * g * q64() < u256_limit() {
            counters::lemma_holds_before(r0, both, after, 8);
        }
    }
    if recorder.on {
        proof {
            reveal(Work::within);
        }
        recorder.counters.amount_delta_a_calls += 1;
        assert(recorder.counters@ =~= called);
    }
    let diff: u128 = if sqrt_price_1 <= sqrt_price_2 {
        sqrt_price_2 - sqrt_price_1
    } else {
        sqrt_price_1 - sqrt_price_2
    };
    proof {
        assert(sqrt_price_1 * sqrt_price_2 > 0) by (nonlinear_arith)
            requires
                sqrt_price_1 > 0,
                sqrt_price_2 > 0,
        ;
    }
    record_u256_mul(recorder, liquidity, diff);
    let numerator = match shift_left_64(mul_wide(liquidity, diff)) {
        Some(numerator) => numerator,
        None => {
            return Err(CoreError::ArithmeticOverflow);
        },
    };
    record_u256_mul(recorder, sqrt_price_1, sqrt_price_2);
    let denominator = mul_wide(sqrt_price_1, sqrt_price_2);
    record_u256_div(recorder, numerator, denominator, true, round_up);
    divide_rounded(numerator, denominator, round_up)
}

/// The amount of token B between two sqrt prices.
pub fn try_get_amount_delta_b(
    sqrt_price_1: u128,
    sqrt_price_2: u128,
    liquidity: u128,
    round_up: bool,
    recorder: &mut Recorder,
) -> (r: Result<u64, CoreError>)
    requires
        old(recorder).can_hold(
            after_delta_b(old(recorder).counters@, sqrt_price_1, sqrt_price_2, liquidity),
        ),
    ensures
        r == amount_delta_b(sqrt_price_1, sqrt_price_2, liquidity, round_up),
        old(recorder).becomes(
            *final(recorder),
            after_delta_b(old(recorder).counters@, sqrt_price_1, sqrt_price_2, liquidity),
        ),
{
    let ghost before = recorder.counters@;
    let ghost called = Work { amount_delta_b_calls: before.amount_delta_b_calls + 1, ..before };
    proof {
        reveal(after_delta_b);
        let after = after_delta_b(before, sqrt_price_1, sqrt_price_2, liquidity);
        growth::lemma_delta_b_grows(before, sqrt_price_1, sqrt_price_2, liquidity);
        counters::lemma_holds_before(*recorder, called, after, 4);
    }
    if recorder.on {
        proof {
            reveal(Work::within);
        }
        recorder.counters.amount_delta_b_calls += 1;
        assert(recorder.counters@ =~= called);
    }
    let diff: u128 = if sqrt_price_1 <= sqrt_price_2 {
        sqrt_price_2 - sqrt_price_1
    } else {
        sqrt_price_1 - sqrt_price_2
    };
    record_u256_mul(recorder, liquidity, diff);
    divide_rounded(
        mul_wide(liquidity, diff),
        U256::new(0x1_0000_0000_0000_0000),
        round_up,
    )
}

/// The sqrt price that an amount of token A put in leads to.
pub fn try_get_next_sqrt_price_from_a(
    current_sqrt_price: u128,
    current_liquidity: u128,
    amount: u64,
    recorder: &mut Recorder,
) -> (r: Result<u128, CoreError>)
    requires
        current_sqrt_price > 0,
        old(recorder).can_hold(
            after_next_from_a(
                old(recorder).counters@,
                current_sqrt_price,
                current_liquidity,
                amount,
            ),
        ),
    ensures
        r == next_sqrt_price_from_a(current_sqrt_price, current_liquidity, amount),
        old(recorder).becomes(
            *final(recorder),
            after_next_from_a(
                old(recorder).counters@,
                current_sqrt_price,
                current_liquidity,
                amount,
            ),
        ),
{
    let ghost r0 = *recorder;
    let ghost before = recorder.counters@;
    let ghost called = Work { next_sqrt_from_a_calls: before.next_sqrt_from_a_calls + 1, ..before };
    proof {
        reveal(after_next_from_a);
        let p = current_sqrt_price;
        let after = after_next_from_a(before, p, current_liquidity, amount);
        let scaled = record::after_u256_mul(called, current_liquidity as nat, p as nat);
        let both = record::after_u256_mul(scaled, amount as nat, p as nat);
        growth::lemma_next_from_a_grows(before, p, current_liquidity, amount);
        counters::lemma_holds_before(r0, called, after, 16);
        if amount > 0 {
            counters::lemma_holds_before(r0, scaled, after, 12);
            if current_liquidity * p * q64() < u256_limit() {
                counters::lemma_holds_before(r0, both, after, 8);
            }
        }
    }
    if recorder.on {
        proof {
            reveal(Work::within);
        }
        recorder.counters.next_sqrt_from_a_calls += 1;
        assert(recorder.counters@ =~= called);
    }
    if amount == 0 {
        return Ok(current_sqrt_price);
    }
    record_u256_mul(recorder, current_liquidity, current_sqrt_price);
    let numerator = match shift_left_64(mul_wide(current_liquidity, current_sqrt_price)) {
        Some(numerator) => numerator,
        None => {
            return Err(CoreError::ArithmeticOverflow);
        },
    };
    record_u256_mul(recorder, amount as u128, current_sqrt_price);
    let added = mul_wide(amount as u128, current_sqrt_price);
    let scaled = mul_wide(current_liquidity, 0x1_0000_0000_0000_0000);
    let carry: bool = added.low > u128::MAX - scaled.low;
    proof {
        assert(amount * current_sqrt_price < 0x1_0000_0000_0000_0000
            * 0x1_0000_0000_0000_0000_0000_0000_0000_0000) by (nonlinear_arith)
            requires
                0 <= amount < 0x1_0000_0000_0000_0000,
                0 <= current_sqrt_price < 0x1_0000_0000_0000_0000_0000_0000_0000_0000,
        ;
        assert(amount * current_sqrt_price > 0) by (nonlinear_arith)
            requires
                amount > 0,
                current_sqrt_price > 0,
        ;
        assert(added.high < 0x1_0000_0000_0000_0000);
        assert(scaled.high < 0x1_0000_0000_0000_0000);
    }
    let denominator = if carry {
        U256 {
            high: added.high + scaled.high + 1,
            low: added.low - (u128::MAX - scaled.low) - 1,
        }
    } else {
        U256 { high: added.high + scaled.high, low: added.low + scaled.low }
    };
    assert(denominator@ == current_liquidity * q64() + amount * current_sqrt_price);
    record_u256_div(recorder, numerator, denominator, true, true);
    let quotient = div_wide(numerator, denominator);
    let rest = rem_wide(numerator, denominator);
    if quotient.high != 0 || quotient.low > MAX_SQRT_PRICE {
        return Err(CoreError::SqrtPriceOutOfBounds);
    }
    let mut result: u128 = quotient.low;
    if rest.high != 0 || rest.low != 0 {
        result = result + 1;
    }
    if result < MIN_SQRT_PRICE || result > MAX_SQRT_PRICE {
        return Err(CoreError::SqrtPriceOutOfBounds);
    }
    Ok(result)
}

/// The sqrt price that an amount of token B put in leads to.
pub fn try_get_next_sqrt_price_from_b(
    current_sqrt_price: u128,
    current_liquidity: u128,
    amount: u64,
    recorder: &mut Recorder,
) -> (r: Result<u128, CoreError>)
    requires
        current_liquidity > 0,
        old(recorder).can_hold(
            after_next_from_b(old(recorder).counters@, current_liquidity, amount),
        ),
    ensures
        r == next_sqrt_price_from_b(current_sqrt_price, current_liquidity, amount),
        old(recorder).becomes(
            *final(recorder),
            after_next_from_b(old(recorder).counters@, current_liquidity, amount),
        ),
{
    let ghost before = recorder.counters@;
    let ghost called = Work { next_sqrt_from_b_calls: before.next_sqrt_from_b_calls + 1, ..before };
    proof {
        reveal(after_next_from_b);
        let after = after_next_from_b(before, current_liquidity, amount);
        growth::lemma_next_from_b_grows(before, current_liquidity, amount);
        counters::lemma_holds_before(*recorder, called, after, 16);
    }
    if recorder.on {
        proof {
            reveal(Work::within);
        }
        recorder.counters.next_sqrt_from_b_calls += 1;
        assert(recorder.counters@ =~= called);
    }
    if amount == 0 {
        return Ok(current_sqrt_price);
    }
    let scaled: u128 = amount as u128 * 0x1_0000_0000_0000_0000;
    record_u256_div(recorder, U256::new(scaled), U256::new(current_liquidity), false, false);
    let delta: u128 = scaled / current_liquidity;
    if delta > MAX_SQRT_PRICE || current_sqrt_price > MAX_SQRT_PRICE {
        return Err(CoreError::SqrtPriceOutOfBounds);
    }
    let result: u128 = current_sqrt_price + delta;
    if result < MIN_SQRT_PRICE || result > MAX_SQRT_PRICE {
        return Err(CoreError::SqrtPriceOutOfBounds);
    }
    Ok(result)
}

/// Take the fee off an amount.
pub fn try_apply_swap_fee(amount: u64, fee_rate: u32, recorder: &mut Recorder) -> (r: u64)
    requires
        is_fee_rate(fee_rate),
        old(recorder).can_hold(after_apply_fee(old(recorder).counters@, amount, fee_rate)),
    ensures
        r == less_fee(amount as int, fee_rate as int),
        old(recorder).becomes(
            *final(recorder),
            after_apply_fee(old(recorder).counters@, amount, fee_rate),
        ),
{
    let ghost before = recorder.counters@;
    let ghost called = Work { u128_divs: before.u128_divs + 1, ..before };
    proof {
        reveal(after_apply_fee);
        growth::lemma_fees_grow(before, amount, fee_rate);
        counters::lemma_holds_before(
            *recorder,
            called,
            after_apply_fee(before, amount, fee_rate),
            1,
        );
    }
    proof {
        law_fee_is_not_negative(amount as int, fee_rate);
        assert(amount * (1_000_000 - fee_rate) <= 0xffff_ffff_ffff_ffff * 1_000_000)
            by (nonlinear_arith)
            requires
                0 <= amount <= 0xffff_ffff_ffff_ffff,
                0 <= fee_rate < 1_000_000,
        ;
        assert(amount * (1_000_000 - fee_rate) >= 0) by (nonlinear_arith)
            requires
                0 <= amount,
                0 <= fee_rate < 1_000_000,
        ;
    }
    let product: u128 = amount as u128 * (FEE_RATE_DENOMINATOR - fee_rate) as u128;
    if recorder.on {
        proof {
            reveal(Work::within);
        }
        recorder.counters.u128_divs += 1;
        assert(recorder.counters@ =~= called);
    }
    record_udiv(recorder, product, FEE_RATE_DENOMINATOR as u128);
    (product / FEE_RATE_DENOMINATOR as u128) as u64
}

/// The amount that leaves `amount` once the fee has been taken.
pub fn try_reverse_apply_swap_fee(amount: u64, fee_rate: u32, recorder: &mut Recorder) -> (r: Result<
    u64,
    CoreError,
>)
    requires
        is_fee_rate(fee_rate),
        old(recorder).can_hold(after_reverse_fee(old(recorder).counters@, amount, fee_rate)),
    ensures
        r == token_amount(plus_fee(amount as int, fee_rate as int)),
        old(recorder).becomes(
            *final(recorder),
            after_reverse_fee(old(recorder).counters@, amount, fee_rate),
        ),
{
    let ghost before = recorder.counters@;
    let ghost called = Work { u128_divs: before.u128_divs + 1, ..before };
    proof {
        reveal(after_reverse_fee);
        growth::lemma_fees_grow(before, amount, fee_rate);
        counters::lemma_holds_before(
            *recorder,
            called,
            after_reverse_fee(before, amount, fee_rate),
            1,
        );
    }
    let product: u128 = amount as u128 * FEE_RATE_DENOMINATOR as u128;
    let denominator: u128 = (FEE_RATE_DENOMINATOR - fee_rate) as u128;
    proof {
        arith::lemma_div_mod(product as int, denominator as int);
        law_fee_is_not_negative(amount as int, fee_rate);
        assert(product / denominator <= product) by (nonlinear_arith)
            requires
                denominator > 0,
                product >= 0,
        ;
        assert(0 <= amount * fee_rate <= 0xffff_ffff_ffff_ffff * 1_000_000) by (nonlinear_arith)
            requires
                0 <= amount <= 0xffff_ffff_ffff_ffff,
                0 <= fee_rate < 1_000_000,
        ;
    }
    if recorder.on {
        proof {
            reveal(Work::within);
        }
        recorder.counters.u128_divs += 1;
        assert(recorder.counters@ =~= called);
    }
    record_udiv(recorder, amount as u128 * fee_rate as u128, denominator);
    let mut result: u128 = product / denominator;
    if product % denominator != 0 {
        result = result + 1;
    }
    if result > 0xffff_ffff_ffff_ffff {
        return Err(CoreError::AmountExceedsMaxU64);
    }
    Ok(result as u64)
}

} // verus!
