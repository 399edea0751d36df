//! What the amounts and the sqrt prices of a step are, told by what they have to cover.
//!
//! The way between two sqrt prices takes so much of each token: what is put in is the least amount
//! that covers it, what comes out is the greatest that it gives.

use crate::arith;
use crate::error::CoreError;
use crate::swap_step;
use crate::swap_step::{StepSpec, SwapStepQuote};
use crate::token_math;
use vstd::prelude::*;

verus! {

/// The way between two sqrt prices.
pub open spec fn way(p: u128, q: u128) -> int {
    if p < q {
        q - p
    } else {
        p - q
    }
}

/// An amount of token A covers the way between two sqrt prices.
pub open spec fn covers_a(x: int, p: u128, q: u128, liquidity: u128) -> bool {
    x * (p * q) >= liquidity * way(p, q) * 0x1_0000_0000_0000_0000
}

/// The way between two sqrt prices gives an amount of token A.
pub open spec fn gives_a(x: int, p: u128, q: u128, liquidity: u128) -> bool {
    x * (p * q) <= liquidity * way(p, q) * 0x1_0000_0000_0000_0000
}

/// An amount of token B covers the way between two sqrt prices.
pub open spec fn covers_b(x: int, p: u128, q: u128, liquidity: u128) -> bool {
    x * 0x1_0000_0000_0000_0000 >= liquidity * way(p, q)
}

/// The way between two sqrt prices gives an amount of token B.
pub open spec fn gives_b(x: int, p: u128, q: u128, liquidity: u128) -> bool {
    x * 0x1_0000_0000_0000_0000 <= liquidity * way(p, q)
}

/// The way takes more of token A than can be computed.
pub open spec fn is_too_wide(p: u128, q: u128, liquidity: u128) -> bool {
    liquidity * way(p, q) >= 0x1_0000_0000_0000_0000_0000_0000_0000_0000_0000_0000_0000_0000int
}

/// The greatest amount is the one that the next is too much for, and the least amount the one that the
/// amount before it is too little for.
proof fn lemma_rounded(n: int, d: int, up: bool, x: int)
    requires
        d > 0,
    ensures
        x == token_math::rounded(n, d, up) <==> if up {
            (x - 1) * d < n <= x * d
        } else {
            x * d <= n < (x + 1) * d
        },
{
    arith::lemma_floor_at_least(n, d, x);
    arith::lemma_floor_at_least(n, d, x + 1);
    arith::lemma_ceil_at_most(n, d, x);
    arith::lemma_ceil_at_most(n, d, x - 1);
    assert(d * x == x * d && d * (x + 1) == (x + 1) * d && d * (x - 1) == (x - 1) * d)
        by (nonlinear_arith);
}

/// What a fraction comes to, against the greatest amount.
proof fn lemma_too_much(n: int, d: int, up: bool)
    requires
        d > 0,
    ensures
        token_math::rounded(n, d, up) > u64::MAX <==> if up {
            u64::MAX * d < n
        } else {
            (u64::MAX + 1) * d <= n
        },
{
    arith::lemma_floor_at_least(n, d, u64::MAX + 1);
    arith::lemma_ceil_at_most(n, d, u64::MAX as int);
    assert(d * (u64::MAX + 1) == (u64::MAX + 1) * d && d * u64::MAX == u64::MAX * d)
        by (nonlinear_arith);
}

/// The amount of token A between two sqrt prices is the same in both directions. Rounded up it is the
/// least one that covers the way, rounded down the greatest one that the way gives. There is none
/// exactly where the way is too wide to compute, or takes more than 64 bits.
pub proof fn law_amount_of_token_a(p: u128, q: u128, liquidity: u128, round_up: bool)
    requires
        p > 0,
        q > 0,
    ensures
        token_math::amount_delta_a(p, q, liquidity, round_up) == token_math::amount_delta_a(
            q,
            p,
            liquidity,
            round_up,
        ),
        match token_math::amount_delta_a(p, q, liquidity, round_up) {
            Ok(x) => {
                &&& !is_too_wide(p, q, liquidity)
                &&& round_up ==> covers_a(x as int, p, q, liquidity) && !covers_a(
                    x - 1,
                    p,
                    q,
                    liquidity,
                )
                &&& !round_up ==> gives_a(x as int, p, q, liquidity) && !gives_a(
                    x + 1,
                    p,
                    q,
                    liquidity,
                )
            },
            Err(e) => if is_too_wide(p, q, liquidity) {
                e == CoreError::ArithmeticOverflow
            } else {
                &&& e == CoreError::AmountExceedsMaxU64
                &&& round_up ==> !covers_a(u64::MAX as int, p, q, liquidity)
                &&& !round_up ==> gives_a(u64::MAX + 1, p, q, liquidity)
            },
        },
{
    let d = p * q;
    let n = liquidity * way(p, q) * 0x1_0000_0000_0000_0000;
    assert(d > 0 && d == q * p) by (nonlinear_arith)
        requires
            p > 0,
            q > 0,
            d == p * q,
    ;
    let x = token_math::rounded(n, d, round_up);
    lemma_rounded(n, d, round_up, x);
    lemma_too_much(n, d, round_up);
    assert(0 <= liquidity * way(p, q)) by (nonlinear_arith)
        requires
            0 <= liquidity,
            0 <= way(p, q),
    ;
    arith::lemma_floor_at_least(n, d, 0);
    arith::lemma_ceil_at_most(n, d, -1);
    assert(d * 0 == 0 && d * (-1) == -d) by (nonlinear_arith);
}

/// The amount of token B between two sqrt prices, likewise. It can always be computed.
pub proof fn law_amount_of_token_b(p: u128, q: u128, liquidity: u128, round_up: bool)
    ensures
        token_math::amount_delta_b(p, q, liquidity, round_up) == token_math::amount_delta_b(
            q,
            p,
            liquidity,
            round_up,
        ),
        match token_math::amount_delta_b(p, q, liquidity, round_up) {
            Ok(x) => {
                &&& round_up ==> covers_b(x as int, p, q, liquidity) && !covers_b(
                    x - 1,
                    p,
                    q,
                    liquidity,
                )
                &&& !round_up ==> gives_b(x as int, p, q, liquidity) && !gives_b(
                    x + 1,
                    p,
                    q,
                    liquidity,
                )
            },
            Err(e) => {
                &&& e == CoreError::AmountExceedsMaxU64
                &&& round_up ==> !covers_b(u64::MAX as int, p, q, liquidity)
                &&& !round_up ==> gives_b(u64::MAX + 1, p, q, liquidity)
            },
        },
{
    let d = 0x1_0000_0000_0000_0000int;
    let n = liquidity * way(p, q);
    let x = token_math::rounded(n, d, round_up);
    lemma_rounded(n, d, round_up, x);
    lemma_too_much(n, d, round_up);
    assert(0 <= liquidity * way(p, q)) by (nonlinear_arith)
        requires
            0 <= liquidity,
            0 <= way(p, q),
    ;
    arith::lemma_floor_at_least(n, d, 0);
    arith::lemma_ceil_at_most(n, d, -1);
}

/// Token A is put in until a sqrt price: what that much of it covers, from the sqrt price down.
pub open spec fn is_paid_down_to(p: u128, liquidity: u128, amount: u64, q: int) -> bool {
    q * (liquidity * 0x1_0000_0000_0000_0000 + amount * p) >= liquidity * p
        * 0x1_0000_0000_0000_0000
}

/// Token B is put in until a sqrt price: what that much of it covers, from the sqrt price up.
pub open spec fn is_paid_up_to(p: u128, liquidity: u128, amount: u64, q: int) -> bool {
    (q - p) * liquidity <= amount * 0x1_0000_0000_0000_0000
}

/// A sqrt price within the price range.
pub open spec fn is_a_price(q: int) -> bool {
    4295048016 <= q <= 79226673515401279992447579055
}

/// Token A moves the sqrt price down, to the least one that the amount pays for. Nothing put in moves
/// nothing.
pub proof fn law_price_after_token_a(p: u128, liquidity: u128, amount: u64)
    requires
        p > 0,
        amount > 0,
    ensures
        token_math::next_sqrt_price_from_a(p, liquidity, 0) == Ok::<u128, CoreError>(p),
        match token_math::next_sqrt_price_from_a(p, liquidity, amount) {
            Ok(q) => {
                &&& is_a_price(q as int)
                &&& q <= p
                &&& is_paid_down_to(p, liquidity, amount, q as int)
                &&& !is_paid_down_to(p, liquidity, amount, q - 1)
            },
            Err(e) => if liquidity * p
                >= 0x1_0000_0000_0000_0000_0000_0000_0000_0000_0000_0000_0000_0000int {
                e == CoreError::ArithmeticOverflow
            } else {
                &&& e == CoreError::SqrtPriceOutOfBounds
                &&& is_paid_down_to(p, liquidity, amount, 4295048015) || !is_paid_down_to(
                    p,
                    liquidity,
                    amount,
                    79226673515401279992447579055,
                )
            },
        },
{
    let n = liquidity * p * 0x1_0000_0000_0000_0000;
    let d = liquidity * 0x1_0000_0000_0000_0000 + amount * p;
    assert(d > 0 && n <= p * d) by (nonlinear_arith)
        requires
            p > 0,
            amount > 0,
            liquidity >= 0,
            n == liquidity * p * 0x1_0000_0000_0000_0000,
            d == liquidity * 0x1_0000_0000_0000_0000 + amount * p,
    ;
    let q = arith::ceil_div(n, d);
    lemma_rounded(n, d, true, q);
    arith::lemma_ceil_at_most(n, d, p as int);
    arith::lemma_ceil_at_most(n, d, 4295048015);
    arith::lemma_ceil_at_most(n, d, 79226673515401279992447579055);
    assert(d * p == p * d && d * 4295048015 == 4295048015 * d && d * 79226673515401279992447579055
        == 79226673515401279992447579055 * d) by (nonlinear_arith);
}

/// Token B moves the sqrt price up, to the greatest one that the amount pays for. Nothing put in moves
/// nothing.
pub proof fn law_price_after_token_b(p: u128, liquidity: u128, amount: u64)
    requires
        is_a_price(p as int),
        liquidity > 0,
        amount > 0,
    ensures
        token_math::next_sqrt_price_from_b(p, liquidity, 0) == Ok::<u128, CoreError>(p),
        match token_math::next_sqrt_price_from_b(p, liquidity, amount) {
            Ok(q) => {
                &&& is_a_price(q as int)
                &&& p <= q
                &&& is_paid_up_to(p, liquidity, amount, q as int)
                &&& !is_paid_up_to(p, liquidity, amount, q + 1)
            },
            Err(e) => {
                &&& e == CoreError::SqrtPriceOutOfBounds
                &&& is_paid_up_to(p, liquidity, amount, 79226673515401279992447579056)
            },
        },
{
    let n = amount * 0x1_0000_0000_0000_0000;
    let l = liquidity as int;
    let x = n / l;
    lemma_rounded(n, l, false, x);
    arith::lemma_floor_at_least(n, l, 0);
    let top = 79226673515401279992447579056 - p;
    arith::lemma_floor_at_least(n, l, top);
    assert(l * top == top * l && l * 0 == 0) by (nonlinear_arith);
}

/// What is left of an amount after the fee is the greatest amount that is no more than its part, and
/// what an amount takes with its fee the least one of which it is no more than the part.
pub proof fn law_fee_is_a_part(amount: int, fee_rate: u32)
    requires
        fee_rate < 1_000_000,
    ensures
        ({
            let net = token_math::less_fee(amount, fee_rate as int);
            let gross = token_math::plus_fee(amount, fee_rate as int);
            &&& net * 1_000_000 <= amount * (1_000_000 - fee_rate) < (net + 1) * 1_000_000
            &&& (gross - 1) * (1_000_000 - fee_rate) < amount * 1_000_000 <= gross * (1_000_000
                - fee_rate)
        }),
{
    let k = 1_000_000 - fee_rate;
    lemma_rounded(amount * k, 1_000_000, false, token_math::less_fee(amount, fee_rate as int));
    lemma_rounded(amount * 1_000_000, k, true, token_math::plus_fee(amount, fee_rate as int));
}

/// The operands of a step with its fee rate in range and its sqrt prices in the price range.
pub open spec fn is_a_step(s: StepSpec) -> bool {
    &&& s.fee_rate < 1_000_000
    &&& is_a_price(s.start as int)
    &&& is_a_price(s.target as int)
}

/// An amount put in without fee covers the way to the target.
pub open spec fn covers_way(s: StepSpec, needed: u64) -> bool {
    if s.a_to_b {
        &&& !is_too_wide(s.start, s.target, s.liquidity)
        &&& covers_a(needed as int, s.start, s.target, s.liquidity)
    } else {
        covers_b(needed as int, s.start, s.target, s.liquidity)
    }
}

/// Once its fee has been taken, an amount covers the way to the target.
pub open spec fn covers_the_way(s: StepSpec, remaining: u64) -> bool {
    exists|needed: u64|
        needed * 1_000_000 <= remaining * (1_000_000 - s.fee_rate) && #[trigger] covers_way(
            s,
            needed,
        )
}

/// The way to the target gives more than 64 bits, or cannot be computed.
pub open spec fn gives_too_much(s: StepSpec) -> bool {
    if s.a_to_b {
        gives_b(u64::MAX + 1, s.start, s.target, s.liquidity)
    } else {
        is_too_wide(s.start, s.target, s.liquidity) || gives_a(
            u64::MAX + 1,
            s.start,
            s.target,
            s.liquidity,
        )
    }
}

/// A step puts in the least amount that covers its way and gives the greatest that the way gives,
/// whichever token that is. Where the amount that is left covers the way to the target once its fee
/// has been taken, the step gets there, and its fee is the least that leaves what it puts in; else it
/// takes all that is left.
pub proof fn law_step_pays_for_its_way(s: StepSpec, remaining: u64)
    requires
        is_a_step(s),
    ensures
        s.step(remaining) matches Ok(step) ==> {
            let (p, q, l) = (s.start, step.next_sqrt_price, s.liquidity);
            let (x, y) = (step.amount_in as int, step.amount_out as int);
            let k = 1_000_000 - s.fee_rate;
            let paid = x + step.fee_amount;
            &&& s.a_to_b ==> covers_a(x, p, q, l) && !covers_a(x - 1, p, q, l)
            &&& s.a_to_b ==> gives_b(y, p, q, l) && !gives_b(y + 1, p, q, l)
            &&& !s.a_to_b ==> covers_b(x, p, q, l) && !covers_b(x - 1, p, q, l)
            &&& !s.a_to_b ==> gives_a(y, p, q, l) && !gives_a(y + 1, p, q, l)
            &&& q == s.target <==> covers_the_way(s, remaining)
            &&& paid <= remaining
            &&& q == s.target ==> (paid - 1) * k < x * 1_000_000 <= paid * k
            &&& q != s.target ==> paid == remaining
        },
        covers_the_way(s, remaining) ==> (s.step(remaining) is Err <==> gives_too_much(s)),
        !covers_the_way(s, remaining) && s.a_to_b && is_too_wide(s.start, s.target, s.liquidity)
            ==> s.step(remaining) == Err::<SwapStepQuote, CoreError>(
                CoreError::ArithmeticOverflow,
            ),
{
    token_math::law_fee_is_not_negative(remaining as int, s.fee_rate);
    law_fee_is_a_part(remaining as int, s.fee_rate);
    swap_step::law_reach_threshold(s, remaining);
    lemma_reaches_covers(s, remaining);
    lemma_gives_too_much(s);
    if let Ok(step) = s.step(remaining) {
        if s.reaches(remaining) {
            let x = step.amount_in as int;
            token_math::law_fee_is_not_negative(x, s.fee_rate);
            law_fee_is_a_part(x, s.fee_rate);
        } else {
            swap_step::law_partial_step_falls_short(s, remaining);
        }
        let q = step.next_sqrt_price;
        law_amount_of_token_a(s.start, q, s.liquidity, s.a_to_b);
        law_amount_of_token_b(s.start, q, s.liquidity, !s.a_to_b);
    }
}

/// What the way to the target gives is refused exactly where that is too much.
proof fn lemma_gives_too_much(s: StepSpec)
    requires
        is_a_step(s),
    ensures
        s.output_to(s.target) is Err <==> gives_too_much(s),
{
    let area = s.start * s.target;
    let n = s.liquidity * way(s.start, s.target);
    assert(area > 0) by (nonlinear_arith)
        requires
            s.start > 0,
            s.target > 0,
            area == s.start * s.target,
    ;
    lemma_too_much(n * 0x1_0000_0000_0000_0000, area, false);
    lemma_too_much(n, 0x1_0000_0000_0000_0000, false);
}

/// A step that does not get to its target stops at the sqrt price that the amount pays for once its fee
/// has been taken.
pub proof fn law_short_step_stops_where_it_paid(s: StepSpec, remaining: u64, net: u64)
    requires
        is_a_step(s),
        !covers_the_way(s, remaining),
        net * 1_000_000 <= remaining * (1_000_000 - s.fee_rate) < (net + 1) * 1_000_000,
    ensures
        s.step(remaining) matches Ok(step) ==> {
            let q = step.next_sqrt_price as int;
            &&& net == 0 ==> q == s.start
            &&& net > 0 && s.a_to_b ==> is_paid_down_to(s.start, s.liquidity, net, q)
                && !is_paid_down_to(s.start, s.liquidity, net, q - 1)
            &&& net > 0 && !s.a_to_b ==> is_paid_up_to(s.start, s.liquidity, net, q)
                && !is_paid_up_to(s.start, s.liquidity, net, q + 1)
        },
{
    lemma_reaches_covers(s, remaining);
    swap_step::law_partial_step_falls_short(s, remaining);
    law_fee_is_a_part(remaining as int, s.fee_rate);
    token_math::law_fee_is_not_negative(remaining as int, s.fee_rate);
    assert(net == s.net(remaining));
    if net > 0 {
        law_price_after_token_a(s.start, s.liquidity, net);
        law_price_after_token_b(s.start, s.liquidity, net);
    }
}

/// A step reaches its target exactly where the amount covers the way there.
pub proof fn lemma_reaches_covers(s: StepSpec, remaining: u64)
    requires
        is_a_step(s),
    ensures
        s.reaches(remaining) <==> covers_the_way(s, remaining),
{
    token_math::law_fee_is_not_negative(remaining as int, s.fee_rate);
    law_fee_is_a_part(remaining as int, s.fee_rate);
    law_amount_of_token_a(s.start, s.target, s.liquidity, true);
    law_amount_of_token_b(s.start, s.target, s.liquidity, true);
    let area = s.start * s.target;
    assert(area > 0) by (nonlinear_arith)
        requires
            s.start > 0,
            s.target > 0,
            area == s.start * s.target,
    ;
    if s.reaches(remaining) {
        assert(covers_way(s, s.input_to(s.target)->Ok_0));
    }
    if covers_the_way(s, remaining) {
        let needed = choose|needed: u64|
            needed * 1_000_000 <= remaining * (1_000_000 - s.fee_rate) && #[trigger] covers_way(
                s,
                needed,
            );
        let n = s.liquidity * way(s.start, s.target) * 0x1_0000_0000_0000_0000;
        if s.a_to_b {
            arith::lemma_ceil_at_most(n, area, needed as int);
            assert(area * needed == needed * area) by (nonlinear_arith);
            arith::lemma_ceil_at_most(n, area, u64::MAX as int);
            assert(area * u64::MAX == u64::MAX * area) by (nonlinear_arith);
        }
    }
}

} // verus!
