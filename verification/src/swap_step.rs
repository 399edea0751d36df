//! One step of a swap: an amount put in at one fee rate and one liquidity, up to a target sqrt
//! price.
//!
//! A step that reaches its target consumes and gives what does not depend on the amount that was
//! left; a step that falls short consumes all of it.

use crate::arith;
use crate::counters;
use crate::counters::{Recorder, Work};
use crate::error::CoreError;
use crate::growth;
use crate::tick_array::TickFacade;
use crate::tick_math::{MAX_SQRT_PRICE, MIN_SQRT_PRICE};
use crate::token_math;
use crate::token_math::{
    try_apply_swap_fee, try_get_amount_delta_a, try_get_amount_delta_b,
    try_get_next_sqrt_price_from_a, try_get_next_sqrt_price_from_b, try_reverse_apply_swap_fee,
};
use vstd::prelude::*;

verus! {

/// What a step of a swap does.
#[derive(Debug, Clone, Copy, PartialEq, Eq)]
pub struct SwapStepQuote {
    pub amount_in: u64,
    pub amount_out: u64,
    pub next_sqrt_price: u128,
    pub fee_amount: u64,
}

/// The operands of a step, but for the amount that is left.
pub ghost struct StepSpec {
    pub fee_rate: u32,
    pub liquidity: u128,
    pub start: u128,
    pub target: u128,
    pub a_to_b: bool,
}

impl StepSpec {
    /// The operands of a step that can be computed.
    pub open spec fn valid(self) -> bool {
        &&& token_math::is_fee_rate(self.fee_rate)
        &&& MIN_SQRT_PRICE <= self.start <= MAX_SQRT_PRICE
        &&& MIN_SQRT_PRICE <= self.target <= MAX_SQRT_PRICE
    }

    /// The target does not lie behind the start.
    pub open spec fn is_ahead(self) -> bool {
        if self.a_to_b {
            self.target <= self.start
        } else {
            self.start <= self.target
        }
    }

    /// What has to be put in, without fee, to move the sqrt price to `to`.
    pub open spec fn input_to(self, to: u128) -> Result<u64, CoreError> {
        if self.a_to_b {
            token_math::amount_delta_a(self.start, to, self.liquidity, true)
        } else {
            token_math::amount_delta_b(self.start, to, self.liquidity, true)
        }
    }

    /// What comes out while the sqrt price moves to `to`.
    pub open spec fn output_to(self, to: u128) -> Result<u64, CoreError> {
        if self.a_to_b {
            token_math::amount_delta_b(self.start, to, self.liquidity, false)
        } else {
            token_math::amount_delta_a(self.start, to, self.liquidity, false)
        }
    }

    /// The sqrt price that an amount put in, without fee, leads to.
    pub open spec fn price_after(self, amount: u64) -> Result<u128, CoreError> {
        if self.a_to_b {
            token_math::next_sqrt_price_from_a(self.start, self.liquidity, amount)
        } else {
            token_math::next_sqrt_price_from_b(self.start, self.liquidity, amount)
        }
    }

    /// What is left of an amount once the fee has been taken.
    pub open spec fn net(self, remaining: u64) -> u64 {
        token_math::less_fee(remaining as int, self.fee_rate as int) as u64
    }

    /// The amount that is left covers the way to the target.
    pub open spec fn reaches(self, remaining: u64) -> bool {
        self.input_to(self.target) matches Ok(needed) && needed <= self.net(remaining)
    }

    /// The step that reaches the target.
    pub open spec fn full(self) -> Result<SwapStepQuote, CoreError> {
        let amount_in = self.input_to(self.target)->Ok_0;
        match self.output_to(self.target) {
            Err(e) => Err(e),
            Ok(amount_out) => match token_math::token_amount(
                token_math::plus_fee(amount_in as int, self.fee_rate as int),
            ) {
                Err(e) => Err(e),
                Ok(consumed) => Ok(
                    SwapStepQuote {
                        amount_in,
                        amount_out,
                        next_sqrt_price: self.target,
                        fee_amount: (consumed - amount_in) as u64,
                    },
                ),
            },
        }
    }

    /// The step that falls short of the target.
    pub open spec fn partial(self, remaining: u64) -> Result<SwapStepQuote, CoreError> {
        if self.input_to(self.target) == Err::<u64, CoreError>(CoreError::ArithmeticOverflow) {
            Err(CoreError::ArithmeticOverflow)
        } else {
            match self.price_after(self.net(remaining)) {
                Err(e) => Err(e),
                Ok(next_sqrt_price) => match self.output_to(next_sqrt_price) {
                    Err(e) => Err(e),
                    Ok(amount_out) => match self.input_to(next_sqrt_price) {
                        Err(e) => Err(e),
                        Ok(amount_in) => Ok(
                            SwapStepQuote {
                                amount_in,
                                amount_out,
                                next_sqrt_price,
                                fee_amount: (remaining - amount_in) as u64,
                            },
                        ),
                    },
                },
            }
        }
    }

    /// The counts after the input to `to` has been computed.
    pub open spec fn after_input(self, work: Work, to: u128) -> Work {
        if self.a_to_b {
            token_math::after_delta_a(work, self.start, to, self.liquidity, true)
        } else {
            token_math::after_delta_b(work, self.start, to, self.liquidity)
        }
    }

    /// The counts after the output to `to` has been computed.
    pub open spec fn after_output(self, work: Work, to: u128) -> Work {
        if self.a_to_b {
            token_math::after_delta_b(work, self.start, to, self.liquidity)
        } else {
            token_math::after_delta_a(work, self.start, to, self.liquidity, false)
        }
    }

    /// The counts after the sqrt price that an amount leads to has been computed.
    pub open spec fn after_price(self, work: Work, amount: u64) -> Work {
        if self.a_to_b {
            token_math::after_next_from_a(work, self.start, self.liquidity, amount)
        } else {
            token_math::after_next_from_b(work, self.liquidity, amount)
        }
    }

    /// The counts after a step: the input to the target and the fee, then what the step comes to.
    #[verifier::opaque]
    pub open spec fn after_step(self, work: Work, remaining: u64) -> Work {
        let called = Work { swap_steps: work.swap_steps + 1, ..work };
        let begun = token_math::after_apply_fee(
            self.after_input(called, self.target),
            remaining,
            self.fee_rate,
        );
        if self.input_to(self.target) == Err::<u64, CoreError>(CoreError::ArithmeticOverflow) {
            begun
        } else if self.reaches(remaining) {
            let given = self.after_output(begun, self.target);
            if self.output_to(self.target) is Err {
                given
            } else {
                token_math::after_reverse_fee(
                    given,
                    self.input_to(self.target)->Ok_0,
                    self.fee_rate,
                )
            }
        } else {
            let moved = self.after_price(begun, self.net(remaining));
            match self.price_after(self.net(remaining)) {
                Err(_) => moved,
                Ok(price) => {
                    let given = self.after_output(moved, price);
                    if self.output_to(price) is Err {
                        given
                    } else {
                        self.after_input(given, price)
                    }
                },
            }
        }
    }

    /// What a step does with the amount that is left.
    pub open spec fn step(self, remaining: u64) -> Result<SwapStepQuote, CoreError> {
        if self.reaches(remaining) {
            self.full()
        } else {
            self.partial(remaining)
        }
    }
}

/// The sqrt price that token A leads to, `ceil(N / D)`, is not above the start, takes no more
/// input than was given, and stays above any target that the input does not cover.
proof fn lemma_short_of_target_a(p: int, t: int, liquidity: int, amount: int, q: int)
    requires
        p > 0,
        t > 0,
        q > 0,
        liquidity >= 0,
        amount > 0,
        q == arith::ceil_div(
            liquidity * p * token_math::q64(),
            liquidity * token_math::q64() + amount * p,
        ),
    ensures
        q <= p,
        arith::ceil_div(liquidity * (p - q) * token_math::q64(), p * q) <= amount,
        t <= p && arith::ceil_div(liquidity * (p - t) * token_math::q64(), p * t) > amount ==> t < q,
{
    let k = token_math::q64();
    let n = liquidity * p * k;
    let lk = liquidity * k;
    let d = lk + amount * p;
    assert(lk >= 0 && amount * p > 0 && p * q > 0 && p * t > 0) by (nonlinear_arith)
        requires
            p > 0,
            q > 0,
            t > 0,
            amount > 0,
            liquidity >= 0,
            lk == liquidity * k,
            k == 0x1_0000_0000_0000_0000,
    ;
    assert(n == lk * p) by (nonlinear_arith)
        requires
            n == liquidity * p * k,
            lk == liquidity * k,
    ;
    arith::lemma_ceil_at_most(n, d, p);
    assert(n <= d * p) by (nonlinear_arith)
        requires
            n == lk * p,
            d == lk + amount * p,
            amount * p > 0,
            p > 0,
    ;
    arith::lemma_ceil_at_most(n, d, q);
    assert(n <= d * q);
    arith::lemma_ceil_at_most(liquidity * (p - q) * k, p * q, amount);
    assert(liquidity * (p - q) * k == lk * p - lk * q) by (nonlinear_arith)
        requires
            lk == liquidity * k,
    ;
    assert(d * q == lk * q + (p * q) * amount) by (nonlinear_arith)
        requires
            d == lk + amount * p,
    ;
    arith::lemma_ceil_at_most(n, d, t);
    arith::lemma_ceil_at_most(liquidity * (p - t) * k, p * t, amount);
    assert(liquidity * (p - t) * k == lk * p - lk * t) by (nonlinear_arith)
        requires
            lk == liquidity * k,
    ;
    assert(d * t == lk * t + (p * t) * amount) by (nonlinear_arith)
        requires
            d == lk + amount * p,
    ;
}

/// The sqrt price that token B leads to, `p + floor(amount / L)`, is not below the start, takes no
/// more input than was given, and stays below any target that the input does not cover.
proof fn lemma_short_of_target_b(p: int, t: int, liquidity: int, amount: int, q: int)
    requires
        liquidity > 0,
        amount >= 0,
        q == p + amount * token_math::q64() / liquidity,
    ensures
        p <= q,
        arith::ceil_div(liquidity * (q - p), token_math::q64()) <= amount,
        p <= t && arith::ceil_div(liquidity * (t - p), token_math::q64()) > amount ==> q < t,
{
    let k = token_math::q64();
    arith::lemma_floor_at_least(amount * k, liquidity, 0);
    arith::lemma_floor_at_least(amount * k, liquidity, q - p);
    arith::lemma_floor_at_least(amount * k, liquidity, t - p);
    arith::lemma_ceil_at_most(liquidity * (q - p), k, amount);
    arith::lemma_ceil_at_most(liquidity * (t - p), k, amount);
}

/// What has to be put in is never negative.
proof fn lemma_input_is_not_negative(p: int, t: int, liquidity: int)
    requires
        p > 0,
        t > 0,
        liquidity >= 0,
    ensures
        arith::ceil_div(liquidity * token_math::gap(p, t) * token_math::q64(), p * t) >= 0,
        arith::ceil_div(liquidity * token_math::gap(p, t), token_math::q64()) >= 0,
{
    let n = liquidity * token_math::gap(p, t);
    assert(n >= 0) by (nonlinear_arith)
        requires
            liquidity >= 0,
            token_math::gap(p, t) >= 0,
            n == liquidity * token_math::gap(p, t),
    ;
    assert(p * t > 0) by (nonlinear_arith)
        requires
            p > 0,
            t > 0,
    ;
    arith::lemma_ceil_at_most(n * token_math::q64(), p * t, -1);
    arith::lemma_ceil_at_most(n, token_math::q64(), -1);
}

/// With no liquidity, nothing has to be put in.
proof fn lemma_no_liquidity(s: StepSpec, to: u128)
    requires
        s.liquidity == 0,
        s.start > 0,
        to > 0,
    ensures
        s.input_to(to) == Ok::<u64, CoreError>(0),
{
    let g = token_math::gap(s.start as int, to as int);
    assert(0 * g == 0) by (nonlinear_arith);
    assert(0 * g * token_math::q64() == 0);
    assert(s.start * to > 0) by (nonlinear_arith)
        requires
            s.start > 0,
            to > 0,
    ;
    arith::lemma_div_mod_unique(0, s.start * to, 0, 0);
}

/// A step that falls short stays strictly before its target, on its side of the start, and
/// consumes exactly what was left.
pub proof fn law_partial_step_falls_short(s: StepSpec, remaining: u64)
    requires
        s.valid(),
        !s.reaches(remaining),
    ensures
        s.partial(remaining) matches Ok(step) ==> {
            &&& step.next_sqrt_price != s.target
            &&& step.amount_in <= s.net(remaining) <= remaining
            &&& step.amount_in + step.fee_amount == remaining
            &&& MIN_SQRT_PRICE <= step.next_sqrt_price <= MAX_SQRT_PRICE
            &&& s.a_to_b ==> step.next_sqrt_price <= s.start
            &&& !s.a_to_b ==> s.start <= step.next_sqrt_price
            &&& s.is_ahead() && s.a_to_b ==> s.target < step.next_sqrt_price
            &&& s.is_ahead() && !s.a_to_b ==> step.next_sqrt_price < s.target
        },
        s.liquidity > 0,
{
    token_math::law_fee_is_not_negative(remaining as int, s.fee_rate);
    if s.liquidity == 0 {
        lemma_no_liquidity(s, s.target);
    }
    if let Ok(step) = s.partial(remaining) {
        let p = s.start as int;
        let t = s.target as int;
        let l = s.liquidity as int;
        let amount = s.net(remaining) as int;
        let q = step.next_sqrt_price as int;
        if amount == 0 {
            assert(q == p);
            assert(l * 0 == 0 && l * 0 * token_math::q64() == 0) by (nonlinear_arith);
            assert(p * p > 0) by (nonlinear_arith)
                requires
                    p > 0,
            ;
            arith::lemma_div_mod_unique(0, p * p, 0, 0);
            lemma_input_is_not_negative(p, t, l);
            if p == t {
                assert(s.input_to(s.target) == Ok::<u64, CoreError>(0));
            }
        } else if s.a_to_b {
            lemma_short_of_target_a(p, t, l, amount, q);
            lemma_input_is_not_negative(p, t, l);
            lemma_input_is_not_negative(p, q, l);
            assert(token_math::gap(p, q) == p - q);
        } else {
            lemma_short_of_target_b(p, t, l, amount, q);
            lemma_input_is_not_negative(p, t, l);
        }
    }
}

/// A step reaches its target exactly from the amount on that the way there takes with its fee.
pub proof fn law_reach_threshold(s: StepSpec, remaining: u64)
    requires
        s.valid(),
    ensures
        s.reaches(remaining) <==> (s.input_to(s.target) matches Ok(needed) && remaining
            >= token_math::plus_fee(needed as int, s.fee_rate as int)),
{
    token_math::law_fee_is_not_negative(remaining as int, s.fee_rate);
    if let Ok(needed) = s.input_to(s.target) {
        token_math::law_fee_threshold(remaining as int, needed as int, s.fee_rate);
    }
}

/// A step that reaches its target consumes and gives the same whatever amount was left, and no less
/// than that amount reaches it.
pub proof fn law_reached_step_is_fixed(s: StepSpec, remaining: u64)
    requires
        s.valid(),
        s.full() is Ok,
        s.input_to(s.target) is Ok,
    ensures
        s.reaches(remaining) <==> remaining >= s.full()->Ok_0.amount_in
            + s.full()->Ok_0.fee_amount,
        s.reaches(remaining) ==> s.step(remaining) == s.full(),
{
    law_reach_threshold(s, remaining);
    let needed = s.input_to(s.target)->Ok_0;
    token_math::law_fee_is_not_negative(needed as int, s.fee_rate);
}

/// A step that reaches its target without consuming anything gives nothing.
pub proof fn law_nothing_for_nothing(s: StepSpec)
    requires
        s.valid(),
        s.full() is Ok,
        s.input_to(s.target) is Ok,
        s.full()->Ok_0.amount_in + s.full()->Ok_0.fee_amount == 0,
    ensures
        s.full()->Ok_0.amount_out == 0,
{
    let l = s.liquidity as int;
    let g = token_math::gap(s.start as int, s.target as int);
    let k = token_math::q64();
    let d = s.start * s.target;
    assert(d > 0) by (nonlinear_arith)
        requires
            s.start > 0,
            s.target > 0,
            d == s.start * s.target,
    ;
    assert(l * g >= 0) by (nonlinear_arith)
        requires
            l >= 0,
            g >= 0,
    ;
    token_math::law_fee_is_not_negative(s.input_to(s.target)->Ok_0 as int, s.fee_rate);
    arith::lemma_ceil_at_most(l * g * k, d, 0);
    arith::lemma_ceil_at_most(l * g, k, 0);
    arith::lemma_div_mod_unique(0, d, 0, 0);
    assert(d * 0 == 0) by (nonlinear_arith);
}

/// What has to be put in to move the sqrt price.
fn get_amount_fixed_delta(
    current_sqrt_price: u128,
    target_sqrt_price: u128,
    liquidity: u128,
    a_to_b: bool,
    recorder: &mut Recorder,
) -> (r: Result<u64, CoreError>)
    requires
        current_sqrt_price > 0,
        target_sqrt_price > 0,
        old(recorder).can_hold(
            if a_to_b {
                token_math::after_delta_a(
                    old(recorder).counters@,
                    current_sqrt_price,
                    target_sqrt_price,
                    liquidity,
                    true,
                )
            } else {
                token_math::after_delta_b(
                    old(recorder).counters@,
                    current_sqrt_price,
                    target_sqrt_price,
                    liquidity,
                )
            },
        ),
    ensures
        r == if a_to_b {
            token_math::amount_delta_a(current_sqrt_price, target_sqrt_price, liquidity, true)
        } else {
            token_math::amount_delta_b(current_sqrt_price, target_sqrt_price, liquidity, true)
        },
        old(recorder).becomes(
            *final(recorder),
            if a_to_b {
                token_math::after_delta_a(
                    old(recorder).counters@,
                    current_sqrt_price,
                    target_sqrt_price,
                    liquidity,
                    true,
                )
            } else {
                token_math::after_delta_b(
                    old(recorder).counters@,
                    current_sqrt_price,
                    target_sqrt_price,
                    liquidity,
                )
            },
        ),
{
    if a_to_b {
        try_get_amount_delta_a(current_sqrt_price, target_sqrt_price, liquidity, true, recorder)
    } else {
        try_get_amount_delta_b(current_sqrt_price, target_sqrt_price, liquidity, true, recorder)
    }
}

/// What comes out while the sqrt price moves.
fn get_amount_unfixed_delta(
    current_sqrt_price: u128,
    target_sqrt_price: u128,
    liquidity: u128,
    a_to_b: bool,
    recorder: &mut Recorder,
) -> (r: Result<u64, CoreError>)
    requires
        current_sqrt_price > 0,
        target_sqrt_price > 0,
        old(recorder).can_hold(
            if a_to_b {
                token_math::after_delta_b(
                    old(recorder).counters@,
                    current_sqrt_price,
                    target_sqrt_price,
                    liquidity,
                )
            } else {
                token_math::after_delta_a(
                    old(recorder).counters@,
                    current_sqrt_price,
                    target_sqrt_price,
                    liquidity,
                    false,
                )
            },
        ),
    ensures
        r == if a_to_b {
            token_math::amount_delta_b(current_sqrt_price, target_sqrt_price, liquidity, false)
        } else {
            token_math::amount_delta_a(current_sqrt_price, target_sqrt_price, liquidity, false)
        },
        old(recorder).becomes(
            *final(recorder),
            if a_to_b {
                token_math::after_delta_b(
                    old(recorder).counters@,
                    current_sqrt_price,
                    target_sqrt_price,
                    liquidity,
                )
            } else {
                token_math::after_delta_a(
                    old(recorder).counters@,
                    current_sqrt_price,
                    target_sqrt_price,
                    liquidity,
                    false,
                )
            },
        ),
{
    if a_to_b {
        try_get_amount_delta_b(current_sqrt_price, target_sqrt_price, liquidity, false, recorder)
    } else {
        try_get_amount_delta_a(current_sqrt_price, target_sqrt_price, liquidity, false, recorder)
    }
}

/// A recorder that can count a step can count every stage of it.
proof fn lemma_step_is_held(s: StepSpec, recorder: Recorder, remaining: u64)
    requires
        recorder.can_hold(s.after_step(recorder.counters@, remaining)),
    ensures
        ({
            let work = recorder.counters@;
            let called = Work { swap_steps: work.swap_steps + 1, ..work };
            let asked = s.after_input(called, s.target);
            let begun = token_math::after_apply_fee(asked, remaining, s.fee_rate);
            let given = s.after_output(begun, s.target);
            let moved = s.after_price(begun, s.net(remaining));
            &&& recorder.can_hold(called)
            &&& recorder.can_hold(asked)
            &&& recorder.can_hold(begun)
            &&& s.reaches(remaining) ==> recorder.can_hold(given)
            &&& !s.reaches(remaining) && s.input_to(s.target) != Err::<u64, CoreError>(
                CoreError::ArithmeticOverflow,
            ) ==> {
                &&& recorder.can_hold(moved)
                &&& s.price_after(s.net(remaining)) matches Ok(price) ==> recorder.can_hold(
                    s.after_output(moved, price),
                )
            }
        }),
{
    let work = recorder.counters@;
    let after = s.after_step(work, remaining);
    let called = Work { swap_steps: work.swap_steps + 1, ..work };
    let asked = s.after_input(called, s.target);
    let begun = token_math::after_apply_fee(asked, remaining, s.fee_rate);
    if s.reaches(remaining) {
        growth::lemma_full_step_grows(s, work, remaining);
        counters::lemma_holds_before(recorder, s.after_output(begun, s.target), after, 34);
    } else {
        growth::lemma_partial_step_grows(s, work, remaining);
        if s.input_to(s.target) != Err::<u64, CoreError>(CoreError::ArithmeticOverflow) {
            let moved = s.after_price(begun, s.net(remaining));
            counters::lemma_holds_before(recorder, moved, after, 34);
            if let Ok(price) = s.price_after(s.net(remaining)) {
                counters::lemma_holds_before(recorder, s.after_output(moved, price), after, 17);
            }
        }
    }
    counters::lemma_holds_before(recorder, called, after, 70);
    counters::lemma_holds_before(recorder, asked, after, 53);
    counters::lemma_holds_before(recorder, begun, after, 51);
}

/// One step of an exact-in swap: put in what is left of the amount, up to the target sqrt price.
#[verifier::rlimit(40)]
pub fn compute_swap_step(
    amount_remaining: u64,
    fee_rate: u32,
    liquidity: u128,
    current_sqrt_price: u128,
    target_sqrt_price: u128,
    a_to_b: bool,
    recorder: &mut Recorder,
) -> (r: Result<SwapStepQuote, CoreError>)
    requires
        (StepSpec {
            fee_rate,
            liquidity,
            start: current_sqrt_price,
            target: target_sqrt_price,
            a_to_b,
        }).valid(),
        old(recorder).can_hold(
            (StepSpec {
                fee_rate,
                liquidity,
                start: current_sqrt_price,
                target: target_sqrt_price,
                a_to_b,
            }).after_step(old(recorder).counters@, amount_remaining),
        ),
    ensures
        r == (StepSpec {
            fee_rate,
            liquidity,
            start: current_sqrt_price,
            target: target_sqrt_price,
            a_to_b,
        }).step(amount_remaining),
        old(recorder).becomes(
            *final(recorder),
            (StepSpec {
                fee_rate,
                liquidity,
                start: current_sqrt_price,
                target: target_sqrt_price,
                a_to_b,
            }).after_step(old(recorder).counters@, amount_remaining),
        ),
{
    let ghost s = StepSpec {
        fee_rate,
        liquidity,
        start: current_sqrt_price,
        target: target_sqrt_price,
        a_to_b,
    };
    proof {
        token_math::law_fee_is_not_negative(amount_remaining as int, fee_rate);
        if !s.reaches(amount_remaining) {
            law_partial_step_falls_short(s, amount_remaining);
        }
    }
    let ghost called = Work {
        swap_steps: recorder.counters@.swap_steps + 1,
        ..recorder.counters@
    };
    proof {
        lemma_step_is_held(s, *recorder, amount_remaining);
        reveal(StepSpec::after_step);
    }
    if recorder.on {
        proof {
            reveal(Work::within);
        }
        recorder.counters.swap_steps += 1;
        assert(recorder.counters@ =~= called);
    }
    let initial_amount_fixed_delta = get_amount_fixed_delta(
        current_sqrt_price,
        target_sqrt_price,
        liquidity,
        a_to_b,
        recorder,
    );
    let amount_calculated: u64 = try_apply_swap_fee(amount_remaining, fee_rate, recorder);
    let covered: Option<u64> = match initial_amount_fixed_delta {
        Ok(needed) => if needed <= amount_calculated {
            Some(needed)
        } else {
            None
        },
        Err(CoreError::AmountExceedsMaxU64) => None,
        Err(e) => return Err(e),
    };
    match covered {
        Some(amount_in) => {
            let given = get_amount_unfixed_delta(
                current_sqrt_price,
                target_sqrt_price,
                liquidity,
                a_to_b,
                recorder,
            );
            proof {
                token_math::law_fee_is_not_negative(amount_in as int, fee_rate);
            }
            let amount_out: u64 = given?;
            let with_fee = try_reverse_apply_swap_fee(amount_in, fee_rate, recorder);
            let pre_fee_amount: u64 = with_fee?;
            Ok(
                SwapStepQuote {
                    amount_in,
                    amount_out,
                    next_sqrt_price: target_sqrt_price,
                    fee_amount: pre_fee_amount - amount_in,
                },
            )
        },
        None => {
            let moved = if a_to_b {
                try_get_next_sqrt_price_from_a(
                    current_sqrt_price,
                    liquidity,
                    amount_calculated,
                    recorder,
                )
            } else {
                try_get_next_sqrt_price_from_b(
                    current_sqrt_price,
                    liquidity,
                    amount_calculated,
                    recorder,
                )
            };
            let next_sqrt_price: u128 = moved?;
            let given = get_amount_unfixed_delta(
                current_sqrt_price,
                next_sqrt_price,
                liquidity,
                a_to_b,
                recorder,
            );
            let amount_out: u64 = given?;
            let taken = get_amount_fixed_delta(
                current_sqrt_price,
                next_sqrt_price,
                liquidity,
                a_to_b,
                recorder,
            );
            let amount_in: u64 = taken?;
            Ok(
                SwapStepQuote {
                    amount_in,
                    amount_out,
                    next_sqrt_price,
                    fee_amount: amount_remaining - amount_in,
                },
            )
        },
    }
}

/// The liquidity beyond a tick, where there is one.
pub open spec fn liquidity_beyond(
    liquidity: u128,
    tick: Option<TickFacade>,
    a_to_b: bool,
) -> Result<u128, CoreError> {
    let net: int = match tick {
        Some(tick) => tick.liquidity_net as int,
        None => 0,
    };
    let beyond = if a_to_b {
        liquidity - net
    } else {
        liquidity + net
    };
    if 0 <= beyond <= u128::MAX {
        Ok(beyond as u128)
    } else {
        Err(CoreError::LiquidityOverflow)
    }
}

/// Cross a tick.
pub fn get_next_liquidity(
    current_liquidity: u128,
    next_tick: Option<TickFacade>,
    a_to_b: bool,
) -> (r: Result<u128, CoreError>)
    ensures
        r == liquidity_beyond(current_liquidity, next_tick, a_to_b),
{
    let net: i128 = match next_tick {
        Some(tick) => tick.liquidity_net,
        None => 0,
    };
    let magnitude: u128 = if net >= 0 {
        net as u128
    } else {
        (-(net + 1)) as u128 + 1
    };
    if (net < 0) == a_to_b {
        if magnitude > u128::MAX - current_liquidity {
            Err(CoreError::LiquidityOverflow)
        } else {
            Ok(current_liquidity + magnitude)
        }
    } else {
        if magnitude > current_liquidity {
            Err(CoreError::LiquidityOverflow)
        } else {
            Ok(current_liquidity - magnitude)
        }
    }
}

} // verus!
