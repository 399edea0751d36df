//! What is counted of the amounts and the sqrt prices of a step, and of the step.
//!
//! Each call is counted once, with the multiplications and the divisions that it makes; nothing else
//! is.

use crate::amount_laws;
use crate::bits;
use crate::count_laws;
use crate::counters::Work;
use crate::div_path;
use crate::div_path::UDIV_PATHS;
use crate::error::CoreError;
use crate::long_div;
use crate::record;
use crate::swap_step;
use crate::swap_step::StepSpec;
use crate::token_math;
use vstd::arithmetic::power2::*;
use vstd::prelude::*;

verus! {

/// `2^256`, and products of 128 bits are below it.
proof fn lemma_256_bits(p: u128, q: u128)
    ensures
        token_math::u256_limit() == pow2(256),
        0 <= p * q < pow2(256),
        p > 0 && q > 0 ==> p * q > 0,
{
    bits::lemma_word_powers();
    lemma_pow2_adds(128, 128);
    assert(0 <= p * q < token_math::u256_limit()) by (nonlinear_arith)
        requires
            0 <= p < 0x1_0000_0000_0000_0000_0000_0000_0000_0000int,
            0 <= q < 0x1_0000_0000_0000_0000_0000_0000_0000_0000int,
            token_math::u256_limit() == 0x1_0000_0000_0000_0000_0000_0000_0000_0000int
                * 0x1_0000_0000_0000_0000_0000_0000_0000_0000int,
    ;
    assert(p > 0 && q > 0 ==> p * q > 0) by (nonlinear_arith);
}

/// The amount of token A between two sqrt prices is counted as a call that multiplies the liquidity by
/// the way, then the two sqrt prices, and divides the one by the other; the way that is too wide ends
/// after the first. Rounding up takes the remainder.
pub proof fn law_amount_of_token_a_is_counted(
    work: Work,
    p: u128,
    q: u128,
    liquidity: u128,
    round_up: bool,
)
    requires
        work.has_paths(),
        p > 0,
        q > 0,
    ensures
        ({
            let way = amount_laws::way(p, q);
            let after = token_math::after_delta_a(work, p, q, liquidity, round_up);
            let first = count_laws::products_of(liquidity as int, way);
            let second = count_laws::products_of(p as int, q as int);
            if amount_laws::is_too_wide(p, q, liquidity) {
                after == (Work {
                    amount_delta_a_calls: work.amount_delta_a_calls + 1,
                    u256_muls: work.u256_muls + 1,
                    u256_mul_word_products: (work.u256_mul_word_products + first) as nat,
                    ..work
                })
            } else {
                &&& count_laws::division_is_counted(
                    work,
                    after,
                    (liquidity * way * 0x1_0000_0000_0000_0000) as nat,
                    (p * q) as nat,
                    true,
                    round_up,
                )
                &&& after == count_laws::with_divisions_of(
                    (Work {
                        amount_delta_a_calls: work.amount_delta_a_calls + 1,
                        u256_muls: work.u256_muls + 2,
                        u256_mul_word_products: (work.u256_mul_word_products + first
                            + second) as nat,
                        ..work
                    }),
                    after,
                )
            }
        }),
{
    reveal(token_math::after_delta_a);
    let g = token_math::gap(p as int, q as int);
    let n = liquidity * g * token_math::q64();
    let called = Work { amount_delta_a_calls: work.amount_delta_a_calls + 1, ..work };
    let scaled = record::after_u256_mul(called, liquidity as nat, g as nat);
    let both = record::after_u256_mul(scaled, p as nat, q as nat);
    count_laws::law_u256_mul_is_counted(called, liquidity, g as u128);
    count_laws::law_u256_mul_is_counted(scaled, p, q);
    lemma_256_bits(p, q);
    if n < token_math::u256_limit() {
        assert(0 <= n) by (nonlinear_arith)
            requires
                n == liquidity * g * token_math::q64(),
                liquidity >= 0,
                g >= 0,
                token_math::q64() > 0,
        ;
        count_laws::law_u256_div_is_counted(both, n as nat, (p * q) as nat, true, round_up);
    }
}

/// The amount of token B between two sqrt prices is counted as a call that multiplies the liquidity by
/// the way; its division is a shift.
pub proof fn law_amount_of_token_b_is_counted(work: Work, p: u128, q: u128, liquidity: u128)
    ensures
        token_math::after_delta_b(work, p, q, liquidity) == (Work {
            amount_delta_b_calls: work.amount_delta_b_calls + 1,
            u256_muls: work.u256_muls + 1,
            u256_mul_word_products: (work.u256_mul_word_products + count_laws::products_of(
                liquidity as int,
                amount_laws::way(p, q),
            )) as nat,
            ..work
        }),
{
    reveal(token_math::after_delta_b);
    let g = token_math::gap(p as int, q as int);
    let called = Work { amount_delta_b_calls: work.amount_delta_b_calls + 1, ..work };
    count_laws::law_u256_mul_is_counted(called, liquidity, g as u128);
}

/// The sqrt price that token A leads to is counted as a call that multiplies the liquidity and the
/// amount by the sqrt price and divides, with the remainder. Nothing put in is no more than the call.
pub proof fn law_price_after_token_a_is_counted(work: Work, p: u128, liquidity: u128, amount: u64)
    requires
        work.has_paths(),
        p > 0,
    ensures
        ({
            let after = token_math::after_next_from_a(work, p, liquidity, amount);
            let called = work.next_sqrt_from_a_calls + 1;
            let first = count_laws::products_of(liquidity as int, p as int);
            let second = count_laws::products_of(amount as int, p as int);
            if amount == 0 {
                after == (Work { next_sqrt_from_a_calls: called, ..work })
            } else if liquidity * p
                >= 0x1_0000_0000_0000_0000_0000_0000_0000_0000_0000_0000_0000_0000int {
                after == (Work {
                    next_sqrt_from_a_calls: called,
                    u256_muls: work.u256_muls + 1,
                    u256_mul_word_products: (work.u256_mul_word_products + first) as nat,
                    ..work
                })
            } else {
                &&& count_laws::division_is_counted(
                    work,
                    after,
                    (liquidity * p * 0x1_0000_0000_0000_0000) as nat,
                    (liquidity * 0x1_0000_0000_0000_0000 + amount * p) as nat,
                    true,
                    true,
                )
                &&& after == count_laws::with_divisions_of(
                    (Work {
                        next_sqrt_from_a_calls: called,
                        u256_muls: work.u256_muls + 2,
                        u256_mul_word_products: (work.u256_mul_word_products + first
                            + second) as nat,
                        ..work
                    }),
                    after,
                )
            }
        }),
{
    reveal(token_math::after_next_from_a);
    let n = liquidity * p * token_math::q64();
    let d = liquidity * token_math::q64() + amount * p;
    let called = Work { next_sqrt_from_a_calls: work.next_sqrt_from_a_calls + 1, ..work };
    let scaled = record::after_u256_mul(called, liquidity as nat, p as nat);
    let both = record::after_u256_mul(scaled, amount as nat, p as nat);
    count_laws::law_u256_mul_is_counted(called, liquidity, p);
    count_laws::law_u256_mul_is_counted(scaled, amount as u128, p);
    lemma_256_bits(liquidity, p);
    lemma_256_bits(amount as u128, p);
    if amount > 0 && n < token_math::u256_limit() {
        assert(0 <= amount * p <= 0xffff_ffff_ffff_ffff * 0xffff_ffff_ffff_ffff_ffff_ffff_ffff_ffff)
            by (nonlinear_arith)
            requires
                0 <= amount <= 0xffff_ffff_ffff_ffff,
                0 <= p <= 0xffff_ffff_ffff_ffff_ffff_ffff_ffff_ffff,
        ;
        count_laws::law_u256_div_is_counted(both, n as nat, d as nat, true, true);
    }
}

/// The sqrt price that token B leads to is counted as a call that divides, without the remainder.
/// Nothing put in is no more than the call.
pub proof fn law_price_after_token_b_is_counted(work: Work, liquidity: u128, amount: u64)
    requires
        work.has_paths(),
        liquidity > 0,
    ensures
        ({
            let after = token_math::after_next_from_b(work, liquidity, amount);
            let called = work.next_sqrt_from_b_calls + 1;
            if amount == 0 {
                after == (Work { next_sqrt_from_b_calls: called, ..work })
            } else {
                &&& count_laws::division_is_counted(
                    work,
                    after,
                    (amount * 0x1_0000_0000_0000_0000) as nat,
                    liquidity as nat,
                    false,
                    false,
                )
                &&& after == count_laws::with_divisions_of(
                    (Work { next_sqrt_from_b_calls: called, ..work }),
                    after,
                )
            }
        }),
{
    reveal(token_math::after_next_from_b);
    let called = Work { next_sqrt_from_b_calls: work.next_sqrt_from_b_calls + 1, ..work };
    lemma_256_bits(liquidity, 1);
    if amount > 0 {
        count_laws::law_u256_div_is_counted(
            called,
            (amount * token_math::q64()) as nat,
            liquidity as nat,
            false,
            false,
        );
    }
}

/// Each fee is one `u128` division: what is left of an amount divides its part by a million, what an
/// amount takes divides its fee by the part.
pub proof fn law_fee_is_counted(work: Work, amount: u64, fee_rate: u32, p: int)
    requires
        work.has_paths(),
        fee_rate < 1_000_000,
        0 <= p < UDIV_PATHS,
    ensures
        ({
            let applied = token_math::after_apply_fee(work, amount, fee_rate);
            let reversed = token_math::after_reverse_fee(work, amount, fee_rate);
            let k = 1_000_000 - fee_rate;
            &&& applied.has_paths() && reversed.has_paths()
            &&& applied.udiv_paths[p] - work.udiv_paths[p] == count_laws::one_if(
                p == div_path::path_index((amount * k) as nat, 1_000_000),
            )
            &&& reversed.udiv_paths[p] - work.udiv_paths[p] == count_laws::one_if(
                p == div_path::path_index((amount * fee_rate) as nat, k as nat),
            )
            &&& long_div::path_total(applied.udiv_paths) == long_div::path_total(work.udiv_paths)
                + 1
            &&& long_div::path_total(reversed.udiv_paths) == long_div::path_total(work.udiv_paths)
                + 1
            &&& applied == (Work {
                u128_divs: work.u128_divs + 1,
                udiv_paths: applied.udiv_paths,
                ..work
            })
            &&& reversed == (Work {
                u128_divs: work.u128_divs + 1,
                udiv_paths: reversed.udiv_paths,
                ..work
            })
        }),
{
    reveal(token_math::after_apply_fee);
    reveal(token_math::after_reverse_fee);
    let called = Work { u128_divs: work.u128_divs + 1, ..work };
    let k = 1_000_000 - fee_rate;
    count_laws::law_udiv_is_counted(called, (amount * k) as nat, 1_000_000, p);
    count_laws::law_udiv_is_counted(called, (amount * fee_rate) as nat, k as nat, p);
}

/// Counts with the arithmetic of others: their multiplications, divisions, amounts and sqrt prices.
pub open spec fn with_arithmetic_of(work: Work, other: Work) -> Work {
    count_laws::with_divisions_of(
        Work {
            u128_divs: other.u128_divs,
            u256_muls: other.u256_muls,
            u256_mul_word_products: other.u256_mul_word_products,
            amount_delta_a_calls: other.amount_delta_a_calls,
            amount_delta_b_calls: other.amount_delta_b_calls,
            next_sqrt_from_a_calls: other.next_sqrt_from_a_calls,
            next_sqrt_from_b_calls: other.next_sqrt_from_b_calls,
            ..work
        },
        other,
    )
}

/// The `u128` divisions that are on a branch path but are neither counted for themselves nor as steps of
/// a 256-bit division.
pub open spec fn other_divisions(work: Work) -> int {
    long_div::path_total(work.udiv_paths) - work.u128_divs - work.u256_div_u128
        - work.u256_div_knuth_iters - work.u256_div_short_iters
}

/// What a step of a swap adds where it can be computed. One that gets to its target computes what it
/// puts in and what it gives, each once, and both fees; one that does not computes the sqrt price that
/// it gets to, what it puts in a second time, and one fee. The amount of token A is a division and two
/// multiplications, that of token B a multiplication, and the sqrt price that something put in leads to
/// a division, with two multiplications where it is token A. A remainder is taken of the divisions of a
/// step that token A is put into, and of no other; a frame is built for each of two limbs but that of the
/// sqrt price that token B leads to.
pub open spec fn step_is_counted(
    before: Work,
    after: Work,
    a_to_b: bool,
    reached: bool,
    moves: bool,
) -> bool {
    let inputs = if reached {
        1int
    } else {
        2
    };
    let of_a = if a_to_b {
        inputs
    } else {
        1
    };
    let of_b = if a_to_b {
        1
    } else {
        inputs
    };
    let priced = count_laws::one_if(!reached && moves);
    &&& after.amount_delta_a_calls - before.amount_delta_a_calls == of_a
    &&& after.amount_delta_b_calls - before.amount_delta_b_calls == of_b
    &&& after.next_sqrt_from_a_calls - before.next_sqrt_from_a_calls == count_laws::one_if(
        !reached && a_to_b,
    )
    &&& after.next_sqrt_from_b_calls - before.next_sqrt_from_b_calls == count_laws::one_if(
        !reached && !a_to_b,
    )
    &&& after.u128_divs - before.u128_divs == 3 - inputs
    &&& after.u256_divs - before.u256_divs == of_a + priced
    &&& after.u256_div_normalized_remainder - before.u256_div_normalized_remainder == if a_to_b {
        after.u256_div_normalized - before.u256_div_normalized
    } else {
        0
    }
    &&& after.u256_div_case2_frames - before.u256_div_case2_frames == after.u256_div_u128
        - before.u256_div_u128 - if a_to_b {
        0
    } else {
        priced
    }
    &&& after.u256_muls - before.u256_muls == 2 * of_a + of_b + if a_to_b {
        2 * priced
    } else {
        0
    }
}

/// The products of limbs of the amount of token A on a way.
pub open spec fn products_of_a(s: StepSpec, to: u128) -> int {
    count_laws::products_of(s.liquidity as int, amount_laws::way(s.start, to))
        + count_laws::products_of(s.start as int, to as int)
}

/// The products of limbs of the amount of token B on a way.
pub open spec fn products_of_b(s: StepSpec, to: u128) -> int {
    count_laws::products_of(s.liquidity as int, amount_laws::way(s.start, to))
}

/// The products of limbs of a step that gets to a sqrt price: of both amounts on its way, and where that
/// falls short of the target also of what the way there takes and of the sqrt price.
pub open spec fn products_of_step(s: StepSpec, to: u128, reached: bool, net: int) -> int {
    products_of_a(s, to) + products_of_b(s, to) + if reached {
        0
    } else if !s.a_to_b {
        products_of_b(s, s.target)
    } else {
        products_of_a(s, s.target) + if net > 0 {
            count_laws::products_of(s.liquidity as int, s.start as int) + count_laws::products_of(
                net,
                s.start as int,
            )
        } else {
            0
        }
    }
}

/// A step is counted once, with the arithmetic that it makes, and nothing else is. Each of its `u128`
/// divisions is counted for itself, or as a step of a 256-bit division.
pub proof fn law_step_is_counted(s: StepSpec, work: Work, remaining: u64)
    requires
        amount_laws::is_a_step(s),
        work.has_paths(),
    ensures
        ({
            let after = s.after_step(work, remaining);
            &&& after == with_arithmetic_of(
                (Work { swap_steps: work.swap_steps + 1, ..work }),
                after,
            )
            &&& after.has_paths()
            &&& other_divisions(after) == other_divisions(work)
            &&& s.step(remaining) is Ok ==> step_is_counted(
                work,
                after,
                s.a_to_b,
                amount_laws::covers_the_way(s, remaining),
                remaining * (1_000_000 - s.fee_rate) >= 1_000_000,
            )
            &&& s.step(remaining) matches Ok(step) ==> after.u256_mul_word_products
                - work.u256_mul_word_products == products_of_step(
                s,
                step.next_sqrt_price,
                amount_laws::covers_the_way(s, remaining),
                remaining * (1_000_000 - s.fee_rate) / 1_000_000,
            )
        }),
{
    reveal(StepSpec::after_step);
    amount_laws::lemma_reaches_covers(s, remaining);
    amount_laws::law_fee_is_a_part(remaining as int, s.fee_rate);
    token_math::law_fee_is_not_negative(remaining as int, s.fee_rate);
    let called = Work { swap_steps: work.swap_steps + 1, ..work };
    let reckoned = s.after_input(called, s.target);
    let begun = token_math::after_apply_fee(reckoned, remaining, s.fee_rate);
    lemma_amounts_are_counted(s, called, s.target);
    law_fee_is_counted(reckoned, remaining, s.fee_rate, 0);
    if s.input_to(s.target) == Err::<u64, CoreError>(CoreError::ArithmeticOverflow) {
    } else if s.reaches(remaining) {
        let given = s.after_output(begun, s.target);
        lemma_amounts_are_counted(s, begun, s.target);
        if s.output_to(s.target) is Ok {
            law_fee_is_counted(given, s.input_to(s.target)->Ok_0, s.fee_rate, 0);
        }
    } else {
        let net = s.net(remaining);
        let moved = s.after_price(begun, net);
        swap_step::law_partial_step_falls_short(s, remaining);
        law_price_after_token_a_is_counted(begun, s.start, s.liquidity, net);
        law_price_after_token_b_is_counted(begun, s.liquidity, net);
        if let Ok(price) = s.price_after(net) {
            let given = s.after_output(moved, price);
            lemma_amounts_are_counted(s, moved, price);
            lemma_amounts_are_counted(s, given, price);
        }
    }
}

/// What a step puts in and gives on a way adds, and that it adds nothing else.
proof fn lemma_amounts_are_counted(s: StepSpec, work: Work, to: u128)
    requires
        work.has_paths(),
        s.start > 0,
        to > 0,
    ensures
        ({
            let input = s.after_input(work, to);
            let output = s.after_output(work, to);
            let a = if s.a_to_b {
                input
            } else {
                output
            };
            let b = if s.a_to_b {
                output
            } else {
                input
            };
            &&& input.has_paths() && output.has_paths()
            &&& other_divisions(input) == other_divisions(work)
            &&& other_divisions(output) == other_divisions(work)
            &&& input == with_arithmetic_of(work, input)
            &&& output == with_arithmetic_of(work, output)
            &&& a.amount_delta_a_calls == work.amount_delta_a_calls + 1
            &&& a.amount_delta_b_calls == work.amount_delta_b_calls
            &&& a.next_sqrt_from_a_calls == work.next_sqrt_from_a_calls
            &&& a.next_sqrt_from_b_calls == work.next_sqrt_from_b_calls
            &&& a.u128_divs == work.u128_divs
            &&& b.amount_delta_a_calls == work.amount_delta_a_calls
            &&& b.amount_delta_b_calls == work.amount_delta_b_calls + 1
            &&& b.next_sqrt_from_a_calls == work.next_sqrt_from_a_calls
            &&& b.next_sqrt_from_b_calls == work.next_sqrt_from_b_calls
            &&& b.u128_divs == work.u128_divs
            &&& a.u256_div_case2_frames - work.u256_div_case2_frames == a.u256_div_u128
                - work.u256_div_u128
            &&& a.u256_div_normalized_remainder - work.u256_div_normalized_remainder == if s.a_to_b {
                a.u256_div_normalized - work.u256_div_normalized
            } else {
                0
            }
            &&& b.u256_divs == work.u256_divs
            &&& b == (Work {
                amount_delta_b_calls: b.amount_delta_b_calls,
                u256_muls: b.u256_muls,
                u256_mul_word_products: b.u256_mul_word_products,
                ..work
            })
            &&& b.u256_mul_word_products == work.u256_mul_word_products + products_of_b(s, to)
            &&& !amount_laws::is_too_wide(s.start, to, s.liquidity) ==> a.u256_mul_word_products
                == work.u256_mul_word_products + products_of_a(s, to)
            &&& b.u256_muls == work.u256_muls + 1
            &&& !amount_laws::is_too_wide(s.start, to, s.liquidity) ==> a.u256_divs
                == work.u256_divs + 1
            &&& !amount_laws::is_too_wide(s.start, to, s.liquidity) ==> a.u256_muls
                == work.u256_muls + 2
            &&& amount_laws::is_too_wide(s.start, to, s.liquidity) && s.a_to_b ==> s.input_to(to)
                is Err
            &&& amount_laws::is_too_wide(s.start, to, s.liquidity) && !s.a_to_b ==> s.output_to(to)
                is Err
        }),
{
    law_amount_of_token_a_is_counted(work, s.start, to, s.liquidity, s.a_to_b);
    law_amount_of_token_b_is_counted(work, s.start, to, s.liquidity);
    amount_laws::law_amount_of_token_a(s.start, to, s.liquidity, s.a_to_b);
}

} // verus!
