//! Which tick a sqrt price is given, and what is counted of ticks and their sqrt prices.

use crate::bits;
use crate::count_laws;
use crate::counters::Work;
use crate::fee_rate_manager;
use crate::fee_rate_manager::{AdaptiveFeeRate, FeeRateManager};
use crate::tick_math;
use crate::tick_math::{MAX_SQRT_PRICE, MIN_SQRT_PRICE};
use vstd::arithmetic::power2::*;
use vstd::prelude::*;

verus! {

/// The magnitude of a tick.
pub open spec fn magnitude(tick: int) -> nat {
    (if tick < 0 {
        -tick
    } else {
        tick
    }) as nat
}

/// Doubling a number keeps its set bits and adds a bit, and the odd number after it has one set bit
/// more.
pub proof fn law_bits_by_halves(x: nat)
    ensures
        bits::set_bits(0) == 0,
        bits::set_bits(2 * x) == bits::set_bits(x),
        bits::set_bits(2 * x + 1) == bits::set_bits(x) + 1,
        bits::bit_len(0) == 0,
        x > 0 ==> bits::bit_len(2 * x) == bits::bit_len(x) + 1,
        bits::bit_len(2 * x + 1) == bits::bit_len(x) + 1,
{
    assert((2 * x) / 2 == x && (2 * x) % 2 == 0);
    assert((2 * x + 1) / 2 == x && (2 * x + 1) % 2 == 1);
    reveal_with_fuel(bits::set_bits, 2);
    reveal_with_fuel(bits::bit_len, 2);
}

/// A ladder is counted once on the side of its tick, with a multiplication for each set bit of the
/// tick's magnitude but the lowest bit, and nothing else is.
pub proof fn law_ladder_is_counted(work: Work, tick: int)
    requires
        -443_636 <= tick <= 443_636,
    ensures
        ({
            let ops = bits::set_bits(magnitude(tick) / 2);
            tick_math::after_ladder(work, tick) == if tick >= 0 {
                (Work {
                    ladder_pos_calls: work.ladder_pos_calls + 1,
                    ladder_pos_ops: work.ladder_pos_ops + ops,
                    ..work
                })
            } else {
                (Work {
                    ladder_neg_calls: work.ladder_neg_calls + 1,
                    ladder_neg_ops: work.ladder_neg_ops + ops,
                    ..work
                })
            }
        }),
{
    reveal(tick_math::after_ladder);
    tick_math::law_ladder_ops_are_set_bits(tick);
}

/// The fraction bits of a logarithm are set or clear.
proof fn lemma_clear_bits(r: nat, n: nat)
    ensures
        tick_math::log2_fraction(r, n) < pow2(n),
        tick_math::log2_clear_bits(r, n) + bits::set_bits(tick_math::log2_fraction(r, n)) == n,
    decreases n,
{
    lemma2_to64();
    if n > 0 {
        let m = (n - 1) as nat;
        let rest = tick_math::log2_fraction(tick_math::log2_next(r), m);
        lemma_clear_bits(tick_math::log2_next(r), m);
        lemma_pow2_unfold(n);
        assert(1 * pow2(m) == pow2(m) && 0 * pow2(m) == 0) by (nonlinear_arith);
        if tick_math::log2_bit(r) == 1 {
            lemma_set_bits_above(rest, m);
        }
    }
}

/// A bit above all others is one more set bit.
proof fn lemma_set_bits_above(x: nat, n: nat)
    requires
        x < pow2(n),
    ensures
        bits::set_bits(pow2(n) + x) == bits::set_bits(x) + 1,
    decreases n,
{
    lemma2_to64();
    if n == 0 {
        reveal_with_fuel(bits::set_bits, 2);
    } else {
        lemma_pow2_unfold(n);
        let h = pow2((n - 1) as nat);
        assert((pow2(n) + x) / 2 == h + x / 2 && (pow2(n) + x) % 2 == x % 2);
        lemma_set_bits_above(x / 2, (n - 1) as nat);
        lemma_pow2_pos(n);
        if x == 0 {
            assert(bits::set_bits(x / 2) == 0);
        }
    }
}

/// Finding the tick of a sqrt price is counted once, with its fourteen squarings and those of them that
/// set no bit of the logarithm, the shift that scales the sqrt price to 64 bits, and whether it has no
/// more. Where two ticks are left, the ladder of the higher one decides, and is counted too.
pub proof fn law_sqrt_to_tick_is_counted(work: Work, p: nat)
    requires
        MIN_SQRT_PRICE <= p <= MAX_SQRT_PRICE,
    ensures
        ({
            let after = tick_math::after_sqrt_to_tick(work, p);
            let high = tick_math::tick_high_of(p);
            let refined = tick_math::tick_low_of(p) != high;
            let fraction = tick_math::log2_fraction(tick_math::scaled_to_64_bits(p), 14);
            let ops = bits::set_bits(magnitude(high) / 2);
            &&& after.sqrt_to_tick_calls - work.sqrt_to_tick_calls == 1
            &&& after.sqrt_to_tick_log2_iters - work.sqrt_to_tick_log2_iters == 14
            &&& after.sqrt_to_tick_log2_clear_bits - work.sqrt_to_tick_log2_clear_bits == 14
                - bits::set_bits(fraction)
            &&& after.sqrt_to_tick_shift_left - work.sqrt_to_tick_shift_left == count_laws::one_if(
                p < 0x8000_0000_0000_0000,
            )
            &&& after.sqrt_to_tick_shift_right - work.sqrt_to_tick_shift_right
                == count_laws::one_if(p >= 0x1_0000_0000_0000_0000)
            &&& after.sqrt_to_tick_narrow - work.sqrt_to_tick_narrow == count_laws::one_if(
                p < 0x1_0000_0000_0000_0000,
            )
            &&& after.sqrt_to_tick_refines - work.sqrt_to_tick_refines == count_laws::one_if(
                refined,
            )
            &&& after.sqrt_to_tick_refines_neg - work.sqrt_to_tick_refines_neg
                == count_laws::one_if(refined && high < 0)
            &&& after.ladder_pos_calls - work.ladder_pos_calls == count_laws::one_if(
                refined && high >= 0,
            )
            &&& after.ladder_neg_calls - work.ladder_neg_calls == count_laws::one_if(
                refined && high < 0,
            )
            &&& after.ladder_pos_ops - work.ladder_pos_ops == if refined && high >= 0 {
                ops as int
            } else {
                0
            }
            &&& after.ladder_neg_ops - work.ladder_neg_ops == if refined && high < 0 {
                ops as int
            } else {
                0
            }
            &&& after == with_ticks_of(work, after)
        }),
{
    reveal(tick_math::after_sqrt_to_tick);
    tick_math::lemma_tick_estimates(p);
    lemma_clear_bits(tick_math::scaled_to_64_bits(p), 14);
    bits::lemma_word_powers();
    bits::lemma_bit_len(p);
    if p < 0x8000_0000_0000_0000 {
        bits::lemma_bit_len_upper(p, 63);
    } else {
        bits::lemma_bit_len_lower(p, 63);
    }
    if p < 0x1_0000_0000_0000_0000 {
        bits::lemma_bit_len_upper(p, 64);
    } else {
        bits::lemma_bit_len_lower(p, 64);
    }
    if tick_math::tick_low_of(p) != tick_math::tick_high_of(p) {
        law_ladder_is_counted(tick_math::after_refine(work, p), tick_math::tick_high_of(p));
    }
}

/// Counts with the ticks and the ladders of others.
pub open spec fn with_ticks_of(work: Work, other: Work) -> Work {
    Work {
        sqrt_to_tick_calls: other.sqrt_to_tick_calls,
        sqrt_to_tick_log2_iters: other.sqrt_to_tick_log2_iters,
        sqrt_to_tick_log2_clear_bits: other.sqrt_to_tick_log2_clear_bits,
        sqrt_to_tick_shift_left: other.sqrt_to_tick_shift_left,
        sqrt_to_tick_shift_right: other.sqrt_to_tick_shift_right,
        sqrt_to_tick_narrow: other.sqrt_to_tick_narrow,
        sqrt_to_tick_refines: other.sqrt_to_tick_refines,
        sqrt_to_tick_refines_neg: other.sqrt_to_tick_refines_neg,
        ladder_pos_calls: other.ladder_pos_calls,
        ladder_pos_ops: other.ladder_pos_ops,
        ladder_neg_calls: other.ladder_neg_calls,
        ladder_neg_ops: other.ladder_neg_ops,
        ..work
    }
}

/// The tick of a sqrt price is one of the two that the estimate leaves: its logarithm to the base of a
/// tick, less how much that may be too high, and more how much it may be too low. Where these differ, it
/// is the higher one exactly where the sqrt price of that has been reached.
pub proof fn law_tick_is_decided_by_its_price(p: nat)
    requires
        MIN_SQRT_PRICE <= p <= MAX_SQRT_PRICE,
    ensures
        ({
            let low = tick_math::tick_low_of(p);
            let high = tick_math::tick_high_of(p);
            let tick = tick_math::tick_of(p);
            let ticks_x64 = tick_math::log2_x14(p) * 262144 * 59543866431248;
            let one = 0x1_0000_0000_0000_0000int;
            &&& low * one <= ticks_x64 - 184467440737095516 < (low + 1) * one
            &&& high * one <= ticks_x64 + 15793534762490258745 < (high + 1) * one
            &&& tick == low || tick == high
            &&& low <= high <= low + 1
            &&& low != high ==> (tick == high <==> tick_math::sqrt_price_at(high) <= p)
        }),
{
    tick_math::lemma_tick_estimates(p);
}

/// The estimated logarithm is made of the bits of the sqrt price: its integer part is the position of
/// the highest of them against `2^64`, and each fraction bit says whether the square takes a bit more.
pub proof fn law_logarithm_follows_the_squares(p: nat, r: nat, n: nat)
    requires
        p > 0,
        n > 0,
    ensures
        ({
            let part = tick_math::log2_fraction(tick_math::scaled_to_64_bits(p), 14);
            let floor = tick_math::log2_x14(p) - part;
            &&& exists|k: nat|
                floor == (k - 64) * 16384 && #[trigger] pow2(k) <= p < pow2(k + 1)
        }),
        ({
            let grows = r * r >= 0x8000_0000_0000_0000 * 0x1_0000_0000_0000_0000;
            tick_math::log2_fraction(r, n) == if grows {
                pow2((n - 1) as nat) + tick_math::log2_fraction(
                    (r * r) / 0x1_0000_0000_0000_0000nat,
                    (n - 1) as nat,
                )
            } else {
                tick_math::log2_fraction((r * r) / 0x8000_0000_0000_0000nat, (n - 1) as nat)
            }
        }),
{
    bits::lemma_bit_len(p);
    let k = (bits::bit_len(p) - 1) as nat;
    assert(pow2(k) <= p < pow2(k + 1));
    assert(1 * pow2((n - 1) as nat) == pow2((n - 1) as nat) && 0 * pow2((n - 1) as nat) == 0)
        by (nonlinear_arith);
}

/// Two divisions of a tick by the size of a tick group are counted, by the bits of the quotient of its
/// magnitude and by the set ones among them, and nothing else is.
pub proof fn law_tick_divs_are_counted(work: Work, tick: int, size: int)
    requires
        size > 0,
    ensures
        ({
            let quotient = (magnitude(tick) as int / size) as nat;
            fee_rate_manager::after_tick_divs(work, tick, size) == (Work {
                skip_tick_div_qbits: work.skip_tick_div_qbits + 2 * bits::bit_len(quotient),
                skip_tick_div_setbits: work.skip_tick_div_setbits + 2 * bits::set_bits(quotient),
                ..work
            })
        }),
{
}

/// The calls of ladders.
pub open spec fn ladders(work: Work) -> nat {
    work.ladder_pos_calls + work.ladder_neg_calls
}

/// A tick index, or the end of the tick range that it is beyond.
pub open spec fn nearest_tick(tick: int) -> int {
    if tick < -443_636 {
        -443_636
    } else if tick > 443_636 {
        443_636
    } else {
        tick
    }
}

/// What is counted of the bounds of a fee. A swap starts with a ladder for each bound of the core range;
/// a step then finds the end of its tick group with a ladder, where the fee may change. A fixed fee has
/// none.
pub proof fn law_fee_bounds_are_counted(manager: FeeRateManager, work: Work, liquidity: u128)
    ensures
        ({
            let started = manager.after_starting(work);
            let bounded = manager.after_bounded(work, liquidity);
            let bounds = match manager {
                FeeRateManager::Static { .. } => 0int,
                FeeRateManager::Adaptive(adaptive) => count_laws::one_if(
                    adaptive.core_lower_bound is Some,
                ) + count_laws::one_if(adaptive.core_upper_bound is Some),
            };
            let may_change = manager is Adaptive && !manager.skips(liquidity);
            &&& ladders(started) - ladders(work) == bounds
            &&& ladders(bounded) - ladders(work) == count_laws::one_if(may_change)
            &&& started == with_ticks_of(work, started)
            &&& bounded == with_ticks_of(work, bounded)
            &&& started.sqrt_to_tick_calls == work.sqrt_to_tick_calls
            &&& bounded.sqrt_to_tick_calls == work.sqrt_to_tick_calls
        }),
        manager matches FeeRateManager::Adaptive(adaptive) ==> {
            let size = adaptive.constants.tick_group_size as int;
            let g = adaptive.tick_group_index as int;
            let end = if adaptive.a_to_b {
                g * size
            } else {
                (g + 1) * size
            };
            let low = match adaptive.core_lower_bound {
                Some((group, _)) => tick_math::after_ladder(work, nearest_tick(group * size)),
                None => work,
            };
            &&& adaptive.skips(liquidity) || manager.after_bounded(work, liquidity)
                == tick_math::after_ladder(work, nearest_tick(end))
            &&& manager.after_starting(work) == match adaptive.core_upper_bound {
                Some((group, _)) => tick_math::after_ladder(low, nearest_tick((group + 1) * size)),
                None => low,
            }
        },
{
    reveal(FeeRateManager::after_starting);
    reveal(FeeRateManager::after_bounded);
    reveal(tick_math::after_ladder);
}

/// What is counted of a skip: the tick of the sqrt price where that is not the end of the leg, a ladder
/// where that tick starts a tick group, and the two divisions of the tick.
pub proof fn law_skip_is_counted(
    adaptive: AdaptiveFeeRate,
    work: Work,
    price: u128,
    next_price: u128,
    next_index: i32,
)
    requires
        adaptive.constants.tick_group_size > 0,
        MIN_SQRT_PRICE <= price <= MAX_SQRT_PRICE,
    ensures
        ({
            let size = adaptive.constants.tick_group_size as int;
            let after = FeeRateManager::Adaptive(adaptive).after_skip(
                work,
                price,
                next_price,
                next_index,
            );
            let found = price != next_price;
            let tick = if found {
                tick_math::tick_of(price as nat)
            } else {
                next_index as int
            };
            let quotient = (magnitude(tick) as int / size) as nat;
            let starts = found && tick % size == 0 && -443_636 <= tick <= 443_636;
            let refines = after.sqrt_to_tick_refines - work.sqrt_to_tick_refines;
            &&& after.sqrt_to_tick_calls - work.sqrt_to_tick_calls == count_laws::one_if(found)
            &&& ladders(after) - ladders(work) == refines + count_laws::one_if(starts)
            &&& after.skip_tick_div_qbits - work.skip_tick_div_qbits == 2 * bits::bit_len(quotient)
            &&& after.skip_tick_div_setbits - work.skip_tick_div_setbits == 2 * bits::set_bits(
                quotient,
            )
            &&& after == with_ticks_of(
                (Work {
                    skip_tick_div_qbits: after.skip_tick_div_qbits,
                    skip_tick_div_setbits: after.skip_tick_div_setbits,
                    ..work
                }),
                after,
            )
            &&& !found ==> after == (Work {
                skip_tick_div_qbits: after.skip_tick_div_qbits,
                skip_tick_div_setbits: after.skip_tick_div_setbits,
                ..work
            })
        }),
{
    reveal(FeeRateManager::after_skip);
    law_sqrt_to_tick_is_counted(work, price as nat);
    let found = tick_math::after_sqrt_to_tick(work, price as nat);
    let tick = tick_math::tick_of(price as nat);
    if -443_636 <= tick <= 443_636 {
        law_ladder_is_counted(found, tick);
    }
}

/// Two factors of a bit, and those of the next one, are a power of `sqrt(1.0001)` and of its reciprocal,
/// rounded down: the first squares to `1.0001`, the next one is the square of the one before it, and the
/// two of a bit multiply to one.
pub open spec fn are_factors(k: int, f: int, g: int, f2: int, g2: int) -> bool {
    let q96 = 0x1_0000_0000_0000_0000_0000_0000int;
    let q64 = 0x1_0000_0000_0000_0000int;
    &&& k == 0 ==> f * f * 10_000 <= q96 * q96 * 10_001 < (f + 1) * (f + 1) * 10_000
    &&& k == 0 ==> g * g * 10_001 <= q64 * q64 * 10_000 < (g + 1) * (g + 1) * 10_001
    &&& k < 18 ==> f * f < (f2 + 1) * q96 && f2 * q96 < (f + 1) * (f + 1)
    &&& k < 18 ==> g * g < (g2 + 1) * q64 && g2 * q64 < (g + 1) * (g + 1)
    &&& f * g <= q96 * q64 < (f + 1) * (g + 1)
}

/// The factors of a ladder are such powers.
pub proof fn law_factors_are_powers(k: nat)
    requires
        k <= 18,
    ensures
        are_factors(
            k as int,
            tick_math::positive_factor(k) as int,
            tick_math::negative_factor(k) as int,
            tick_math::positive_factor(k + 1) as int,
            tick_math::negative_factor(k + 1) as int,
        ),
{
    if k == 0 {
        assert(are_factors(0, 79232123823359799118286999567int, 18445821805675392311int, 79236085330515764027303304731int, 18444899583751176498int))
            by (nonlinear_arith);
    } else if k == 1 {
        assert(are_factors(1, 79236085330515764027303304731int, 18444899583751176498int, 79244008939048815603706035061int, 18443055278223354162int))
            by (nonlinear_arith);
    } else if k == 2 {
        assert(are_factors(2, 79244008939048815603706035061int, 18443055278223354162int, 79259858533276714757314932305int, 18439367220385604838int))
            by (nonlinear_arith);
    } else if k == 3 {
        assert(are_factors(3, 79259858533276714757314932305int, 18439367220385604838int, 79291567232598584799939703904int, 18431993317065449817int))
            by (nonlinear_arith);
    } else if k == 4 {
        assert(are_factors(4, 79291567232598584799939703904int, 18431993317065449817int, 79355022692464371645785046466int, 18417254355718160513int))
            by (nonlinear_arith);
    } else if k == 5 {
        assert(are_factors(5, 79355022692464371645785046466int, 18417254355718160513int, 79482085999252804386437311141int, 18387811781193591352int))
            by (nonlinear_arith);
    } else if k == 6 {
        assert(are_factors(6, 79482085999252804386437311141int, 18387811781193591352int, 79736823300114093921829183326int, 18329067761203520168int))
            by (nonlinear_arith);
    } else if k == 7 {
        assert(are_factors(7, 79736823300114093921829183326int, 18329067761203520168int, 80248749790819932309965073892int, 18212142134806087854int))
            by (nonlinear_arith);
    } else if k == 8 {
        assert(are_factors(8, 80248749790819932309965073892int, 18212142134806087854int, 81282483887344747381513967011int, 17980523815641551639int))
            by (nonlinear_arith);
    } else if k == 9 {
        assert(are_factors(9, 81282483887344747381513967011int, 17980523815641551639int, 83390072131320151908154831281int, 17526086738831147013int))
            by (nonlinear_arith);
    } else if k == 10 {
        assert(are_factors(10, 83390072131320151908154831281int, 17526086738831147013int, 87770609709833776024991924138int, 16651378430235024244int))
            by (nonlinear_arith);
    } else if k == 11 {
        assert(are_factors(11, 87770609709833776024991924138int, 16651378430235024244int, 97234110755111693312479820773int, 15030750278693429944int))
            by (nonlinear_arith);
    } else if k == 12 {
        assert(are_factors(12, 97234110755111693312479820773int, 15030750278693429944int, 119332217159966728226237229890int, 12247334978882834399int))
            by (nonlinear_arith);
    } else if k == 13 {
        assert(are_factors(13, 119332217159966728226237229890int, 12247334978882834399int, 179736315981702064433883588727int, 8131365268884726200int))
            by (nonlinear_arith);
    } else if k == 14 {
        assert(are_factors(14, 179736315981702064433883588727int, 8131365268884726200int, 407748233172238350107850275304int, 3584323654723342297int))
            by (nonlinear_arith);
    } else if k == 15 {
        assert(are_factors(15, 407748233172238350107850275304int, 3584323654723342297int, 2098478828474011932436660412517int, 696457651847595233int))
            by (nonlinear_arith);
    } else if k == 16 {
        assert(are_factors(16, 2098478828474011932436660412517int, 696457651847595233int, 55581415166113811149459800483533int, 26294789957452057int))
            by (nonlinear_arith);
    } else if k == 17 {
        assert(are_factors(17, 55581415166113811149459800483533int, 26294789957452057int, 38992368544603139932233054999993551int, 37481735321082int))
            by (nonlinear_arith);
    } else if k == 18 {
        assert(are_factors(18, 38992368544603139932233054999993551int, 37481735321082int, 38992368544603139932233054999993551int, 37481735321082int))
            by (nonlinear_arith);
    }
}

/// Bits below a bit are as they were before it was set, and none is above it.
proof fn lemma_bit_set(t: u32, k: u32, j: u32)
    requires
        k <= 18,
        j <= 18,
        t < pow2(k as nat),
    ensures
        t + pow2(k as nat) <= u32::MAX,
        ({
            let u = (t + pow2(k as nat)) as u32;
            &&& j < k ==> tick_math::has_bit(u, j) == tick_math::has_bit(t, j)
            &&& j == k ==> tick_math::has_bit(u, j) && !tick_math::has_bit(t, j)
            &&& j > k ==> !tick_math::has_bit(u, j) && !tick_math::has_bit(t, j)
        }),
{
    let one = 1u32 << k;
    bits::lemma_pow2_monotone(k as nat, 18);
    lemma2_to64();
    vstd::bits::lemma_u32_shl_is_mul(1, k);
    assert(one == pow2(k as nat));
    let u = (t + pow2(k as nat)) as u32;
    assert((j < k ==> ((u >> j) & 1 == 1) == ((t >> j) & 1 == 1)) && (j == k ==> (u >> j) & 1 == 1
        && !((t >> j) & 1 == 1)) && (j > k ==> !((u >> j) & 1 == 1) && !((t >> j) & 1 == 1)))
        by (bit_vector)
        requires
            k <= 18,
            j <= 18,
            one == 1u32 << k,
            t < one,
            u == t + one,
    ;
}

/// The ladders of a tick with one bit more, up to a bit.
proof fn lemma_ladders_by_bits(t: u32, k: u32, n: nat)
    requires
        k <= 18,
        n <= 18,
        t < pow2(k as nat),
    ensures
        ({
            let u = (t + pow2(k as nat)) as u32;
            let f = tick_math::positive_factor(k as nat);
            let g = tick_math::negative_factor(k as nat);
            &&& tick_math::positive_ratio(u, n) == if n < k {
                tick_math::positive_ratio(t, n)
            } else {
                tick_math::positive_ratio(t, n) * f / 0x1_0000_0000_0000_0000_0000_0000nat
            }
            &&& tick_math::negative_ratio(u, n) == if n < k {
                tick_math::negative_ratio(t, n)
            } else {
                tick_math::negative_ratio(t, n) * g / 0x1_0000_0000_0000_0000nat
            }
        }),
    decreases n,
{
    lemma_bit_set(t, k, n as u32);
    if n > 0 {
        lemma_ladders_by_bits(t, k, (n - 1) as nat);
    }
}

/// A bit more in the magnitude of a tick multiplies its sqrt price by the factor of that bit: up for a
/// tick above zero, in units of `2^-96`, and down for one below. The sqrt price of tick zero is one.
pub proof fn law_ladder_multiplies_by_bits(t: u32, k: u32)
    requires
        k <= 18,
        t < pow2(k as nat),
    ensures
        ({
            let u = (t + pow2(k as nat)) as u32;
            let f = tick_math::positive_factor(k as nat);
            let g = tick_math::negative_factor(k as nat);
            &&& u == t + pow2(k as nat)
            &&& tick_math::sqrt_price_at(0) == 0x1_0000_0000_0000_0000
            &&& tick_math::sqrt_price_at(u as int) == tick_math::positive_ratio(u, 18)
                / 0x1_0000_0000nat
            &&& tick_math::positive_ratio(0, 18) == 0x1_0000_0000_0000_0000_0000_0000
            &&& tick_math::positive_ratio(u, 18) == tick_math::positive_ratio(t, 18) * f
                / 0x1_0000_0000_0000_0000_0000_0000nat
            &&& tick_math::sqrt_price_at(-u) == tick_math::sqrt_price_at(-t) * g
                / 0x1_0000_0000_0000_0000nat
        }),
{
    lemma_bit_set(t, k, 0);
    lemma_ladders_by_bits(t, k, 18);
    lemma_no_bits(18);
}

/// A ladder without set bits is one.
proof fn lemma_no_bits(n: nat)
    requires
        n <= 18,
    ensures
        tick_math::positive_ratio(0, n) == 0x1_0000_0000_0000_0000_0000_0000,
        tick_math::negative_ratio(0, n) == 0x1_0000_0000_0000_0000,
    decreases n,
{
    lemma2_to64();
    lemma_bit_set(0, 0, n as u32);
    if n > 0 {
        lemma_no_bits((n - 1) as nat);
    }
}

} // verus!
