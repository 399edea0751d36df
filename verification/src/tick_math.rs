//! Tick indexes and sqrt prices.
//!
//! The sqrt price of tick `t` is `sqrt(1.0001)^t` as a Q64.64 number, computed by a ladder over the
//! bits of `|t|`: bit 0 selects the seed, and each further set bit is one multiply-and-shift by the
//! factor of that bit. The way back estimates the logarithm of the price to 14 fractional bits and
//! breaks a tie between the two ticks that the estimate leaves with one more ladder.

use crate::bits;
use crate::bits::leading_zeros_u128;
use crate::counters;
use crate::counters::{Recorder, Work};
use crate::growth;
use crate::u256::mul_wide;
use vstd::arithmetic::div_mod::*;
use vstd::arithmetic::power2::*;
use vstd::bits::*;
use vstd::prelude::*;

verus! {

/// The smallest tick index.
pub const MIN_TICK_INDEX: i32 = -443636;

/// The largest tick index.
pub const MAX_TICK_INDEX: i32 = 443636;

/// The sqrt price of the smallest tick.
pub const MIN_SQRT_PRICE: u128 = 4295048016;

/// The sqrt price of the largest tick.
pub const MAX_SQRT_PRICE: u128 = 79226673515401279992447579055;

/// Iterations of the log2 approximation.
pub const BIT_PRECISION: u32 = 14;

/// `log_b(2)` for `b = sqrt(1.0001)`, as a Q32 number.
pub const LOG_B_2_X32: i128 = 59543866431248;

/// How much the logarithm may be over-estimated: 0.01 ticks, as a Q64 number.
pub const LOG_B_P_ERR_MARGIN_LOWER_X64: i128 = 184467440737095516;

/// How much the logarithm may be under-estimated: `2^-14 / log_2(b) + 0.01` ticks, as a Q64 number.
pub const LOG_B_P_ERR_MARGIN_UPPER_X64: i128 = 15793534762490258745;

/// Bit `k` of `t` is set.
pub open spec fn has_bit(t: u32, k: u32) -> bool {
    (t >> k) & 1 == 1
}

/// `sqrt(1.0001)^(2^k)` as a Q32.96 number.
pub open spec fn positive_factor(k: nat) -> nat {
    if k == 0 {
        79232123823359799118286999567
    } else if k == 1 {
        79236085330515764027303304731
    } else if k == 2 {
        79244008939048815603706035061
    } else if k == 3 {
        79259858533276714757314932305
    } else if k == 4 {
        79291567232598584799939703904
    } else if k == 5 {
        79355022692464371645785046466
    } else if k == 6 {
        79482085999252804386437311141
    } else if k == 7 {
        79736823300114093921829183326
    } else if k == 8 {
        80248749790819932309965073892
    } else if k == 9 {
        81282483887344747381513967011
    } else if k == 10 {
        83390072131320151908154831281
    } else if k == 11 {
        87770609709833776024991924138
    } else if k == 12 {
        97234110755111693312479820773
    } else if k == 13 {
        119332217159966728226237229890
    } else if k == 14 {
        179736315981702064433883588727
    } else if k == 15 {
        407748233172238350107850275304
    } else if k == 16 {
        2098478828474011932436660412517
    } else if k == 17 {
        55581415166113811149459800483533
    } else {
        38992368544603139932233054999993551
    }
}

/// `sqrt(1.0001)^-(2^k)` as a Q64.64 number.
pub open spec fn negative_factor(k: nat) -> nat {
    if k == 0 {
        18445821805675392311
    } else if k == 1 {
        18444899583751176498
    } else if k == 2 {
        18443055278223354162
    } else if k == 3 {
        18439367220385604838
    } else if k == 4 {
        18431993317065449817
    } else if k == 5 {
        18417254355718160513
    } else if k == 6 {
        18387811781193591352
    } else if k == 7 {
        18329067761203520168
    } else if k == 8 {
        18212142134806087854
    } else if k == 9 {
        17980523815641551639
    } else if k == 10 {
        17526086738831147013
    } else if k == 11 {
        16651378430235024244
    } else if k == 12 {
        15030750278693429944
    } else if k == 13 {
        12247334978882834399
    } else if k == 14 {
        8131365268884726200
    } else if k == 15 {
        3584323654723342297
    } else if k == 16 {
        696457651847595233
    } else if k == 17 {
        26294789957452057
    } else {
        37481735321082
    }
}

/// The positive ladder up to bit `k`, a Q32.96 number.
pub open spec fn positive_ratio(t: u32, k: nat) -> nat
    decreases k,
{
    if k == 0 {
        if has_bit(t, 0) {
            positive_factor(0)
        } else {
            79228162514264337593543950336
        }
    } else if has_bit(t, k as u32) {
        positive_ratio(t, (k - 1) as nat) * positive_factor(k) / 79228162514264337593543950336
    } else {
        positive_ratio(t, (k - 1) as nat)
    }
}

/// The negative ladder up to bit `k`, a Q64.64 number.
pub open spec fn negative_ratio(t: u32, k: nat) -> nat
    decreases k,
{
    if k == 0 {
        if has_bit(t, 0) {
            negative_factor(0)
        } else {
            18446744073709551616
        }
    } else if has_bit(t, k as u32) {
        negative_ratio(t, (k - 1) as nat) * negative_factor(k) / 18446744073709551616
    } else {
        negative_ratio(t, (k - 1) as nat)
    }
}

/// The sqrt price of a tick as a Q64.64 number.
pub open spec fn sqrt_price_at(tick: int) -> nat {
    if tick >= 0 {
        positive_ratio(tick as u32, 18) / 4294967296
    } else {
        negative_ratio((-tick) as u32, 18)
    }
}

/// The multiply-and-shift operations of a ladder up to bit `k`: one for each set bit above the
/// seed bit.
pub open spec fn ladder_ops(t: u32, k: nat) -> nat
    decreases k,
{
    if k == 0 {
        0
    } else {
        ladder_ops(t, (k - 1) as nat) + if has_bit(t, k as u32) {
            1nat
        } else {
            0
        }
    }
}

/// The counts after the ladder of a tick.
#[verifier::opaque]
pub open spec fn after_ladder(work: Work, tick: int) -> Work {
    if tick >= 0 {
        Work {
            ladder_pos_calls: work.ladder_pos_calls + 1,
            ladder_pos_ops: work.ladder_pos_ops + ladder_ops(tick as u32, 18),
            ..work
        }
    } else {
        Work {
            ladder_neg_calls: work.ladder_neg_calls + 1,
            ladder_neg_ops: work.ladder_neg_ops + ladder_ops((-tick) as u32, 18),
            ..work
        }
    }
}

/// A tick index that has a sqrt price.
pub open spec fn tick_in_range(tick: int) -> bool {
    MIN_TICK_INDEX <= tick <= MAX_TICK_INDEX
}

/// The positive ladder with every bit up to `k` set.
spec fn positive_ones(k: nat) -> nat
    decreases k,
{
    if k == 0 {
        positive_factor(0)
    } else {
        positive_ones((k - 1) as nat) * positive_factor(k) / 79228162514264337593543950336
    }
}

/// The negative ladder with every bit up to `k` set.
spec fn negative_ones(k: nat) -> nat
    decreases k,
{
    if k == 0 {
        negative_factor(0)
    } else {
        negative_ones((k - 1) as nat) * negative_factor(k) / 18446744073709551616
    }
}

/// All bits below a factor's bit together weigh no more than the factor.
proof fn lemma_positive_ones(k: nat)
    requires
        k < 18,
    ensures
        positive_ones(k) <= positive_factor(k + 1),
{
    assert(positive_ones(0) == 79232123823359799118286999567);
    assert(positive_ones(1) == 79240047035742135098198828266);
    assert(positive_ones(2) == 79255895837549753882639819013);
    assert(positive_ones(3) == 79287602951555555546117890668);
    assert(positive_ones(4) == 79351055238886287249021387662);
    assert(positive_ones(5) == 79478112192985828264683945743);
    assert(positive_ones(6) == 79732836757937260015387211174);
    assert(positive_ones(7) == 80244737654238127488718973602);
    assert(positive_ones(8) == 81278420067934296167840804769);
    assert(positive_ones(9) == 83385902940400299275461041535);
    assert(positive_ones(10) == 87766221508460644832294642638);
    assert(positive_ones(11) == 97229249414171470058378025113);
    assert(positive_ones(12) == 119326250996567256184535330018);
    assert(positive_ones(13) == 179727329839858001577522965083);
    assert(positive_ones(14) == 407727847289508202411734771016);
    assert(positive_ones(15) == 2098373912401228121358801911315);
    assert(positive_ones(16) == 55578636303768444659257259827406);
    assert(positive_ones(17) == 38990419072385107768429658011568861);
}

proof fn lemma_negative_ones(k: nat)
    requires
        k < 18,
    ensures
        negative_ones(k) >= negative_factor(k + 1),
{
    assert(negative_ones(0) == 18445821805675392311);
    assert(negative_ones(1) == 18443977407934598850);
    assert(negative_ones(2) == 18440289165698567478);
    assert(negative_ones(3) == 18432914893692463368);
    assert(negative_ones(4) == 18418175195415529478);
    assert(negative_ones(5) == 18388731148799035466);
    assert(negative_ones(6) == 18329984191681391131);
    assert(negative_ones(7) == 18213052719148788671);
    assert(negative_ones(8) == 17981422819357802651);
    assert(negative_ones(9) == 17526963021261575450);
    assert(negative_ones(10) == 16652210978343353594);
    assert(negative_ones(11) == 15031501797419866121);
    assert(negative_ones(12) == 12247947330323375219);
    assert(negative_ones(13) == 8131771826984472022);
    assert(negative_ones(14) == 3584502866425897898);
    assert(negative_ones(15) == 696492473859659073);
    assert(negative_ones(16) == 26296104664083085);
    assert(negative_ones(17) == 37483609360998);
}

/// The ladders at the ends of the tick range.
proof fn lemma_ladder_ends()
    ensures
        positive_ratio(443636, 18) == 340275971719517849884101479037289023427,
        negative_ratio(443636, 18) == 4295048016,
{
    assert(!has_bit(443636u32, 0u32) && !has_bit(443636u32, 1u32) && has_bit(443636u32, 2u32)
        && !has_bit(443636u32, 3u32) && has_bit(443636u32, 4u32) && has_bit(443636u32, 5u32)
        && has_bit(443636u32, 6u32) && has_bit(443636u32, 7u32) && !has_bit(443636u32, 8u32)
        && !has_bit(443636u32, 9u32) && has_bit(443636u32, 10u32) && !has_bit(443636u32, 11u32)
        && !has_bit(443636u32, 12u32) && !has_bit(443636u32, 13u32) && has_bit(443636u32, 14u32)
        && has_bit(443636u32, 15u32) && !has_bit(443636u32, 16u32) && has_bit(443636u32, 17u32)
        && has_bit(443636u32, 18u32)) by (bit_vector);
    assert(positive_ratio(443636, 0) == 79228162514264337593543950336);
    assert(positive_ratio(443636, 1) == 79228162514264337593543950336);
    assert(positive_ratio(443636, 2) == 79244008939048815603706035061);
    assert(positive_ratio(443636, 3) == 79244008939048815603706035061);
    assert(positive_ratio(443636, 4) == 79307426338960776842885539843);
    assert(positive_ratio(443636, 5) == 79434413434441317004961661155);
    assert(positive_ratio(443636, 6) == 79688997946402660867703038957);
    assert(positive_ratio(443636, 7) == 80200617388689977366536547152);
    assert(positive_ratio(443636, 8) == 80200617388689977366536547152);
    assert(positive_ratio(443636, 9) == 80200617388689977366536547152);
    assert(positive_ratio(443636, 10) == 84413610726049114366347414816);
    assert(positive_ratio(443636, 11) == 84413610726049114366347414816);
    assert(positive_ratio(443636, 12) == 84413610726049114366347414816);
    assert(positive_ratio(443636, 13) == 84413610726049114366347414816);
    assert(positive_ratio(443636, 14) == 191499978405809145203445059952);
    assert(positive_ratio(443636, 15) == 985555834813563612221638545219);
    assert(positive_ratio(443636, 16) == 985555834813563612221638545219);
    assert(positive_ratio(443636, 17) == 691402984567465602855604295835822);
    assert(positive_ratio(443636, 18) == 340275971719517849884101479037289023427);
    assert(negative_ratio(443636, 0) == 18446744073709551616);
    assert(negative_ratio(443636, 1) == 18446744073709551616);
    assert(negative_ratio(443636, 2) == 18443055278223354162);
    assert(negative_ratio(443636, 3) == 18443055278223354162);
    assert(negative_ratio(443636, 4) == 18428307471288117479);
    assert(negative_ratio(443636, 5) == 18398847226801858501);
    assert(negative_ratio(443636, 6) == 18340067951587015306);
    assert(negative_ratio(443636, 7) == 18223072152272561885);
    assert(negative_ratio(443636, 8) == 18223072152272561885);
    assert(negative_ratio(443636, 9) == 18223072152272561885);
    assert(negative_ratio(443636, 10) == 17313578044587773368);
    assert(negative_ratio(443636, 11) == 17313578044587773368);
    assert(negative_ratio(443636, 12) == 17313578044587773368);
    assert(negative_ratio(443636, 13) == 17313578044587773368);
    assert(negative_ratio(443636, 14) == 7631863196526440527);
    assert(negative_ratio(443636, 15) == 1482921196045045371);
    assert(negative_ratio(443636, 16) == 1482921196045045371);
    assert(negative_ratio(443636, 17) == 2113820261052536);
    assert(negative_ratio(443636, 18) == 4295048016);
}

/// Adding one to `t` clears the bits below its lowest clear bit `m`, sets bit `m`, and leaves the
/// bits above.
proof fn lemma_successor_bits(t: u32, m: u32, k: u32)
    requires
        m < 31,
        k < 31,
        t < 0x8000_0000,
        !has_bit(t, m),
        forall|i: u32| i < m ==> has_bit(t, i),
    ensures
        has_bit((t + 1) as u32, m),
        k < m ==> !has_bit((t + 1) as u32, k),
        k > m ==> has_bit((t + 1) as u32, k) == has_bit(t, k),
{
    lemma_low_ones(t, m);
    let n: u32 = (t + 1) as u32;
    let ones: u32 = ((1u32 << m) - 1) as u32;
    assert(1u32 << m >= 1) by (bit_vector)
        requires
            m < 31,
    ;
    assert(has_bit(n, m)) by (bit_vector)
        requires
            m < 31,
            t < 0x8000_0000,
            n == t + 1,
            (t >> m) & 1 != 1,
            ones == (1u32 << m) - 1,
            t & ones == ones,
    ;
    assert(k < m ==> !has_bit(n, k)) by (bit_vector)
        requires
            m < 31,
            t < 0x8000_0000,
            n == t + 1,
            (t >> m) & 1 != 1,
            ones == (1u32 << m) - 1,
            t & ones == ones,
    ;
    assert(k > m && k < 31 ==> has_bit(n, k) == has_bit(t, k)) by (bit_vector)
        requires
            m < 31,
            t < 0x8000_0000,
            n == t + 1,
            (t >> m) & 1 != 1,
            ones == (1u32 << m) - 1,
            t & ones == ones,
    ;
}

/// The low `m` bits of `t` are set together when each of them is.
proof fn lemma_low_ones(t: u32, m: u32)
    requires
        m < 31,
        forall|i: u32| i < m ==> has_bit(t, i),
    ensures
        t & (((1u32 << m) - 1) as u32) == (1u32 << m) - 1,
    decreases m,
{
    if m == 0 {
        assert(t & (((1u32 << 0u32) - 1) as u32) == (1u32 << 0u32) - 1) by (bit_vector);
    } else {
        let j: u32 = (m - 1) as u32;
        lemma_low_ones(t, j);
        assert(has_bit(t, j));
        assert(t & (((1u32 << m) - 1) as u32) == (1u32 << m) - 1) by (bit_vector)
            requires
                1 <= m < 31,
                j == m - 1,
                (t >> j) & 1 == 1,
                t & (((1u32 << j) - 1) as u32) == (1u32 << j) - 1,
        ;
    }
}

/// The lowest clear bit of a number of at most 19 bits that is not all ones.
proof fn lemma_lowest_clear_bit(t: u32) -> (m: u32)
    requires
        t < 0x7_ffff,
    ensures
        m <= 18,
        !has_bit(t, m),
        forall|i: u32| i < m ==> has_bit(t, i),
{
    lemma_lowest_clear_bit_from(t, 0)
}

proof fn lemma_lowest_clear_bit_from(t: u32, j: u32) -> (m: u32)
    requires
        t < 0x7_ffff,
        j <= 19,
        forall|i: u32| i < j ==> has_bit(t, i),
    ensures
        m <= 18,
        !has_bit(t, m),
        forall|i: u32| i < m ==> has_bit(t, i),
    decreases 19 - j,
{
    if j == 19 {
        lemma_low_ones(t, 19);
        assert(false) by (bit_vector)
            requires
                t < 0x7_ffff,
                t & (((1u32 << 19u32) - 1) as u32) == (1u32 << 19u32) - 1,
        ;
        0
    } else if has_bit(t, j) {
        lemma_lowest_clear_bit_from(t, (j + 1) as u32)
    } else {
        j
    }
}

/// The positive ladder of low bits that are all set, and of low bits that are all clear.
proof fn lemma_positive_low_bits(t: u32, k: nat)
    requires
        k <= 18,
    ensures
        (forall|i: u32| i <= k ==> has_bit(t, i)) ==> positive_ratio(t, k) == positive_ones(k),
        (forall|i: u32| i <= k ==> !has_bit(t, i)) ==> positive_ratio(t, k) == 79228162514264337593543950336,
    decreases k,
{
    if k > 0 {
        lemma_positive_low_bits(t, (k - 1) as nat);
    }
}

/// The positive ladder does not fall from one number to the next.
proof fn lemma_positive_step(t: u32, k: nat)
    requires
        t < 0x7_ffff,
        k <= 18,
    ensures
        ({
            let m = lowest_clear_bit(t);
            k >= m ==> positive_ratio(t, k) <= positive_ratio((t + 1) as u32, k)
        }),
    decreases k,
{
    lemma_has_lowest_clear_bit(t);
    let m = lowest_clear_bit(t);
    let n: u32 = (t + 1) as u32;
    if k == m {
        lemma_successor_bits(t, m, 0);
        if m > 0 {
            let j = (m - 1) as nat;
            assert forall|i: u32| i <= j implies !has_bit(n, i) by {
                lemma_successor_bits(t, m, i);
            }
            lemma_positive_low_bits(t, j);
            lemma_positive_low_bits(n, j);
            lemma_positive_ones(j);
            assert(79228162514264337593543950336 * positive_factor(k) / 79228162514264337593543950336 == positive_factor(k));
        }
    } else if k > m {
        let j = (k - 1) as nat;
        lemma_positive_step(t, j);
        lemma_successor_bits(t, m, k as u32);
        if has_bit(t, k as u32) {
            let f = positive_factor(k) as int;
            let (x, y) = (positive_ratio(t, j) as int, positive_ratio(n, j) as int);
            assert(x * f <= y * f) by (nonlinear_arith)
                requires
                    x <= y,
                    f >= 0,
            ;
            lemma_div_is_ordered(x * f, y * f, 79228162514264337593543950336);
        }
    }
}

/// The negative ladder of low bits that are all set, and of low bits that are all clear.
proof fn lemma_negative_low_bits(t: u32, k: nat)
    requires
        k <= 18,
    ensures
        (forall|i: u32| i <= k ==> has_bit(t, i)) ==> negative_ratio(t, k) == negative_ones(k),
        (forall|i: u32| i <= k ==> !has_bit(t, i)) ==> negative_ratio(t, k) == 18446744073709551616,
    decreases k,
{
    if k > 0 {
        lemma_negative_low_bits(t, (k - 1) as nat);
    }
}

/// The negative ladder does not rise from one number to the next.
proof fn lemma_negative_step(t: u32, k: nat)
    requires
        t < 0x7_ffff,
        k <= 18,
    ensures
        ({
            let m = lowest_clear_bit(t);
            k >= m ==> negative_ratio(t, k) >= negative_ratio((t + 1) as u32, k)
        }),
    decreases k,
{
    lemma_has_lowest_clear_bit(t);
    let m = lowest_clear_bit(t);
    let n: u32 = (t + 1) as u32;
    if k == m {
        lemma_successor_bits(t, m, 0);
        if m > 0 {
            let j = (m - 1) as nat;
            assert forall|i: u32| i <= j implies !has_bit(n, i) by {
                lemma_successor_bits(t, m, i);
            }
            lemma_negative_low_bits(t, j);
            lemma_negative_low_bits(n, j);
            lemma_negative_ones(j);
            assert(18446744073709551616 * negative_factor(k) / 18446744073709551616 == negative_factor(k));
        }
    } else if k > m {
        let j = (k - 1) as nat;
        lemma_negative_step(t, j);
        lemma_successor_bits(t, m, k as u32);
        if has_bit(t, k as u32) {
            let f = negative_factor(k) as int;
            let (x, y) = (negative_ratio(t, j) as int, negative_ratio(n, j) as int);
            assert(x * f >= y * f) by (nonlinear_arith)
                requires
                    x >= y,
                    f >= 0,
            ;
            lemma_div_is_ordered(y * f, x * f, 18446744073709551616);
        }
    }
}

/// The lowest clear bit of a number.
spec fn lowest_clear_bit(t: u32) -> u32 {
    choose|m: u32|
        m <= 18 && !#[trigger] has_bit(t, m) && forall|i: u32| i < m ==> has_bit(t, i)
}

proof fn lemma_has_lowest_clear_bit(t: u32)
    requires
        t < 0x7_ffff,
    ensures
        lowest_clear_bit(t) <= 18,
        !has_bit(t, lowest_clear_bit(t)),
        forall|i: u32| i < lowest_clear_bit(t) ==> has_bit(t, i),
{
    let m = lemma_lowest_clear_bit(t);
    assert(m <= 18 && !has_bit(t, m) && forall|i: u32| i < m ==> has_bit(t, i));
}

/// The ladders are monotone in the tick.
proof fn lemma_ratios_ordered(s: u32, t: u32)
    requires
        s <= t <= 443636,
    ensures
        positive_ratio(s, 18) <= positive_ratio(t, 18),
        negative_ratio(s, 18) >= negative_ratio(t, 18),
    decreases t - s,
{
    if s < t {
        lemma_ratios_ordered(s, (t - 1) as u32);
        lemma_has_lowest_clear_bit((t - 1) as u32);
        lemma_positive_step((t - 1) as u32, 18);
        lemma_negative_step((t - 1) as u32, 18);
    }
}

/// A higher tick has no lower sqrt price.
pub proof fn law_sqrt_price_is_monotone(a: int, b: int)
    requires
        tick_in_range(a),
        tick_in_range(b),
        a <= b,
    ensures
        sqrt_price_at(a) <= sqrt_price_at(b),
{
    assert(!has_bit(0, 0) && !has_bit(0, 1) && !has_bit(0, 2) && !has_bit(0, 3) && !has_bit(0, 4)
        && !has_bit(0, 5) && !has_bit(0, 6) && !has_bit(0, 7) && !has_bit(0, 8) && !has_bit(0, 9)
        && !has_bit(0, 10) && !has_bit(0, 11) && !has_bit(0, 12) && !has_bit(0, 13) && !has_bit(
        0,
        14,
    ) && !has_bit(0, 15) && !has_bit(0, 16) && !has_bit(0, 17) && !has_bit(0, 18)) by (bit_vector);
    reveal_with_fuel(positive_ratio, 19);
    reveal_with_fuel(negative_ratio, 19);
    if a >= 0 {
        lemma_ratios_ordered(a as u32, b as u32);
        lemma_div_is_ordered(
            positive_ratio(a as u32, 18) as int,
            positive_ratio(b as u32, 18) as int,
            4294967296,
        );
    } else if b < 0 {
        lemma_ratios_ordered((-b) as u32, (-a) as u32);
    } else {
        lemma_ratios_ordered(0, (-a) as u32);
        lemma_ratios_ordered(0, b as u32);
        lemma_div_is_ordered(79228162514264337593543950336, positive_ratio(b as u32, 18) as int, 4294967296);
    }
}

/// The sqrt prices of the ends of the tick range are the ends of the price range, and every tick's
/// sqrt price is between them.
pub proof fn law_sqrt_price_range(tick: int)
    requires
        tick_in_range(tick),
    ensures
        sqrt_price_at(MIN_TICK_INDEX as int) == MIN_SQRT_PRICE,
        sqrt_price_at(MAX_TICK_INDEX as int) == MAX_SQRT_PRICE,
        MIN_SQRT_PRICE <= sqrt_price_at(tick) <= MAX_SQRT_PRICE,
{
    lemma_ladder_ends();
    law_sqrt_price_is_monotone(MIN_TICK_INDEX as int, tick);
    law_sqrt_price_is_monotone(tick, MAX_TICK_INDEX as int);
}

/// The factor of bit `k` of the positive ladder.
fn positive_factor_of(k: u32) -> (r: u128)
    ensures
        r == positive_factor(k as nat),
{
    match k {
        0 => 79232123823359799118286999567,
        1 => 79236085330515764027303304731,
        2 => 79244008939048815603706035061,
        3 => 79259858533276714757314932305,
        4 => 79291567232598584799939703904,
        5 => 79355022692464371645785046466,
        6 => 79482085999252804386437311141,
        7 => 79736823300114093921829183326,
        8 => 80248749790819932309965073892,
        9 => 81282483887344747381513967011,
        10 => 83390072131320151908154831281,
        11 => 87770609709833776024991924138,
        12 => 97234110755111693312479820773,
        13 => 119332217159966728226237229890,
        14 => 179736315981702064433883588727,
        15 => 407748233172238350107850275304,
        16 => 2098478828474011932436660412517,
        17 => 55581415166113811149459800483533,
        _ => 38992368544603139932233054999993551,
    }
}

/// The factor of bit `k` of the negative ladder.
fn negative_factor_of(k: u32) -> (r: u128)
    ensures
        r == negative_factor(k as nat),
        r < 18446744073709551616,
{
    match k {
        0 => 18445821805675392311,
        1 => 18444899583751176498,
        2 => 18443055278223354162,
        3 => 18439367220385604838,
        4 => 18431993317065449817,
        5 => 18417254355718160513,
        6 => 18387811781193591352,
        7 => 18329067761203520168,
        8 => 18212142134806087854,
        9 => 17980523815641551639,
        10 => 17526086738831147013,
        11 => 16651378430235024244,
        12 => 15030750278693429944,
        13 => 12247334978882834399,
        14 => 8131365268884726200,
        15 => 3584323654723342297,
        16 => 696457651847595233,
        17 => 26294789957452057,
        _ => 37481735321082,
    }
}

/// The product of two Q32.96 numbers.
fn mul_shift_96(n0: u128, n1: u128) -> (r: u128)
    requires
        n0 * n1 / 79228162514264337593543950336 < 0x1_0000_0000_0000_0000_0000_0000_0000_0000,
    ensures
        r == n0 * n1 / 79228162514264337593543950336,
{
    let product = mul_wide(n0, n1);
    let high: u128 = product.high;
    let low: u128 = product.low;
    proof {
        bits::lemma_word_powers();
        lemma_u128_shr_is_div(low, 96);
        assert(high < 79228162514264337593543950336);
        assert((high << 32) | (low >> 96) == high * 0x1_0000_0000 + (low >> 96)) by (bit_vector)
            requires
                high < 79228162514264337593543950336u128,
        ;
    }
    (high << 32) | (low >> 96)
}

/// The positive ladder only rises on its way up the bits.
proof fn lemma_positive_ratio_rises(t: u32, k: nat)
    requires
        k <= 18,
    ensures
        positive_ratio(t, k) <= positive_ratio(t, 18),
    decreases 18 - k,
{
    if k < 18 {
        lemma_positive_ratio_rises(t, k + 1);
        let x = positive_ratio(t, k) as int;
        let f = positive_factor(k + 1) as int;
        crate::arith::lemma_floor_at_least(x * f, 79228162514264337593543950336, x);
        assert(79228162514264337593543950336 * x <= x * f) by (nonlinear_arith)
            requires
                x >= 0,
                f >= 79228162514264337593543950336,
        ;
    }
}

/// The positive ladder fits in 128 bits within the tick range.
proof fn lemma_positive_ratio_fits(t: u32, k: nat)
    requires
        t <= 443636,
        k <= 18,
    ensures
        positive_ratio(t, k) < 0x1_0000_0000_0000_0000_0000_0000_0000_0000,
{
    lemma_positive_ratio_rises(t, k);
    lemma_ratios_ordered(t, 443636);
    lemma_ladder_ends();
}

/// The negative ladder never exceeds one.
proof fn lemma_negative_ratio_fits(t: u32, k: nat)
    requires
        k <= 18,
    ensures
        negative_ratio(t, k) <= 18446744073709551616,
    decreases k,
{
    if k > 0 {
        lemma_negative_ratio_fits(t, (k - 1) as nat);
        let x = negative_ratio(t, (k - 1) as nat) as int;
        let f = negative_factor(k) as int;
        assert(x * f <= 18446744073709551616 * 18446744073709551616) by (nonlinear_arith)
            requires
                0 <= x <= 18446744073709551616,
                0 <= f <= 18446744073709551616,
        ;
        lemma_div_is_ordered(
            x * f,
            18446744073709551616int * 18446744073709551616int,
            18446744073709551616,
        );
    }
}

/// Whether bit `k` is set.
fn bit_is_set(t: u32, k: u32) -> (r: bool)
    requires
        k < 32,
    ensures
        r == has_bit(t, k),
{
    (t >> k) & 1 == 1
}

/// The sqrt price of a tick that is not negative, and the multiplications that it took.
fn positive_ladder(tick: u32) -> (r: (u128, u32))
    requires
        tick <= 443636,
    ensures
        r.0 == positive_ratio(tick, 18) / 4294967296,
        r.1 == ladder_ops(tick, 18),
        r.1 <= 18,
{
    let mut ratio: u128 = if bit_is_set(tick, 0) {
        positive_factor_of(0)
    } else {
        79228162514264337593543950336
    };
    let mut ops: u32 = 0;
    let mut k: u32 = 0;
    while k < 18
        invariant
            k <= 18,
            tick <= 443636,
            ratio == positive_ratio(tick, k as nat),
            ops == ladder_ops(tick, k as nat),
            ops <= k,
        decreases 18 - k,
    {
        k = k + 1;
        if bit_is_set(tick, k) {
            proof {
                lemma_positive_ratio_fits(tick, k as nat);
            }
            ratio = mul_shift_96(ratio, positive_factor_of(k));
            ops = ops + 1;
        }
    }
    proof {
        bits::lemma_word_powers();
        lemma_u128_shr_is_div(ratio, 32);
    }
    (ratio >> 32, ops)
}

/// The sqrt price of the tick `-tick`, and the multiplications that it took.
fn negative_ladder(tick: u32) -> (r: (u128, u32))
    ensures
        r.0 == negative_ratio(tick, 18),
        r.1 == ladder_ops(tick, 18),
        r.1 <= 18,
{
    let mut ratio: u128 = if bit_is_set(tick, 0) {
        negative_factor_of(0)
    } else {
        18446744073709551616
    };
    let mut ops: u32 = 0;
    let mut k: u32 = 0;
    while k < 18
        invariant
            k <= 18,
            ratio == negative_ratio(tick, k as nat),
            ops == ladder_ops(tick, k as nat),
            ops <= k,
        decreases 18 - k,
    {
        proof {
            lemma_negative_ratio_fits(tick, k as nat);
        }
        k = k + 1;
        if bit_is_set(tick, k) {
            let factor: u128 = negative_factor_of(k);
            proof {
                bits::lemma_word_powers();
                assert(0 <= ratio * factor < 18446744073709551616 * 18446744073709551616)
                    by (nonlinear_arith)
                    requires
                        0 <= ratio <= 18446744073709551616,
                        0 <= factor < 18446744073709551616,
                ;
                lemma_u128_shr_is_div((ratio * factor) as u128, 64);
            }
            ratio = (ratio * factor) >> 64;
            ops = ops + 1;
        }
    }
    (ratio, ops)
}

/// The sqrt price of a tick.
pub fn tick_index_to_sqrt_price(tick_index: i32, recorder: &mut Recorder) -> (price: u128)
    requires
        tick_in_range(tick_index as int),
        old(recorder).can_hold(after_ladder(old(recorder).counters@, tick_index as int)),
    ensures
        price == sqrt_price_at(tick_index as int),
        MIN_SQRT_PRICE <= price <= MAX_SQRT_PRICE,
        old(recorder).becomes(
            *final(recorder),
            after_ladder(old(recorder).counters@, tick_index as int),
        ),
{
    proof {
        reveal(Work::within);
        reveal(after_ladder);
        law_sqrt_price_range(tick_index as int);
    }
    let ghost before = recorder.counters@;
    let price: u128;
    if tick_index >= 0 {
        let (ratio, ops) = positive_ladder(tick_index as u32);
        if recorder.on {
            recorder.counters.ladder_pos_calls += 1;
            recorder.counters.ladder_pos_ops += ops;
        }
        price = ratio;
    } else {
        let (ratio, ops) = negative_ladder((-tick_index) as u32);
        if recorder.on {
            recorder.counters.ladder_neg_calls += 1;
            recorder.counters.ladder_neg_ops += ops;
        }
        price = ratio;
    }
    proof {
        if recorder.on {
            assert(recorder.counters@ =~= after_ladder(before, tick_index as int));
        }
    }
    price
}

/// The ladder steps that are left after bit `k` are the set bits above it.
proof fn lemma_ladder_ops_left(t: u32, k: nat)
    requires
        t < 524288,
        k <= 18,
    ensures
        ladder_ops(t, 18) == ladder_ops(t, k) + bits::set_bits(t as nat / pow2(k + 1)),
    decreases 18 - k,
{
    lemma2_to64();
    if k == 18 {
        assert(t as nat / pow2(19) == 0);
    } else {
        lemma_ladder_ops_left(t, k + 1);
        let x = t as nat / pow2(k + 1);
        let shift = (k + 1) as u32;
        lemma_u32_shr_is_div(t, shift);
        let shifted = t >> shift;
        assert(shifted & 1 == shifted % 2) by (bit_vector);
        lemma_pow2_unfold(k + 2);
        lemma_pow2_pos(k + 1);
        lemma_div_denominator(t as int, pow2(k + 1) as int, 2);
        assert(pow2(k + 1) * 2 == pow2(k + 2));
        assert(x / 2 == t as nat / pow2(k + 2));
    }
}

/// The ladder multiplies once for each set bit of the tick's magnitude above its lowest bit, which
/// only selects the seed.
pub proof fn law_ladder_ops_are_set_bits(tick: int)
    requires
        tick_in_range(tick),
    ensures
        tick >= 0 ==> ladder_ops(tick as u32, 18) == bits::set_bits(tick as nat / 2),
        tick < 0 ==> ladder_ops((-tick) as u32, 18) == bits::set_bits((-tick) as nat / 2),
{
    lemma2_to64();
    if tick >= 0 {
        lemma_ladder_ops_left(tick as u32, 0);
    } else {
        lemma_ladder_ops_left((-tick) as u32, 0);
    }
}

/// The position of the highest set bit of a sqrt price.
pub open spec fn price_msb(p: nat) -> int {
    bits::bit_len(p) - 1
}

/// A sqrt price scaled to exactly 64 bits.
pub open spec fn scaled_to_64_bits(p: nat) -> nat {
    if price_msb(p) >= 64 {
        p / pow2((price_msb(p) - 63) as nat)
    } else {
        p * pow2((63 - price_msb(p)) as nat)
    }
}

/// The next fraction bit of the logarithm of a number of 64 bits: whether its square takes all of
/// 128 bits.
pub open spec fn log2_bit(r: nat) -> nat {
    if r * r >= 0x8000_0000_0000_0000_0000_0000_0000_0000 {
        1
    } else {
        0
    }
}

/// The number of 64 bits from which the fraction bit after that one is found.
pub open spec fn log2_next(r: nat) -> nat {
    if log2_bit(r) == 1 {
        r * r / 0x1_0000_0000_0000_0000
    } else {
        r * r / 0x8000_0000_0000_0000
    }
}

/// The first `n` fraction bits of the base-2 logarithm of a number of 64 bits.
pub open spec fn log2_fraction(r: nat, n: nat) -> nat
    decreases n,
{
    if n == 0 {
        0
    } else {
        log2_bit(r) * pow2((n - 1) as nat) + log2_fraction(log2_next(r), (n - 1) as nat)
    }
}

/// How many of the first `n` fraction bits are clear.
pub open spec fn log2_clear_bits(r: nat, n: nat) -> nat
    decreases n,
{
    if n == 0 {
        0
    } else {
        (1 - log2_bit(r)) as nat + log2_clear_bits(log2_next(r), (n - 1) as nat)
    }
}

/// The base-2 logarithm of a Q64.64 sqrt price, to 14 fraction bits.
pub open spec fn log2_x14(p: nat) -> int {
    (price_msb(p) - 64) * 16384 + log2_fraction(scaled_to_64_bits(p), 14)
}

/// The logarithm of a sqrt price in ticks, as a Q64 number.
pub open spec fn log_b_x64(p: nat) -> int {
    log2_x14(p) * 262144 * LOG_B_2_X32
}

/// The lowest tick that a sqrt price may belong to.
pub open spec fn tick_low_of(p: nat) -> int {
    (log_b_x64(p) - LOG_B_P_ERR_MARGIN_LOWER_X64) / 0x1_0000_0000_0000_0000
}

/// The highest tick that a sqrt price may belong to.
pub open spec fn tick_high_of(p: nat) -> int {
    (log_b_x64(p) + LOG_B_P_ERR_MARGIN_UPPER_X64) / 0x1_0000_0000_0000_0000
}

/// The tick of a sqrt price: of the two ticks that the estimate leaves, the higher one where its
/// sqrt price is reached.
pub open spec fn tick_of(p: nat) -> int {
    if tick_low_of(p) == tick_high_of(p) || sqrt_price_at(tick_high_of(p)) > p {
        tick_low_of(p)
    } else {
        tick_high_of(p)
    }
}

/// The counts once the tick of a sqrt price has been estimated.
pub open spec fn after_estimate(work: Work, p: nat) -> Work {
    Work {
        sqrt_to_tick_calls: work.sqrt_to_tick_calls + 1,
        sqrt_to_tick_log2_iters: work.sqrt_to_tick_log2_iters + 14,
        sqrt_to_tick_log2_clear_bits: work.sqrt_to_tick_log2_clear_bits + log2_clear_bits(
            scaled_to_64_bits(p),
            14,
        ),
        sqrt_to_tick_shift_left: work.sqrt_to_tick_shift_left + if price_msb(p) < 63 {
            1nat
        } else {
            0
        },
        sqrt_to_tick_shift_right: work.sqrt_to_tick_shift_right + if price_msb(p) > 63 {
            1nat
        } else {
            0
        },
        sqrt_to_tick_narrow: work.sqrt_to_tick_narrow + if p < 0x1_0000_0000_0000_0000 {
            1nat
        } else {
            0
        },
        ..work
    }
}

/// The counts once the estimate of a tick is to be refined.
pub open spec fn after_refine(work: Work, p: nat) -> Work {
    let estimated = after_estimate(work, p);
    Work {
        sqrt_to_tick_refines: estimated.sqrt_to_tick_refines + 1,
        sqrt_to_tick_refines_neg: estimated.sqrt_to_tick_refines_neg + if tick_high_of(p) < 0 {
            1nat
        } else {
            0
        },
        ..estimated
    }
}

/// The counts after the tick of a sqrt price has been found.
#[verifier::opaque]
pub open spec fn after_sqrt_to_tick(work: Work, p: nat) -> Work {
    if tick_low_of(p) == tick_high_of(p) {
        after_estimate(work, p)
    } else {
        after_ladder(after_refine(work, p), tick_high_of(p))
    }
}

/// The bits of a sqrt price within the price range.
proof fn lemma_price_msb(p: nat)
    requires
        MIN_SQRT_PRICE <= p <= MAX_SQRT_PRICE,
    ensures
        32 <= price_msb(p) <= 95,
        0x8000_0000_0000_0000 <= scaled_to_64_bits(p) < 0x1_0000_0000_0000_0000,
        price_msb(p) < 64 ==> p < 0x1_0000_0000_0000_0000,
        price_msb(p) >= 64 ==> p >= 0x1_0000_0000_0000_0000,
{
    bits::lemma_word_powers();
    bits::lemma_bit_len_lower(p, 32);
    bits::lemma_bit_len_upper(p, 96);
    bits::lemma_bit_len(p);
    let b = bits::bit_len(p);
    if b >= 65 {
        bits::lemma_pow2_monotone(64, (b - 1) as nat);
        bits::lemma_bit_len_shr(p, (b - 64) as nat);
        bits::lemma_bit_len(p / pow2((b - 64) as nat));
    } else {
        bits::lemma_pow2_monotone(b, 64);
        let s = (64 - b) as nat;
        lemma_pow2_adds(b, s);
        lemma_pow2_adds((b - 1) as nat, s);
        lemma_pow2_pos(s);
        assert(pow2((b - 1) as nat) * pow2(s) <= p * pow2(s)) by (nonlinear_arith)
            requires
                pow2((b - 1) as nat) <= p,
        ;
        assert(p * pow2(s) < pow2(b) * pow2(s)) by (nonlinear_arith)
            requires
                p < pow2(b),
                pow2(s) > 0,
        ;
    }
}

/// Finding a fraction bit leaves a number of 64 bits.
proof fn lemma_log2_next(r: nat)
    requires
        0x8000_0000_0000_0000 <= r < 0x1_0000_0000_0000_0000,
    ensures
        0x8000_0000_0000_0000 <= log2_next(r) < 0x1_0000_0000_0000_0000,
        r * r < 0x1_0000_0000_0000_0000_0000_0000_0000_0000,
{
    assert(0x8000_0000_0000_0000 * 0x8000_0000_0000_0000 <= r * r < 0x1_0000_0000_0000_0000
        * 0x1_0000_0000_0000_0000) by (nonlinear_arith)
        requires
            0x8000_0000_0000_0000 <= r < 0x1_0000_0000_0000_0000,
    ;
}

/// The first `n` fraction bits are a number below `2^n`, and at most `n` of them are clear.
proof fn lemma_log2_fraction_bound(r: nat, n: nat)
    ensures
        log2_fraction(r, n) < pow2(n),
        log2_clear_bits(r, n) <= n,
    decreases n,
{
    lemma2_to64();
    if n > 0 {
        lemma_log2_fraction_bound(log2_next(r), (n - 1) as nat);
        lemma_pow2_unfold(n);
        assert(log2_bit(r) * pow2((n - 1) as nat) <= pow2((n - 1) as nat)) by (nonlinear_arith)
            requires
                log2_bit(r) <= 1,
        ;
    }
}

/// The ticks that the estimate leaves are in the tick range, but for the lower one, which may be
/// one below it, and they are at most one apart.
pub proof fn lemma_tick_estimates(p: nat)
    requires
        MIN_SQRT_PRICE <= p <= MAX_SQRT_PRICE,
    ensures
        tick_in_range(tick_high_of(p)),
        MIN_TICK_INDEX - 1 <= tick_low_of(p) <= tick_high_of(p) <= tick_low_of(p) + 1,
        -524288 <= log2_x14(p) < 524288,
{
    lemma_price_msb(p);
    lemma_log2_fraction_bound(scaled_to_64_bits(p), 14);
    lemma2_to64();
}

/// The fraction bits of the logarithm of a number of 64 bits, and how many of them are clear.
fn log2_fraction_of(start: u128) -> (r: (u128, u32))
    requires
        0x8000_0000_0000_0000 <= start < 0x1_0000_0000_0000_0000,
    ensures
        r.0 == log2_fraction(start as nat, 14),
        r.0 < 16384,
        r.1 == log2_clear_bits(start as nat, 14),
        r.1 <= 14,
{
    let mut r: u128 = start;
    let mut fraction: u128 = 0;
    let mut clear: u32 = 0;
    let mut left: u32 = BIT_PRECISION;
    let mut bit: u128 = 8192;
    proof {
        lemma2_to64();
        assert(fraction * pow2(14) == 0) by (nonlinear_arith)
            requires
                fraction == 0,
        ;
    }
    while left > 0
        invariant
            left <= 14,
            0x8000_0000_0000_0000 <= r < 0x1_0000_0000_0000_0000,
            left > 0 ==> bit == pow2((left - 1) as nat),
            bit <= 8192,
            log2_fraction(start as nat, 14) == fraction + log2_fraction(r as nat, left as nat),
            log2_clear_bits(start as nat, 14) == clear + log2_clear_bits(r as nat, left as nat),
            fraction <= (14 - left) * 8192,
            clear <= 14 - left,
        decreases left,
    {
        proof {
            bits::lemma_word_powers();
            lemma_log2_next(r as nat);
            if left > 1 {
                lemma_pow2_unfold((left - 1) as nat);
            }
            lemma2_to64();
        }
        let square: u128 = r * r;
        let ghost before = r as nat;
        if square >= 0x8000_0000_0000_0000_0000_0000_0000_0000 {
            fraction = fraction + bit;
            proof {
                lemma_u128_shr_is_div(square, 64);
            }
            r = square >> 64;
        } else {
            clear = clear + 1;
            proof {
                lemma_u128_shr_is_div(square, 63);
            }
            r = square >> 63;
        }
        proof {
            assert(r == log2_next(before));
            assert(log2_bit(before) * pow2((left - 1) as nat) == (if log2_bit(before) == 1 {
                bit as int
            } else {
                0
            })) by (nonlinear_arith)
                requires
                    bit == pow2((left - 1) as nat),
                    log2_bit(before) == 0 || log2_bit(before) == 1,
            ;
        }
        bit = bit / 2;
        left = left - 1;
    }
    proof {
        lemma_log2_fraction_bound(start as nat, 14);
        lemma2_to64();
    }
    (fraction, clear)
}

/// `floor(x / 2^64)`.
fn floor_shr_64(x: i128) -> (r: i128)
    requires
        -0x1_0000_0000_0000_0000_0000_0000 <= x <= 0x1_0000_0000_0000_0000_0000_0000,
    ensures
        r == x / 0x1_0000_0000_0000_0000,
{
    if x >= 0 {
        x / 0x1_0000_0000_0000_0000
    } else {
        let up: i128 = (-x + 0xffff_ffff_ffff_ffff) / 0x1_0000_0000_0000_0000;
        -up
    }
}

/// The tick of a sqrt price.
pub fn sqrt_price_to_tick_index(sqrt_price: u128, recorder: &mut Recorder) -> (tick: i32)
    requires
        MIN_SQRT_PRICE <= sqrt_price <= MAX_SQRT_PRICE,
        old(recorder).can_hold(
            after_sqrt_to_tick(old(recorder).counters@, sqrt_price as nat),
        ),
    ensures
        tick == tick_of(sqrt_price as nat),
        MIN_TICK_INDEX - 1 <= tick <= MAX_TICK_INDEX,
        old(recorder).becomes(
            *final(recorder),
            after_sqrt_to_tick(old(recorder).counters@, sqrt_price as nat),
        ),
{
    let ghost before = recorder.counters@;
    let ghost p = sqrt_price as nat;
    proof {
        reveal(after_sqrt_to_tick);
        let after = after_sqrt_to_tick(before, p);
        growth::lemma_sqrt_to_tick_grows(before, p);
        counters::lemma_holds_before(*recorder, after_estimate(before, p), after, 32);
        if tick_low_of(p) != tick_high_of(p) {
            counters::lemma_holds_before(*recorder, after_refine(before, p), after, 18);
        }
        reveal(Work::within);
        lemma_price_msb(p);
        lemma_tick_estimates(p);
        bits::lemma_word_powers();
    }
    let msb: u32 = 127 - leading_zeros_u128(sqrt_price);
    let r: u128 = if msb >= 64 {
        proof {
            lemma_u128_shr_is_div(sqrt_price, (msb - 63) as u128);
        }
        sqrt_price >> (msb - 63)
    } else {
        proof {
            bits::lemma_u128_shl_is_mul(sqrt_price, (63 - msb) as u32);
        }
        sqrt_price << (63 - msb)
    };
    let (fraction, clear) = log2_fraction_of(r);
    let log2p_x14: i128 = (msb as i128 - 64) * 16384 + fraction as i128;
    let log2p_x32: i128 = log2p_x14 * 262144;
    let logbp_x64: i128 = log2p_x32 * LOG_B_2_X32;
    let tick_low: i32 = floor_shr_64(logbp_x64 - LOG_B_P_ERR_MARGIN_LOWER_X64) as i32;
    let tick_high: i32 = floor_shr_64(logbp_x64 + LOG_B_P_ERR_MARGIN_UPPER_X64) as i32;
    if recorder.on {
        recorder.counters.sqrt_to_tick_calls += 1;
        recorder.counters.sqrt_to_tick_log2_iters += BIT_PRECISION;
        recorder.counters.sqrt_to_tick_log2_clear_bits += clear;
        if msb < 63 {
            recorder.counters.sqrt_to_tick_shift_left += 1;
        }
        if msb > 63 {
            recorder.counters.sqrt_to_tick_shift_right += 1;
        }
        if msb < 64 {
            recorder.counters.sqrt_to_tick_narrow += 1;
        }
    }
    if tick_low == tick_high {
        proof {
            if recorder.on {
                assert(recorder.counters@ =~= after_sqrt_to_tick(before, p));
            }
        }
        return tick_low;
    }
    if recorder.on {
        recorder.counters.sqrt_to_tick_refines += 1;
        if tick_high < 0 {
            recorder.counters.sqrt_to_tick_refines_neg += 1;
        }
    }
    let ghost refined = recorder.counters@;
    assert(recorder.on ==> refined =~= after_refine(before, p));
    let actual_tick_high_sqrt_price: u128 = tick_index_to_sqrt_price(tick_high, recorder);
    proof {
        if recorder.on {
            assert(after_ladder(refined, tick_high as int) =~= after_sqrt_to_tick(before, p));
        }
    }
    if actual_tick_high_sqrt_price <= sqrt_price {
        tick_high
    } else {
        tick_low
    }
}

} // verus!
