//! What is counted of an operation, told by its operands.
//!
//! The counts of a division are those of the quotient steps that it makes, and the divisions of a fee
//! are those that the fee takes: each law says by how much a count grows, and that no other does.

use crate::bits;
use crate::counters::Work;
use crate::div_path;
use crate::div_path::UDIV_PATHS;
use crate::limbs;
use crate::long_div;
use crate::record;
use vstd::arithmetic::div_mod::*;
use vstd::arithmetic::power2::*;
use vstd::prelude::*;

verus! {

/// How many 64-bit limbs a number of at most 256 bits takes.
pub open spec fn limbs_in(x: nat) -> int {
    if x == 0 {
        0
    } else if x < 0x1_0000_0000_0000_0000 {
        1
    } else if x < 0x1_0000_0000_0000_0000_0000_0000_0000_0000 {
        2
    } else if x < 0x1_0000_0000_0000_0000_0000_0000_0000_0000_0000_0000_0000_0000int {
        3
    } else {
        4
    }
}

/// The first powers of the limb base.
proof fn lemma_limb_powers()
    ensures
        pow2(64) == 0x1_0000_0000_0000_0000,
        pow2(128) == 0x1_0000_0000_0000_0000_0000_0000_0000_0000,
        pow2(192) == 0x1_0000_0000_0000_0000_0000_0000_0000_0000_0000_0000_0000_0000int,
{
    bits::lemma_word_powers();
    lemma_pow2_adds(64, 128);
}

/// That is the number of limbs up to the highest one that is not zero.
proof fn lemma_limbs_in(x: nat)
    requires
        x < pow2(256),
    ensures
        limbs_in(x) == limbs::word_count(x),
        limbs_in(x) <= 4,
{
    lemma_limb_powers();
    bits::lemma_bit_len(x);
    if x > 0 {
        let n = if x < pow2(64) {
            1nat
        } else if x < pow2(128) {
            2
        } else if x < pow2(192) {
            3
        } else {
            4
        };
        bits::lemma_bit_len_upper(x, 64 * n);
        if n > 1 {
            bits::lemma_bit_len_lower(x, (64 * (n - 1)) as nat);
        }
    } else {
        bits::lemma_bit_len_upper(x, 0);
        lemma2_to64();
    }
}

/// Adding up two histograms adds up their totals.
proof fn lemma_totals_add(a: Seq<nat>, b: Seq<nat>, c: Seq<nat>)
    requires
        a.len() == b.len() == c.len(),
        forall|i: int| 0 <= i < a.len() ==> #[trigger] c[i] == a[i] + b[i],
    ensures
        long_div::path_total(c) == long_div::path_total(a) + long_div::path_total(b),
    decreases a.len(),
{
    if a.len() > 0 {
        assert forall|i: int| 0 <= i < a.len() - 1 implies #[trigger] c.drop_last()[i]
            == a.drop_last()[i] + b.drop_last()[i] by {
            assert(c[i] == a[i] + b[i]);
        }
        lemma_totals_add(a.drop_last(), b.drop_last(), c.drop_last());
        assert(c[c.len() - 1] == a[a.len() - 1] + b[b.len() - 1]);
    }
}

/// What a 256-bit division adds to the counts. It is counted once, in the one class that the limbs of
/// its operands select. The iterations of a loop are the quotient steps that the long division makes,
/// one `u128` division each; a division of two limbs is one, and one that is answered at once none.
/// Each iteration multiplies the whole divisor.
pub open spec fn division_is_counted(
    before: Work,
    after: Work,
    n: nat,
    d: nat,
    frame: bool,
    remainder: bool,
) -> bool {
    let nd = limbs_in(n);
    let dv = limbs_in(d);
    let trivial = n == 0 || nd < dv;
    let two = !trivial && nd <= 2;
    let short = !trivial && nd > 2 && dv == 1;
    let general = !trivial && nd > 2 && dv > 1;
    let shifted = general && 2 * d < limbs::weight(dv as nat);
    let iters = after.u256_div_knuth_iters - before.u256_div_knuth_iters
        + after.u256_div_short_iters - before.u256_div_short_iters;
    let divisions = long_div::path_total(after.udiv_paths) - long_div::path_total(
        before.udiv_paths,
    );
    &&& after.u256_divs - before.u256_divs == 1
    &&& after.u256_div_trivial - before.u256_div_trivial == one_if(trivial)
    &&& after.u256_div_u128 - before.u256_div_u128 == one_if(two)
    &&& after.u256_div_case2_frames - before.u256_div_case2_frames == one_if(two && frame)
    &&& after.u256_div_short_calls - before.u256_div_short_calls == one_if(short)
    &&& after.u256_div_short_iters - before.u256_div_short_iters == one_if(short) * nd
    &&& after.u256_div_knuth_calls - before.u256_div_knuth_calls == one_if(general)
    &&& after.u256_div_knuth_iters - before.u256_div_knuth_iters == one_if(general) * (nd - dv + 1)
    &&& short || general ==> iters == long_div::quotient_steps(n, d)
    &&& short || general ==> iters == divisions
    &&& divisions == if two {
        1
    } else {
        iters
    }
    &&& after.u256_div_mul_words - before.u256_div_mul_words == iters * dv
    &&& after.u256_div_normalized - before.u256_div_normalized == one_if(shifted)
    &&& after.u256_div_normalized_remainder - before.u256_div_normalized_remainder == one_if(
        shifted && remainder,
    )
    &&& after.u256_div_qhat_corrections - before.u256_div_qhat_corrections == if general {
        long_div::corrections_of(n, d)
    } else {
        0
    }
    &&& after.has_paths()
    &&& forall|p: int|
        0 <= p < UDIV_PATHS ==> (#[trigger] after.udiv_paths[p]) - before.udiv_paths[p] == if two {
            one_if(p == div_path::path_index(n, d))
        } else if short || general {
            long_div::paths_of(n, d)[p] as int
        } else {
            0
        }
}

/// Counts with the divisions of others.
pub open spec fn with_divisions_of(work: Work, other: Work) -> Work {
    Work {
        u256_divs: other.u256_divs,
        u256_div_trivial: other.u256_div_trivial,
        u256_div_u128: other.u256_div_u128,
        u256_div_case2_frames: other.u256_div_case2_frames,
        u256_div_short_calls: other.u256_div_short_calls,
        u256_div_short_iters: other.u256_div_short_iters,
        u256_div_knuth_calls: other.u256_div_knuth_calls,
        u256_div_knuth_iters: other.u256_div_knuth_iters,
        u256_div_mul_words: other.u256_div_mul_words,
        udiv_paths: other.udiv_paths,
        u256_div_normalized: other.u256_div_normalized,
        u256_div_normalized_remainder: other.u256_div_normalized_remainder,
        u256_div_qhat_corrections: other.u256_div_qhat_corrections,
        ..work
    }
}

/// A division is counted with what it adds, and nothing else is.
pub proof fn law_u256_div_is_counted(work: Work, n: nat, d: nat, frame: bool, remainder: bool)
    requires
        work.has_paths(),
        n < pow2(256),
        0 < d < pow2(256),
    ensures
        ({
            let after = record::after_u256_div(work, n, d, frame, remainder);
            &&& division_is_counted(work, after, n, d, frame, remainder)
            &&& after == with_divisions_of(work, after)
        }),
{
    let nd = limbs::word_count(n) as int;
    let dv = limbs::word_count(d) as int;
    let after = record::after_u256_div(work, n, d, frame, remainder);
    reveal(record::after_u256_div);
    lemma_limbs_in(n);
    lemma_limbs_in(d);
    long_div::law_counts_are_bounded(n, d);
    long_div::law_counts_per_step(n, d);
    div_path::law_path_index_in_range(n, d);
    let iters = after.u256_div_knuth_iters - work.u256_div_knuth_iters + after.u256_div_short_iters
        - work.u256_div_short_iters;
    if n == 0 || nd < dv {
        long_div::lemma_no_path_total(UDIV_PATHS as nat);
        assert(iters * dv == 0) by (nonlinear_arith)
            requires
                iters == 0,
        ;
        if nd >= 3 {
            lemma_totals_add(work.udiv_paths, long_div::paths_of(n, d), after.udiv_paths);
        }
    } else if nd < 3 {
        long_div::lemma_one_more_on_a_path(
            work.udiv_paths,
            div_path::path_index(n, d) as int,
        );
        assert(iters * dv == 0) by (nonlinear_arith)
            requires
                iters == 0,
        ;
    } else {
        lemma_totals_add(work.udiv_paths, long_div::paths_of(n, d), after.udiv_paths);
        if dv == 1 {
            assert(iters * dv == iters) by (nonlinear_arith)
                requires
                    dv == 1,
            ;
        } else {
            lemma_normal_shift(d);
            assert(0 <= (nd - dv + 1) * dv) by (nonlinear_arith)
                requires
                    nd >= dv,
                    dv >= 0,
            ;
        }
    }
}

/// `1` where something holds, and `0` where it does not.
pub open spec fn one_if(holds: bool) -> int {
    if holds {
        1
    } else {
        0
    }
}

/// The operands are shifted exactly where the divisor's top limb has a leading zero.
proof fn lemma_normal_shift(d: nat)
    requires
        d > 0,
    ensures
        long_div::normal_shift(d) > 0 <==> 2 * d < limbs::weight(limbs::word_count(d)),
{
    let nv = limbs::word_count(d);
    let l = bits::bit_len(d);
    bits::lemma_bit_len(d);
    lemma_pow2_unfold(l);
    if l < 64 * nv {
        bits::lemma_pow2_monotone(l + 1, 64 * nv);
        lemma_pow2_unfold(l + 1);
    }
}

/// How many of the steps from `j` to `k` are on a path.
pub open spec fn steps_on(path_of: spec_fn(nat) -> nat, j: nat, k: nat, p: nat) -> int
    decreases k - j,
{
    if j >= k {
        0
    } else {
        steps_on(path_of, j + 1, k, p) + one_if(path_of(j) == p)
    }
}

/// What the steps from `j` to `k` take together.
pub open spec fn sum_of(count_of: spec_fn(nat) -> int, j: nat, k: nat) -> int
    decreases k - j,
{
    if j >= k {
        0
    } else {
        sum_of(count_of, j + 1, k) + count_of(j)
    }
}

/// The dividend of step `j` by a divisor of one limb: the remainder of the limbs above limb `j`, and
/// that limb behind it.
pub open spec fn short_dividend(n: nat, d: nat, j: nat) -> nat {
    let base = 0x1_0000_0000_0000_0000nat;
    ((n / limbs::weight(j + 1)) % d) * base + (n / limbs::weight(j)) % base
}

/// That is the dividend that is divided.
proof fn lemma_short_dividend(n: nat, d: nat, j: nat)
    requires
        d > 0,
    ensures
        long_div::short_operand(n, d, j) == short_dividend(n, d, j),
{
    let b = limbs::base();
    let w = limbs::weight(j) as int;
    let x = n as int / w;
    limbs::lemma_weight(j);
    lemma_div_denominator(n as int, w, b);
    assert(limbs::weight(j + 1) == w * b) by (nonlinear_arith)
        requires
            limbs::weight(j + 1) == b * w,
    ;
    let q = x / b;
    let r = x % b;
    crate::arith::lemma_div_mod(n as int, w);
    crate::arith::lemma_div_mod(x, b);
    assert(x >= 0) by (nonlinear_arith)
        requires
            n as int == w * x + n as int % w,
            n as int % w < w,
            n >= 0,
            w > 0,
    ;
    crate::arith::lemma_div_mod(q, d as int);
    let m = q / (d as int);
    let s = q % (d as int);
    assert(x == m * (d * b) + (s * b + r)) by (nonlinear_arith)
        requires
            x == q * b + r,
            q == m * d + s,
    ;
    assert(0 <= s * b + r < d * b) by (nonlinear_arith)
        requires
            0 <= s < d,
            0 <= r < b,
    ;
    crate::arith::lemma_div_mod_unique(x, d * b, m, s * b + r);
}

/// What is left of the shifted dividend before quotient digit `j`.
pub open spec fn rest_before(n: nat, d: nat, j: nat) -> nat {
    let scale = pow2((64 * limbs::word_count(d) - bits::bit_len(d)) as nat);
    (n * scale) % (d * scale * limbs::weight(j + 1))
}

/// The leading limbs of the shifted divisor, but for the last `k`.
pub open spec fn leading_divisor(d: nat, k: int) -> nat {
    let scale = pow2((64 * limbs::word_count(d) - bits::bit_len(d)) as nat);
    (d * scale) / limbs::weight(k as nat)
}

/// The quotient from which the estimate of quotient digit `j` starts: the leading two limbs of the
/// rest by the top limb of the divisor.
pub open spec fn first_estimate(n: nat, d: nat, j: nat) -> nat {
    let nv = limbs::word_count(d) as int;
    (rest_before(n, d, j) / limbs::weight((j + nv - 1) as nat)) / leading_divisor(d, nv - 1)
}

/// The estimate that the corrections end with: the leading three limbs of the rest by the leading two
/// of the divisor, and the largest digit where that is none.
pub open spec fn last_estimate(n: nat, d: nat, j: nat) -> int {
    let nv = limbs::word_count(d) as int;
    let estimate = (rest_before(n, d, j) / limbs::weight((j + nv - 2) as nat)) / leading_divisor(
        d,
        nv - 2,
    );
    if estimate < 0x1_0000_0000_0000_0000 {
        estimate as int
    } else {
        0xffff_ffff_ffff_ffff
    }
}

/// The branch path of quotient step `j`.
pub open spec fn path_of_step(n: nat, d: nat) -> spec_fn(nat) -> nat {
    |j: nat|
        if limbs::word_count(d) == 1 {
            div_path::path_index(short_dividend(n, d, j), d)
        } else {
            div_path::path_index(
                rest_before(n, d, j) / limbs::weight((j + limbs::word_count(d) - 1) as nat),
                leading_divisor(d, limbs::word_count(d) - 1),
            )
        }
}

/// The corrections of quotient digit `j`.
pub open spec fn corrections_of_digit(n: nat, d: nat) -> spec_fn(nat) -> int {
    |j: nat| first_estimate(n, d, j) - last_estimate(n, d, j)
}

/// A division takes the branch path of each of its quotient steps, and the corrections of each of its
/// quotient digits. The dividend of a step is what the digits before it have left.
pub proof fn law_steps_are_tallied(n: nat, d: nat, p: nat)
    requires
        d > 0,
        p < UDIV_PATHS,
    ensures
        long_div::paths_of(n, d)[p as int] == steps_on(
            path_of_step(n, d),
            0,
            long_div::quotient_steps(n, d),
            p,
        ),
        long_div::corrections_of(n, d) == if limbs::word_count(d) > 1 {
            sum_of(corrections_of_digit(n, d), 0, long_div::quotient_steps(n, d))
        } else {
            0
        },
{
    let nd = limbs::word_count(n);
    let nv = limbs::word_count(d);
    if long_div::has_steps(n, d) {
        bits::lemma_bit_len(d);
        if nv == 1 {
            lemma_short_tally(n, d, nd, 0, p);
        } else {
            lemma_long_tally(n, d, (nd - nv) as nat, 0, p);
        }
    }
}

/// The steps by a divisor of one limb.
proof fn lemma_short_tally(n: nat, d: nat, nd: nat, j: nat, p: nat)
    requires
        d > 0,
        limbs::word_count(d) == 1,
        p < UDIV_PATHS,
        j <= nd,
    ensures
        long_div::short_paths(n, d, nd, j).len() == UDIV_PATHS,
        long_div::short_paths(n, d, nd, j)[p as int] == steps_on(path_of_step(n, d), j, nd, p),
    decreases nd - j,
{
    if j < nd {
        lemma_short_tally(n, d, nd, j + 1, p);
        lemma_short_dividend(n, d, j);
        div_path::law_path_index_in_range(short_dividend(n, d, j), d);
    }
}

/// The steps of the general division.
proof fn lemma_long_tally(n: nat, d: nat, top: nat, j: nat, p: nat)
    requires
        d > 0,
        limbs::word_count(d) > 1,
        p < UDIV_PATHS,
        j <= top + 1,
    ensures
        ({
            let nv = limbs::word_count(d);
            let scale = pow2(long_div::normal_shift(d));
            let paths = long_div::long_paths(n * scale, d * scale, nv, top, j);
            &&& paths.len() == UDIV_PATHS
            &&& paths[p as int] == steps_on(path_of_step(n, d), j, top + 1, p)
            &&& long_div::long_corrections(n * scale, d * scale, nv, top, j) == sum_of(
                corrections_of_digit(n, d),
                j,
                top + 1,
            )
        }),
    decreases top + 1 - j,
{
    if j <= top {
        let nv = limbs::word_count(d);
        let scale = pow2(long_div::normal_shift(d));
        lemma_long_tally(n, d, top, j + 1, p);
        let divisor = leading_divisor(d, nv - 1);
        limbs::lemma_weight((nv - 1) as nat);
        limbs::lemma_weight((j + nv - 1) as nat);
        div_path::law_path_index_in_range(
            long_div::digit_top(n * scale, d * scale, nv, j),
            divisor,
        );
    }
}

/// A `u128` division is one more on its path and nothing else, and none where the divisor is zero.
pub proof fn law_udiv_is_counted(work: Work, n: nat, d: nat, p: int)
    requires
        work.has_paths(),
        0 <= p < UDIV_PATHS,
    ensures
        ({
            let after = record::after_udiv(work, n, d);
            &&& after.udiv_paths.len() == UDIV_PATHS
            &&& after.udiv_paths[p] - work.udiv_paths[p] == one_if(
                d > 0 && p == div_path::path_index(n, d),
            )
            &&& long_div::path_total(after.udiv_paths) - long_div::path_total(work.udiv_paths)
                == one_if(d > 0)
            &&& after == (Work { udiv_paths: after.udiv_paths, ..work })
        }),
{
    reveal(record::after_udiv);
    div_path::law_path_index_in_range(n, d);
    long_div::lemma_one_more_on_a_path(work.udiv_paths, div_path::path_index(n, d) as int);
}

/// A step's fee takes one division for the protocol's share where a rate is set, and one for the
/// growth of the fee where there is liquidity, of what the protocol leaves. So the divisions are as
/// many as of these two hold, each on its own path, and nothing else is counted.
pub proof fn law_step_fees_are_counted(work: Work, fee: nat, rate: nat, liquidity: nat, p: int)
    requires
        work.has_paths(),
        0 <= p < UDIV_PATHS,
        fee * rate / 10_000 <= fee,
    ensures
        ({
            let after = record::after_step_fees(work, fee, rate, liquidity);
            let kept = (fee - fee * rate / 10_000) as nat;
            &&& long_div::path_total(after.udiv_paths) - long_div::path_total(work.udiv_paths)
                == one_if(rate > 0) + one_if(liquidity > 0)
            &&& after.udiv_paths.len() == UDIV_PATHS
            &&& after.udiv_paths[p] - work.udiv_paths[p] == one_if(
                rate > 0 && p == div_path::path_index(fee * rate, 10_000),
            ) + one_if(
                liquidity > 0 && p == div_path::path_index(
                    kept * 0x1_0000_0000_0000_0000nat,
                    liquidity,
                ),
            )
            &&& after == (Work { udiv_paths: after.udiv_paths, ..work })
        }),
{
    reveal(record::after_step_fees);
    let kept = (fee - fee * rate / 10_000) as nat;
    let first = div_path::path_index(fee * rate, 10_000);
    let second = div_path::path_index(kept * 0x1_0000_0000_0000_0000nat, liquidity);
    div_path::law_path_index_in_range(fee * rate, 10_000);
    div_path::law_path_index_in_range(kept * 0x1_0000_0000_0000_0000nat, liquidity);
    assert(rate == 0 ==> fee * rate == 0) by (nonlinear_arith);
    let shared = if rate > 0 {
        work.on_path(first)
    } else {
        work
    };
    assert((kept * limbs::base()) as nat == kept * 0x1_0000_0000_0000_0000nat);
    long_div::lemma_one_more_on_a_path(work.udiv_paths, first as int);
    long_div::lemma_one_more_on_a_path(shared.udiv_paths, second as int);
}

/// They are that many whatever the protocol takes.
pub proof fn lemma_step_fee_divisions(work: Work, fee: nat, rate: nat, liquidity: nat)
    requires
        work.has_paths(),
    ensures
        ({
            let after = record::after_step_fees(work, fee, rate, liquidity);
            &&& long_div::path_total(after.udiv_paths) - long_div::path_total(work.udiv_paths)
                == one_if(rate > 0) + one_if(liquidity > 0)
            &&& after.has_paths()
            &&& after == (Work { udiv_paths: after.udiv_paths, ..work })
        }),
{
    reveal(record::after_step_fees);
    let kept = (fee - if rate > 0 {
        record::protocol_share(fee, rate)
    } else {
        0
    }) as nat;
    let first = div_path::path_index(fee * rate, 10_000);
    let second = div_path::path_index((kept * limbs::base()) as nat, liquidity);
    div_path::law_path_index_in_range(fee * rate, 10_000);
    div_path::law_path_index_in_range((kept * limbs::base()) as nat, liquidity);
    let shared = if rate > 0 {
        work.on_path(first)
    } else {
        work
    };
    long_div::lemma_one_more_on_a_path(work.udiv_paths, first as int);
    long_div::lemma_one_more_on_a_path(shared.udiv_paths, second as int);
}

/// The products of limbs that a multiplication makes: one for each pair of the limbs of its operands,
/// one limb below `2^64`, two from there on.
pub open spec fn products_of(a: int, b: int) -> int {
    let wide_a = a >= 0x1_0000_0000_0000_0000;
    let wide_b = b >= 0x1_0000_0000_0000_0000;
    if wide_a && wide_b {
        4
    } else if wide_a || wide_b {
        2
    } else {
        1
    }
}

/// A multiplication is counted once, with its products, and nothing else is.
pub proof fn law_u256_mul_is_counted(work: Work, a: u128, b: u128)
    ensures
        ({
            let after = record::after_u256_mul(work, a as nat, b as nat);
            &&& after.u256_muls == work.u256_muls + 1
            &&& after.u256_mul_word_products == work.u256_mul_word_products + products_of(
                a as int,
                b as int,
            )
            &&& after == (Work {
                u256_muls: after.u256_muls,
                u256_mul_word_products: after.u256_mul_word_products,
                ..work
            })
        }),
{
    reveal(record::after_u256_mul);
    lemma_operand_limbs(a);
    lemma_operand_limbs(b);
    let m = record::operand_limbs(a as nat) as int;
    let n = record::operand_limbs(b as nat) as int;
    assert(m * n == if m == 2 && n == 2 {
        4
    } else if m == 2 || n == 2 {
        2int
    } else {
        1
    }) by (nonlinear_arith)
        requires
            m == 1 || m == 2,
            n == 1 || n == 2,
    ;
}

/// An operand takes two limbs from `2^64` on, and one below.
proof fn lemma_operand_limbs(x: u128)
    ensures
        record::operand_limbs(x as nat) == if x >= 0x1_0000_0000_0000_0000 {
            2nat
        } else {
            1
        },
{
    bits::lemma_word_powers();
    bits::lemma_bit_len(x as nat);
    bits::lemma_bit_len_upper(x as nat, 128);
    if x >= 0x1_0000_0000_0000_0000 {
        bits::lemma_bit_len_lower(x as nat, 64);
    } else {
        bits::lemma_bit_len_upper(x as nat, 64);
    }
}

} // verus!
