//! The on-chain 256-bit long division, instrumented.
//!
//! The chain divides 256-bit numbers limb by limb. Every quotient step is one `u128` division,
//! and which branch path that takes is decided by the step's operand *values*: the high half is
//! the remainder carried from the step before (or the normalisation overflow on the first), which
//! no width of the operands predicts. So the division is run here, limb for limb, and
//! the operands of each step are handed to [`udiv_path`].

use crate::bits;
use crate::bits::leading_zeros_u64;
use crate::div_path;
use crate::div_path::{udiv_path, UDIV_PATHS};
use crate::limbs;
use crate::limbs::{num_words, shift_left};
use vstd::arithmetic::div_mod::*;
use vstd::arithmetic::power2::*;
use vstd::bits::*;
use vstd::prelude::*;

verus! {

/// What [`chain_div_arms`] counts: one [`udiv_path`] entry per `u128` division that the long
/// division makes, plus the two data-dependent extras of its general loop.
#[derive(Debug, Clone, Copy, PartialEq, Eq)]
pub struct DivArms {
    pub paths: [u32; UDIV_PATHS],
    pub normalized: u32,
    pub corrections: u32,
}

impl DivArms {
    /// The path counts as a sequence of numbers.
    pub open spec fn path_counts(self) -> Seq<nat> {
        Seq::new(UDIV_PATHS as nat, |i: int| self.paths[i] as nat)
    }

    /// Nothing was counted.
    pub open spec fn is_none(self) -> bool {
        &&& self.path_counts() == no_paths()
        &&& self.normalized == 0
        &&& self.corrections == 0
    }
}

impl Default for DivArms {
    fn default() -> (r: Self)
        ensures
            r.is_none(),
            forall|p: int| 0 <= p < UDIV_PATHS ==> #[trigger] r.paths[p] == 0,
    {
        let r = DivArms { paths: [0;UDIV_PATHS], normalized: 0, corrections: 0 };
        assert(r.path_counts() =~= no_paths());
        r
    }
}

/// No division on any path.
pub open spec fn no_paths() -> Seq<nat> {
    Seq::new(UDIV_PATHS as nat, |i: int| 0nat)
}

/// One more division of `duo` by `div`.
pub open spec fn with_path(paths: Seq<nat>, duo: nat, div: nat) -> Seq<nat> {
    let p = div_path::path_index(duo, div) as int;
    paths.update(p, paths[p] + 1)
}

/// The dividend of step `j` with a single-limb divisor: limb `j` below the remainder of the limbs
/// above it.
pub open spec fn short_operand(n: nat, d: nat, j: nat) -> nat {
    (n / limbs::weight(j)) % ((d * limbs::base()) as nat)
}

/// The paths of the steps from `nd - 1` down to `j` with a single-limb divisor.
pub open spec fn short_paths(n: nat, d: nat, nd: nat, j: nat) -> Seq<nat>
    decreases nd - j,
{
    if j >= nd {
        no_paths()
    } else {
        with_path(short_paths(n, d, nd, j + 1), short_operand(n, d, j), d)
    }
}

/// How far the operands are shifted so that the divisor's top limb has no leading zero.
pub open spec fn normal_shift(d: nat) -> nat {
    (64 * limbs::word_count(d) - bits::bit_len(d)) as nat
}

/// What is left of the dividend before quotient digit `j` is found.
pub open spec fn digit_rest(n: nat, v: nat, j: nat) -> nat {
    n % (v * limbs::weight(j + 1))
}

/// The two limbs from which quotient digit `j` is estimated.
pub open spec fn digit_top(n: nat, v: nat, nv: nat, j: nat) -> nat {
    digit_rest(n, v, j) / limbs::weight((j + nv - 1) as nat)
}

/// The estimate of quotient digit `j` that the correction loop ends with: the quotient of the
/// leading three limbs by the divisor's leading two, where that is a digit.
pub open spec fn digit_estimate(n: nat, v: nat, nv: nat, j: nat) -> nat {
    let e = (digit_rest(n, v, j) / limbs::weight((j + nv - 2) as nat)) / (v / limbs::weight(
        (nv - 2) as nat,
    ));
    if e < limbs::base() {
        e
    } else {
        (limbs::base() - 1) as nat
    }
}

/// The paths of the steps from `top` down to `j` of the general division of `n` by the `nv` limbs
/// of the normalised divisor `v`.
pub open spec fn long_paths(n: nat, v: nat, nv: nat, top: nat, j: nat) -> Seq<nat>
    decreases top + 1 - j,
{
    if j > top {
        no_paths()
    } else {
        with_path(
            long_paths(n, v, nv, top, j + 1),
            digit_top(n, v, nv, j),
            v / limbs::weight((nv - 1) as nat),
        )
    }
}

/// The corrections of the steps from `top` down to `j`: how much larger the quotient of the
/// leading two limbs by the divisor's top limb is than the estimate used.
pub open spec fn long_corrections(n: nat, v: nat, nv: nat, top: nat, j: nat) -> int
    decreases top + 1 - j,
{
    if j > top {
        0
    } else {
        long_corrections(n, v, nv, top, j + 1) + digit_top(n, v, nv, j) / (v / limbs::weight(
            (nv - 1) as nat,
        )) - digit_estimate(n, v, nv, j)
    }
}

/// Whether the division of `n` by `d` has quotient steps that are worth telling apart. The others
/// are answered at once, or with one `u128` division.
pub open spec fn has_steps(n: nat, d: nat) -> bool {
    &&& d > 0
    &&& limbs::word_count(n) >= limbs::word_count(d)
    &&& limbs::word_count(n) >= 3
}

/// How many `u128` divisions take each branch path while `n` is divided by `d`.
pub open spec fn paths_of(n: nat, d: nat) -> Seq<nat> {
    let nd = limbs::word_count(n);
    let nv = limbs::word_count(d);
    let scale = pow2(normal_shift(d));
    if !has_steps(n, d) {
        no_paths()
    } else if nv == 1 {
        short_paths(n, d, nd, 0)
    } else {
        long_paths(n * scale, d * scale, nv, (nd - nv) as nat, 0)
    }
}

/// How many normalisations the division of `n` by `d` performs.
pub open spec fn normalized_of(n: nat, d: nat) -> nat {
    if has_steps(n, d) && limbs::word_count(d) > 1 && normal_shift(d) > 0 {
        1
    } else {
        0
    }
}

/// How many corrections the quotient digits take while `n` is divided by `d`.
pub open spec fn corrections_of(n: nat, d: nat) -> int {
    let nd = limbs::word_count(n);
    let nv = limbs::word_count(d);
    let scale = pow2(normal_shift(d));
    if has_steps(n, d) && nv > 1 {
        long_corrections(n * scale, d * scale, nv, (nd - nv) as nat, 0)
    } else {
        0
    }
}

/// What is counted while `n` is divided by `d`.
pub open spec fn counted(arms: DivArms, n: nat, d: nat) -> bool {
    &&& arms.path_counts() == paths_of(n, d)
    &&& arms.normalized == normalized_of(n, d)
    &&& arms.corrections == corrections_of(n, d)
    &&& arms.corrections <= 6
    &&& forall|p: int| 0 <= p < UDIV_PATHS ==> #[trigger] arms.paths[p] <= 4
}

/// The estimate of a quotient digit is the digit or one more than it.
pub proof fn lemma_digit(w: nat, v: nat, nv: nat)
    requires
        nv >= 2,
        limbs::weight(nv) <= 2 * v,
        v < limbs::weight(nv),
        w < v * limbs::base(),
    ensures
        ({
            let k = limbs::weight((nv - 2) as nat);
            let e = (w / k) / (v / k);
            let est = if e < limbs::base() {
                e as int
            } else {
                limbs::base() - 1
            };
            &&& w / v <= est <= w / v + 1
            &&& w / v < limbs::base()
        }),
{
    let m = (nv - 2) as nat;
    let k = limbs::weight(m) as int;
    let b = limbs::base();
    let v2 = v as int / k;
    let w3 = w as int / k;
    let q = w as int / v as int;
    limbs::lemma_weight(m);
    limbs::lemma_weight(m + 1);
    crate::arith::lemma_div_mod(v as int, k);
    crate::arith::lemma_div_mod(w as int, k);
    crate::arith::lemma_div_mod(w as int, v as int);
    assert(2 * v >= b * b * k) by {
        assert(limbs::weight(m + 2) == limbs::weight(nv));
        assert(b * (b * k) == b * b * k) by (nonlinear_arith);
    }
    // The divisor's leading two limbs are normalised.
    assert(2 * v2 + 2 > b * b) by (nonlinear_arith)
        requires
            2 * v >= b * b * k,
            v == k * v2 + v as int % k,
            v as int % k < k,
            k > 0,
    ;
    assert(v2 >= b);
    assert(q < b) by (nonlinear_arith)
        requires
            w == q * v + w as int % v as int,
            w as int % v as int >= 0,
            w < v * b,
            v > 0,
    ;
    assert(q * v2 <= w3) by {
        assert(k * (q * v2) <= w) by (nonlinear_arith)
            requires
                k * v2 <= v,
                q * v <= w,
                q >= 0,
        ;
        crate::arith::lemma_floor_at_least(w as int, k, q * v2);
    }
    let e = w3 / v2;
    assert(v2 * q == q * v2) by (nonlinear_arith);
    crate::arith::lemma_floor_at_least(w3, v2, q);
    crate::arith::lemma_floor_at_least(w3, v2, q + 2);
    let est = if e < b {
        e
    } else {
        b - 1
    };
    if est >= q + 2 {
        assert(v2 * (q + 2) <= w3);
        assert(w < (q + 1) * v) by (nonlinear_arith)
            requires
                w == q * v + w as int % v as int,
                w as int % (v as int) < v,
        ;
        assert(v < k * (v2 + 1)) by (nonlinear_arith)
            requires
                v == k * v2 + v as int % k,
                v as int % k < k,
        ;
        assert(false) by (nonlinear_arith)
            requires
                v2 * (q + 2) <= w3,
                k * w3 <= w,
                w < (q + 1) * v,
                v < k * (v2 + 1),
                v2 >= b,
                0 <= q < b,
                k > 0,
        {
            assert(k * (v2 * (q + 2)) <= k * w3);
            assert((q + 1) * v <= (q + 1) * (k * (v2 + 1)));
            assert(k * (v2 * (q + 2)) == k * (v2 * q + 2 * v2));
            assert((q + 1) * (k * (v2 + 1)) == k * (v2 * q + v2 + q + 1));
            assert(k * (v2 * q + 2 * v2) < k * (v2 * q + v2 + q + 1));
            assert(v2 < q + 1);
        }
    }
}

/// The quotient of the leading two limbs by the divisor's top limb is the estimate of a quotient
/// digit, or larger than it by one or two.
proof fn lemma_correction(w: nat, v: nat, nv: nat)
    requires
        nv >= 2,
        limbs::weight(nv) <= 2 * v,
        v < limbs::weight(nv),
        w < v * limbs::base(),
    ensures
        ({
            let k = limbs::weight((nv - 2) as nat);
            let k1 = limbs::weight((nv - 1) as nat);
            let e = (w / k) / (v / k);
            let est = if e < limbs::base() {
                e as int
            } else {
                limbs::base() - 1
            };
            0 <= (w / k1) / (v / k1) - est <= 2
        }),
{
    let m = (nv - 2) as nat;
    let b = limbs::base();
    let k = limbs::weight(m) as int;
    let k1 = limbs::weight(m + 1) as int;
    let (v1, v2) = (v as int / k1, v as int / k);
    let (top, w3) = (w as int / k1, w as int / k);
    let q = w as int / v as int;
    limbs::lemma_weight(m);
    limbs::lemma_weight(m + 1);
    assert(limbs::weight(m + 2) == limbs::weight(nv));
    lemma_digit(w, v, nv);
    crate::arith::lemma_div_mod(v as int, k);
    crate::arith::lemma_div_mod(v as int, k1);
    crate::arith::lemma_div_mod(w as int, k);
    crate::arith::lemma_div_mod(w as int, k1);
    crate::arith::lemma_div_mod(w as int, v as int);
    assert(v1 >= 0 && top >= 0 && v2 >= 0 && w3 >= 0) by (nonlinear_arith)
        requires
            v as int == k1 * v1 + v as int % k1,
            v as int % k1 < k1,
            w as int == k1 * top + w as int % k1,
            w as int % k1 < k1,
            v as int == k * v2 + v as int % k,
            v as int % k < k,
            w as int == k * w3 + w as int % k,
            w as int % k < k,
            k > 0,
            k1 > 0,
            v >= 0,
            w >= 0,
    ;
    // The divisor's top limb is normalised.
    assert(2 * v1 + 2 > b) by (nonlinear_arith)
        requires
            2 * v >= b * k1,
            v == k1 * v1 + v as int % k1,
            v as int % k1 < k1,
            k1 > 0,
    ;
    // The estimate takes no more of the divisor's top limb than is there.
    let e = w3 / v2;
    assert(b * v1 <= v2) by {
        assert(k * (b * v1) <= v) by (nonlinear_arith)
            requires
                k1 * v1 <= v,
                k1 == b * k,
        ;
        crate::arith::lemma_floor_at_least(v as int, k, b * v1);
    }
    crate::arith::lemma_div_mod(w3, v2);
    assert(w3 < b * (top + 1)) by (nonlinear_arith)
        requires
            k * w3 <= w,
            w == k1 * top + w as int % k1,
            w as int % k1 < k1,
            k1 == b * k,
            k > 0,
    ;
    assert(e >= 0) by (nonlinear_arith)
        requires
            w3 == v2 * e + w3 % v2,
            w3 % v2 < v2,
            w3 >= 0,
            v2 > 0,
    ;
    assert(v1 * e <= top) by (nonlinear_arith)
        requires
            v2 * e <= w3,
            b * v1 <= v2,
            w3 < b * (top + 1),
            e >= 0,
            b > 0,
    {
        assert((b * v1) * e <= v2 * e);
        assert((b * v1) * e == b * (v1 * e));
        assert(b * (v1 * e) < b * (top + 1));
    }
    crate::arith::lemma_floor_at_least(top, v1, e);
    crate::arith::lemma_floor_at_least(top, v1, q + 3);
    if top / v1 >= q + 3 {
        assert(v1 * (q + 3) <= top);
        assert(w < (q + 1) * v && v < k1 * (v1 + 1)) by (nonlinear_arith)
            requires
                w == q * v + w as int % v as int,
                w as int % (v as int) < v,
                v == k1 * v1 + v as int % k1,
                v as int % k1 < k1,
        ;
        assert(false) by (nonlinear_arith)
            requires
                v1 * (q + 3) <= top,
                k1 * top <= w,
                w < (q + 1) * v,
                v < k1 * (v1 + 1),
                2 * v1 >= b,
                0 <= q < b,
                k1 > 0,
        {
            assert(k1 * (v1 * (q + 3)) <= k1 * top);
            assert((q + 1) * v <= (q + 1) * (k1 * (v1 + 1)));
            assert(k1 * (v1 * (q + 3)) == k1 * (v1 * q + 3 * v1));
            assert((q + 1) * (k1 * (v1 + 1)) == k1 * (v1 * q + v1 + q + 1));
            assert(k1 * (v1 * q + 3 * v1) < k1 * (v1 * q + v1 + q + 1));
        }
    }
}

/// A quotient digit of the general division takes at most two corrections.
proof fn lemma_digit_corrections(n: nat, v: nat, nv: nat, j: nat)
    requires
        nv >= 2,
        limbs::weight(nv) <= 2 * v,
        v < limbs::weight(nv),
    ensures
        0 <= digit_top(n, v, nv, j) / (v / limbs::weight((nv - 1) as nat)) - digit_estimate(
            n,
            v,
            nv,
            j,
        ) <= 2,
{
    let rest = digit_rest(n, v, j);
    let w = rest / limbs::weight(j);
    limbs::lemma_weight(j);
    limbs::lemma_weight_adds(j, (nv - 2) as nat);
    limbs::lemma_weight_adds(j, (nv - 1) as nat);
    limbs::lemma_weight((nv - 2) as nat);
    limbs::lemma_weight((nv - 1) as nat);
    lemma_div_denominator(
        rest as int,
        limbs::weight(j) as int,
        limbs::weight((nv - 2) as nat) as int,
    );
    lemma_div_denominator(
        rest as int,
        limbs::weight(j) as int,
        limbs::weight((nv - 1) as nat) as int,
    );
    assert((j + nv - 2) as nat == j + (nv - 2) as nat);
    assert((j + nv - 1) as nat == j + (nv - 1) as nat);
    let k = limbs::weight(j) as int;
    let b = limbs::base();
    assert(v * limbs::weight(j + 1) > 0) by (nonlinear_arith)
        requires
            v > 0,
            limbs::weight(j + 1) == b * k,
            k > 0,
            b > 0,
    ;
    crate::arith::lemma_div_mod(rest as int, k);
    assert(w < v * b) by (nonlinear_arith)
        requires
            k * w <= rest,
            rest < v * (b * k),
            k > 0,
    ;
    lemma_correction(w, v, nv);
}

/// The corrections of the general division are at most two for each of its steps.
proof fn lemma_long_corrections(n: nat, v: nat, nv: nat, top: nat, j: nat)
    requires
        nv >= 2,
        limbs::weight(nv) <= 2 * v,
        v < limbs::weight(nv),
        j <= top + 1,
    ensures
        0 <= long_corrections(n, v, nv, top, j) <= 2 * (top + 1 - j),
    decreases top + 1 - j,
{
    if j <= top {
        lemma_long_corrections(n, v, nv, top, j + 1);
        lemma_digit_corrections(n, v, nv, j);
    }
}

/// The number of divisions on all paths.
pub open spec fn path_total(paths: Seq<nat>) -> nat
    decreases paths.len(),
{
    if paths.len() == 0 {
        0
    } else {
        path_total(paths.drop_last()) + paths.last()
    }
}

/// No division is none on all paths.
pub proof fn lemma_no_path_total(k: nat)
    ensures
        path_total(Seq::new(k, |i: int| 0nat)) == 0,
    decreases k,
{
    if k > 0 {
        lemma_no_path_total((k - 1) as nat);
        assert(Seq::new(k, |i: int| 0nat).drop_last() =~= Seq::new((k - 1) as nat, |i: int| 0nat));
    }
}

/// One more on a path is one more on all of them.
pub proof fn lemma_one_more_on_a_path(paths: Seq<nat>, p: int)
    requires
        0 <= p < paths.len(),
    ensures
        path_total(paths.update(p, paths[p] + 1)) == path_total(paths) + 1,
    decreases paths.len(),
{
    let more = paths.update(p, paths[p] + 1);
    if p == paths.len() - 1 {
        assert(more.drop_last() =~= paths.drop_last());
    } else {
        lemma_one_more_on_a_path(paths.drop_last(), p);
        assert(more.drop_last() =~= paths.drop_last().update(p, paths.drop_last()[p] + 1));
    }
}

/// How many quotient steps the division of `n` by `d` makes: one for each limb of the dividend with a
/// single-limb divisor, and one for each quotient digit otherwise.
pub open spec fn quotient_steps(n: nat, d: nat) -> nat {
    if !has_steps(n, d) {
        0
    } else if limbs::word_count(d) == 1 {
        limbs::word_count(n)
    } else {
        (limbs::word_count(n) - limbs::word_count(d) + 1) as nat
    }
}

/// Each step takes one path.
proof fn lemma_paths_per_step(n: nat, v: nat, nv: nat, top: nat, j: nat)
    requires
        j <= top + 1,
    ensures
        short_paths(n, v, top + 1, j).len() == UDIV_PATHS,
        forall|i: int|
            0 <= i < UDIV_PATHS ==> #[trigger] short_paths(n, v, top + 1, j)[i] <= top + 1 - j,
        path_total(short_paths(n, v, top + 1, j)) == top + 1 - j,
        long_paths(n, v, nv, top, j).len() == UDIV_PATHS,
        forall|i: int|
            0 <= i < UDIV_PATHS ==> #[trigger] long_paths(n, v, nv, top, j)[i] <= top + 1 - j,
        path_total(long_paths(n, v, nv, top, j)) == top + 1 - j,
    decreases top + 1 - j,
{
    if j <= top {
        lemma_paths_per_step(n, v, nv, top, j + 1);
        let divisor = v / limbs::weight((nv - 1) as nat);
        limbs::lemma_weight((nv - 1) as nat);
        limbs::lemma_weight((j + nv - 1) as nat);
        div_path::law_path_index_in_range(short_operand(n, v, j), v);
        div_path::law_path_index_in_range(digit_top(n, v, nv, j), divisor);
        lemma_one_more_on_a_path(
            short_paths(n, v, top + 1, j + 1),
            div_path::path_index(short_operand(n, v, j), v) as int,
        );
        lemma_one_more_on_a_path(
            long_paths(n, v, nv, top, j + 1),
            div_path::path_index(digit_top(n, v, nv, j), divisor) as int,
        );
    } else {
        lemma_no_path_total(UDIV_PATHS as nat);
    }
}

/// A quotient digit takes at most two corrections: the quotient of the leading two limbs by the
/// divisor's top limb is the estimate that the correction loop ends with, or one or two more.
pub proof fn law_digit_takes_two_corrections(n: nat, d: nat, j: nat)
    requires
        has_steps(n, d),
        limbs::word_count(d) > 1,
    ensures
        ({
            let nv = limbs::word_count(d);
            let scale = pow2(normal_shift(d));
            let v = d * scale;
            0 <= digit_top(n * scale, v, nv, j) / (v / limbs::weight((nv - 1) as nat))
                - digit_estimate(n * scale, v, nv, j) <= 2
        }),
{
    let nv = limbs::word_count(d);
    let scale = pow2(normal_shift(d));
    bits::lemma_bit_len(d);
    lemma_scaled_divisor(d, nv, normal_shift(d));
    lemma_digit_corrections(n * scale, d * scale, nv, j);
}

/// A division takes one path for each of its quotient steps, and at most two corrections.
pub proof fn law_counts_per_step(n: nat, d: nat)
    ensures
        path_total(paths_of(n, d)) == quotient_steps(n, d),
        0 <= corrections_of(n, d) <= 2 * quotient_steps(n, d),
        limbs::word_count(d) == 1 ==> corrections_of(n, d) == 0,
{
    let nd = limbs::word_count(n);
    let nv = limbs::word_count(d);
    let scale = pow2(normal_shift(d));
    if has_steps(n, d) {
        bits::lemma_bit_len(d);
        if nv == 1 {
            lemma_paths_per_step(n, d, nv, (nd - 1) as nat, 0);
        } else {
            lemma_scaled_divisor(d, nv, normal_shift(d));
            lemma_paths_per_step(n * scale, d * scale, nv, (nd - nv) as nat, 0);
            lemma_long_corrections(n * scale, d * scale, nv, (nd - nv) as nat, 0);
        }
    } else {
        lemma_no_path_total(UDIV_PATHS as nat);
    }
}

/// A division of four limbs makes at most four `u128` divisions and six corrections.
pub proof fn law_counts_are_bounded(n: nat, d: nat)
    requires
        limbs::word_count(n) <= 4,
    ensures
        paths_of(n, d).len() == UDIV_PATHS,
        forall|i: int| 0 <= i < UDIV_PATHS ==> #[trigger] paths_of(n, d)[i] <= 4,
        normalized_of(n, d) <= 1,
        0 <= corrections_of(n, d) <= 6,
{
    let nd = limbs::word_count(n);
    let nv = limbs::word_count(d);
    let scale = pow2(normal_shift(d));
    if has_steps(n, d) {
        bits::lemma_bit_len(d);
        if nv == 1 {
            lemma_paths_per_step(n, d, nv, (nd - 1) as nat, 0);
        } else {
            lemma_scaled_divisor(d, nv, normal_shift(d));
            lemma_paths_per_step(n * scale, d * scale, nv, (nd - nv) as nat, 0);
            lemma_long_corrections(n * scale, d * scale, nv, (nd - nv) as nat, 0);
        }
    }
}

/// Estimate a quotient digit from the leading three limbs of the dividend and the leading two of
/// the normalised divisor, counting the corrections.
fn estimate_digit(u2: u64, u1: u64, u0: u64, v1: u64, v0: u64) -> (r: (u64, u32))
    requires
        v1 >= 0x8000_0000_0000_0000,
        (u2 * limbs::base() + u1) * limbs::base() + u0 < (v1 * limbs::base() + v0 + 1)
            * limbs::base(),
    ensures
        ({
            let e = ((u2 * limbs::base() + u1) * limbs::base() + u0) / (v1 * limbs::base() + v0);
            &&& r.0 == (if e < limbs::base() {
                e
            } else {
                limbs::base() - 1
            })
            &&& r.1 == (u2 * limbs::base() + u1) / (v1 as int) - r.0
            &&& r.1 <= 2
        }),
{
    let ghost b = limbs::base();
    let ghost top = u2 * b + u1;
    let ghost w3 = top * b + u0;
    let ghost v2 = v1 * b + v0;
    let ghost e = w3 / v2;
    let ghost goal = if e < b {
        e
    } else {
        b - 1
    };
    let d0: u128 = ((u2 as u128) << 64) | u1 as u128;
    let d1: u128 = v1 as u128;
    let low: u128 = v0 as u128;
    proof {
        assert(((u2 as u128) << 64) | u1 as u128 == (u2 as u128) * 0x1_0000_0000_0000_0000 + (
        u1 as u128)) by (bit_vector);
        assert(top <= v2) by (nonlinear_arith)
            requires
                top * b + u0 < (v2 + 1) * b,
                u0 >= 0,
                b > 0,
        ;
        crate::arith::lemma_div_mod(top, v1 as int);
        crate::arith::lemma_div_mod(w3, v2);
        // The quotient by the top limb alone is no less than the quotient by both.
        assert(v1 * e <= top) by (nonlinear_arith)
            requires
                w3 == e * v2 + w3 % v2,
                w3 % v2 >= 0,
                w3 == top * b + u0,
                v2 == v1 * b + v0,
                u0 < b,
                v0 >= 0,
                e >= 0,
                b > 0,
        {
            assert(e * v2 == (v1 * e) * b + e * v0);
            assert(e * v0 >= 0);
            assert((v1 * e) * b < (top + 1) * b);
        }
        crate::arith::lemma_floor_at_least(top, v1 as int, e);
        assert(e >= 0) by {
            lemma_div_pos_is_pos(w3, v2);
        }
        assert(top / (v1 as int) <= b + 1) by (nonlinear_arith)
            requires
                top == (top / (v1 as int)) * v1 + top % (v1 as int),
                top % (v1 as int) >= 0,
                top <= v1 * b + v0,
                v0 < 2 * v1,
                v1 > 0,
        ;
        // At most two corrections: the estimate of the top limb alone is at most two too large.
        assert(top / (v1 as int) <= goal + 2) by (nonlinear_arith)
            requires
                top == (top / (v1 as int)) * v1 + top % (v1 as int),
                top % (v1 as int) >= 0,
                w3 == e * v2 + w3 % v2,
                w3 % v2 < v2,
                w3 == top * b + u0,
                v2 == v1 * b + v0,
                0 <= u0 < b,
                0 <= v0 < b,
                2 * v1 >= b,
                b == 0x1_0000_0000_0000_0000,
                top / (v1 as int) <= b + 1,
                goal == (if e < b { e } else { b - 1 }),
                e >= 0,
        {
            let q = top / (v1 as int);
            if q >= goal + 3 {
                assert(e < b);
                assert(q * v1 <= top);
                assert((e + 3) * v1 <= q * v1);
                assert(((e + 3) * v1) * b <= top * b);
                assert(w3 < (e + 1) * v2);
                assert((e + 1) * v2 == ((e + 1) * v1) * b + (e + 1) * v0);
                assert(((e + 3) * v1) * b == ((e + 1) * v1) * b + (2 * v1) * b);
                assert((2 * v1) * b >= b * b);
                assert((e + 1) * v0 <= b * v0);
                assert(b * v0 < b * b);
            }
        }
    }
    let mut qhat: u128 = d0 / d1;
    let mut rhat: u128 = d0 % d1;
    let mut corrections: u32 = 0;
    proof {
        assert(qhat * low <= (b + 1) * (b - 1)) by (nonlinear_arith)
            requires
                0 <= qhat <= b + 1,
                0 <= low <= b - 1,
        ;
        assert((b + 1) * (b - 1) < 0x1_0000_0000_0000_0000_0000_0000_0000_0000);
        assert(top == qhat * d1 + rhat);
    }
    let mut product: u128 = qhat * low;
    let mut limit: u128 = (rhat << 64) | u0 as u128;
    proof {
        assert((rhat << 64) | u0 as u128 == rhat * 0x1_0000_0000_0000_0000 + (u0 as u128))
            by (bit_vector)
            requires
                rhat < 0x1_0000_0000_0000_0000u128,
        ;
        lemma_u128_shr_is_div(qhat, 64);
        bits::lemma_word_powers();
        lemma_estimate_test(qhat as int, rhat as int, v1 as int, v0 as int, u0 as int);
        crate::arith::lemma_floor_at_least(w3, v2, qhat as int);
    }
    while (qhat >> 64) != 0 || product > limit
        invariant_except_break
            rhat < b,
            product == qhat * low,
            limit == rhat * b + u0,
            (qhat >> 64) == qhat as nat / pow2(64),
            (qhat >> 64) == 0 && product <= limit ==> qhat == goal,
        invariant
            b == limbs::base(),
            d1 == v1,
            low == v0,
            v1 >= 0x8000_0000_0000_0000,
            top == qhat * d1 + rhat,
            w3 == top * b + u0,
            v2 == v1 * b + v0,
            top <= v2,
            e == w3 / v2,
            e >= 0,
            goal == (if e < b {
                e
            } else {
                b - 1
            }),
            goal <= qhat <= b + 1,
            qhat <= goal + 2,
            corrections + qhat == top / (v1 as int),
            corrections + qhat <= goal + 2,
            pow2(64) == b,
        ensures
            qhat == goal,
        decreases qhat,
    {
        proof {
            // The condition says that the estimate is above the goal.
            lemma_estimate_test(qhat as int, rhat as int, v1 as int, v0 as int, u0 as int);
            crate::arith::lemma_floor_at_least(w3, v2, qhat as int);
            assert(qhat > goal);
        }
        let ghost before = qhat;
        corrections = corrections + 1;
        qhat = qhat - 1;
        rhat = rhat + d1;
        proof {
            assert(top == qhat * d1 + rhat) by (nonlinear_arith)
                requires
                    top == before * d1 + (rhat - d1),
                    qhat == before - 1,
            ;
            lemma_u128_shr_is_div(rhat, 64);
        }
        if (rhat >> 64) != 0 {
            proof {
                assert(rhat >= b);
                lemma_estimate_ends(
                    qhat as int,
                    rhat as int,
                    v1 as int,
                    v0 as int,
                    u0 as int,
                    top,
                );
                crate::arith::lemma_floor_at_least(w3, v2, qhat as int);
            }
            break;
        }
        proof {
            assert((rhat << 64) | u0 as u128 == rhat * 0x1_0000_0000_0000_0000 + (u0 as u128))
                by (bit_vector)
                requires
                    rhat < 0x1_0000_0000_0000_0000u128,
            ;
            assert(product - low == qhat * low) by (nonlinear_arith)
                requires
                    product == before * low,
                    qhat == before - 1,
            ;
            assert(0 <= qhat * low) by (nonlinear_arith)
                requires
                    qhat >= 0,
                    low >= 0,
            ;
            lemma_u128_shr_is_div(qhat, 64);
            lemma_estimate_test(qhat as int, rhat as int, v1 as int, v0 as int, u0 as int);
            crate::arith::lemma_floor_at_least(w3, v2, qhat as int);
        }
        limit = (rhat << 64) | u0 as u128;
        product = product - low;
    }
    (qhat as u64, corrections)
}

/// The test of the correction loop compares the estimate with the leading three limbs.
proof fn lemma_estimate_test(qhat: int, rhat: int, v1: int, v0: int, u0: int)
    ensures
        qhat * v0 > rhat * limbs::base() + u0 <==> (v1 * limbs::base() + v0) * qhat > (qhat * v1
            + rhat) * limbs::base() + u0,
{
    let b = limbs::base();
    assert((v1 * b + v0) * qhat == qhat * v1 * b + qhat * v0) by (nonlinear_arith);
    assert((qhat * v1 + rhat) * b == qhat * v1 * b + rhat * b) by (nonlinear_arith);
}

/// Once the remainder of the estimate is past a limb the estimate is a digit and not too large.
proof fn lemma_estimate_ends(qhat: int, rhat: int, v1: int, v0: int, u0: int, top: int)
    requires
        rhat >= limbs::base(),
        top == qhat * v1 + rhat,
        top <= v1 * limbs::base() + v0,
        0 <= v0 < limbs::base(),
        v1 > 0,
        u0 >= 0,
        qhat >= 0,
    ensures
        qhat < limbs::base(),
        (v1 * limbs::base() + v0) * qhat <= top * limbs::base() + u0,
{
    let b = limbs::base();
    assert(qhat < b) by (nonlinear_arith)
        requires
            qhat * v1 + rhat <= v1 * b + v0,
            rhat >= b,
            v0 < b,
            v1 > 0,
    ;
    assert(qhat * v0 <= rhat * b) by (nonlinear_arith)
        requires
            0 <= qhat < b,
            0 <= v0 < b,
            rhat >= b,
            b > 0,
    {
        assert(qhat * v0 <= qhat * b);
        assert(qhat * b <= rhat * b);
    }
    lemma_estimate_test(qhat, rhat, v1, v0, u0);
}

/// Subtract `qhat` times the `nv` limbs of the divisor from the `nv` limbs of the dividend from
/// limb `j` on, and return the borrow that is left for the limb above them.
fn multiply_subtract(
    dividend: &mut [u64; 4],
    divisor: &[u64; 4],
    nv: usize,
    j: usize,
    qhat: u64,
) -> (borrow: u64)
    requires
        j + nv <= 4,
    ensures
        limbs::value(final(dividend)@, j as int, nv as nat) + qhat * limbs::value(
            divisor@,
            0,
            nv as nat,
        ) == limbs::value(old(dividend)@, j as int, nv as nat) + borrow * limbs::weight(nv as nat),
        forall|m: int|
            0 <= m < 4 && !(j <= m < j + nv) ==> #[trigger] final(dividend)[m] == old(dividend)[m],
{
    let ghost before = dividend@;
    let mut k: u64 = 0;
    let mut i: usize = 0;
    proof {
        assert(0 * limbs::weight(0) == 0 && qhat * 0 == 0);
    }
    while i < nv
        invariant
            i <= nv,
            j + nv <= 4,
            dividend@.len() == 4,
            limbs::value(dividend@, j as int, i as nat) + qhat * limbs::value(
                divisor@,
                0,
                i as nat,
            ) == limbs::value(before, j as int, i as nat) + k * limbs::weight(i as nat),
            forall|m: int|
                0 <= m < 4 && !(j <= m < j + i) ==> #[trigger] dividend[m] == before[m],
        decreases nv - i,
    {
        let ghost prior = dividend@;
        let ghost borrowed = k;
        let u: u64 = dividend[j + i];
        let v: u64 = divisor[i];
        proof {
            lemma_limb_product(qhat, v);
        }
        let p: u128 = (qhat as u128) * (v as u128);
        let t: u128 = (u as u128).wrapping_sub(k as u128).wrapping_sub(p as u64 as u128);
        proof {
            lemma_subtract_limb(u, k, p);
        }
        dividend[j + i] = t as u64;
        k = ((p >> 64) as u64).wrapping_sub((t >> 64) as u64);
        proof {
            let n = i as nat;
            let now = dividend@;
            limbs::lemma_value_last(now, j as int, n);
            limbs::lemma_value_last(before, j as int, n);
            limbs::lemma_value_last(divisor@, 0, n);
            limbs::lemma_value_same(now, prior, j as int, n);
            limbs::lemma_weight(n);
            let w = limbs::weight(n) as int;
            let vs = limbs::value(divisor@, 0, n) as int;
            assert(qhat * (vs + w * v) == qhat * vs + w * p) by (nonlinear_arith)
                requires
                    p == qhat * v,
            ;
            assert(w * now[j + i] + w * p + w * borrowed == w * u + k * (limbs::base() * w))
                by (nonlinear_arith)
                requires
                    now[j + i] + p + borrowed == u + k * limbs::base(),
            ;
            assert(borrowed * w == w * borrowed) by (nonlinear_arith);
        }
        i = i + 1;
    }
    k
}

proof fn lemma_limb_product(a: u64, b: u64)
    ensures
        a * b <= 0xffff_ffff_ffff_fffe_0000_0000_0000_0001,
        (a as u128) * (b as u128) == a * b,
{
    assert(a * b <= 0xffff_ffff_ffff_ffff * 0xffff_ffff_ffff_ffff) by (nonlinear_arith)
        requires
            0 <= a <= 0xffff_ffff_ffff_ffff,
            0 <= b <= 0xffff_ffff_ffff_ffff,
    ;
}

/// One limb of the multiply-and-subtract: the limb and the borrow that it leaves.
proof fn lemma_subtract_limb(u: u64, k: u64, p: u128)
    requires
        p <= 0xffff_ffff_ffff_fffe_0000_0000_0000_0001,
    ensures
        ({
            let t = (u as u128).wrapping_sub(k as u128).wrapping_sub(p as u64 as u128);
            let borrow = ((p >> 64) as u64).wrapping_sub((t >> 64) as u64);
            (t as u64) + p + k == u + borrow * limbs::base()
        }),
{
    let b = limbs::base();
    let t = (u as u128).wrapping_sub(k as u128).wrapping_sub(p as u64 as u128);
    bits::lemma_word_powers();
    assert(p as u64 == p % 0x1_0000_0000_0000_0000) by (bit_vector);
    assert(t as u64 == t % 0x1_0000_0000_0000_0000) by (bit_vector);
    lemma_u128_shr_is_div(p, 64);
    lemma_u128_shr_is_div(t, 64);
    crate::arith::lemma_div_mod(p as int, b);
    crate::arith::lemma_div_mod(t as int, b);
    let less = u - k - p % 0x1_0000_0000_0000_0000;
    assert(t == less || t == less + b * b);
    if less < -b {
        assert(t as int / b == b - 2) by {
            crate::arith::lemma_div_mod_unique(t as int, b, b - 2, less + 2 * b);
        }
    } else if less < 0 {
        assert(t as int / b == b - 1) by {
            crate::arith::lemma_div_mod_unique(t as int, b, b - 1, less + b);
        }
    }
}

/// Add the `nv` limbs of the divisor back to the dividend from limb `j` on, and return the carry
/// into the limb above them.
fn add_back(dividend: &mut [u64; 4], divisor: &[u64; 4], nv: usize, j: usize) -> (carry: u64)
    requires
        j + nv <= 4,
    ensures
        carry <= 1,
        limbs::value(final(dividend)@, j as int, nv as nat) + carry * limbs::weight(nv as nat)
            == limbs::value(old(dividend)@, j as int, nv as nat) + limbs::value(
            divisor@,
            0,
            nv as nat,
        ),
        forall|m: int|
            0 <= m < 4 && !(j <= m < j + nv) ==> #[trigger] final(dividend)[m] == old(dividend)[m],
{
    let ghost before = dividend@;
    let mut k: u64 = 0;
    let mut i: usize = 0;
    proof {
        assert(0 * limbs::weight(0) == 0);
    }
    while i < nv
        invariant
            i <= nv,
            j + nv <= 4,
            k <= 1,
            dividend@.len() == 4,
            limbs::value(dividend@, j as int, i as nat) + k * limbs::weight(i as nat)
                == limbs::value(before, j as int, i as nat) + limbs::value(divisor@, 0, i as nat),
            forall|m: int|
                0 <= m < 4 && !(j <= m < j + i) ==> #[trigger] dividend[m] == before[m],
        decreases nv - i,
    {
        let ghost prior = dividend@;
        let ghost carried = k;
        let u: u64 = dividend[j + i];
        let v: u64 = divisor[i];
        let t: u128 = (u as u128) + (v as u128) + (k as u128);
        proof {
            bits::lemma_word_powers();
            lemma_u128_shr_is_div(t, 64);
            assert(t as u64 == t % 0x1_0000_0000_0000_0000) by (bit_vector);
            crate::arith::lemma_div_mod(t as int, limbs::base());
        }
        dividend[j + i] = t as u64;
        k = (t >> 64) as u64;
        proof {
            let n = i as nat;
            let now = dividend@;
            limbs::lemma_value_last(now, j as int, n);
            limbs::lemma_value_last(before, j as int, n);
            limbs::lemma_value_last(divisor@, 0, n);
            limbs::lemma_value_same(now, prior, j as int, n);
            limbs::lemma_weight(n);
            let w = limbs::weight(n) as int;
            assert(w * now[j + i] + k * (limbs::base() * w) == w * u + w * v + carried * w)
                by (nonlinear_arith)
                requires
                    now[j + i] + k * limbs::base() == u + v + carried,
            ;
        }
        i = i + 1;
    }
    k
}

/// Divide by a single limb: one `u128` division per dividend limb, with the remainder carried.
fn short_division(dividend: &[u64; 4], d: u64, nd: usize) -> (r: ([u64; 4], DivArms))
    requires
        d > 0,
        3 <= nd <= 4,
        forall|k: int| nd <= k < 4 ==> dividend[k] == 0,
    ensures
        limbs::words_value(r.0) == limbs::words_value(*dividend) / (d as nat),
        r.1.path_counts() == short_paths(limbs::words_value(*dividend), d as nat, nd as nat, 0),
        forall|p: int| 0 <= p < UDIV_PATHS ==> #[trigger] r.1.paths[p] <= 4,
        r.1.normalized == 0,
        r.1.corrections == 0,
{
    let ghost n = limbs::words_value(*dividend);
    let mut arms = DivArms::default();
    let mut quotient: [u64; 4] = [0;4];
    let mut k: u64 = 0;
    let mut j: usize = nd;
    proof {
        limbs::lemma_value_split(dividend@, 0, nd as nat, (4 - nd) as nat);
        limbs::lemma_value_zero(dividend@, nd as int, (4 - nd) as nat);
        limbs::lemma_value_zero(quotient@, nd as int, (4 - nd) as nat);
        assert(d * 0 == 0);
    }
    while j > 0
        invariant
            j <= nd <= 4,
            d > 0,
            k < d,
            n == limbs::words_value(*dividend),
            limbs::value(dividend@, j as int, (4 - j) as nat) == d * limbs::value(
                quotient@,
                j as int,
                (4 - j) as nat,
            ) + k,
            arms.path_counts() == short_paths(n, d as nat, nd as nat, j as nat),
            forall|p: int| 0 <= p < UDIV_PATHS ==> #[trigger] arms.paths[p] <= nd - j,
            arms.normalized == 0,
            arms.corrections == 0,
        decreases j,
    {
        let ghost above = quotient@;
        let ghost counts = arms.path_counts();
        j = j - 1;
        let limb: u64 = dividend[j];
        let d1: u128 = ((k as u128) << 64) | limb as u128;
        let d2: u128 = d as u128;
        proof {
            let b = limbs::base();
            assert(((k as u128) << 64) | limb as u128 == (k as u128) * 0x1_0000_0000_0000_0000 + (
            limb as u128)) by (bit_vector);
            // The operand is what is left of the limbs from `j` on.
            let up = limbs::value(dividend@, j + 1, (3 - j) as nat) as int;
            let upq = limbs::value(quotient@, j + 1, (3 - j) as nat) as int;
            let from_j = limbs::value(dividend@, j as int, (4 - j) as nat) as int;
            assert(from_j == limb + b * up);
            assert(from_j == upq * (d * b) + d1) by (nonlinear_arith)
                requires
                    from_j == limb + b * up,
                    up == d * upq + k,
                    d1 == k * b + limb,
            ;
            assert(d1 < d * b) by (nonlinear_arith)
                requires
                    d1 == k * b + limb,
                    k + 1 <= d,
                    limb < b,
                    b > 0,
            ;
            crate::arith::lemma_div_mod_unique(from_j, d * b, upq, d1 as int);
            limbs::lemma_value_split(dividend@, 0, j as nat, (4 - j) as nat);
            limbs::lemma_value_bound(dividend@, 0, j as nat);
            limbs::lemma_weight(j as nat);
            let w = limbs::weight(j as nat) as int;
            assert(n == from_j * w + limbs::value(dividend@, 0, j as nat)) by (nonlinear_arith)
                requires
                    n == limbs::value(dividend@, 0, j as nat) + w * from_j,
            ;
            crate::arith::lemma_div_mod_unique(
                n as int,
                w,
                from_j,
                limbs::value(dividend@, 0, j as nat) as int,
            );
            assert(short_operand(n, d as nat, j as nat) == d1);
            crate::arith::lemma_div_mod(d1 as int, d as int);
            assert(d1 as int / (d as int) < b) by (nonlinear_arith)
                requires
                    d1 == d * (d1 as int / (d as int)) + d1 as int % (d as int),
                    d1 as int % (d as int) >= 0,
                    d1 < d * b,
                    d > 0,
            ;
        }
        let path: usize = udiv_path(d1, d2);
        arms.paths[path] = arms.paths[path] + 1;
        proof {
            assert(arms.path_counts() =~= with_path(counts, d1 as nat, d as nat));
        }
        let q: u128 = d1 / d2;
        k = (d1 % d2) as u64;
        quotient[j] = q as u64;
        proof {
            let b = limbs::base();
            limbs::lemma_value_same(quotient@, above, j + 1, (3 - j) as nat);
            let up = limbs::value(dividend@, j + 1, (3 - j) as nat) as int;
            let upq = limbs::value(quotient@, j + 1, (3 - j) as nat) as int;
            assert(limb + b * up == d * (q + b * upq) + k) by (nonlinear_arith)
                requires
                    limb + b * up == upq * (d * b) + d1,
                    d1 == d * q + k,
            ;
        }
    }
    proof {
        crate::arith::lemma_div_mod_unique(
            n as int,
            d as int,
            limbs::words_value(quotient) as int,
            k as int,
        );
        assert(d * limbs::words_value(quotient) == limbs::words_value(quotient) * d)
            by (nonlinear_arith);
    }
    (quotient, arms)
}

/// The bit length of limbs whose top one is not zero.
proof fn lemma_value_bit_len(s: Seq<u64>, n: nat)
    requires
        n > 0,
        s[n - 1] != 0,
    ensures
        bits::bit_len(limbs::value(s, 0, n)) == 64 * (n - 1) + bits::bit_len(s[n - 1] as nat),
{
    let m = (n - 1) as nat;
    let x = limbs::value(s, 0, n);
    let top = s[n - 1] as nat;
    limbs::lemma_value_last(s, 0, m);
    limbs::lemma_value_bound(s, 0, m);
    limbs::lemma_weight(m);
    let w = limbs::weight(m) as int;
    assert(x == top * w + limbs::value(s, 0, m)) by (nonlinear_arith)
        requires
            x == limbs::value(s, 0, m) + w * top,
    ;
    crate::arith::lemma_div_mod_unique(x as int, w, top as int, limbs::value(s, 0, m) as int);
    assert(w <= x) by (nonlinear_arith)
        requires
            x == top * w + limbs::value(s, 0, m),
            top >= 1,
            w > 0,
            limbs::value(s, 0, m) >= 0,
    ;
    bits::lemma_bit_len_lower(x, 64 * m);
    bits::lemma_bit_len_shr(x, 64 * m);
}

/// The leading limbs are the quotient by the weight of the first of them.
proof fn lemma_leading_limbs(s: Seq<u64>, i: int, a: nat, b: nat)
    ensures
        limbs::value(s, i, a + b) / limbs::weight(a) == limbs::value(s, i + a, b),
{
    limbs::lemma_value_split(s, i, a, b);
    limbs::lemma_value_bound(s, i, a);
    limbs::lemma_weight(a);
    let w = limbs::weight(a) as int;
    let y = limbs::value(s, i + a, b) as int;
    assert(w * y == y * w) by (nonlinear_arith);
    crate::arith::lemma_div_mod_unique(
        limbs::value(s, i, a + b) as int,
        w,
        y,
        limbs::value(s, i, a) as int,
    );
}

/// Limbs whose value is below the weight of limb `a` are zero from limb `a` on.
proof fn lemma_high_limbs_zero(s: Seq<u64>, a: nat, b: nat)
    requires
        limbs::value(s, 0, a + b) < limbs::weight(a),
    ensures
        limbs::value(s, a as int, b) == 0,
        limbs::value(s, 0, a) == limbs::value(s, 0, a + b),
        forall|k: int| a <= k < a + b ==> s[k] == 0,
{
    lemma_leading_limbs(s, 0, a, b);
    limbs::lemma_value_split(s, 0, a, b);
    lemma_basic_div(limbs::value(s, 0, a + b) as int, limbs::weight(a) as int);
    assert(limbs::weight(a) * 0 == 0);
    limbs::lemma_value_zero_converse(s, a as int, b);
}

/// The leading limbs of a normalised divisor.
proof fn lemma_normal_divisor(s: Seq<u64>, v: nat, nv: nat)
    requires
        2 <= nv <= 4,
        s.len() == 4,
        limbs::value(s, 0, nv) == v,
        limbs::weight(nv) <= 2 * v,
    ensures
        v / limbs::weight((nv - 1) as nat) == s[nv - 1],
        v / limbs::weight((nv - 2) as nat) == s[nv - 1] * limbs::base() + s[nv - 2],
        s[nv - 1] >= 0x8000_0000_0000_0000,
        v < limbs::weight(nv),
{
    let m = (nv - 1) as nat;
    lemma_leading_limbs(s, 0, m, 1);
    lemma_leading_limbs(s, 0, (nv - 2) as nat, 2);
    reveal_with_fuel(limbs::value, 3);
    limbs::lemma_value_bound(s, 0, nv);
    limbs::lemma_weight(m);
    crate::arith::lemma_div_mod(v as int, limbs::weight(m) as int);
    let w = limbs::weight(m) as int;
    let top = s[nv - 1] as int;
    assert(2 * top + 2 > limbs::base()) by (nonlinear_arith)
        requires
            limbs::base() * w <= 2 * v,
            v == w * top + v as int % w,
            v as int % w < w,
            w > 0,
    ;
}

/// The limbs from which quotient digit `j` is found: the dividend from limb `j` on, which is below
/// a limb's weight times the divisor.
proof fn lemma_window(u: Seq<u64>, v: nat, nv: nat, j: nat)
    requires
        u.len() == 5,
        2 <= nv,
        j + nv <= 4,
        v < limbs::weight(nv),
        limbs::value(u, 0, 5) < v * limbs::weight(j + 1),
    ensures
        ({
            let r = limbs::value(u, 0, 5);
            let w = limbs::value(u, j as int, nv + 1);
            &&& r == limbs::value(u, 0, j) + limbs::weight(j) * w
            &&& limbs::value(u, 0, j) < limbs::weight(j)
            &&& w < v * limbs::base()
            &&& w == limbs::value(u, j as int, nv) + limbs::weight(nv) * u[(j + nv) as int]
            &&& r / limbs::weight((j + nv - 1) as nat) == w / limbs::weight((nv - 1) as nat)
            &&& r / limbs::weight((j + nv - 2) as nat) == w / limbs::weight((nv - 2) as nat)
            &&& w / limbs::weight((nv - 1) as nat) == u[(j + nv) as int] * limbs::base() + u[j + nv - 1]
            &&& w / limbs::weight((nv - 2) as nat) == (u[(j + nv) as int] * limbs::base() + u[j + nv - 1])
                * limbs::base() + u[j + nv - 2]
            &&& forall|k: int| j + nv < k < 5 ==> u[k] == 0
        }),
{
    let r = limbs::value(u, 0, 5);
    let w = limbs::value(u, j as int, nv + 1);
    let b = limbs::base();
    let h = j + nv + 1;
    let rest = (4 - j - nv) as nat;
    limbs::lemma_weight_adds(nv, j + 1);
    limbs::lemma_weight(j);
    limbs::lemma_weight(j + 1);
    let wj = limbs::weight(j) as int;
    assert(r < limbs::weight(h)) by (nonlinear_arith)
        requires
            r < v * limbs::weight(j + 1),
            v < limbs::weight(nv),
            limbs::weight(h) == limbs::weight(nv) * limbs::weight(j + 1),
            limbs::weight(j + 1) > 0,
    ;
    assert(h + rest == 5);
    lemma_high_limbs_zero(u, h, rest);
    limbs::lemma_value_split(u, 0, j, nv + 1);
    limbs::lemma_value_bound(u, 0, j);
    limbs::lemma_value_last(u, j as int, nv);
    assert(w < v * b) by (nonlinear_arith)
        requires
            wj * w <= r,
            r < v * (b * wj),
            wj > 0,
    ;
    let low = limbs::value(u, 0, j) as int;
    assert(r == w * wj + low) by (nonlinear_arith)
        requires
            r == low + wj * w,
    ;
    crate::arith::lemma_div_mod_unique(r as int, wj, w as int, low);
    let a1 = (nv - 1) as nat;
    let a2 = (nv - 2) as nat;
    limbs::lemma_weight(a1);
    limbs::lemma_weight(a2);
    limbs::lemma_weight_adds(j, a1);
    limbs::lemma_weight_adds(j, a2);
    lemma_div_denominator(r as int, wj, limbs::weight(a1) as int);
    lemma_div_denominator(r as int, wj, limbs::weight(a2) as int);
    lemma_leading_limbs(u, j as int, a1, 2);
    lemma_leading_limbs(u, j as int, a2, 3);
    reveal_with_fuel(limbs::value, 4);
    let (x2, x1, x0) = (u[(j + nv) as int] as int, u[j + nv - 1] as int, u[j + nv - 2] as int);
    assert(x0 + b * (x1 + b * x2) == (x2 * b + x1) * b + x0);
}

/// The remainder before digit `j` is the remainder of the whole by what the digits from `j + 1`
/// on divide by.
proof fn lemma_digit_rest(n: nat, v: nat, quotient: Seq<u64>, r: nat, j: nat)
    requires
        v > 0,
        quotient.len() == 4,
        j + 1 <= 4,
        n == v * limbs::value(quotient, 0, 4) + r,
        r < v * limbs::weight(j + 1),
        forall|k: int| 0 <= k <= j ==> quotient[k] == 0,
    ensures
        digit_rest(n, v, j) == r,
{
    limbs::lemma_value_split(quotient, 0, j + 1, (3 - j) as nat);
    limbs::lemma_value_zero(quotient, 0, j + 1);
    limbs::lemma_weight(j + 1);
    let w = limbs::weight(j + 1) as int;
    let q = limbs::value(quotient, (j + 1) as int, (3 - j) as nat) as int;
    assert(n == q * (v * w) + r) by (nonlinear_arith)
        requires
            n == v * (w * q) + r,
    ;
    assert(v * w > 0) by (nonlinear_arith)
        requires
            v > 0,
            w > 0,
    ;
    crate::arith::lemma_div_mod_unique(n as int, v * w, q, r as int);
}

/// What finding quotient digit `j` leaves: the remainder falls by the digit times the divisor, and
/// the quotient gains the digit.
proof fn lemma_digit_found(
    u: Seq<u64>,
    now: Seq<u64>,
    quotient: Seq<u64>,
    digits: Seq<u64>,
    n: nat,
    v: nat,
    nv: nat,
    j: nat,
)
    requires
        u.len() == 5,
        now.len() == 5,
        quotient.len() == 4,
        j + nv <= 4,
        2 <= nv,
        v > 0,
        v < limbs::weight(nv),
        limbs::value(u, 0, 5) < v * limbs::weight(j + 1),
        n == v * limbs::value(quotient, 0, 4) + limbs::value(u, 0, 5),
        forall|k: int| 0 <= k <= j ==> quotient[k] == 0,
        digits == quotient.update(
            j as int,
            (limbs::value(u, j as int, nv + 1) / v) as u64,
        ),
        limbs::value(u, j as int, nv + 1) / v < limbs::base(),
        forall|k: int| 0 <= k < j ==> u[k] == now[k],
        forall|k: int| j + nv < k < 5 ==> u[k] == now[k],
        limbs::value(now, j as int, nv + 1) == limbs::value(u, j as int, nv + 1) % v,
    ensures
        limbs::value(now, 0, 5) < v * limbs::weight(j),
        n == v * limbs::value(digits, 0, 4) + limbs::value(now, 0, 5),
        forall|k: int| 0 <= k < j ==> digits[k] == 0,
{
    lemma_window(u, v, nv, j);
    let w = limbs::value(u, j as int, nv + 1) as int;
    let rest = (4 - j - nv) as nat;
    let wj = limbs::weight(j) as int;
    limbs::lemma_weight(j);
    // The remainder.
    limbs::lemma_value_split(now, 0, j, nv + 1);
    limbs::lemma_value_split(now, 0, j + nv + 1, rest);
    limbs::lemma_value_zero(now, (j + nv + 1) as int, rest);
    limbs::lemma_value_same(now, u, 0, j);
    assert(limbs::weight(j + nv + 1) * 0 == 0);
    assert(j + nv + 1 + rest == 5);
    crate::arith::lemma_div_mod(w, v as int);
    let low = limbs::value(u, 0, j) as int;
    let left = w % v as int;
    let q = w / v as int;
    assert(limbs::value(now, 0, 5) == low + wj * left);
    assert(low + wj * left < v * wj) by (nonlinear_arith)
        requires
            low < wj,
            left + 1 <= v,
            wj > 0,
    ;
    // The quotient.
    limbs::lemma_value_split(quotient, 0, j, (4 - j) as nat);
    limbs::lemma_value_split(digits, 0, j, (4 - j) as nat);
    limbs::lemma_value_zero(quotient, 0, j);
    limbs::lemma_value_zero(digits, 0, j);
    limbs::lemma_value_same(quotient, digits, (j + 1) as int, (3 - j) as nat);
    let up = limbs::value(quotient, (j + 1) as int, (3 - j) as nat) as int;
    assert(limbs::value(quotient, j as int, (4 - j) as nat) == limbs::base() * up);
    assert(limbs::value(digits, j as int, (4 - j) as nat) == q + limbs::base() * up);
    assert(v * (wj * (limbs::base() * up)) + (low + wj * w) == v * (wj * (q + limbs::base() * up))
        + (low + wj * left)) by (nonlinear_arith)
        requires
            w == q * v + left,
    ;
}

/// The limb of the dividend at `at`, where limb 4 is kept apart as the carry.
fn limb_at(dividend: &[u64; 4], carry: u64, at: usize) -> (r: u64)
    requires
        at <= 4,
    ensures
        r == dividend@.push(carry)[at as int],
{
    if at == 4 {
        carry
    } else {
        dividend[at]
    }
}

/// Find quotient digit `j` of the normalised dividend, leave in the dividend what is left of it,
/// and return the digit and the number of corrections that its estimate took.
fn divide_digit(
    dividend: &mut [u64; 4],
    carry: &mut u64,
    divisor: &[u64; 4],
    nv: usize,
    j: usize,
) -> (r: (u64, u32))
    requires
        2 <= nv,
        j + nv <= 4,
        limbs::weight(nv as nat) <= 2 * limbs::value(divisor@, 0, nv as nat),
        limbs::value(old(dividend)@.push(*old(carry)), 0, 5) < limbs::value(divisor@, 0, nv as nat)
            * limbs::weight(j as nat + 1),
    ensures
        ({
            let v = limbs::value(divisor@, 0, nv as nat);
            let u = old(dividend)@.push(*old(carry));
            let now = final(dividend)@.push(*final(carry));
            let w = limbs::value(u, j as int, nv as nat + 1);
            let k = limbs::weight((nv - 2) as nat);
            let e = (w / k) / (v / k);
            &&& r.0 == w / v
            &&& w / v < limbs::base()
            &&& r.1 == (w / limbs::weight((nv - 1) as nat)) / (v / limbs::weight((nv - 1) as nat))
                - (if e < limbs::base() {
                e as int
            } else {
                limbs::base() - 1
            })
            &&& r.1 <= 2
            &&& limbs::value(now, j as int, nv as nat + 1) == w % v
            &&& forall|m: int| 0 <= m < 5 && !(j <= m <= j + nv) ==> u[m] == now[m]
        }),
{
    let ghost start = dividend@;
    let ghost v = limbs::value(divisor@, 0, nv as nat);
    let ghost u = dividend@.push(*carry);
    let ghost w = limbs::value(u, j as int, nv as nat + 1);
    let ghost n = nv as nat;
    let ghost wt = limbs::weight(n) as int;
    let div_hi: u64 = limb_at(dividend, *carry, j + nv);
    proof {
        lemma_normal_divisor(divisor@, v, n);
        lemma_window(u, v, n, j as nat);
        lemma_digit(w, v, n);
        limbs::lemma_weight(n);
        let m = (nv - 2) as nat;
        limbs::lemma_weight(m);
        let k = limbs::weight(m) as int;
        crate::arith::lemma_div_mod(v as int, k);
        crate::arith::lemma_div_mod(w as int, k);
        assert(w as int / k < (v as int / k + 1) * limbs::base()) by (nonlinear_arith)
            requires
                w < v * limbs::base(),
                v == k * (v as int / k) + v as int % k,
                v as int % k < k,
                w == k * (w as int / k) + w as int % k,
                w as int % k >= 0,
                k > 0,
        {
            let v2 = v as int / k;
            let w3 = w as int / k;
            assert(v * limbs::base() <= (k * (v2 + 1)) * limbs::base());
            assert((k * (v2 + 1)) * limbs::base() == k * ((v2 + 1) * limbs::base()));
            assert(k * w3 < k * ((v2 + 1) * limbs::base()));
        }
    }
    let (estimate, corrections) = estimate_digit(
        div_hi,
        dividend[j + nv - 1],
        dividend[j + nv - 2],
        divisor[nv - 1],
        divisor[nv - 2],
    );
    let mut qhat: u64 = estimate;
    let ghost q = w as int / v as int;
    proof {
        crate::arith::lemma_div_mod(w as int, v as int);
        assert(q <= qhat <= q + 1);
    }
    let borrow: u64 = multiply_subtract(dividend, divisor, nv, j, qhat);
    let ghost mid = dividend@;
    let head: u64 = div_hi.wrapping_sub(borrow);
    if j + nv == 4 {
        *carry = head;
    } else {
        dividend[j + nv] = head;
    }
    proof {
        limbs::lemma_value_same(u, start, j as int, n);
        limbs::lemma_value_same(mid, dividend@, j as int, n);
        limbs::lemma_value_bound(mid, j as int, n);
        // What the subtraction makes of the window, before the borrow wraps.
        assert(w - qhat * v == limbs::value(mid, j as int, n) + wt * (div_hi - borrow))
            by (nonlinear_arith)
            requires
                w == limbs::value(start, j as int, n) + wt * div_hi,
                limbs::value(mid, j as int, n) + qhat * v == limbs::value(
                    start,
                    j as int,
                    n,
                ) + borrow * wt,
        ;
    }
    if borrow > div_hi {
        proof {
            assert(w - qhat * v < 0) by (nonlinear_arith)
                requires
                    w - qhat * v == limbs::value(mid, j as int, n) + wt * (div_hi - borrow),
                    limbs::value(mid, j as int, n) < wt,
                    div_hi - borrow <= -1,
                    wt > 0,
            ;
            assert(qhat == q + 1) by (nonlinear_arith)
                requires
                    w - qhat * v < 0,
                    w == q * v + w as int % v as int,
                    w as int % v as int >= 0,
                    q <= qhat <= q + 1,
            ;
        }
        qhat = qhat - 1;
        let ghost held = dividend@;
        let k: u64 = add_back(dividend, divisor, nv, j);
        let ghost back = dividend@;
        let above: u64 = limb_at(dividend, *carry, j + nv);
        let new_head: u64 = above.wrapping_add(k);
        if j + nv == 4 {
            *carry = new_head;
        } else {
            dividend[j + nv] = new_head;
        }
        proof {
            limbs::lemma_value_same(back, dividend@, j as int, n);
            limbs::lemma_value_bound(back, j as int, n);
            let x = limbs::value(back, j as int, n) as int;
            let step = k + div_hi - borrow;
            assert(w - q * v == x + wt * step) by (nonlinear_arith)
                requires
                    w - (q + 1) * v == limbs::value(mid, j as int, n) + wt * (div_hi - borrow),
                    x + k * wt == limbs::value(mid, j as int, n) + v,
                    step == k + div_hi - borrow,
            ;
            assert(step == 0) by (nonlinear_arith)
                requires
                    0 <= x + wt * step < wt,
                    0 <= x < wt,
            ;
            assert(new_head == 0);
        }
    } else {
        proof {
            assert(w - qhat * v >= 0) by (nonlinear_arith)
                requires
                    w - qhat * v == limbs::value(mid, j as int, n) + wt * (div_hi - borrow),
                    limbs::value(mid, j as int, n) >= 0,
                    div_hi - borrow >= 0,
                    wt > 0,
            ;
            assert(qhat == q) by (nonlinear_arith)
                requires
                    w - qhat * v >= 0,
                    w == q * v + w as int % v as int,
                    w as int % (v as int) < v,
                    q <= qhat <= q + 1,
            ;
        }
    }
    proof {
        let now = dividend@.push(*carry);
        limbs::lemma_value_last(now, j as int, n);
        limbs::lemma_value_same(now, dividend@, j as int, n);
        assert(wt * 0 == 0);
    }
    (qhat, corrections)
}

/// Divide by two limbs or more: the normalised long division.
fn long_division(dividend: [u64; 4], divisor: [u64; 4], nd: usize, nv: usize) -> (r: (
    [u64; 4],
    DivArms,
))
    requires
        2 <= nv <= nd <= 4,
        nd == limbs::word_count(limbs::words_value(dividend)),
        nv == limbs::word_count(limbs::words_value(divisor)),
        dividend[nd - 1] != 0,
        divisor[nv - 1] != 0,
        forall|k: int| nd <= k < 4 ==> dividend[k] == 0,
        forall|k: int| nv <= k < 4 ==> divisor[k] == 0,
        nd >= 3,
    ensures
        limbs::words_value(r.0) == limbs::words_value(dividend) / limbs::words_value(divisor),
        counted(r.1, limbs::words_value(dividend), limbs::words_value(divisor)),
{
    let ghost n = limbs::words_value(dividend);
    let ghost d = limbs::words_value(divisor);
    let mut arms = DivArms::default();
    let mut quotient: [u64; 4] = [0;4];
    let s: u32 = leading_zeros_u64(divisor[nv - 1]);
    let b: u32 = leading_zeros_u64(dividend[nd - 1]);
    proof {
        bits::lemma_word_powers();
        bits::lemma_bit_len(divisor[nv - 1] as nat);
        bits::lemma_bit_len(dividend[nd - 1] as nat);
        lemma_trimmed(divisor@, nv as nat);
        lemma_value_bit_len(divisor@, nv as nat);
        assert(normal_shift(d) == s);
    }
    let ghost scale = pow2(s as nat);
    let ghost scaled = n * scale;
    let ghost v = d * scale;
    let ghost top = (nd - nv) as nat;
    if s > 0 {
        arms.normalized = 1;
    }
    let mut carry: u64 = 0;
    if nd == 4 && b < s {
        carry = dividend[nd - 1] >> (64 - s);
    }
    proof {
        lemma_carry(dividend, nd, s, b);
        lemma_scaled_divisor(d, nv as nat, s as nat);
        lemma_scaled_dividend(dividend, nd as nat, d, nv as nat, s as nat);
    }
    let ghost out = limbs::shifted_out(divisor, s);
    let mut dividend: [u64; 4] = shift_left(dividend, s);
    let divisor: [u64; 4] = shift_left(divisor, s);
    proof {
        lemma_divisor_limbs(divisor, out, v, nv as nat);
        limbs::lemma_value_last(dividend@.push(carry), 0, 4);
        limbs::lemma_value_same(dividend@.push(carry), dividend@, 0, 4);
        limbs::lemma_value_zero(quotient@, 0, 4);
        assert(v * 0 == 0);
        assert(limbs::value(dividend@.push(carry), 0, 5) == scaled);
    }
    let mut j: usize = nd - nv + 1;
    while j > 0
        invariant
            j <= nd - nv + 1,
            2 <= nv <= nd <= 4,
            top == nd - nv,
            v > 0,
            v < limbs::weight(nv as nat),
            limbs::weight(nv as nat) <= 2 * v,
            limbs::value(divisor@, 0, nv as nat) == v,
            limbs::value(dividend@.push(carry), 0, 5) < v * limbs::weight(j as nat),
            scaled == v * limbs::value(quotient@, 0, 4) + limbs::value(
                dividend@.push(carry),
                0,
                5,
            ),
            forall|k: int| 0 <= k < j ==> quotient[k] == 0,
            arms.path_counts() == long_paths(scaled, v, nv as nat, top, j as nat),
            arms.corrections == long_corrections(scaled, v, nv as nat, top, j as nat),
            arms.corrections <= 2 * (top + 1 - j),
            forall|p: int| 0 <= p < UDIV_PATHS ==> #[trigger] arms.paths[p] <= top + 1 - j,
            arms.normalized == (if s > 0 {
                1int
            } else {
                0
            }),
        decreases j,
    {
        let ghost counts = arms.path_counts();
        let ghost u = dividend@.push(carry);
        let ghost before = quotient@;
        j = j - 1;
        let div_hi: u64 = limb_at(&dividend, carry, j + nv);
        let div_lo: u64 = dividend[j + nv - 1];
        let d0: u128 = ((div_hi as u128) << 64) | div_lo as u128;
        let d1: u128 = divisor[nv - 1] as u128;
        proof {
            assert(((div_hi as u128) << 64) | div_lo as u128 == (div_hi as u128)
                * 0x1_0000_0000_0000_0000 + (div_lo as u128)) by (bit_vector);
            lemma_normal_divisor(divisor@, v, nv as nat);
            lemma_window(u, v, nv as nat, j as nat);
            lemma_digit_rest(scaled, v, quotient@, limbs::value(u, 0, 5), j as nat);
            assert(d0 == digit_top(scaled, v, nv as nat, j as nat));
        }
        let path: usize = udiv_path(d0, d1);
        arms.paths[path] = arms.paths[path] + 1;
        proof {
            assert(arms.path_counts() =~= with_path(counts, d0 as nat, d1 as nat));
        }
        let (digit, corrections) = divide_digit(&mut dividend, &mut carry, &divisor, nv, j);
        arms.corrections = arms.corrections + corrections;
        quotient[j] = digit;
        proof {
            lemma_digit_found(
                u,
                dividend@.push(carry),
                before,
                quotient@,
                scaled,
                v,
                nv as nat,
                j as nat,
            );
        }
    }
    proof {
        let q = limbs::words_value(quotient) as int;
        let r = limbs::value(dividend@.push(carry), 0, 5) as int;
        limbs::lemma_weight(0);
        lemma_pow2_pos(s as nat);
        assert(v * limbs::weight(0) == v) by (nonlinear_arith)
            requires
                limbs::weight(0) == 1,
        ;
        // Undo the scaling: the quotient of the scaled numbers is the quotient of the numbers.
        assert(q * v == v * q) by (nonlinear_arith);
        crate::arith::lemma_div_mod_unique(scaled as int, v as int, q, r);
        assert(q * d <= n) by (nonlinear_arith)
            requires
                n * scale == q * (d * scale) + r,
                r >= 0,
                scale > 0,
        ;
        assert(n < (q + 1) * d) by (nonlinear_arith)
            requires
                n * scale == q * (d * scale) + r,
                r < d * scale,
                scale > 0,
        ;
        assert((q + 1) * d == q * d + d) by (nonlinear_arith);
        crate::arith::lemma_div_mod_unique(n as int, d as int, q, n - q * d);
    }
    (quotient, arms)
}

/// Limbs above the highest one that is not zero add nothing.
proof fn lemma_trimmed(s: Seq<u64>, n: nat)
    requires
        s.len() == 4,
        n <= 4,
        forall|k: int| n <= k < 4 ==> s[k] == 0,
    ensures
        limbs::value(s, 0, 4) == limbs::value(s, 0, n),
{
    limbs::lemma_value_split(s, 0, n, (4 - n) as nat);
    limbs::lemma_value_zero(s, n as int, (4 - n) as nat);
    assert(limbs::weight(n) * 0 == 0);
}

/// The carry is the limb that the normalising shift pushes out of the dividend.
proof fn lemma_carry(dividend: [u64; 4], nd: usize, s: u32, b: u32)
    requires
        3 <= nd <= 4,
        s < 64,
        dividend[nd - 1] != 0,
        b == 64 - bits::bit_len(dividend[nd - 1] as nat),
        forall|k: int| nd <= k < 4 ==> dividend[k] == 0,
    ensures
        limbs::shifted_out(dividend, s) == (if nd == 4 && b < s {
            dividend[nd - 1] >> ((64 - s) as u32)
        } else {
            0
        }),
{
    if s > 0 && !(nd == 4 && b < s) {
        let x = dividend[3];
        let t = (64 - s) as nat;
        lemma_u64_shr_is_div(x, t as u64);
        lemma_pow2_pos(t);
        bits::lemma_bit_len(x as nat);
        bits::lemma_pow2_monotone(bits::bit_len(x as nat), t);
        lemma_basic_div(x as int, pow2(t) as int);
    }
}

/// The scaled divisor fills its limbs.
proof fn lemma_scaled_divisor(d: nat, nv: nat, s: nat)
    requires
        d > 0,
        nv > 0,
        bits::bit_len(d) + s == 64 * nv,
    ensures
        d * pow2(s) > 0,
        d * pow2(s) < limbs::weight(nv),
        limbs::weight(nv) <= 2 * (d * pow2(s)),
{
    let l = bits::bit_len(d);
    bits::lemma_bit_len(d);
    lemma_pow2_pos(s);
    lemma_pow2_adds(l, s);
    lemma_pow2_adds((l - 1) as nat, s);
    lemma_pow2_unfold(64 * nv);
    assert((l - 1) as nat + s == (64 * nv - 1) as nat);
    assert(d * pow2(s) < pow2(l) * pow2(s)) by (nonlinear_arith)
        requires
            d < pow2(l),
            pow2(s) > 0,
    ;
    assert(pow2((l - 1) as nat) * pow2(s) <= d * pow2(s)) by (nonlinear_arith)
        requires
            pow2((l - 1) as nat) <= d,
            pow2(s) > 0,
    ;
    lemma_pow2_pos((64 * nv - 1) as nat);
}

/// The scaled dividend is below the scaled divisor times the weight of the limb above the topmost
/// quotient digit.
proof fn lemma_scaled_dividend(dividend: [u64; 4], nd: nat, d: nat, nv: nat, s: nat)
    requires
        2 <= nv <= nd <= 4,
        s < 64,
        forall|k: int| nd <= k < 4 ==> dividend[k] == 0,
        limbs::weight(nv) <= 2 * (d * pow2(s)),
    ensures
        limbs::words_value(dividend) * pow2(s) < (d * pow2(s)) * limbs::weight((nd - nv + 1) as nat),
{
    let n = limbs::words_value(dividend) as int;
    let v = (d * pow2(s)) as int;
    let t = (nd - nv + 1) as nat;
    lemma_trimmed(dividend@, nd);
    limbs::lemma_value_bound(dividend@, 0, nd);
    limbs::lemma_weight_adds(nv, t);
    limbs::lemma_weight(nd);
    limbs::lemma_weight(t);
    lemma_pow2_pos(s);
    bits::lemma_word_powers();
    bits::lemma_pow2_monotone(s, 63);
    lemma_pow2_pos(t * 64);
    let w = limbs::weight(nd) as int;
    let wt = limbs::weight(t) as int;
    assert(nv + t == nd + 1);
    assert(2 * (v * wt) >= limbs::base() * w) by (nonlinear_arith)
        requires
            limbs::weight(nv) <= 2 * v,
            limbs::weight(nv) * wt == limbs::base() * w,
            wt > 0,
    ;
    assert(n * pow2(s) < w * 0x8000_0000_0000_0000) by (nonlinear_arith)
        requires
            0 <= n < w,
            0 < pow2(s) <= 0x8000_0000_0000_0000,
    ;
}

/// The shifted divisor's limbs hold the scaled divisor.
proof fn lemma_divisor_limbs(divisor: [u64; 4], out: u64, v: nat, nv: nat)
    requires
        2 <= nv <= 4,
        v < limbs::weight(nv),
        limbs::words_value(divisor) + limbs::weight(4) * out == v,
    ensures
        limbs::value(divisor@, 0, nv) == v,
{
    bits::lemma_pow2_monotone(64 * nv, 64 * 4);
    assert(out == 0) by (nonlinear_arith)
        requires
            limbs::words_value(divisor) + limbs::weight(4) * out == v,
            v < limbs::weight(4),
            limbs::words_value(divisor) >= 0,
            out >= 0,
    ;
    assert(limbs::weight(4) * 0 == 0);
    lemma_high_limbs_zero(divisor@, nv, (4 - nv) as nat);
}

/// The on-chain division of two 256-bit numbers, limb for limb, with what it counts: the quotient
/// where the division has quotient steps, and zero for the divisions that are answered at once or
/// with one `u128` division.
pub fn chain_div_arms(dividend: [u64; 4], divisor: [u64; 4]) -> (r: ([u64; 4], DivArms))
    ensures
        has_steps(limbs::words_value(dividend), limbs::words_value(divisor)) ==> limbs::words_value(
            r.0,
        ) == limbs::words_value(dividend) / limbs::words_value(divisor),
        !has_steps(limbs::words_value(dividend), limbs::words_value(divisor)) ==> r.0@ == seq![
            0u64,
            0u64,
            0u64,
            0u64,
        ],
        counted(r.1, limbs::words_value(dividend), limbs::words_value(divisor)),
{
    let nd: usize = num_words(&dividend);
    let nv: usize = num_words(&divisor);
    if nv == 0 || nd == 0 || nd < nv || nd < 3 {
        return ([0;4], DivArms::default());
    }
    if nv == 1 {
        proof {
            lemma_trimmed(divisor@, 1);
            reveal_with_fuel(limbs::value, 2);
        }
        return short_division(&dividend, divisor[0], nd);
    }
    long_division(dividend, divisor, nd, nv)
}

} // verus!
