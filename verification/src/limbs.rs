//! Numbers as little-endian sequences of 64-bit limbs.

use crate::bits;
use vstd::arithmetic::div_mod::*;
use vstd::arithmetic::power2::*;
use vstd::bits::*;
use vstd::prelude::*;

verus! {

/// One more than the largest limb.
pub open spec fn base() -> int {
    0x1_0000_0000_0000_0000
}

/// The weight of limb `k`.
pub open spec fn weight(k: nat) -> nat {
    pow2(64 * k)
}

/// The number that the `n` limbs from `s[i]` on hold.
pub open spec fn value(s: Seq<u64>, i: int, n: nat) -> nat
    decreases n,
{
    if n == 0 {
        0
    } else {
        (s[i] + base() * value(s, i + 1, (n - 1) as nat)) as nat
    }
}

/// The number that four limbs hold.
pub open spec fn words_value(w: [u64; 4]) -> nat {
    value(w@, 0, 4)
}

/// The number of limbs up to the highest one that is not zero.
pub open spec fn word_count(x: nat) -> nat {
    (bits::bit_len(x) + 63) / 64
}

pub proof fn lemma_weight(k: nat)
    ensures
        weight(0) == 1,
        weight(1) == base(),
        weight(k) > 0,
        weight(k + 1) == base() * weight(k),
{
    lemma2_to64();
    bits::lemma_word_powers();
    lemma_pow2_pos(64 * k);
    lemma_pow2_adds(64, 64 * k);
    assert(64 * (k + 1) == 64 + 64 * k);
}

pub proof fn lemma_weight_adds(a: nat, b: nat)
    ensures
        weight(a + b) == weight(a) * weight(b),
{
    lemma_pow2_adds(64 * a, 64 * b);
    assert(64 * (a + b) == 64 * a + 64 * b);
}

/// The value of `n` limbs is below the weight of the next one.
pub proof fn lemma_value_bound(s: Seq<u64>, i: int, n: nat)
    ensures
        value(s, i, n) < weight(n),
    decreases n,
{
    lemma_weight(0);
    if n > 0 {
        let m = (n - 1) as nat;
        lemma_value_bound(s, i + 1, m);
        lemma_weight(m);
        assert(s[i] + base() * value(s, i + 1, m) < base() * weight(m)) by (nonlinear_arith)
            requires
                0 <= s[i] < base(),
                value(s, i + 1, m) + 1 <= weight(m),
                base() > 0,
        ;
    }
}

/// The value of limbs in two parts.
pub proof fn lemma_value_split(s: Seq<u64>, i: int, a: nat, b: nat)
    ensures
        value(s, i, a + b) == value(s, i, a) + weight(a) * value(s, i + a, b),
    decreases a,
{
    lemma_weight(0);
    if a == 0 {
        assert(weight(0) * value(s, i, b) == value(s, i, b)) by (nonlinear_arith)
            requires
                weight(0) == 1,
        ;
    } else {
        let m = (a - 1) as nat;
        lemma_value_split(s, i + 1, m, b);
        lemma_weight(m);
        let x = value(s, i + 1, m) as int;
        let y = value(s, i + a, b) as int;
        assert(base() * (x + weight(m) * y) == base() * x + (base() * weight(m)) * y)
            by (nonlinear_arith);
        assert((a + b - 1) as nat == m + b);
    }
}

/// The value of limbs with the highest one apart.
pub proof fn lemma_value_last(s: Seq<u64>, i: int, n: nat)
    ensures
        value(s, i, n + 1) == value(s, i, n) + weight(n) * s[i + n],
{
    lemma_value_split(s, i, n, 1);
    reveal_with_fuel(value, 2);
}

/// The value depends on the limbs alone.
pub proof fn lemma_value_same(s: Seq<u64>, t: Seq<u64>, i: int, n: nat)
    requires
        forall|k: int| i <= k < i + n ==> s[k] == t[k],
    ensures
        value(s, i, n) == value(t, i, n),
    decreases n,
{
    if n > 0 {
        lemma_value_same(s, t, i + 1, (n - 1) as nat);
    }
}

/// Limbs that are zero hold zero.
pub proof fn lemma_value_zero(s: Seq<u64>, i: int, n: nat)
    requires
        forall|k: int| i <= k < i + n ==> s[k] == 0,
    ensures
        value(s, i, n) == 0,
    decreases n,
{
    if n > 0 {
        lemma_value_zero(s, i + 1, (n - 1) as nat);
    }
}

/// Limbs that hold zero are zero.
pub proof fn lemma_value_zero_converse(s: Seq<u64>, i: int, n: nat)
    requires
        value(s, i, n) == 0,
    ensures
        forall|k: int| i <= k < i + n ==> s[k] == 0,
    decreases n,
{
    if n > 0 {
        assert(s[i] == 0 && value(s, i + 1, (n - 1) as nat) == 0) by (nonlinear_arith)
            requires
                s[i] + base() * value(s, i + 1, (n - 1) as nat) == 0,
                s[i] >= 0,
                value(s, i + 1, (n - 1) as nat) >= 0,
                base() > 0,
        ;
        lemma_value_zero_converse(s, i + 1, (n - 1) as nat);
    }
}

/// The limb count is `n` for the numbers between the weights of limb `n - 1` and limb `n`.
pub proof fn lemma_word_count(x: nat, n: nat)
    requires
        n > 0,
        weight((n - 1) as nat) <= x < weight(n),
    ensures
        word_count(x) == n,
{
    bits::lemma_bit_len_lower(x, (64 * (n - 1)) as nat);
    bits::lemma_bit_len_upper(x, 64 * n);
    assert(64 * ((n - 1) as nat) == (64 * (n - 1)) as nat);
}

/// Four limbs written out.
pub proof fn lemma_words_value(w: [u64; 4])
    ensures
        words_value(w) == w[0] + base() * (w[1] + base() * (w[2] + base() * w[3])),
        words_value(w) < weight(4),
{
    reveal_with_fuel(value, 5);
    lemma_value_bound(w@, 0, 4);
}

/// The number of limbs up to the highest one that is not zero.
pub fn num_words(w: &[u64; 4]) -> (r: usize)
    ensures
        r == word_count(words_value(*w)),
        r <= 4,
        r == 0 <==> words_value(*w) == 0,
        r > 0 ==> w[r - 1] != 0,
        forall|k: int| r <= k < 4 ==> w[k] == 0,
{
    let mut i: usize = 4;
    while i > 0
        invariant
            i <= 4,
            forall|k: int| i <= k < 4 ==> w[k] == 0,
        decreases i,
    {
        if w[i - 1] != 0 {
            proof {
                let m = (i - 1) as nat;
                lemma_value_split(w@, 0, i as nat, (4 - i) as nat);
                lemma_value_zero(w@, i as int, (4 - i) as nat);
                lemma_value_last(w@, 0, m);
                lemma_value_bound(w@, 0, i as nat);
                lemma_weight(m);
                assert(weight(m) <= weight(m) * w[m as int]) by (nonlinear_arith)
                    requires
                        w[m as int] >= 1,
                        weight(m) > 0,
                ;
                assert(weight(i as nat) * value(w@, i as int, (4 - i) as nat) == 0)
                    by (nonlinear_arith)
                    requires
                        value(w@, i as int, (4 - i) as nat) == 0,
                ;
                lemma_word_count(words_value(*w), i as nat);
            }
            return i;
        }
        i = i - 1;
    }
    proof {
        lemma_value_zero(w@, 0, 4);
    }
    0
}

/// A limb shifted left, with what is shifted out of it.
proof fn lemma_limb_shift(x: u64, y: u64, s: u32)
    requires
        0 < s < 64,
    ensures
        (x >> ((64 - s) as u32)) * base() + (x << s) == x * pow2(s as nat),
        ((x << s) | (y >> ((64 - s) as u32))) == (x << s) + (y >> ((64 - s) as u32)),
{
    let t: u32 = (64 - s) as u32;
    let wide: u128 = x as u128;
    let hi: u64 = x >> t;
    let lo: u64 = x << s;
    assert((hi as u128) * 0x1_0000_0000_0000_0000u128 + (lo as u128) == wide << s) by (bit_vector)
        requires
            0 < s < 64,
            t == 64 - s,
            wide == x as u128,
            hi == x >> t,
            lo == x << s,
    ;
    bits::lemma_word_powers();
    bits::lemma_pow2_monotone(s as nat, 64);
    assert(x * pow2(s as nat) < 0x1_0000_0000_0000_0000 * 0x1_0000_0000_0000_0000)
        by (nonlinear_arith)
        requires
            0 <= x < 0x1_0000_0000_0000_0000,
            0 <= pow2(s as nat) <= 0x1_0000_0000_0000_0000,
    ;
    bits::lemma_u128_shl_is_mul(wide, s);
    assert(((x << s) | (y >> t)) == (x << s) + (y >> t)) by (bit_vector)
        requires
            0 < s < 64,
            t == 64 - s,
    ;
}

/// The limb that a left shift of four limbs by less than a limb pushes out at the top.
pub open spec fn shifted_out(w: [u64; 4], s: u32) -> u64 {
    if s == 0 {
        0
    } else {
        w[3] >> ((64 - s) as u32)
    }
}

/// Four limbs shifted left by less than a limb.
pub fn shift_left(w: [u64; 4], s: u32) -> (r: [u64; 4])
    requires
        s < 64,
    ensures
        words_value(r) + weight(4) * shifted_out(w, s) == words_value(w) * pow2(s as nat),
{
    let mut r = w;
    proof {
        lemma2_to64();
        lemma_words_value(w);
        assert(words_value(w) * pow2(0) == words_value(w) && weight(4) * 0 == 0) by (nonlinear_arith)
            requires
                pow2(0) == 1,
        ;
    }
    if s > 0 {
        let t: u32 = 64 - s;
        r[3] = (w[3] << s) | (w[2] >> t);
        r[2] = (w[2] << s) | (w[1] >> t);
        r[1] = (w[1] << s) | (w[0] >> t);
        r[0] = w[0] << s;
        proof {
            lemma_words_value(r);
            lemma_limb_shift(w[3], w[2], s);
            lemma_limb_shift(w[2], w[1], s);
            lemma_limb_shift(w[1], w[0], s);
            lemma_limb_shift(w[0], 0, s);
            lemma_weight(0);
            lemma_weight(1);
            lemma_weight(2);
            lemma_weight(3);
            let p = pow2(s as nat) as int;
            let out = shifted_out(w, s) as int;
            assert(weight(4) * out == base() * (base() * (base() * (base() * out))))
                by (nonlinear_arith)
                requires
                    weight(4) == base() * (base() * (base() * base())),
            ;
            let (w0, w1, w2, w3) = (w[0] as int, w[1] as int, w[2] as int, w[3] as int);
            assert((w0 + base() * (w1 + base() * (w2 + base() * w3))) * p == w0 * p + base() * (w1
                * p + base() * (w2 * p + base() * (w3 * p)))) by (nonlinear_arith);
        }
    }
    r
}

} // verus!
