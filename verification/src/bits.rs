//! Bit lengths of natural numbers, and the shifts of `u64` and `u128` words as multiplications
//! and divisions by powers of two.

use vstd::arithmetic::div_mod::*;
use vstd::arithmetic::power2::*;
use vstd::bits::*;
use vstd::prelude::*;
use vstd::std_specs::bits::*;

verus! {

/// The number of bits needed to write `x` in binary: `0` for `0`, and otherwise the position of
/// the highest set bit plus one.
pub open spec fn bit_len(x: nat) -> nat
    decreases x,
{
    if x == 0 {
        0
    } else {
        1 + bit_len(x / 2)
    }
}

/// `x` lies between the powers of two that its bit length names.
pub proof fn lemma_bit_len(x: nat)
    ensures
        x < pow2(bit_len(x)),
        x > 0 ==> bit_len(x) > 0 && pow2((bit_len(x) - 1) as nat) <= x,
        x == 0 <==> bit_len(x) == 0,
    decreases x,
{
    lemma2_to64();
    if x > 0 {
        lemma_bit_len(x / 2);
        lemma_pow2_unfold(bit_len(x));
        if x / 2 > 0 {
            lemma_pow2_unfold((bit_len(x) - 1) as nat);
        }
    }
}

pub proof fn lemma_pow2_monotone(a: nat, b: nat)
    requires
        a <= b,
    ensures
        pow2(a) <= pow2(b),
{
    if a < b {
        lemma_pow2_strictly_increases(a, b);
    }
}

/// A number below `2^n` has at most `n` bits.
pub proof fn lemma_bit_len_upper(x: nat, n: nat)
    requires
        x < pow2(n),
    ensures
        bit_len(x) <= n,
{
    lemma_bit_len(x);
    if bit_len(x) > n {
        lemma_pow2_monotone(n, (bit_len(x) - 1) as nat);
    }
}

/// A number of at least `2^n` has more than `n` bits.
pub proof fn lemma_bit_len_lower(x: nat, n: nat)
    requires
        pow2(n) <= x,
    ensures
        n < bit_len(x),
{
    lemma_bit_len(x);
    if bit_len(x) <= n {
        lemma_pow2_monotone(bit_len(x), n);
    }
}

/// The powers of two at which words end.
pub proof fn lemma_word_powers()
    ensures
        pow2(31) == 0x8000_0000,
        pow2(32) == 0x1_0000_0000,
        pow2(63) == 0x8000_0000_0000_0000,
        pow2(64) == 0x1_0000_0000_0000_0000,
        pow2(96) == 0x1_0000_0000_0000_0000_0000_0000,
        pow2(127) == 0x8000_0000_0000_0000_0000_0000_0000_0000,
        pow2(128) == 0x1_0000_0000_0000_0000_0000_0000_0000_0000,
{
    lemma2_to64();
    lemma2_to64_rest();
    lemma_pow2_adds(32, 64);
    lemma_pow2_adds(64, 64);
    lemma_pow2_adds(63, 64);
}

/// The low `n` bits of a number dropped leave the number of bits reduced by `n`.
pub proof fn lemma_bit_len_shr(x: nat, n: nat)
    requires
        n <= bit_len(x),
    ensures
        bit_len(x / pow2(n)) == bit_len(x) - n,
{
    lemma_bit_len(x);
    lemma_pow2_pos(n);
    let b = bit_len(x);
    let q = x / pow2(n);
    if b > n {
        let lo = pow2((b - n - 1) as nat);
        let hi = pow2((b - n) as nat);
        lemma_pow2_adds(n, (b - n - 1) as nat);
        lemma_pow2_adds(n, (b - n) as nat);
        crate::arith::lemma_floor_at_least(x as int, pow2(n) as int, lo as int);
        crate::arith::lemma_floor_at_least(x as int, pow2(n) as int, hi as int);
        lemma_bit_len_lower(q, (b - n - 1) as nat);
        lemma_bit_len_upper(q, (b - n) as nat);
    } else {
        lemma_basic_div(x as int, pow2(n) as int);
    }
}

/// `<<` on a `u128` is multiplication by a power of two where nothing is shifted out.
#[verifier::rlimit(40)]
pub proof fn lemma_u128_shl_is_mul(x: u128, s: u32)
    requires
        s < 128,
        x * pow2(s as nat) < 0x1_0000_0000_0000_0000_0000_0000_0000_0000,
    ensures
        (x << s) == x * pow2(s as nat),
    decreases s,
{
    lemma2_to64();
    if s == 0 {
        assert(x << s == x) by (bit_vector)
            requires
                s == 0,
        ;
        assert(x * pow2(0) == x) by (nonlinear_arith)
            requires
                pow2(0) == 1,
        ;
    } else {
        let t: u32 = (s - 1) as u32;
        lemma_pow2_unfold(s as nat);
        lemma_pow2_pos(t as nat);
        assert(x * pow2(s as nat) == 2 * (x * pow2(t as nat))) by (nonlinear_arith)
            requires
                pow2(s as nat) == 2 * pow2(t as nat),
        ;
        lemma_u128_shl_is_mul(x, t);
        let y: u128 = x << t;
        assert((x << s) == y << 1u32) by (bit_vector)
            requires
                s < 128,
                s >= 1,
                t == s - 1,
                y == x << t,
        ;
        assert((y << 1u32) == 2 * y) by (bit_vector)
            requires
                y < 0x8000_0000_0000_0000_0000_0000_0000_0000u128,
        ;
    }
}

/// The leading zeros that `u64::leading_zeros` counts are those that the bit length leaves.
pub proof fn lemma_u64_leading_zeros(x: u64)
    ensures
        u64_leading_zeros(x) == 64 - bit_len(x as nat),
    decreases x,
{
    reveal(u64_leading_zeros);
    if x != 0 {
        lemma_u64_leading_zeros(x / 2);
    }
}

/// The number of leading zero bits of a `u64`.
pub fn leading_zeros_u64(x: u64) -> (r: u32)
    ensures
        r == 64 - bit_len(x as nat),
        r <= 64,
{
    proof {
        lemma_u64_leading_zeros(x);
        lemma_word_powers();
        lemma_bit_len_upper(x as nat, 64);
    }
    x.leading_zeros()
}

/// The number of leading zero bits of a `u128`.
pub fn leading_zeros_u128(x: u128) -> (r: u32)
    ensures
        r == 128 - bit_len(x as nat),
        r <= 128,
{
    let hi: u64 = (x >> 64) as u64;
    let lo: u64 = x as u64;
    proof {
        lemma_word_powers();
        lemma_u128_shr_is_div(x, 64);
        assert((x >> 64) as u64 == x >> 64) by (bit_vector);
        assert(x as u64 == x % 0x1_0000_0000_0000_0000) by (bit_vector);
        lemma_bit_len_upper(x as nat, 128);
        if hi != 0 {
            lemma_bit_len_lower(x as nat, 64);
            lemma_bit_len_shr(x as nat, 64);
        }
    }
    if hi != 0 {
        leading_zeros_u64(hi)
    } else {
        64 + leading_zeros_u64(lo)
    }
}

/// How many bits of `x` are set.
pub open spec fn set_bits(x: nat) -> nat
    decreases x,
{
    if x == 0 {
        0
    } else {
        x % 2 + set_bits(x / 2)
    }
}

/// A number has no more set bits than bits.
pub proof fn lemma_set_bits_at_most(x: nat, n: nat)
    requires
        x < pow2(n),
    ensures
        set_bits(x) <= n,
    decreases n,
{
    lemma2_to64();
    if x > 0 {
        lemma_pow2_unfold(n);
        lemma_set_bits_at_most(x / 2, (n - 1) as nat);
    }
}

/// How many bits of a number are set.
pub fn set_bits_of(x: u32) -> (r: u32)
    ensures
        r == set_bits(x as nat),
        r <= 32,
{
    let mut rest: u32 = x;
    let mut count: u32 = 0;
    proof {
        lemma2_to64();
        lemma_set_bits_at_most(x as nat, 32);
    }
    while rest > 0
        invariant
            set_bits(x as nat) <= 32,
            set_bits(x as nat) == count + set_bits(rest as nat),
        decreases rest,
    {
        count = count + rest % 2;
        rest = rest / 2;
    }
    count
}

} // verus!
