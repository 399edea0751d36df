//! 256-bit numbers as two 128-bit words, with the arithmetic of `ethnum` on them.

use crate::bits;
use crate::limbs;
use vstd::arithmetic::power2::*;
use vstd::bits::*;
use vstd::prelude::*;

verus! {

/// A 256-bit number: `high * 2^128 + low`.
#[derive(Debug, Clone, Copy, PartialEq, Eq)]
pub struct U256 {
    pub high: u128,
    pub low: u128,
}

impl View for U256 {
    type V = nat;

    open spec fn view(&self) -> nat {
        (self.high * 0x1_0000_0000_0000_0000_0000_0000_0000_0000 + self.low) as nat
    }
}

impl U256 {
    /// A 128-bit number with 256 bits.
    pub fn new(low: u128) -> (r: U256)
        ensures
            r@ == low,
    {
        U256 { high: 0, low }
    }
}

/// A 256-bit number has at most 256 bits, and four limbs.
pub proof fn lemma_u256_bound(x: U256)
    ensures
        x@ < pow2(256),
        bits::bit_len(x@) <= 256,
        limbs::word_count(x@) <= 4,
{
    bits::lemma_word_powers();
    lemma_pow2_adds(128, 128);
    bits::lemma_bit_len_upper(x@, 256);
}

/// The four little-endian 64-bit limbs of a 256-bit number.
pub fn limbs(x: U256) -> (r: [u64; 4])
    ensures
        limbs::words_value(r) == x@,
{
    let lo: u128 = x.low;
    let hi: u128 = x.high;
    let r: [u64; 4] = [lo as u64, (lo >> 64) as u64, hi as u64, (hi >> 64) as u64];
    proof {
        bits::lemma_word_powers();
        limbs::lemma_words_value(r);
        lemma_u128_shr_is_div(lo, 64);
        lemma_u128_shr_is_div(hi, 64);
        assert(lo as u64 == lo % 0x1_0000_0000_0000_0000) by (bit_vector);
        assert(hi as u64 == hi % 0x1_0000_0000_0000_0000) by (bit_vector);
        crate::arith::lemma_div_mod(lo as int, limbs::base());
        crate::arith::lemma_div_mod(hi as int, limbs::base());
    }
    r
}

/// Calls `ethnum::U256::leading_zeros`: the number of leading zeros in the 256-bit binary
/// representation, which is what the bit length leaves.
#[verifier::external_body]
pub(crate) fn leading_zeros(x: U256) -> (r: u32)
    ensures
        r == 256 - bits::bit_len(x@),
{
    ethnum::U256::from_words(x.high, x.low).leading_zeros()
}

/// Calls the multiplication `*` of `ethnum::U256`. The product of two 128-bit numbers fits in 256
/// bits, so that it is the product of the numbers.
#[verifier::external_body]
pub(crate) fn mul_wide(a: u128, b: u128) -> (r: U256)
    ensures
        r@ == a * b,
{
    let (high, low) = (ethnum::U256::new(a) * ethnum::U256::new(b)).into_words();
    U256 { high, low }
}

/// Calls the division `/` of `ethnum::U256`, which panics on a zero divisor and is otherwise the
/// quotient rounded down.
#[verifier::external_body]
pub(crate) fn div_wide(n: U256, d: U256) -> (r: U256)
    requires
        d@ > 0,
    ensures
        r@ == n@ / d@,
{
    let quotient = ethnum::U256::from_words(n.high, n.low) / ethnum::U256::from_words(d.high, d.low);
    let (high, low) = quotient.into_words();
    U256 { high, low }
}

/// Calls the remainder `%` of `ethnum::U256`, which panics on a zero divisor and is otherwise what
/// the division rounded down leaves.
#[verifier::external_body]
pub(crate) fn rem_wide(n: U256, d: U256) -> (r: U256)
    requires
        d@ > 0,
    ensures
        r@ == n@ % d@,
{
    let rest = ethnum::U256::from_words(n.high, n.low) % ethnum::U256::from_words(d.high, d.low);
    let (high, low) = rest.into_words();
    U256 { high, low }
}

} // verus!
