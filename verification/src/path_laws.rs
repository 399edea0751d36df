//! What the branch path of a `u128` division says of its operands.
//!
//! Each row of the table of [`udiv_path`](crate::div_path::udiv_path) is told by the operands and by
//! their true quotient.

use crate::bits;
use crate::div_path;
use crate::div_path::UDIV_PATHS;
use vstd::arithmetic::power2::*;
use vstd::prelude::*;

verus! {

/// The quotient of the 64 leading bits of the dividend by the divisor bits beside them.
pub open spec fn leading_quotient(duo: nat, div: nat) -> nat {
    let shift = (bits::bit_len(duo) - 64) as nat;
    (duo / pow2(shift)) / (div / pow2(shift))
}

/// A dividend that is no longer than its divisor has the quotient `0` or `1`.
proof fn lemma_no_longer(duo: nat, div: nat)
    requires
        div > 0,
        bits::bit_len(duo) <= bits::bit_len(div),
    ensures
        duo / div == if duo >= div {
            1nat
        } else {
            0
        },
{
    bits::lemma_bit_len(duo);
    bits::lemma_bit_len(div);
    bits::lemma_pow2_monotone(bits::bit_len(duo), bits::bit_len(div));
    lemma_pow2_unfold(bits::bit_len(div));
    assert(duo < 2 * div);
    if duo >= div {
        crate::arith::lemma_div_mod_unique(duo as int, div as int, 1, duo - div);
    } else {
        crate::arith::lemma_div_mod_unique(duo as int, div as int, 0, duo as int);
    }
}

/// A number has at most `n` bits exactly where it is below `2^n`.
proof fn lemma_bits_below(x: nat, n: nat)
    ensures
        bits::bit_len(x) <= n <==> x < pow2(n),
{
    if x < pow2(n) {
        bits::lemma_bit_len_upper(x, n);
    }
    if bits::bit_len(x) <= n {
        bits::lemma_bit_len(x);
        bits::lemma_pow2_monotone(bits::bit_len(x), n);
        lemma_pow2_pos(n);
    }
}

/// The paths without a long division, by the operands and their true quotient: the quotient itself
/// where the dividend is no longer than the divisor; the half division of a dividend below `2^64`;
/// the short division by a divisor below `2^32`; and the two possibilities, which differ in whether
/// the quotient is the one of the leading bits or one less.
pub proof fn law_path_tells_the_quotient(duo: nat, div: nat)
    requires
        bits::bit_len(duo) <= 128,
    ensures
        ({
            let n = bits::bit_len(duo);
            let d = bits::bit_len(div);
            let path = div_path::path_index(duo, div);
            let narrow = duo < 0x1_0000_0000_0000_0000;
            let short = div < 0x1_0000_0000;
            &&& div == 0 ==> path == 0
            &&& div > 0 && n <= d ==> path == duo / div && (path == 0 || path == 1)
            &&& n > d > 0 && narrow ==> path == 2
            &&& n > d > 0 && !narrow && short ==> path == 3
            &&& d < n < d + 32 && !narrow && !short ==> {
                let estimate = leading_quotient(duo, div);
                &&& duo / div == estimate || duo / div + 1 == estimate
                &&& path == 4 + (estimate - duo / div) + if n == 128 {
                    2int
                } else {
                    0
                }
            }
            &&& d + 32 <= n && !narrow && !short ==> 8 <= path < UDIV_PATHS
        }),
{
    bits::lemma_word_powers();
    lemma_bits_below(duo, 64);
    lemma_bits_below(div, 32);
    bits::lemma_bit_len(div);
    div_path::law_path_index_in_range(duo, div);
    let n = bits::bit_len(duo);
    let d = bits::bit_len(div);
    if div > 0 && n <= d {
        lemma_no_longer(duo, div);
    }
    if d < n < d + 32 && n > 64 && d > 32 {
        div_path::law_two_possibilities(duo, div);
    }
    if d + 32 <= n && n > 64 && d > 32 {
        let trace = law_long_path_follows_the_division(duo, div);
    }
}

/// The paths the other way round: what each index below `8` says of the operands.
pub proof fn law_operands_of_a_path(duo: nat, div: nat)
    requires
        bits::bit_len(duo) <= 128,
    ensures
        ({
            let n = bits::bit_len(duo);
            let d = bits::bit_len(div);
            let path = div_path::path_index(duo, div);
            &&& path == 0 ==> div == 0 || duo < div
            &&& path == 1 ==> div <= duo && n == d && duo / div == 1
            &&& path == 2 ==> n > d > 0 && duo < 0x1_0000_0000_0000_0000
            &&& path == 3 ==> n > d > 0 && duo >= 0x1_0000_0000_0000_0000 && div < 0x1_0000_0000
            &&& path == 4 || path == 6 ==> duo / div == leading_quotient(duo, div)
            &&& path == 5 || path == 7 ==> duo / div + 1 == leading_quotient(duo, div)
            &&& path == 4 || path == 5 ==> d < n < d + 32 && 64 < n < 128
            &&& path == 6 || path == 7 ==> d < n < d + 32 && n == 128
        }),
{
    law_path_tells_the_quotient(duo, div);
    bits::lemma_word_powers();
    lemma_bits_below(duo, 64);
    lemma_bits_below(div, 32);
    bits::lemma_bit_len(div);
    bits::lemma_bit_len(duo);
    let n = bits::bit_len(duo);
    let d = bits::bit_len(div);
    if div > 0 && n <= d {
        lemma_no_longer(duo, div);
        if n < d && duo >= div {
            bits::lemma_pow2_monotone(n, (d - 1) as nat);
        }
    }
}

/// What a step of the long division takes off: the divisor times the quotient of the dividend's 64
/// leading bits by one more than the divisor's 32 leading bits, shifted into place.
pub open spec fn taken_off(rest: nat, div: nat) -> nat {
    let n = bits::bit_len(rest);
    let d = bits::bit_len(div);
    div * ((rest / pow2((n - 64) as nat)) / (div / pow2((d - 32) as nat) + 1)) * pow2(
        (n - d - 32) as nat,
    )
}

/// What is left of the dividend before and after each step of a long division. A step runs while the
/// rest is at least 32 bits longer than the divisor, does not fit in 64 bits and is longer than the
/// divisor.
pub open spec fn is_long_division(trace: Seq<nat>, duo: nat, div: nat) -> bool {
    &&& trace.len() > 0
    &&& trace[0] == duo
    &&& forall|i: int|
        #![trigger trace[i]]
        0 <= i < trace.len() - 1 ==> {
            &&& bits::bit_len(trace[i]) >= bits::bit_len(div) + 32
            &&& bits::bit_len(trace[i]) > 64
            &&& trace[i + 1] == trace[i] - taken_off(trace[i], div)
        }
    &&& !(bits::bit_len(trace.last()) >= bits::bit_len(div) + 32 && bits::bit_len(trace.last())
        > 64)
}

/// How a long division is left with a rest: `0` and `1` with that quotient where the rest is no longer
/// than the divisor, `2` where it fits in 64 bits, and otherwise `3` or `4`, where the quotient of its
/// leading bits is its quotient or one more.
pub open spec fn exit_of(rest: nat, div: nat) -> int {
    if bits::bit_len(rest) <= bits::bit_len(div) {
        (rest / div) as int
    } else if bits::bit_len(rest) <= 64 {
        2
    } else {
        3 + leading_quotient(rest, div) - rest / div
    }
}

/// A step of the long division did not shift.
pub open spec fn has_unshifted_step(trace: Seq<nat>, div: nat) -> bool {
    exists|i: int|
        0 <= i < trace.len() - 1 && bits::bit_len(#[trigger] trace[i]) == bits::bit_len(div) + 32
}

/// The path of the loop from a rest on.
proof fn lemma_long_path(duo: nat, div: nat, steps: nat, zero_shl: bool) -> (trace: Seq<nat>)
    requires
        64 < bits::bit_len(duo),
        32 < bits::bit_len(div) < bits::bit_len(duo),
    ensures
        is_long_division(trace, duo, div),
        trace.last() % div == duo % div,
        div_path::long_path(duo, div, steps, zero_shl) == 8 + (if steps + trace.len() <= 2 {
            0int
        } else {
            10
        }) + 2 * exit_of(trace.last(), div) + (if zero_shl || has_unshifted_step(trace, div) {
            1int
        } else {
            0
        }),
        0 <= exit_of(trace.last(), div) <= 4,
    decreases duo,
{
    if div_path::step_shift(duo, div) < 0 {
        let trace = seq![duo];
        div_path::law_two_possibilities(duo, div);
        assert(!has_unshifted_step(trace, div));
        trace
    } else {
        let rest = div_path::step_rest(duo, div);
        let zero = zero_shl || div_path::step_shift(duo, div) == 0;
        div_path::lemma_step(duo, div);
        assert(rest == duo - taken_off(duo, div));
        if bits::bit_len(rest) <= bits::bit_len(div) || bits::bit_len(rest) <= 64 {
            let trace = seq![duo, rest];
            if bits::bit_len(rest) <= bits::bit_len(div) {
                lemma_no_longer(rest, div);
            }
            assert(trace[0] == duo && trace[1] == rest && trace.last() == rest);
            assert(has_unshifted_step(trace, div) == (div_path::step_shift(duo, div) == 0)) by {
                if div_path::step_shift(duo, div) == 0 {
                    assert(bits::bit_len(trace[0]) == bits::bit_len(div) + 32);
                }
            }
            trace
        } else {
            let tail = lemma_long_path(rest, div, steps + 1, zero);
            let trace = seq![duo] + tail;
            assert(trace.last() == tail.last());
            assert forall|i: int|
                #![trigger trace[i]]
                0 <= i < trace.len() - 1 implies {
                &&& bits::bit_len(trace[i]) >= bits::bit_len(div) + 32
                &&& bits::bit_len(trace[i]) > 64
                &&& trace[i + 1] == trace[i] - taken_off(trace[i], div)
            } by {
                if i == 0 {
                    assert(trace[1] == tail[0]);
                } else {
                    assert(trace[i] == tail[i - 1]);
                    assert(trace[i + 1] == tail[i]);
                }
            }
            assert(has_unshifted_step(trace, div) == (div_path::step_shift(duo, div) == 0
                || has_unshifted_step(tail, div))) by {
                if div_path::step_shift(duo, div) == 0 {
                    assert(bits::bit_len(trace[0]) == bits::bit_len(div) + 32);
                }
                if has_unshifted_step(tail, div) {
                    let i = choose|i: int|
                        0 <= i < tail.len() - 1 && bits::bit_len(#[trigger] tail[i])
                            == bits::bit_len(div) + 32;
                    assert(trace[i + 1] == tail[i]);
                }
                if has_unshifted_step(trace, div) {
                    let i = choose|i: int|
                        0 <= i < trace.len() - 1 && bits::bit_len(#[trigger] trace[i])
                            == bits::bit_len(div) + 32;
                    if i > 0 {
                        assert(trace[i] == tail[i - 1]);
                    }
                }
            }
            trace
        }
    }
}

/// The path of a long division, by its steps: one or more of them, how it is left, and whether one of
/// them did not shift. What is left has the remainder of the dividend.
pub proof fn law_long_path_follows_the_division(duo: nat, div: nat) -> (trace: Seq<nat>)
    requires
        64 < bits::bit_len(duo),
        32 < bits::bit_len(div),
        bits::bit_len(duo) >= bits::bit_len(div) + 32,
    ensures
        is_long_division(trace, duo, div),
        trace.len() >= 2,
        trace.last() % div == duo % div,
        0 <= exit_of(trace.last(), div) <= 4,
        div_path::path_index(duo, div) == 8 + (if trace.len() == 2 {
            0int
        } else {
            10
        }) + 2 * exit_of(trace.last(), div) + (if has_unshifted_step(trace, div) {
            1int
        } else {
            0
        }),
{
    let trace = lemma_long_path(duo, div, 0, false);
    assert(trace.len() == 1 ==> trace.last() == duo);
    trace
}

} // verus!
