//! Facts about products, quotients and roundings of integers that the proofs of the other
//! modules share.

use vstd::arithmetic::div_mod::*;
use vstd::arithmetic::mul::*;
use vstd::prelude::*;

verus! {

/// `ceil(x / d)` for a positive `d`.
pub open spec fn ceil_div(x: int, d: int) -> int {
    if x % d == 0 {
        x / d
    } else {
        x / d + 1
    }
}

/// `k <= floor(x / d)` exactly where `d * k <= x`.
pub proof fn lemma_floor_at_least(x: int, d: int, k: int)
    requires
        d > 0,
    ensures
        k <= x / d <==> d * k <= x,
{
    lemma_fundamental_div_mod(x, d);
    let q = x / d;
    if d * k <= x {
        assert(k <= q) by (nonlinear_arith)
            requires
                d > 0,
                d * k <= x,
                x == d * q + x % d,
                x % d < d,
        ;
    }
    if k <= q {
        assert(d * k <= x) by (nonlinear_arith)
            requires
                d > 0,
                k <= q,
                x == d * q + x % d,
                x % d >= 0,
        ;
    }
}

/// `ceil(x / d) <= k` exactly where `x <= d * k`.
pub proof fn lemma_ceil_at_most(x: int, d: int, k: int)
    requires
        d > 0,
    ensures
        ceil_div(x, d) <= k <==> x <= d * k,
{
    lemma_fundamental_div_mod(x, d);
    let q = x / d;
    let r = x % d;
    if x <= d * k {
        assert(q <= k && (r > 0 ==> q < k)) by (nonlinear_arith)
            requires
                d > 0,
                x <= d * k,
                x == d * q + r,
                0 <= r < d,
        ;
    }
    if ceil_div(x, d) <= k {
        assert(x <= d * k) by (nonlinear_arith)
            requires
                d > 0,
                q <= k,
                r > 0 ==> q + 1 <= k,
                x == d * q + r,
                0 <= r < d,
        ;
    }
}

/// A quotient and remainder that fit are the ones that division gives.
pub proof fn lemma_div_mod_unique(x: int, d: int, q: int, r: int)
    requires
        d > 0,
        0 <= r < d,
        x == q * d + r,
    ensures
        x / d == q,
        x % d == r,
{
    lemma_fundamental_div_mod_converse(x, d, q, r);
}

/// `x` written as its quotient and remainder by `d`.
pub proof fn lemma_div_mod(x: int, d: int)
    requires
        d > 0,
    ensures
        x == (x / d) * d + x % d,
        x == d * (x / d) + x % d,
        0 <= x % d < d,
{
    lemma_fundamental_div_mod(x, d);
    lemma_mul_is_commutative(d, x / d);
}

} // verus!
