//! Powers of two: the length discipline of the radix-2 transform.
//!
//! Every sequence the transform accepts has length `2^bits`; this module
//! decides that property and recovers `bits` from it.

use vstd::arithmetic::power2::{
    is_pow2, lemma2_to64, lemma2_to64_rest, lemma_pow2_pos, lemma_pow2_strictly_increases,
    lemma_pow2_unfold, pow2,
};
use vstd::prelude::*;

verus! {

/// The exact base-2 logarithm of `n`, rounding down; `log2_of(2^k) == k`.
pub open spec fn log2_of(n: nat) -> nat
    decreases n,
{
    if n <= 1 {
        0
    } else {
        1 + log2_of(n / 2)
    }
}

/// A power of two is recovered exactly by its logarithm.
pub proof fn lemma_pow2_log2(n: nat)
    requires
        is_pow2(n as int),
    ensures
        pow2(log2_of(n)) == n,
    decreases n,
{
    reveal(is_pow2);
    if n <= 1 {
        lemma2_to64();
    } else {
        lemma_pow2_log2(n / 2);
        lemma_pow2_unfold(log2_of(n));
    }
}

/// Every value `pow2(e)` satisfies the recursive power-of-two predicate.
pub proof fn lemma_pow2_is_pow2(e: nat)
    ensures
        is_pow2(pow2(e) as int),
    decreases e,
{
    reveal(is_pow2);
    lemma_pow2_pos(e);
    if e == 0 {
        lemma2_to64();
    } else {
        lemma_pow2_is_pow2((e - 1) as nat);
        lemma_pow2_unfold(e);
    }
}

/// A smaller power of two divides a larger one.
pub proof fn lemma_pow2_divides(e1: nat, e2: nat)
    requires
        e1 <= e2,
    ensures
        pow2(e2) % pow2(e1) == 0,
{
    let q = pow2((e2 - e1) as nat);
    let d = pow2(e1);
    vstd::arithmetic::power2::lemma_pow2_adds(e1, (e2 - e1) as nat);
    lemma_pow2_pos(e1);
    lemma_pow2_pos((e2 - e1) as nat);
    vstd::arithmetic::div_mod::lemma_fundamental_div_mod_converse(pow2(e2) as int, d as int, q as int, 0);
}

/// Decides whether `n` is a power of two, and if so returns the exponent:
/// `exact_log2(n)` is `Some(bits)` with `n == 2^bits` exactly when `n` is a
/// power of two, and `None` otherwise.
pub fn exact_log2(n: usize) -> (r: Option<usize>)
    ensures
        r is Some <==> is_pow2(n as int),
        r matches Some(bits) ==> n == pow2(bits as nat) && bits == log2_of(n as nat),
{
    proof {
        reveal(is_pow2);
        lemma2_to64();
    }
    if n == 0 {
        return None;
    }
    let mut m: usize = n;
    let mut bits: usize = 0;
    while m % 2 == 0
        invariant
            1 <= m <= n,
            n as nat == m as nat * pow2(bits as nat),
            is_pow2(n as int) <==> is_pow2(m as int),
            log2_of(n as nat) == bits as nat + log2_of(m as nat),
        decreases m,
    {
        proof {
            reveal(is_pow2);
            assert(m as nat * pow2(bits as nat) >= pow2(bits as nat)) by (nonlinear_arith)
                requires m >= 1;
            if bits >= 64 {
                lemma2_to64_rest();
                if bits > 64 {
                    lemma_pow2_strictly_increases(64, bits as nat);
                }
                assert(false);
            }
            lemma_pow2_unfold((bits + 1) as nat);
            assert((m / 2) as nat * (2 * pow2(bits as nat)) == (2 * (m / 2)) as nat * pow2(
                bits as nat,
            )) by (nonlinear_arith);
        }
        m = m / 2;
        bits = bits + 1;
    }
    if m == 1 {
        proof {
            reveal(is_pow2);
        }
        Some(bits)
    } else {
        proof {
            reveal(is_pow2);
        }
        None
    }
}

/// Computes `2^e` as a machine integer; the exponent must be small enough
/// for the result to fit.
pub fn pow2_usize(e: usize) -> (r: usize)
    requires
        pow2(e as nat) <= usize::MAX as nat,
    ensures
        r as nat == pow2(e as nat),
{
    proof {
        lemma2_to64();
    }
    let mut r: usize = 1;
    let mut i: usize = 0;
    while i < e
        invariant
            i <= e,
            r as nat == pow2(i as nat),
            pow2(e as nat) <= usize::MAX as nat,
        decreases e - i,
    {
        proof {
            lemma_pow2_unfold((i + 1) as nat);
            if i + 1 < e {
                lemma_pow2_strictly_increases((i + 1) as nat, e as nat);
            }
        }
        r = r * 2;
        i = i + 1;
    }
    r
}

} // verus!
