//! Bit-reversal permutation of the sample sequence.
//!
//! The iterative butterfly passes expect their input in bit-reversed index
//! order: the element that starts at index `i` must first move to the index
//! whose `bits`-bit binary representation reads `i` backwards.  This module
//! defines that index map ([`rev_bits`]), proves it a self-inverse
//! permutation, and applies it in place ([`bit_reverse`]).
//!
//! The permutation only moves samples and never looks at their numeric
//! values, so a sample is carried here as the opaque bit patterns of its two
//! double-precision components ([`Sample`]).

use crate::power::{lemma_pow2_log2, log2_of};
use vstd::arithmetic::div_mod::{
    lemma_div_denominator, lemma_fundamental_div_mod, lemma_fundamental_div_mod_converse,
    lemma_mod_breakdown,
};
use vstd::arithmetic::power2::{is_pow2, lemma2_to64, lemma_pow2_unfold, pow2};
use vstd::pervasive::VecAdditionalExecFns;
use vstd::prelude::*;

verus! {

/// One complex sample, as the IEEE-754 bit patterns of its real and
/// imaginary parts.  The transform's combinatorial steps treat the payload
/// as opaque: they relocate samples but never read these fields.
#[derive(Clone, Copy, PartialEq, Eq, Structural, Debug)]
pub struct Sample {
    pub re_bits: u64,
    pub im_bits: u64,
}

/// The value of `x`, read as a `bits`-bit unsigned integer, with its bits in
/// reverse order.  Bits of `x` above position `bits - 1` are ignored; for
/// `bits == 0` the result is `0`.
pub open spec fn rev_bits(x: nat, bits: nat) -> nat
    decreases bits,
{
    if bits == 0 {
        0
    } else {
        (x % 2) * pow2((bits - 1) as nat) + rev_bits(x / 2, (bits - 1) as nat)
    }
}

/// A `bits`-bit reversal always fits in `bits` bits.
pub proof fn lemma_rev_bits_bound(x: nat, bits: nat)
    ensures
        rev_bits(x, bits) < pow2(bits),
    decreases bits,
{
    if bits == 0 {
        lemma2_to64();
    } else {
        lemma_rev_bits_bound(x / 2, (bits - 1) as nat);
        lemma_pow2_unfold(bits);
        let p = pow2((bits - 1) as nat);
        assert((x % 2) * p <= p) by (nonlinear_arith)
            requires
                (x % 2) < 2,
        ;
    }
}

/// Reversing `bits + 1` bits peels the high bit of the input into the low
/// bit of the result: the low `bits` bits are reversed and shifted up, and
/// the bit at position `bits` lands at position `0`.
pub proof fn lemma_rev_bits_split_high(y: nat, bits: nat)
    requires
        y < pow2((bits + 1) as nat),
    ensures
        rev_bits(y, (bits + 1) as nat) == 2 * rev_bits(y % pow2(bits), bits) + y / pow2(bits),
    decreases bits,
{
    lemma2_to64();
    if bits == 0 {
        assert(y % pow2(0) == 0);
    } else {
        let p = pow2((bits - 1) as nat);
        lemma_pow2_unfold(bits);
        assert(pow2(bits) == 2 * p);
        lemma_pow2_unfold((bits + 1) as nat);
        // y / 2 has one bit fewer; apply the induction hypothesis to it.
        lemma_rev_bits_split_high(y / 2, (bits - 1) as nat);
        // Relate the mod/div decompositions of y by 2 and by pow2(bits).
        lemma_mod_breakdown(y as int, 2, p as int);
        lemma_fundamental_div_mod_converse(
            (y % pow2(bits)) as int,
            2,
            ((y / 2) % p) as int,
            (y % 2) as int,
        );
        lemma_div_denominator(y as int, 2, p as int);
        assert((y % 2) * pow2(bits) == 2 * ((y % 2) * p)) by (nonlinear_arith)
            requires
                pow2(bits) == 2 * p,
        ;
    }
}

/// Reversing the bits twice gives back the original index.
pub proof fn lemma_rev_bits_involutive(x: nat, bits: nat)
    requires
        x < pow2(bits),
    ensures
        rev_bits(rev_bits(x, bits), bits) == x,
    decreases bits,
{
    lemma2_to64();
    if bits != 0 {
        let p = pow2((bits - 1) as nat);
        lemma_pow2_unfold(bits);
        let r = rev_bits(x, bits);
        lemma_rev_bits_bound(x / 2, (bits - 1) as nat);
        lemma_fundamental_div_mod_converse(
            r as int,
            p as int,
            (x % 2) as int,
            rev_bits(x / 2, (bits - 1) as nat) as int,
        );
        lemma_rev_bits_bound(x, bits);
        lemma_rev_bits_split_high(r, (bits - 1) as nat);
        lemma_rev_bits_involutive(x / 2, (bits - 1) as nat);
        lemma_fundamental_div_mod(x as int, 2);
    }
}

/// Reverses the low `bits` bits of `x`: the result, read as a `bits`-bit
/// integer, is the binary representation of `x` backwards.
pub fn reverse_bit_order(x: usize, bits: usize) -> (r: usize)
    requires
        pow2(bits as nat) <= usize::MAX as nat + 1,
    ensures
        r as nat == rev_bits(x as nat, bits as nat),
        (r as nat) < pow2(bits as nat),
{
    proof {
        lemma2_to64();
    }
    let mut cur: usize = x;
    let mut result: usize = 0;
    let mut t: usize = 0;
    while t < bits
        invariant
            t <= bits,
            (result as nat) < pow2(t as nat),
            pow2(bits as nat) <= usize::MAX as nat + 1,
            rev_bits(x as nat, bits as nat) == result as nat * pow2((bits - t) as nat) + rev_bits(
                cur as nat,
                (bits - t) as nat,
            ),
        decreases bits - t,
    {
        proof {
            lemma2_to64();
            lemma_pow2_unfold((bits - t) as nat);
            lemma_pow2_unfold((t + 1) as nat);
            if t + 1 < bits {
                vstd::arithmetic::power2::lemma_pow2_strictly_increases(
                    (t + 1) as nat,
                    bits as nat,
                );
            }
            let rr = result as nat;
            let m = (cur % 2) as nat;
            let p1 = pow2((bits - t - 1) as nat);
            assert((2 * rr + m) * p1 == rr * (2 * p1) + m * p1) by (nonlinear_arith);
        }
        result = result * 2 + (cur % 2);
        cur = cur / 2;
        t = t + 1;
    }
    proof {
        lemma2_to64();
        assert(rev_bits(cur as nat, (bits - t) as nat) == 0);
        assert(pow2((bits - t) as nat) == 1);
        let rr = result as nat;
        let pp = pow2((bits - t) as nat);
        assert(rr * pp == rr) by (nonlinear_arith)
            requires
                pp == 1,
        ;
    }
    result
}

/// Permutes the sequence into bit-reversed index order, in place: with
/// `bits = log2(len)`, the element that ends at index `i` is the one that
/// started at index `rev_bits(i, bits)`.  Applied twice, the permutation is
/// the identity (see [`lemma_bit_reverse_involutive`]).
pub fn bit_reverse(input: &mut Vec<Sample>)
    requires
        is_pow2(old(input).len() as int),
    ensures
        final(input).len() == old(input).len(),
        forall|i: int|
            0 <= i < old(input).len() ==> #[trigger] final(input)@[i] == old(input)@[rev_bits(
                i as nat,
                log2_of(old(input).len() as nat),
            ) as int],
{
    let n = input.len();
    let bits = exact_log2_checked(n);
    proof {
        lemma_pow2_log2(n as nat);
    }
    let ghost gbits = bits as nat;
    for i in 0..n
        invariant
            input.len() == n,
            n as nat == pow2(gbits),
            gbits == log2_of(n as nat),
            gbits == bits as nat,
            pow2(bits as nat) <= usize::MAX as nat + 1,
            forall|j: int|
                0 <= j < n ==> #[trigger] input@[j] == (if j < i || rev_bits(j as nat, gbits)
                    < i as nat {
                    old(input)@[rev_bits(j as nat, gbits) as int]
                } else {
                    old(input)@[j]
                }),
    {
        proof {
            lemma_rev_bits_bound(i as nat, gbits);
            lemma_rev_bits_involutive(i as nat, gbits);
        }
        let r = reverse_bit_order(i, bits);
        if i < r {
            let a = input[i];
            let b = input[r];
            input.set(i, b);
            input.set(r, a);
        }
        proof {
            assert forall|j: int| 0 <= j < n implies rev_bits(#[trigger] rev_bits(j as nat, gbits), gbits)
                == j && rev_bits(j as nat, gbits) < n by {
                lemma_rev_bits_bound(j as nat, gbits);
                lemma_rev_bits_involutive(j as nat, gbits);
            }
        }
    }
}

/// Recovers `log2(n)` for a length already known to be a power of two.
fn exact_log2_checked(n: usize) -> (bits: usize)
    requires
        is_pow2(n as int),
    ensures
        n == pow2(bits as nat),
        bits == log2_of(n as nat),
{
    crate::power::exact_log2(n).unwrap()
}

/// Law: the bit-reversal permutation is an involution.  If `s1` is the
/// bit-reversal of `s0` and `s2` is the bit-reversal of `s1` — each in the
/// sense of the postcondition of [`bit_reverse`] — then `s2` is `s0` again.
pub proof fn lemma_bit_reverse_involutive(s0: Seq<Sample>, s1: Seq<Sample>, s2: Seq<Sample>, bits: nat)
    requires
        s0.len() == pow2(bits),
        s1.len() == s0.len(),
        s2.len() == s1.len(),
        forall|i: int| 0 <= i < s1.len() ==> #[trigger] s1[i] == s0[rev_bits(i as nat, bits) as int],
        forall|i: int| 0 <= i < s2.len() ==> #[trigger] s2[i] == s1[rev_bits(i as nat, bits) as int],
    ensures
        s2 == s0,
{
    assert forall|i: int| 0 <= i < s0.len() implies s2[i] == s0[i] by {
        lemma_rev_bits_bound(i as nat, bits);
        lemma_rev_bits_involutive(i as nat, bits);
    }
    assert(s2 =~= s0);
}


} // verus!
