//! The validated entry point: everything one transform invocation needs.
//!
//! A transform only accepts sequences whose length is a power of two;
//! [`fft_plan`] checks that once, rejecting every other length, and on
//! success hands back the complete combinatorial content of the transform:
//! the exponent `bits`, the twiddle table and the butterfly schedule.  A
//! numeric driver then runs `bit_reverse` over the samples, evaluates each
//! twiddle entry, walks the schedule stage by stage, and — for the inverse
//! direction — scales every element by `1 / n` at the end.

use crate::power::log2_of;
use crate::schedule::{
    fft_schedule, lemma_stage_partitions, ops_in_bounds, stage_covers, stage_ops_ok, ButterflyOp,
};
use crate::twiddle::{precompute_twiddle, Twiddle};
use vstd::arithmetic::power2::{is_pow2, lemma_pow2_strictly_increases, lemma_pow2_unfold, pow2};
use vstd::prelude::*;

verus! {

/// The one rejection the transform knows: the sequence length is not a
/// power of two.  The offending length is carried for diagnostics.
#[derive(Clone, Copy, PartialEq, Eq, Structural, Debug)]
pub enum FftError {
    NotPowerOfTwo { len: usize },
}

/// The full combinatorial plan of one length-`n` transform invocation.
#[derive(Debug)]
pub struct FftPlan {
    /// The sequence length; a power of two.
    pub n: usize,
    /// The exponent: `n == 2^bits`.
    pub bits: usize,
    /// The direction the plan was built for; `true` means inverse.
    pub invert: bool,
    /// The twiddle table: `n / 2` exact root-of-unity descriptions.
    pub twiddles: Vec<Twiddle>,
    /// The butterfly stages in execution order; stage `s` has group size
    /// `2^(s+1)` and lists its `n / 2` butterflies in order.
    pub stages: Vec<Vec<ButterflyOp>>,
}

/// What a well-formed plan for `(n, invert)` contains.
pub open spec fn plan_ok(p: FftPlan, n: nat, invert: bool) -> bool {
    &&& p.n == n
    &&& n == pow2(p.bits as nat)
    &&& p.bits == log2_of(n)
    &&& p.invert == invert
    &&& p.twiddles@.len() == n / 2
    &&& forall|k: int|
        0 <= k < n / 2 ==> #[trigger] p.twiddles@[k] == (Twiddle {
            k: k as usize,
            n: n as usize,
            invert,
        })
    &&& p.stages@.len() == log2_of(n)
    &&& forall|s: int|
        0 <= s < p.stages@.len() ==> {
            &&& stage_ops_ok(n as int, pow2((s + 1) as nat) as int, (#[trigger] p.stages@[s])@)
            &&& ops_in_bounds(n as int, p.stages@[s]@)
        }
}

/// Validates the length and builds the plan of one transform invocation.
/// Returns `Ok` exactly when `n` is a power of two — so lengths 1, 2, 4,
/// 8, ... are accepted and every other length is rejected with the
/// offending value.
pub fn fft_plan(n: usize, invert: bool) -> (r: Result<FftPlan, FftError>)
    ensures
        r is Ok <==> is_pow2(n as int),
        r matches Ok(p) ==> plan_ok(p, n as nat, invert),
        r matches Err(e) ==> e == (FftError::NotPowerOfTwo { len: n }) && !is_pow2(n as int),
{
    match crate::power::exact_log2(n) {
        None => Err(FftError::NotPowerOfTwo { len: n }),
        Some(bits) => {
            let twiddles = precompute_twiddle(n, invert);
            let stages = fft_schedule(n);
            Ok(FftPlan { n, bits, invert, twiddles, stages })
        },
    }
}

/// Law: every stage of a well-formed plan partitions the index space.  The
/// butterflies of the stage at position `s` touch pairwise disjoint pairs
/// of distinct indices, and together they reach every index below `n` — so
/// each stage can run in place, in any order within the stage.
pub proof fn lemma_plan_stage_partitions(p: FftPlan, n: nat, invert: bool, s: int)
    requires
        plan_ok(p, n, invert),
        0 <= s < p.stages@.len(),
    ensures
        forall|t: int|
            0 <= t < p.stages@[s]@.len() ==> (#[trigger] p.stages@[s]@[t]).lo
                != p.stages@[s]@[t].hi,
        forall|t1: int, t2: int|
            0 <= t1 < p.stages@[s]@.len() && 0 <= t2 < p.stages@[s]@.len() && t1 != t2 ==> {
                &&& (#[trigger] p.stages@[s]@[t1]).lo != (#[trigger] p.stages@[s]@[t2]).lo
                &&& p.stages@[s]@[t1].lo != p.stages@[s]@[t2].hi
                &&& p.stages@[s]@[t1].hi != p.stages@[s]@[t2].hi
            },
        forall|idx: int| 0 <= idx < n ==> #[trigger] stage_covers(p.stages@[s]@, idx),
{
    let len = pow2((s + 1) as nat) as int;
    let bits = p.bits as nat;
    lemma_pow2_unfold((s + 1) as nat);
    lemma_pow2_strictly_increases(0, (s + 1) as nat);
    vstd::arithmetic::power2::lemma2_to64();
    if s + 1 < bits {
        lemma_pow2_strictly_increases((s + 1) as nat, bits);
    }
    // len divides n: both are powers of two and len <= n.
    crate::power::lemma_pow2_divides((s + 1) as nat, bits);
    vstd::arithmetic::div_mod::lemma_fundamental_div_mod(n as int, len);
    lemma_stage_partitions(n as int, len, p.stages@[s]@);
}

} // verus!
