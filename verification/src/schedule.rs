//! The butterfly schedule of the iterative transform.
//!
//! After the bit-reversal permutation, the transform runs `log2(n)`
//! sequential stages.  The stage with group size `len` partitions the
//! sequence into contiguous groups of `len` elements; within each group,
//! offset `o` pairs the element at `group_start + o` with the one at
//! `group_start + o + len/2` and rotates the latter by twiddle factor
//! `o * (n / len)` before the combine `(a, b) -> (a + b, a - b)`.
//!
//! This module computes that schedule as explicit index triples
//! ([`ButterflyOp`]) and proves it equal to the mathematical description,
//! so a numeric driver only has to walk the list in order.

use crate::power::{lemma_pow2_divides, lemma_pow2_is_pow2, lemma_pow2_log2, log2_of, pow2_usize};
use vstd::arithmetic::div_mod::{lemma_fundamental_div_mod, lemma_fundamental_div_mod_converse};
use vstd::arithmetic::power2::{
    is_pow2, lemma2_to64, lemma_pow2_pos, lemma_pow2_strictly_increases, pow2,
};
use vstd::prelude::*;

verus! {

/// One butterfly: read `a` at index `lo` and `b` at index `hi`, rotate `b`
/// by twiddle-table entry `tw`, then store `a + b` at `lo` and `a - b` at
/// `hi`.  Both reads precede both writes.
#[derive(Clone, Copy, PartialEq, Eq, Structural, Debug)]
pub struct ButterflyOp {
    pub lo: usize,
    pub hi: usize,
    pub tw: usize,
}

/// The `t`-th butterfly of the stage with group size `len` in a length-`n`
/// transform: group `t / (len/2)`, offset `t % (len/2)`.
pub open spec fn stage_op_ok(n: int, len: int, t: int, op: ButterflyOp) -> bool
    recommends
        2 <= len <= n,
{
    let half = len / 2;
    let g = t / half;
    let o = t % half;
    &&& op.lo == g * len + o
    &&& op.hi == g * len + o + half
    &&& op.tw == o * (n / len)
}

/// A complete stage: `n / 2` butterflies, the `t`-th as `stage_op_ok` says.
pub open spec fn stage_ops_ok(n: int, len: int, ops: Seq<ButterflyOp>) -> bool {
    &&& ops.len() == n / 2
    &&& forall|t: int| 0 <= t < ops.len() ==> stage_op_ok(n, len, t, #[trigger] ops[t])
}

/// Every butterfly touches two distinct indices below `n` and a twiddle
/// index below `n / 2`, so walking the schedule never reads out of bounds.
pub open spec fn ops_in_bounds(n: int, ops: Seq<ButterflyOp>) -> bool {
    forall|t: int|
        0 <= t < ops.len() ==> ((#[trigger] ops[t]).lo < ops[t].hi < n && ops[t].tw < n / 2)
}

/// Every element pushed so far satisfies its stage description and bounds.
spec fn stage_op_ok_prefix(n: int, len: int, ops: Seq<ButterflyOp>) -> bool {
    forall|t: int|
        0 <= t < ops.len() ==> (stage_op_ok(n, len, t, #[trigger] ops[t]) && ops[t].lo < ops[t].hi
            < n && ops[t].tw < n / 2)
}

/// Builds the butterfly list for the stage with group size `len` of a
/// length-`n` transform, in execution order.
pub fn stage_schedule(n: usize, len: usize) -> (ops: Vec<ButterflyOp>)
    requires
        is_pow2(n as int),
        is_pow2(len as int),
        2 <= len <= n,
    ensures
        stage_ops_ok(n as int, len as int, ops@),
        ops_in_bounds(n as int, ops@),
{
    let half = len / 2;
    let step = n / len;
    proof {
        reveal(is_pow2);
        lemma_pow2_log2(n as nat);
        lemma_pow2_log2(len as nat);
        if log2_of(len as nat) > log2_of(n as nat) {
            lemma_pow2_strictly_increases(log2_of(n as nat), log2_of(len as nat));
        }
        // A smaller power of two divides a larger one, so len | n, the
        // stage stride divides evenly, and half * step == n / 2.
        lemma_pow2_divides(log2_of(len as nat), log2_of(n as nat));
        lemma_fundamental_div_mod(n as int, len as int);
        assert(len * step == 2 * (half * step) && step >= 1) by (nonlinear_arith)
            requires
                len == 2 * half,
                n as int == (len as int) * (step as int),
                2 <= len <= n,
        ;
        lemma_fundamental_div_mod_converse(n as int, 2, (half as int) * (step as int), 0);
    }
    let mut ops: Vec<ButterflyOp> = Vec::new();
    let mut base: usize = 0;
    proof {
        vstd::arithmetic::div_mod::lemma_div_of0(len as int);
        assert((0int / len as int) * (half as int) == 0) by (nonlinear_arith)
            requires
                0int / len as int == 0,
        ;
    }
    while base < n
        invariant
            2 <= len <= n,
            len == 2 * half,
            step == n / len,
            1 <= step,
            n as int == (len as int) * (step as int),
            (n as int) / 2 == (half as int) * (step as int),
            base % len == 0,
            base <= n,
            ops@.len() == ((base / len) as int) * (half as int),
            stage_op_ok_prefix(n as int, len as int, ops@),
        decreases n - base,
    {
        let ghost g = (base / len) as int;
        let ghost l = len as int;
        let ghost h = half as int;
        proof {
            // base < n with len | base and len | n forces base + len <= n.
            lemma_fundamental_div_mod(base as int, len as int);
            assert(g * l + l <= n as int) by (nonlinear_arith)
                requires
                    l > 0,
                    base as int == g * l,
                    n as int == (step as int) * l,
                    (base as int) < n as int,
            ;
        }
        let mut offset: usize = 0;
        while offset < half
            invariant
                2 <= len <= n,
                len == 2 * half,
                step == n / len,
                1 <= step,
                (n as int) / 2 == (half as int) * (step as int),
                g == (base / len) as int,
                base as int == g * (len as int),
                base + len <= n,
                offset <= half,
                ops@.len() == g * (half as int) + offset,
                stage_op_ok_prefix(n as int, len as int, ops@),
            decreases half - offset,
        {
            proof {
                let t = ops@.len() as int;
                lemma_fundamental_div_mod_converse(t, half as int, g, offset as int);
                // The twiddle index stays below half * step == n / 2.
                assert((offset as int) * (step as int) < (half as int) * (step as int))
                    by (nonlinear_arith)
                    requires
                        offset < half,
                        step >= 1,
                ;
            }
            let op = ButterflyOp { lo: base + offset, hi: base + offset + half, tw: offset * step };
            ops.push(op);
            offset = offset + 1;
        }
        base = base + len;
        proof {
            assert(base as int == (g + 1) * l && ops@.len() == (g + 1) * h)
                by (nonlinear_arith)
                requires
                    base as int == g * l + l,
                    ops@.len() == g * h + h,
            ;
            lemma_fundamental_div_mod_converse(base as int, l, g + 1, 0);
        }
    }
    proof {
        assert(((base / len) as int) * (half as int) == (n as int) / 2) by (nonlinear_arith)
            requires
                base == n,
                len == 2 * half,
                step == n / len,
                base % len == 0,
                (n as int) / 2 == (half as int) * (step as int),
                ops@.len() == ((base / len) as int) * (half as int),
                n as int == (len as int) * (step as int),
                len > 0,
        ;
    }
    ops
}

/// Some butterfly of the stage reads and writes index `idx`.
pub open spec fn stage_covers(ops: Seq<ButterflyOp>, idx: int) -> bool {
    exists|t: int|
        0 <= t < ops.len() && ((#[trigger] ops[t]).lo == idx || ops[t].hi == idx)
}

/// Law: the butterflies of one stage partition the index space.  Every
/// butterfly works on two distinct slots, no slot is shared between two
/// butterflies, and together the `n / 2` butterflies of the stage reach
/// every index below `n` — so the stage may run in place, in any order,
/// each pair read before it is written.
pub proof fn lemma_stage_partitions(n: int, len: int, ops: Seq<ButterflyOp>)
    requires
        2 <= len <= n,
        len == 2 * (len / 2),
        n == (n / len) * len,
        stage_ops_ok(n, len, ops),
    ensures
        forall|t: int| 0 <= t < ops.len() ==> (#[trigger] ops[t]).lo != ops[t].hi,
        forall|t1: int, t2: int|
            0 <= t1 < ops.len() && 0 <= t2 < ops.len() && t1 != t2 ==> {
                &&& (#[trigger] ops[t1]).lo != (#[trigger] ops[t2]).lo
                &&& ops[t1].lo != ops[t2].hi
                &&& ops[t1].hi != ops[t2].hi
            },
        forall|idx: int| 0 <= idx < n ==> #[trigger] stage_covers(ops, idx),
{
    let half = len / 2;
    let groups = n / len;
    assert(half * groups * 2 == n && n / 2 == half * groups) by (nonlinear_arith)
        requires
            len == 2 * half,
            n == groups * len,
            n >= 2,
    ;
    assert forall|t1: int, t2: int|
        0 <= t1 < ops.len() && 0 <= t2 < ops.len() && t1 != t2 implies {
        &&& (#[trigger] ops[t1]).lo != (#[trigger] ops[t2]).lo
        &&& ops[t1].lo != ops[t2].hi
        &&& ops[t1].hi != ops[t2].hi
    } by {
        lemma_fundamental_div_mod(t1, half);
        lemma_fundamental_div_mod(t2, half);
        let g1 = t1 / half;
        let o1 = t1 % half;
        let g2 = t2 / half;
        let o2 = t2 % half;
        if ops[t1].lo == ops[t2].lo {
            lemma_fundamental_div_mod_converse(ops[t1].lo as int, len, g1, o1);
            lemma_fundamental_div_mod_converse(ops[t2].lo as int, len, g2, o2);
        }
        if ops[t1].lo == ops[t2].hi {
            lemma_fundamental_div_mod_converse(ops[t1].lo as int, len, g1, o1);
            lemma_fundamental_div_mod_converse(ops[t2].hi as int, len, g2, o2 + half);
        }
        if ops[t1].hi == ops[t2].hi {
            lemma_fundamental_div_mod_converse(ops[t1].hi as int, len, g1, o1 + half);
            lemma_fundamental_div_mod_converse(ops[t2].hi as int, len, g2, o2 + half);
        }
    }
    assert forall|idx: int| 0 <= idx < n implies #[trigger] stage_covers(ops, idx) by {
        lemma_fundamental_div_mod(idx, len);
        let g = idx / len;
        let r = idx % len;
        assert(g < groups) by (nonlinear_arith)
            requires
                len > 0,
                idx < n,
                n == groups * len,
                idx == len * g + r,
                0 <= r < len,
        ;
        let o = if r < half { r } else { r - half };
        let t = g * half + o;
        assert(t < groups * half) by (nonlinear_arith)
            requires
                half > 0,
                g < groups,
                0 <= o < half,
                t == g * half + o,
        ;
        lemma_fundamental_div_mod_converse(t, half, g, o);
        assert(0 <= t < ops.len());
        if r < half {
            assert(ops[t].lo == idx);
        } else {
            assert(ops[t].hi == idx);
        }
    }
}

/// Builds the whole butterfly schedule of a length-`n` transform: one stage
/// per doubling of the group size, `log2(n)` stages in all, the stage at
/// position `s` having group size `2^(s+1)`.
pub fn fft_schedule(n: usize) -> (stages: Vec<Vec<ButterflyOp>>)
    requires
        is_pow2(n as int),
    ensures
        stages@.len() == log2_of(n as nat),
        forall|s: int|
            0 <= s < stages@.len() ==> {
                &&& stage_ops_ok(n as int, pow2((s + 1) as nat) as int, (#[trigger] stages@[s])@)
                &&& ops_in_bounds(n as int, stages@[s]@)
            },
{
    let bits = crate::power::exact_log2(n).unwrap();
    let mut stages: Vec<Vec<ButterflyOp>> = Vec::new();
    for s in 0..bits
        invariant
            is_pow2(n as int),
            n == pow2(bits as nat),
            bits == log2_of(n as nat),
            stages@.len() == s,
            forall|si: int|
                0 <= si < s ==> {
                    &&& stage_ops_ok(
                        n as int,
                        pow2((si + 1) as nat) as int,
                        (#[trigger] stages@[si])@,
                    )
                    &&& ops_in_bounds(n as int, stages@[si]@)
                },
    {
        proof {
            if s + 1 < bits {
                lemma_pow2_strictly_increases((s + 1) as nat, bits as nat);
            }
            lemma_pow2_is_pow2((s + 1) as nat);
            lemma2_to64();
            lemma_pow2_strictly_increases(0, (s + 1) as nat);
            lemma_pow2_pos((s + 1) as nat);
        }
        let len = pow2_usize(s + 1);
        let ops = stage_schedule(n, len);
        stages.push(ops);
    }
    stages
}

} // verus!
