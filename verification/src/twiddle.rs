//! The twiddle-factor table, in exact form.
//!
//! Entry `k` of the table for a length-`n` transform is the unit-magnitude
//! complex number with angle `sign * 2*pi * k / n`, where the sign is `-1`
//! for the forward transform and `+1` for the inverse.  That value is fully
//! determined by the triple `(k, n, invert)`, and only the final evaluation
//! to floating point leaves this description — so the table is built here as
//! the triples themselves, exactly, and a numeric driver maps each entry
//! through `e^(i * angle)` when it performs the butterflies.

use vstd::prelude::*;

verus! {

/// One twiddle factor, described exactly: the complex exponential of unit
/// magnitude and angle `sign * 2*pi * k / n`, with `sign == 1` when `invert`
/// holds and `sign == -1` otherwise.
#[derive(Clone, Copy, PartialEq, Eq, Structural, Debug)]
pub struct Twiddle {
    /// Index of the entry in the table; the numerator of the turn fraction.
    pub k: usize,
    /// Length of the transform; the denominator of the turn fraction.
    pub n: usize,
    /// Direction of the transform: `true` negates the angle's sign.
    pub invert: bool,
}

/// Builds the twiddle table for a length-`n` transform: `n / 2` entries,
/// entry `k` describing the root of unity at angle `sign * 2*pi * k / n`.
/// For `n == 1` the table is empty.
pub fn precompute_twiddle(n: usize, invert: bool) -> (r: Vec<Twiddle>)
    ensures
        r@.len() == n / 2,
        forall|k: int|
            0 <= k < n / 2 ==> #[trigger] r@[k] == (Twiddle { k: k as usize, n, invert }),
{
    let half = n / 2;
    let mut r: Vec<Twiddle> = Vec::new();
    for k in 0..half
        invariant
            half == n / 2,
            r@.len() == k,
            forall|j: int|
                0 <= j < k ==> #[trigger] r@[j] == (Twiddle { k: j as usize, n, invert }),
    {
        r.push(Twiddle { k, n, invert });
    }
    r
}

} // verus!
