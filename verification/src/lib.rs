//! Radix-2 fast Fourier transform support library.
//!
//! The in-place iterative Cooley-Tukey FFT over a sequence of length
//! `n = 2^bits` decomposes into three purely combinatorial pieces and one
//! numeric pass:
//!
//! 1. a bit-reversal permutation of the samples ([`bit_reverse`]),
//! 2. a table of `n / 2` twiddle factors, each the root of unity
//!    `e^(sign * 2*pi*i * k / n)` described exactly by its index `k`, the
//!    length `n` and the direction sign ([`precompute_twiddle`]),
//! 3. a schedule of `log2(n)` butterfly stages, each a list of index pairs
//!    with the twiddle index to apply ([`fft_schedule`]),
//! 4. the butterfly arithmetic itself, which a driver performs on
//!    double-precision complex values by walking the schedule in order.
//!
//! Everything up to the complex arithmetic is integer logic, and this crate
//! states and proves it: [`fft_plan`] validates the length and returns the
//! complete permutation, table and schedule for one transform invocation.
//! The samples themselves are carried opaquely as bit patterns ([`Sample`]),
//! since the permutation only moves them and never reads their values.

pub mod bitrev;
pub mod plan;
pub mod power;
pub mod schedule;
pub mod twiddle;

pub use bitrev::{bit_reverse, reverse_bit_order, Sample};
pub use plan::{fft_plan, FftError, FftPlan};
pub use power::exact_log2;
pub use schedule::{fft_schedule, stage_schedule, ButterflyOp};
pub use twiddle::{precompute_twiddle, Twiddle};
