//! Radix-2 decimation-in-time Fourier transforms on power-of-two windows.
//!
//! - `bits`: powers of two, bit counts and bit reversal of indices.
//! - `permute`: the bit-reversed copy that seeds the in-place algorithm.
//! - `schedule`: the butterflies of each stage, grouped into 4-lane vector
//!   operations across blocks or across indices, with the scalar fallback.
//! - `engine`: the stage loop, written against the `ComplexLanes` arithmetic
//!   interface that a sample type implements with plain or vector instructions.
//! - `radix2`: what each stage computes, position by position, and what the whole
//!   transform computes, over the arithmetic that `ComplexLanes` names.
//! - `dft`: the direct `O(n^2)` transform used as a reference.
use vstd::prelude::*;

pub mod bits;
pub mod dft;
pub mod engine;
pub mod permute;
pub mod radix2;
pub mod schedule;

verus! {

} // verus!
