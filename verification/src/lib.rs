//! Discrete-time signal processing over exact rational arithmetic.
//!
//! The library computes with irregularly and uniformly sampled signals: it
//! combines signals sampled on different time grids by a merging addition
//! with local linear interpolation, evaluates the one-sided magnitude
//! spectrum of a uniform signal with a memoized direct Fourier transform,
//! and applies finite-impulse-response filtering.  Sample values and
//! timestamps are exact rationals, so every arithmetic result is either the
//! exact value or an explicit [`DspError::NumericOverflow`]; the only
//! approximations are the caller-supplied twiddle factors of the transform
//! and the fixed-grid floor taken by the complex modulus off the axes.

use vstd::prelude::*;

pub mod complex_numbers;
pub mod descrete_signal;
pub mod fft;
pub mod filtering;
pub mod rational;

verus! {

/// The failures a signal-processing operation can report.  All of them are
/// precondition violations, never transient faults, so callers are expected
/// to treat them as final.
#[derive(Clone, Copy, Debug, PartialEq, Eq, Structural)]
pub enum DspError {
    /// An operation received a signal (or coefficient sequence) with no samples.
    EmptySignal,
    /// A sample sequence whose timestamps are not strictly increasing.
    NonMonotonicTimestamps,
    /// The FIR coefficient count exceeds the sample count.
    FilterLongerThanSignal,
    /// The two bracketing points of a linear interpolation share a timestamp.
    DegenerateInterpolation,
    /// An exact rational intermediate does not fit the fixed-width
    /// representation.
    NumericOverflow,
}

} // verus!
