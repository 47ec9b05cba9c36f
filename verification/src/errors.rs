//! Failure kinds of the scoring pipeline.

use vstd::prelude::*;

verus! {

/// Everything that can go wrong while computing a score.
#[derive(Clone, Copy, Debug, PartialEq, Eq, Structural)]
pub enum StoiError {
    /// A sample rate was zero.
    InvalidRate,
    /// The reference and degraded signals have different lengths.
    LengthMismatch,
    /// The signal is shorter than one analysis frame, or the energy mask left
    /// fewer valid frames than one analysis segment.
    SignalTooShort,
    /// A normalization step would divide by a zero norm that no epsilon floor
    /// caught.
    NumericDegenerate,
}

} // verus!
