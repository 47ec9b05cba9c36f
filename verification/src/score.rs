//! Segment scheduling for the correlation stage: which windows of valid
//! frames are scored, and over how many coefficients the final mean pools.

use vstd::prelude::*;
use crate::errors::StoiError;
use crate::octave::NUM_BANDS;

verus! {

/// Valid frames per analysis segment.
pub const SEGMENT_LENGTH: usize = 30;

/// Clipping floor for the classic variant, in dB: the degraded band row is
/// clipped to `(1 + 10^(-BETA_DB / 20))` times the reference row.
pub const BETA_DB: u32 = 15;

/// Number of analysis segments `valid` frames yield, sliding one frame at a
/// time, or `SignalTooShort` when fewer than one segment of frames is valid.
/// Segment `s` covers the valid-frame rows `s .. s + SEGMENT_LENGTH`.
pub fn num_segments(valid: usize) -> (r: Result<usize, StoiError>)
    ensures
        (valid >= SEGMENT_LENGTH) <==> r is Ok,
        valid >= SEGMENT_LENGTH ==> r == Result::<usize, StoiError>::Ok(
            (valid - SEGMENT_LENGTH + 1) as usize,
        ),
        valid < SEGMENT_LENGTH ==> r == Result::<usize, StoiError>::Err(StoiError::SignalTooShort),
        r is Ok ==> forall|s: int|
            0 <= s ==> ((#[trigger] (s + SEGMENT_LENGTH) <= valid) <==> s < r->Ok_0),
{
    if valid < SEGMENT_LENGTH {
        Err(StoiError::SignalTooShort)
    } else {
        Ok(valid - SEGMENT_LENGTH + 1)
    }
}

/// Number of correlation coefficients the final mean pools: one per segment
/// in the extended variant, one per segment and band in the classic variant.
pub fn pooling_count(segments: usize, extended: bool) -> (c: usize)
    requires
        !extended ==> segments * NUM_BANDS <= usize::MAX,
    ensures
        extended ==> c == segments,
        !extended ==> c == segments * NUM_BANDS,
{
    if extended {
        segments
    } else {
        segments * NUM_BANDS
    }
}

} // verus!
