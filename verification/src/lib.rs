//! Verified structural core of a short-time objective intelligibility (STOI)
//! scorer.
//!
//! The floating-point signal processing (sinc filters, FFTs, correlations)
//! lives outside this crate; everything here is the integer skeleton that
//! drives it: rate-ratio reduction, polyphase filter indexing, frame
//! segmentation, energy-mask compaction, the one-third-octave bin table,
//! segment scheduling, and input validation, each with a proved contract.

use vstd::prelude::*;
use vstd::arithmetic::div_mod::*;

mod errors;
pub mod frames;
pub mod octave;
pub mod resample;
pub mod score;

pub use errors::StoiError;

use crate::frames::{spec_num_frames, num_frames, FRAME_LENGTH, HOP_LENGTH};
use crate::resample::{
    gcd_spec, ceil_div, spec_half_length, reduce_ratio, filter_half_length, output_length,
    lemma_gcd_divides, lemma_gcd_self, lemma_ceil_div,
};

verus! {

/// Canonical analysis sample rate in Hz: every signal is resampled to this
/// rate before framing.
pub const CANONICAL_RATE: u32 = 10000;

/// The structural layout of one analysis: the resampling ratio and filter
/// size, and the resampled signal's length and frame count.
pub struct AnalysisPlan {
    /// Coprime upsampling factor of the resampler.
    pub up: u32,
    /// Coprime downsampling factor of the resampler.
    pub down: u32,
    /// Half-length of the sinc prototype, in upsampled-domain taps.
    pub half_length: u64,
    /// Signal length after resampling to the canonical rate.
    pub resampled_len: usize,
    /// Number of frames the resampled signal yields.
    pub num_frames: usize,
}

/// Lays out the whole analysis for one signal of length `len` sampled at
/// `sample_rate`: reduces the resampling ratio to the canonical rate, sizes
/// the filter, and counts resampled samples and frames.
///
/// Fails with `InvalidRate` exactly when the rate is zero, and with
/// `SignalTooShort` exactly when the resampled signal is shorter than one
/// frame. At the canonical rate the plan is the identity: a unit ratio and
/// one output sample per input sample.
pub fn plan_analysis(len: usize, sample_rate: u32) -> (r: Result<AnalysisPlan, StoiError>)
    requires
        len <= usize::MAX / 10000,
    ensures
        (sample_rate == 0) <==> (r == Result::<AnalysisPlan, StoiError>::Err(
            StoiError::InvalidRate,
        )),
        sample_rate > 0 ==> {
            let g = gcd_spec(sample_rate as nat, CANONICAL_RATE as nat);
            let up = CANONICAL_RATE as int / g as int;
            let down = sample_rate as int / g as int;
            let rlen = ceil_div(len as int * up, down);
            &&& ((rlen < FRAME_LENGTH) <==> (r == Result::<AnalysisPlan, StoiError>::Err(
                StoiError::SignalTooShort,
            )))
            &&& (rlen >= FRAME_LENGTH ==> {
                &&& r is Ok
                &&& r->Ok_0.up == up
                &&& r->Ok_0.down == down
                &&& gcd_spec(r->Ok_0.down as nat, r->Ok_0.up as nat) == 1
                &&& r->Ok_0.half_length == spec_half_length(up, down)
                &&& r->Ok_0.resampled_len == rlen
                &&& r->Ok_0.num_frames == spec_num_frames(
                    rlen,
                    FRAME_LENGTH as int,
                    HOP_LENGTH as int,
                )
            })
        },
        sample_rate == CANONICAL_RATE && r is Ok ==> r->Ok_0.up == 1 && r->Ok_0.down == 1
            && r->Ok_0.resampled_len == len,
{
    if sample_rate == 0 {
        return Err(StoiError::InvalidRate);
    }
    let (up, down) = reduce_ratio(sample_rate, CANONICAL_RATE);
    proof {
        let g = gcd_spec(sample_rate as nat, CANONICAL_RATE as nat);
        lemma_gcd_divides(sample_rate as nat, CANONICAL_RATE as nat);
        assert(up as int == CANONICAL_RATE as int / g as int) by {
            lemma_div_multiples_vanish(up as int, g as int);
            assert((g as int) * (up as int) == up as int * g as int) by (nonlinear_arith);
        }
        assert(down as int == sample_rate as int / g as int) by {
            lemma_div_multiples_vanish(down as int, g as int);
            assert((g as int) * (down as int) == down as int * g as int) by (nonlinear_arith);
        }
        assert(up <= 10000) by (nonlinear_arith)
            requires
                up * g == 10000int,
                g >= 1,
                up >= 1,
        ;
        // The resampled length fits in usize.
        assert(len as int * up as int <= (usize::MAX / 10000) as int * 10000) by (nonlinear_arith)
            requires
                0 <= len as int <= (usize::MAX / 10000) as int,
                1 <= up as int <= 10000,
        ;
        lemma_fundamental_div_mod(usize::MAX as int, 10000);
        lemma_mod_bound(usize::MAX as int, 10000);
        assert(len as int * up as int >= 0) by (nonlinear_arith)
            requires
                len as int >= 0,
                up as int >= 1,
        ;
        lemma_ceil_div(len as int * up as int, down as int);
        if sample_rate == CANONICAL_RATE {
            lemma_gcd_self(CANONICAL_RATE as nat);
        }
    }
    let half_length = filter_half_length(up, down);
    let resampled_len = output_length(len, up, down);
    proof {
        if sample_rate == CANONICAL_RATE {
            // With a unit ratio the output length equals the input length.
            let g = gcd_spec(sample_rate as nat, CANONICAL_RATE as nat);
            assert(up == 1 && down == 1) by (nonlinear_arith)
                requires
                    up * g == 10000int,
                    down * g == sample_rate as int,
                    g == 10000int,
                    sample_rate as int == 10000int,
                    up >= 1,
                    down >= 1,
            ;
            assert((len as int) * (up as int) == len as int) by (nonlinear_arith)
                requires
                    up as int == 1,
            ;
            lemma_div_multiples_vanish(len as int, 1);
            assert(1int * (len as int) == len as int);
            assert(ceil_div(len as int, 1) == (len as int) / 1int);
            assert(resampled_len == len);
        }
    }
    if resampled_len < frames::FRAME_LENGTH {
        return Err(StoiError::SignalTooShort);
    }
    let n_frames = num_frames(resampled_len, frames::FRAME_LENGTH, frames::HOP_LENGTH);
    Ok(
        AnalysisPlan {
            up,
            down,
            half_length,
            resampled_len,
            num_frames: n_frames,
        },
    )
}

/// Checks the entry-point preconditions on the two input signals.
///
/// The sample rate is checked first, then the lengths.
pub fn validate_inputs(x_len: usize, y_len: usize, sample_rate: u32) -> (r: Result<(), StoiError>)
    ensures
        r is Ok <==> (sample_rate > 0 && x_len == y_len),
        sample_rate == 0 ==> r == Result::<(), StoiError>::Err(StoiError::InvalidRate),
        sample_rate > 0 && x_len != y_len ==> r == Result::<(), StoiError>::Err(
            StoiError::LengthMismatch,
        ),
{
    if sample_rate == 0 {
        Err(StoiError::InvalidRate)
    } else if x_len != y_len {
        Err(StoiError::LengthMismatch)
    } else {
        Ok(())
    }
}

} // verus!
