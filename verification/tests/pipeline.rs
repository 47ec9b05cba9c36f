//! Tests of frame segmentation, the octave-band table, segment scheduling,
//! and the whole-analysis plan.

use stoilib::frames::{count_valid, frame_starts, num_frames, valid_indices};
use stoilib::octave::{band_range, band_width, octave_band_table, FFT_BINS, NUM_BANDS};
use stoilib::score::{num_segments, pooling_count, SEGMENT_LENGTH};
use stoilib::{plan_analysis, validate_inputs, StoiError, CANONICAL_RATE};

#[test]
fn frame_count_formula() {
    // 1 + (len - frame_length - 1) / hop, and zero when nothing fits.
    assert_eq!(num_frames(1000, 256, 128), 6);
    assert_eq!(num_frames(12500, 256, 128), 96);
    assert_eq!(num_frames(257, 256, 128), 1);
    assert_eq!(num_frames(256, 256, 128), 0);
    assert_eq!(num_frames(100, 256, 128), 0);
}

#[test]
fn frame_starts_step_by_hop() {
    let starts = frame_starts(1000, 256, 128);
    assert_eq!(starts, vec![0, 128, 256, 384, 512, 640]);
    for &s in &starts {
        assert!(s + 256 < 1000);
    }
    assert!(frame_starts(256, 256, 128).is_empty());
}

#[test]
fn mask_counting_and_compaction() {
    let mask = vec![true, false, true, true, false];
    assert_eq!(count_valid(&mask), 3);
    assert_eq!(valid_indices(&mask), vec![0, 2, 3]);
    assert_eq!(count_valid(&vec![]), 0);
    assert!(valid_indices(&vec![false, false]).is_empty());
}

#[test]
fn octave_band_table_is_fixed() {
    let table = octave_band_table();
    assert_eq!(table.len(), NUM_BANDS);
    assert_eq!(table[0], (7, 9));
    assert_eq!(table[14], (174, 219));
    // Contiguous ranges inside the spectrum.
    for k in 0..NUM_BANDS - 1 {
        assert_eq!(table[k].1, table[k + 1].0);
        assert!(table[k].0 < table[k].1);
    }
    assert!(table[NUM_BANDS - 1].1 < FFT_BINS);
    assert_eq!(band_range(3), (14, 17));
}

#[test]
fn band_widths_give_unit_spectrum_energies() {
    // For an all-unit magnitude spectrum, band k's energy is
    // sqrt(end - start): the width is the squared energy.
    let expected = vec![2, 2, 3, 3, 5, 5, 7, 9, 12, 14, 18, 22, 29, 36, 45];
    let widths: Vec<usize> = (0..NUM_BANDS).map(band_width).collect();
    assert_eq!(widths, expected);
    for k in 0..NUM_BANDS {
        let e = (widths[k] as f64).sqrt();
        assert!((e * e - widths[k] as f64).abs() < 1e-9);
    }
}

#[test]
fn too_few_valid_frames_is_an_error() {
    assert_eq!(num_segments(0), Err(StoiError::SignalTooShort));
    assert_eq!(num_segments(SEGMENT_LENGTH - 1), Err(StoiError::SignalTooShort));
    assert_eq!(num_segments(SEGMENT_LENGTH), Ok(1));
    assert_eq!(num_segments(100), Ok(71));
}

#[test]
fn pooling_counts_by_variant() {
    assert_eq!(pooling_count(71, true), 71);
    assert_eq!(pooling_count(71, false), 1065);
    assert_eq!(pooling_count(0, false), 0);
}

#[test]
fn input_validation_errors() {
    assert_eq!(validate_inputs(5, 5, 0), Err(StoiError::InvalidRate));
    assert_eq!(validate_inputs(5, 6, 8000), Err(StoiError::LengthMismatch));
    assert_eq!(validate_inputs(5, 5, 8000), Ok(()));
}

#[test]
fn plan_for_eight_khz_signal() {
    let plan = plan_analysis(10000, 8000).unwrap();
    assert_eq!(plan.up, 5);
    assert_eq!(plan.down, 4);
    assert_eq!(plan.half_length, 182);
    assert_eq!(plan.resampled_len, 12500);
    assert_eq!(plan.num_frames, 96);
}

#[test]
fn plan_at_canonical_rate_is_identity() {
    let plan = plan_analysis(5000, CANONICAL_RATE).unwrap();
    assert_eq!(plan.up, 1);
    assert_eq!(plan.down, 1);
    assert_eq!(plan.resampled_len, 5000);
    assert_eq!(plan.num_frames, 1 + (5000 - 256 - 1) / 128);
}

#[test]
fn plan_for_forty_eight_khz_signal() {
    let plan = plan_analysis(48000, 48000).unwrap();
    assert_eq!(plan.up, 5);
    assert_eq!(plan.down, 24);
    assert_eq!(plan.half_length, 870);
    assert_eq!(plan.resampled_len, 10000);
    assert_eq!(plan.num_frames, 77);
}

#[test]
fn plan_rejects_bad_inputs() {
    assert!(matches!(plan_analysis(1000, 0), Err(StoiError::InvalidRate)));
    // Shorter than one analysis frame after resampling.
    assert!(matches!(plan_analysis(100, 10000), Err(StoiError::SignalTooShort)));
    assert!(matches!(plan_analysis(100, 8000), Err(StoiError::SignalTooShort)));
}
