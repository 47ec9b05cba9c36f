//! Tests of the resampling ratio, filter sizing, and polyphase indexing.

use stoilib::resample::{
    filter_half_length, gcd, input_start, output_length, phase_tap_count, polyphase_phase,
    reduce_ratio,
};

#[test]
fn gcd_of_common_rates() {
    assert_eq!(gcd(8000, 10000), 2000);
    assert_eq!(gcd(44100, 10000), 100);
    assert_eq!(gcd(10000, 10000), 10000);
    assert_eq!(gcd(7, 0), 7);
    assert_eq!(gcd(0, 7), 7);
}

#[test]
fn ratio_is_reduced_and_coprime() {
    assert_eq!(reduce_ratio(8000, 10000), (5, 4));
    assert_eq!(reduce_ratio(44100, 10000), (100, 441));
    assert_eq!(reduce_ratio(10000, 10000), (1, 1));
    assert_eq!(reduce_ratio(48000, 10000), (5, 24));
}

#[test]
fn filter_half_length_matches_kaiser_design() {
    // ceil(52 / (28.714 * cutoff / 10)) with cutoff = 1 / (2 * max(up, down)).
    assert_eq!(filter_half_length(5, 4), 182);
    assert_eq!(filter_half_length(4, 5), 182);
    assert_eq!(filter_half_length(1, 1), 37);
    assert_eq!(filter_half_length(100, 441), 15973);
}

#[test]
fn output_length_rounds_up() {
    assert_eq!(output_length(100, 5, 4), 125);
    assert_eq!(output_length(5, 3, 2), 8);
    assert_eq!(output_length(100, 1, 1), 100);
    assert_eq!(output_length(0, 7, 3), 0);
}

#[test]
fn polyphase_indexing_for_five_fourths() {
    // up = 5, down = 4, half-length 182: phase = (182 - 4 * i) mod 5.
    assert_eq!(polyphase_phase(0, 4, 5, 182), 2);
    assert_eq!(polyphase_phase(1, 4, 5, 182), 3);
    assert_eq!(polyphase_phase(2, 4, 5, 182), 4);
    assert_eq!(input_start(0, 4, 2, 5), 0);
    assert_eq!(input_start(1, 4, 3, 5), 1);
}

#[test]
fn phase_tap_counts_interleave_to_the_prototype() {
    // 2 * 182 + 1 = 365 prototype taps split evenly over 5 phases.
    let total: u64 = 365;
    let mut sum: u64 = 0;
    for p in 0..5u32 {
        let c = phase_tap_count(p, 5, total);
        assert_eq!(c, 73);
        sum += c;
    }
    assert_eq!(sum, total);

    let counts: Vec<u64> = (0..4u32).map(|p| phase_tap_count(p, 4, 11)).collect();
    assert_eq!(counts, vec![3, 3, 3, 2]);
    assert_eq!(counts.iter().sum::<u64>(), 11);
}
