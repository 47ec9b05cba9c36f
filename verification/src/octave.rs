//! The fixed one-third-octave band table over the one-sided magnitude
//! spectrum: 15 contiguous bin ranges from bin 7 up to bin 219, covering
//! roughly 150 Hz to 4.3 kHz at the canonical rate.

use vstd::prelude::*;

verus! {

/// Length of the real-input frequency transform.
pub const FFT_LENGTH: usize = 512;

/// Number of one-sided magnitude bins the transform yields.
pub const FFT_BINS: usize = 257;

/// Number of one-third-octave bands.
pub const NUM_BANDS: usize = 15;

/// Bin edges of the bands: band `k` covers bins
/// `band_edge(k) .. band_edge(k + 1)`.
pub open spec fn band_edge(k: int) -> int {
    if k <= 0 {
        7
    } else if k == 1 {
        9
    } else if k == 2 {
        11
    } else if k == 3 {
        14
    } else if k == 4 {
        17
    } else if k == 5 {
        22
    } else if k == 6 {
        27
    } else if k == 7 {
        34
    } else if k == 8 {
        43
    } else if k == 9 {
        55
    } else if k == 10 {
        69
    } else if k == 11 {
        87
    } else if k == 12 {
        109
    } else if k == 13 {
        138
    } else if k == 14 {
        174
    } else {
        219
    }
}

/// The bands are nonempty, contiguous, and sit inside the spectrum.
pub proof fn lemma_octave_bands_wellformed()
    ensures
        band_edge(0) == 7,
        band_edge(NUM_BANDS as int) == 219,
        forall|k: int| 0 <= k < NUM_BANDS ==> #[trigger] band_edge(k) < band_edge(k + 1),
        forall|k: int| 0 <= k <= NUM_BANDS ==> 0 < #[trigger] band_edge(k) && band_edge(k)
            < FFT_BINS,
{
}

/// The inclusive start and exclusive end bin of band `k`.
pub fn band_range(k: usize) -> (r: (usize, usize))
    requires
        k < NUM_BANDS,
    ensures
        r.0 == band_edge(k as int),
        r.1 == band_edge(k as int + 1),
{
    if k == 0 {
        (7, 9)
    } else if k == 1 {
        (9, 11)
    } else if k == 2 {
        (11, 14)
    } else if k == 3 {
        (14, 17)
    } else if k == 4 {
        (17, 22)
    } else if k == 5 {
        (22, 27)
    } else if k == 6 {
        (27, 34)
    } else if k == 7 {
        (34, 43)
    } else if k == 8 {
        (43, 55)
    } else if k == 9 {
        (55, 69)
    } else if k == 10 {
        (69, 87)
    } else if k == 11 {
        (87, 109)
    } else if k == 12 {
        (109, 138)
    } else if k == 13 {
        (138, 174)
    } else {
        (174, 219)
    }
}

/// Number of spectrum bins band `k` aggregates; for an all-unit magnitude
/// spectrum the band's root-sum-of-squares energy is the square root of this
/// count.
pub fn band_width(k: usize) -> (w: usize)
    requires
        k < NUM_BANDS,
    ensures
        w == band_edge(k as int + 1) - band_edge(k as int),
{
    let r = band_range(k);
    proof {
        lemma_octave_bands_wellformed();
    }
    r.1 - r.0
}

/// The whole band table, in band order.
pub fn octave_band_table() -> (t: Vec<(usize, usize)>)
    ensures
        t@.len() == NUM_BANDS,
        forall|k: int|
            0 <= k < NUM_BANDS ==> #[trigger] (t@[k].0 as int) == band_edge(k) && t@[k].1
                == band_edge(k + 1),
{
    let mut t: Vec<(usize, usize)> = Vec::new();
    let mut k: usize = 0;
    while k < NUM_BANDS
        invariant
            k <= NUM_BANDS,
            t@.len() == k,
            forall|q: int|
                0 <= q < k ==> #[trigger] (t@[q].0 as int) == band_edge(q) && t@[q].1 == band_edge(
                    q + 1,
                ),
        decreases NUM_BANDS - k,
    {
        let r = band_range(k);
        t.push(r);
        k = k + 1;
    }
    t
}

} // verus!
