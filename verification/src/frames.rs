//! Frame segmentation and energy-mask bookkeeping: how a signal is sliced
//! into overlapping frames, and how the valid-frame mask is counted and
//! compacted into row indices.

use vstd::prelude::*;
use vstd::arithmetic::div_mod::*;
use crate::resample::lemma_mul_le_iff_div;

verus! {

/// Analysis frame length at the canonical rate, in samples.
pub const FRAME_LENGTH: usize = 256;

/// Hop between consecutive frame starts, in samples.
pub const HOP_LENGTH: usize = 128;

/// Energy range, in dB below the loudest frame, inside which a frame counts
/// as valid.
pub const DYNAMIC_RANGE_DB: u32 = 40;

/// Number of frames sliced from a signal of length `len`: frame `i` starts
/// at `i * hop`, and starts run strictly below `len - frame_length`.
pub open spec fn spec_num_frames(len: int, frame_length: int, hop: int) -> int {
    if len <= frame_length {
        0
    } else {
        1 + (len - frame_length - 1) / hop
    }
}

/// Frame count, with the defining property that frame `i` exists exactly
/// when its start `i * hop` lies strictly before `len - frame_length`.
pub fn num_frames(len: usize, frame_length: usize, hop: usize) -> (n: usize)
    requires
        hop >= 1,
    ensures
        n == spec_num_frames(len as int, frame_length as int, hop as int),
        forall|i: int| 0 <= i ==> ((#[trigger] (i * hop) < len - frame_length) <==> i < n),
{
    if len <= frame_length {
        proof {
            assert forall|i: int| 0 <= i implies !(#[trigger] (i * hop) < len - frame_length) by {
                assert(i * hop >= 0) by (nonlinear_arith)
                    requires
                        i >= 0,
                        hop as int >= 0,
                ;
            }
        }
        0
    } else {
        let x = len - frame_length - 1;
        proof {
            lemma_div_pos_is_pos(x as int, hop as int);
            lemma_div_nonincreasing(x as int, hop as int);
        }
        let n = 1 + x / hop;
        proof {
            assert forall|i: int| 0 <= i implies ((#[trigger] (i * hop) < len - frame_length) <==> i
                < n) by {
                lemma_mul_le_iff_div(i, x as int, hop as int);
            }
        }
        n
    }
}

/// The frame start indices, in temporal order: frame `j` starts at `j * hop`
/// and its `frame_length` samples lie inside the signal.
pub fn frame_starts(len: usize, frame_length: usize, hop: usize) -> (starts: Vec<usize>)
    requires
        hop >= 1,
    ensures
        starts@.len() == spec_num_frames(len as int, frame_length as int, hop as int),
        forall|j: int| 0 <= j < starts@.len() ==> #[trigger] (starts@[j] as int) == j * hop,
        forall|j: int|
            0 <= j < starts@.len() ==> #[trigger] (starts@[j] as int) + frame_length < len,
{
    let n = num_frames(len, frame_length, hop);
    let mut starts: Vec<usize> = Vec::new();
    let mut j: usize = 0;
    while j < n
        invariant
            j <= n,
            hop >= 1,
            starts@.len() == j,
            forall|k: int| 0 <= k < j ==> #[trigger] (starts@[k] as int) == k * hop,
            forall|i: int| 0 <= i ==> ((#[trigger] (i * hop) < len - frame_length) <==> i < n),
        decreases n - j,
    {
        proof {
            assert((j as int) * (hop as int) < len - frame_length);
        }
        let start = j * hop;
        starts.push(start);
        j = j + 1;
    }
    proof {
        assert forall|k: int| 0 <= k < starts@.len() implies #[trigger] (starts@[k] as int)
            + frame_length < len by {
            assert(starts@[k] as int == k * hop);
            assert(k * hop < len - frame_length);
        }
    }
    starts
}

/// Number of `true` entries in a mask.
pub open spec fn count_true(s: Seq<bool>) -> nat
    decreases s.len(),
{
    if s.len() == 0 {
        0
    } else {
        count_true(s.drop_last()) + if s.last() {
            1nat
        } else {
            0nat
        }
    }
}

/// Extending a prefix by one entry raises the count by that entry.
proof fn lemma_count_true_take_step(s: Seq<bool>, i: int)
    requires
        0 <= i < s.len(),
    ensures
        count_true(s.take(i + 1)) == count_true(s.take(i)) + if s[i] {
            1nat
        } else {
            0nat
        },
{
    let t = s.take(i + 1);
    assert(t.drop_last() =~= s.take(i));
    assert(t.last() == s[i]);
}

/// Counts the frames a mask marks valid.
pub fn count_valid(mask: &Vec<bool>) -> (c: usize)
    ensures
        c == count_true(mask@),
{
    let mut c: usize = 0;
    let mut i: usize = 0;
    while i < mask.len()
        invariant
            i <= mask@.len(),
            c == count_true(mask@.take(i as int)),
            c <= i,
        decreases mask@.len() - i,
    {
        proof {
            lemma_count_true_take_step(mask@, i as int);
        }
        if mask[i] {
            c = c + 1;
        }
        i = i + 1;
    }
    proof {
        assert(mask@.take(mask@.len() as int) =~= mask@);
    }
    c
}

/// The indices of the valid frames, in temporal order: row `j` of a
/// compacted spectrogram comes from frame `idx[j]`, rows keep the frames'
/// order, and every valid frame gets exactly one row.
pub fn valid_indices(mask: &Vec<bool>) -> (idx: Vec<usize>)
    ensures
        idx@.len() == count_true(mask@),
        forall|j: int|
            0 <= j < idx@.len() ==> #[trigger] (idx@[j] as int) < mask@.len() && mask@[idx@[j] as int],
        forall|j: int, k: int| 0 <= j < k < idx@.len() ==> idx@[j] < idx@[k],
        forall|i: int| 0 <= i < mask@.len() && mask@[i] ==> idx@.contains(i as usize),
{
    let mut idx: Vec<usize> = Vec::new();
    let mut i: usize = 0;
    while i < mask.len()
        invariant
            i <= mask@.len(),
            idx@.len() == count_true(mask@.take(i as int)),
            forall|j: int|
                0 <= j < idx@.len() ==> #[trigger] (idx@[j] as int) < i && mask@[idx@[j] as int],
            forall|j: int, k: int| 0 <= j < k < idx@.len() ==> idx@[j] < idx@[k],
            forall|q: int| 0 <= q < i && mask@[q] ==> idx@.contains(q as usize),
        decreases mask@.len() - i,
    {
        proof {
            lemma_count_true_take_step(mask@, i as int);
        }
        let ghost old_idx = idx@;
        if mask[i] {
            idx.push(i);
            proof {
                assert(idx@ == old_idx.push(i));
                assert(idx@[idx@.len() - 1] == i);
                assert forall|q: int| 0 <= q < i + 1 && mask@[q] implies idx@.contains(
                    q as usize,
                ) by {
                    if q < i {
                        let w = choose|w: int| 0 <= w < old_idx.len() && old_idx[w] == q as usize;
                        assert(idx@[w] == q as usize);
                    } else {
                        assert(idx@[idx@.len() - 1] == q as usize);
                    }
                }
            }
        } else {
            proof {
                assert forall|q: int| 0 <= q < i + 1 && mask@[q] implies idx@.contains(
                    q as usize,
                ) by {
                    assert(q < i);
                }
            }
        }
        i = i + 1;
    }
    proof {
        assert(mask@.take(mask@.len() as int) =~= mask@);
    }
    idx
}

} // verus!
