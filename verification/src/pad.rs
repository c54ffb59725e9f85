//! Sizing of the generated pad's sample ring.

use vstd::prelude::*;

verus! {

/// Smallest ring, in samples, a generated pad is given.
pub const MIN_RING_SAMPLES: usize = 16384;

/// Samples the ring of a generated pad holds: two seconds of interleaved
/// stereo at `out_rate`, and never fewer than `MIN_RING_SAMPLES`.
pub open spec fn ring_capacity_of(out_rate: u32) -> int {
    let two_seconds = out_rate * 2 * 2;
    if two_seconds >= MIN_RING_SAMPLES {
        two_seconds
    } else {
        MIN_RING_SAMPLES as int
    }
}

/// Ring size, in samples, for a generated pad rendering at `out_rate`.
pub fn ring_capacity(out_rate: u32) -> (r: usize)
    requires
        out_rate * 4 <= usize::MAX,
    ensures
        r == ring_capacity_of(out_rate),
{
    let two_seconds = out_rate as usize * 2 * 2;
    if two_seconds >= MIN_RING_SAMPLES {
        two_seconds
    } else {
        MIN_RING_SAMPLES
    }
}

} // verus!
