//! Frame layout of the log-mel features that Parakeet reads.
use vstd::prelude::*;

verus! {

/// Hop between frames, in samples (10 ms at 16 kHz).
pub const HOP: usize = 160;

/// The number of feature frames for `n` samples (centred frames).
pub fn num_frames(n: usize) -> (r: usize)
    ensures
        r == n / 160 + 1,
{
    n / HOP + 1
}

} // verus!
