//! Editing recorded audio: the buckets of the loudness map and the
//! frame-by-frame decision which samples a cut keeps. Reading and writing
//! the WAV files and converting times to frames belong to the application.
use vstd::prelude::*;

verus! {

/// The number of buckets of a loudness map of `frames` frames when
/// `buckets` are asked for: as many as asked, but one per frame at most
/// (a short track gets one bucket per frame).
pub open spec fn bucket_count_spec(frames: int, buckets: int) -> int {
    if buckets < frames {
        buckets
    } else {
        frames
    }
}

/// The bucket that frame `frame` of `frames` falls in, out of `count`:
/// bucket `i` holds the frames `f` with `f * count / frames == i`, so the
/// track is spread evenly from start to end; a frame past the end goes to
/// the last bucket.
pub open spec fn bucket_of_spec(frame: int, frames: int, count: int) -> int {
    let i = frame * count / frames;
    if i < count {
        i
    } else {
        count - 1
    }
}

/// The number of buckets: `min(buckets, frames)`.
pub fn bucket_count(frames: usize, buckets: usize) -> (r: usize)
    ensures
        r == bucket_count_spec(frames as int, buckets as int),
{
    if buckets < frames {
        buckets
    } else {
        frames
    }
}

/// The bucket of frame `frame` in a map of `count` buckets over `frames`
/// frames.
pub fn bucket_of(frame: usize, frames: usize, count: usize) -> (r: usize)
    requires
        1 <= count <= frames,
    ensures
        r == bucket_of_spec(frame as int, frames as int, count as int),
        r < count,
{
    proof {
        assert(frame <= 0xffff_ffff_ffff_ffffu64 && count <= 0xffff_ffff_ffff_ffffu64);
        assert((frame as int) * (count as int) <= 0xffff_ffff_ffff_fffe_0000_0000_0000_0001int) by (nonlinear_arith)
            requires
                0 <= frame <= 0xffff_ffff_ffff_ffffu64,
                0 <= count <= 0xffff_ffff_ffff_ffffu64,
        ;
    }
    let prod: u128 = (frame as u128) * (count as u128);
    proof {
        assert(prod / (frames as u128) <= prod) by (nonlinear_arith)
            requires
                frames >= 1,
        ;
    }
    let i: u128 = prod / (frames as u128);
    if i < count as u128 {
        i as usize
    } else {
        count - 1
    }
}

/// Every bucket gets a frame: with `1 <= count <= frames`, the first frame
/// of bucket `i` (`ceil(i * frames / count)`) lies in the track and falls
/// in bucket `i`.
pub proof fn lemma_every_bucket_has_a_frame(frames: int, count: int, i: int)
    requires
        1 <= count <= frames,
        0 <= i < count,
    ensures
        0 <= (i * frames + count - 1) / count < frames,
        bucket_of_spec((i * frames + count - 1) / count, frames, count) == i,
{
    let f = (i * frames + count - 1) / count;
    assert(f * count <= i * frames + count - 1 && f * count > i * frames - 1 && f >= 0) by (nonlinear_arith)
        requires
            count >= 1,
            frames >= 1,
            i >= 0,
            f == (i * frames + count - 1) / count,
    ;
    assert(f < frames) by (nonlinear_arith)
        requires
            1 <= count <= frames,
            0 <= i < count,
            f * count <= i * frames + count - 1,
    ;
    assert(f * count / frames == i) by (nonlinear_arith)
        requires
            1 <= count <= frames,
            0 <= i,
            f * count >= i * frames,
            f * count <= i * frames + count - 1,
    ;
}

/// Cut intervals of frames `[start, end)`, each not empty, in order and
/// apart: every cut ends no later than the next one starts.
pub open spec fn well_formed_cuts(cuts: Seq<(usize, usize)>) -> bool {
    &&& forall|i: int| 0 <= i < cuts.len() ==> #[trigger] cuts[i].0 < cuts[i].1
    &&& forall|i: int, j: int| 0 <= i < j < cuts.len() ==> #[trigger] cuts[i].1 <= #[trigger] cuts[j].0
}

/// Whether frame `frame` lies in one of the cuts.
pub open spec fn in_cut(cuts: Seq<(usize, usize)>, frame: usize) -> bool {
    exists|i: int| 0 <= i < cuts.len() && #[trigger] cuts[i].0 <= frame && frame < cuts[i].1
}

/// The decision which frames a cut keeps, taken frame by frame in
/// increasing order: a cursor walks along the cuts, so the whole track is
/// decided in one pass.
pub struct FrameCutter {
    cuts: Vec<(usize, usize)>,
    /// The first cut that does not end at or before the last frame seen.
    next: usize,
    /// The last frame asked about (frames only grow).
    last: usize,
}

impl FrameCutter {
    /// The cut intervals.
    pub closed spec fn cuts_spec(&self) -> Seq<(usize, usize)> {
        self.cuts@
    }

    /// The last frame asked about.
    pub closed spec fn last_frame(&self) -> usize {
        self.last
    }

    /// The cutter's invariant: the cuts are well formed and every cut
    /// before the cursor ends at or before the last frame asked about.
    pub closed spec fn valid(&self) -> bool {
        &&& well_formed_cuts(self.cuts@)
        &&& self.next <= self.cuts@.len()
        &&& forall|i: int| 0 <= i < self.next ==> #[trigger] self.cuts@[i].1 <= self.last
    }

    /// A cutter for the well-formed `cuts`, before any frame.
    pub fn new(cuts: Vec<(usize, usize)>) -> (r: Self)
        requires
            well_formed_cuts(cuts@),
        ensures
            r.valid(),
            r.cuts_spec() == cuts@,
            r.last_frame() == 0,
    {
        FrameCutter { cuts, next: 0, last: 0 }
    }

    /// Whether frame `frame` is kept (it lies in no cut). Frames are asked
    /// about in non-decreasing order.
    pub fn keep(&mut self, frame: usize) -> (r: bool)
        requires
            old(self).valid(),
            old(self).last_frame() <= frame,
        ensures
            final(self).valid(),
            final(self).cuts_spec() == old(self).cuts_spec(),
            final(self).last_frame() == frame,
            r == !in_cut(old(self).cuts_spec(), frame),
    {
        let ghost cuts = self.cuts@;
        while self.next < self.cuts.len() && frame >= self.cuts[self.next].1
            invariant
                self.cuts@ == cuts,
                well_formed_cuts(cuts),
                self.next <= cuts.len(),
                forall|i: int| 0 <= i < self.next ==> #[trigger] cuts[i].1 <= frame,
            decreases cuts.len() - self.next,
        {
            self.next = self.next + 1;
        }
        self.last = frame;
        let r = !(self.next < self.cuts.len() && frame >= self.cuts[self.next].0);
        proof {
            if r {
                assert forall|i: int| 0 <= i < cuts.len() implies !(#[trigger] cuts[i].0 <= frame
                    && frame < cuts[i].1) by {
                    if i >= self.next {
                        if self.next < cuts.len() {
                            assert(frame < cuts[self.next as int].0);
                            if i > self.next {
                                assert(cuts[self.next as int].1 <= cuts[i].0);
                                assert(cuts[self.next as int].0 < cuts[self.next as int].1);
                            }
                        }
                    }
                }
            } else {
                assert(cuts[self.next as int].0 <= frame && frame < cuts[self.next as int].1);
            }
        }
        r
    }
}

} // verus!
