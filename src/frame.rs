//! Physical frames and the allocator interface.
use vstd::prelude::*;

verus! {

/// Size in bytes of one physical frame.
pub const FRAME_SIZE: u64 = 4096;

/// Largest frame number whose start address is still a `u64`.
pub const MAX_FRAME_NUMBER: u64 = 0xf_ffff_ffff_ffff;

/// A physical frame, identified by its index.
#[derive(Debug, Clone, Copy, PartialEq, Eq, Structural, PartialOrd, Ord)]
pub struct Frame {
    pub number: u64,
}

impl Frame {
    /// The frame whose memory holds `address`.
    pub fn containing_address(address: u64) -> (r: Frame)
        ensures
            r.number == address / FRAME_SIZE,
            r.number <= MAX_FRAME_NUMBER,
    {
        Frame { number: address / FRAME_SIZE }
    }

    /// The frame right after this one.
    pub fn next(&self) -> (r: Frame)
        requires
            self.number <= MAX_FRAME_NUMBER,
        ensures
            r.number == self.number + 1,
    {
        Frame { number: self.number + 1 }
    }

    /// Physical address of the first byte of the frame.
    pub fn start_address(&self) -> (r: u64)
        requires
            self.number <= MAX_FRAME_NUMBER,
        ensures
            r == self.number * FRAME_SIZE,
    {
        self.number * FRAME_SIZE
    }

    /// The frames from `start` to `end`, both included.
    pub fn range_inclusive(start: Frame, end: Frame) -> (r: FrameRangeInclusiveIter)
        ensures
            r.current == start,
            r.end == end,
    {
        FrameRangeInclusiveIter { current: start, end }
    }
}

/// A frame's start address leads back to the same frame.
pub proof fn lemma_frame_round_trip(f: Frame)
    requires
        f.number <= MAX_FRAME_NUMBER,
    ensures
        (f.number * FRAME_SIZE) <= u64::MAX,
        ((f.number * FRAME_SIZE) as u64) / FRAME_SIZE == f.number,
{
    let n = f.number;
    assert(n <= 0xf_ffff_ffff_ffff ==> n * 4096 <= 0xffff_ffff_ffff_ffff && ((n * 4096) as u64)
        / 4096 == n) by (nonlinear_arith);
}

/// The frames of an inclusive range, handed out one at a time.
pub struct FrameRangeInclusiveIter {
    pub current: Frame,
    pub end: Frame,
}

impl FrameRangeInclusiveIter {
    /// The frames still to come.
    pub open spec fn remaining(&self) -> Seq<u64> {
        Seq::new(
            if self.current.number <= self.end.number {
                (self.end.number - self.current.number + 1) as nat
            } else {
                0
            },
            |i: int| (self.current.number + i) as u64,
        )
    }

    /// The next frame of the range, or `None` once it is past the end.
    pub fn next(&mut self) -> (r: Option<Frame>)
        requires
            old(self).end.number <= MAX_FRAME_NUMBER,
        ensures
            final(self).end == old(self).end,
            old(self).current.number <= old(self).end.number ==> r == Some(old(self).current)
                && final(self).current.number == old(self).current.number + 1,
            old(self).current.number > old(self).end.number ==> r is None && *final(self) == *old(self),
            old(self).remaining().len() == 0 ==> r is None && final(self).remaining().len() == 0,
            old(self).remaining().len() > 0 ==> r == Some(Frame { number: old(self).remaining()[0] })
                && final(self).remaining() == old(self).remaining().drop_first(),
    {
        if self.current.number > self.end.number {
            return None;
        }
        let next = self.current;
        self.current = self.current.next();
        assert(self.remaining() =~= old(self).remaining().drop_first());
        Some(next)
    }
}

/// A source of physical frames.
pub trait FrameAllocator {
    /// Internal consistency of the allocator.
    spec fn wf(&self) -> bool;

    /// Numbers of the frames the allocator may still hand out.
    spec fn frames(&self) -> Set<u64>;

    /// How many more frames it will hand out.
    spec fn remaining(&self) -> nat;

    /// Whether `free` takes the frame back for reuse.
    spec fn reuses_freed() -> bool;

    /// Whether `free` accepts `frame`.
    spec fn can_free(&self, frame: Frame) -> bool;

    /// The frame that the `k`-th next call of `allocate` hands out.
    spec fn peek_at(&self, k: nat) -> Option<Frame>;

    fn allocate(&mut self) -> (r: Option<Frame>)
        requires
            old(self).wf(),
        ensures
            r == old(self).peek_at(0),
            forall|k: nat| #[trigger] final(self).peek_at(k) == old(self).peek_at(k + 1),
            final(self).wf(),
            old(self).remaining() > 0 ==> r is Some,
            match r {
                Some(f) => {
                    &&& old(self).frames().contains(f.number)
                    &&& final(self).frames() == old(self).frames().remove(f.number)
                    &&& final(self).remaining() + 1 == old(self).remaining()
                },
                None => {
                    &&& final(self).frames() == old(self).frames()
                    &&& final(self).remaining() == old(self).remaining()
                },
            },
    ;

    /// Whether the allocator may still hand out frame `n`.
    fn holds(&self, n: u64) -> (r: bool)
        requires
            self.wf(),
        ensures
            r == self.frames().contains(n),
    ;

    /// How many more frames it will hand out.
    fn available(&self) -> (r: u64)
        requires
            self.wf(),
        ensures
            r == self.remaining(),
    ;

    fn free(&mut self, frame: Frame)
        requires
            old(self).wf(),
            old(self).can_free(frame),
        ensures
            final(self).wf(),
            Self::reuses_freed() ==> final(self).frames() == old(self).frames().insert(frame.number)
                && final(self).remaining() == old(self).remaining() + 1,
            !Self::reuses_freed() ==> final(self).frames() == old(self).frames()
                && final(self).remaining() == old(self).remaining(),
    ;
}

} // verus!
