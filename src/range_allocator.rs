//! Bump allocation of frames from the largest free region of the boot
//! memory map.
use crate::frame::{Frame, FrameAllocator, FRAME_SIZE};
use vstd::prelude::*;

verus! {

/// One region of the boot memory map.
#[derive(Debug, Clone, Copy, PartialEq, Eq, Structural)]
pub struct MemoryArea {
    pub base_addr: u64,
    pub length: u64,
}

/// Index of the region allocation draws from: the largest, and the last of
/// the largest where several tie.
pub open spec fn chosen_area(areas: Seq<MemoryArea>) -> int
    decreases areas.len(),
{
    if areas.len() <= 1 {
        0
    } else {
        let c = chosen_area(areas.drop_last());
        if areas.last().length >= areas[c].length {
            areas.len() - 1
        } else {
            c
        }
    }
}

proof fn lemma_chosen_area(areas: Seq<MemoryArea>)
    requires
        areas.len() > 0,
    ensures
        0 <= chosen_area(areas) < areas.len(),
        forall|j: int| 0 <= j < areas.len() ==> #[trigger] areas[j].length <= areas[chosen_area(areas)].length,
    decreases areas.len(),
{
    if areas.len() > 1 {
        let p = areas.drop_last();
        lemma_chosen_area(p);
        assert forall|j: int| 0 <= j < areas.len() implies #[trigger] areas[j].length
            <= areas[chosen_area(areas)].length by {
            if j < areas.len() - 1 {
                assert(areas[j] == p[j]);
            }
        }
    }
}

pub open spec fn max_u64(a: u64, b: u64) -> u64 {
    if a >= b {
        a
    } else {
        b
    }
}

/// First address the allocator may hand out.
pub open spec fn heap_start(areas: Seq<MemoryArea>, kernel_end: u64, multiboot_end: u64) -> u64 {
    max_u64(areas[chosen_area(areas)].base_addr, max_u64(kernel_end, multiboot_end))
}

/// End of the region the allocator draws from.
pub open spec fn heap_end(areas: Seq<MemoryArea>) -> int {
    areas[chosen_area(areas)].base_addr + areas[chosen_area(areas)].length
}

/// Hands out the frames of one region in increasing order, from the first
/// frame above the kernel image and the boot information up to the end of
/// the region. Freed frames are not taken back.
pub struct RangeAllocator {
    pub next_free_frame: Frame,
    pub end: Frame,
    /// Start of the heap: every frame handed out starts at or above it.
    pub floor: Ghost<u64>,
}

/// Start and end of the heap: the part of the largest region above both the
/// kernel image and the boot information.
pub fn heap_bounds(areas: &Vec<MemoryArea>, kernel_end: u64, multiboot_end: u64) -> (r: (u64, u64))
    requires
        areas.len() > 0,
        forall|j: int| 0 <= j < areas.len() ==> areas[j].base_addr + areas[j].length <= u64::MAX,
    ensures
        r.0 == heap_start(areas@, kernel_end, multiboot_end),
        r.1 == heap_end(areas@),
{
    let mut biggest: usize = 0;
    let mut i: usize = 1;
    while i < areas.len()
        invariant
            1 <= i <= areas.len(),
            biggest == chosen_area(areas@.subrange(0, i as int)),
        decreases areas.len() - i,
    {
        proof {
            let s = areas@.subrange(0, i as int + 1);
            assert(s.drop_last() =~= areas@.subrange(0, i as int));
            lemma_chosen_area(areas@.subrange(0, i as int));
        }
        if areas[i].length >= areas[biggest].length {
            biggest = i;
        }
        i += 1;
    }
    proof {
        assert(areas@.subrange(0, areas.len() as int) =~= areas@);
        lemma_chosen_area(areas@);
    }
    let area = areas[biggest];
    let heap_end = area.base_addr + area.length;
    let limit = if kernel_end >= multiboot_end {
        kernel_end
    } else {
        multiboot_end
    };
    let heap_start = if area.base_addr >= limit {
        area.base_addr
    } else {
        limit
    };
    (heap_start, heap_end)
}

impl RangeAllocator {
    /// An allocator for the largest of `areas`, above both the kernel image
    /// and the boot information.
    pub fn new(
        areas: &Vec<MemoryArea>,
        kernel_start: u64,
        kernel_end: u64,
        multiboot_start: u64,
        multiboot_end: u64,
    ) -> (r: RangeAllocator)
        requires
            areas.len() > 0,
            forall|j: int| 0 <= j < areas.len() ==> areas[j].base_addr + areas[j].length <= u64::MAX,
            heap_start(areas@, kernel_end, multiboot_end) < heap_end(areas@),
        ensures
            r.wf(),
            r.floor@ == heap_start(areas@, kernel_end, multiboot_end),
            r.next_free_frame.number == (heap_start(areas@, kernel_end, multiboot_end) + FRAME_SIZE - 1)
                / FRAME_SIZE as int,
            r.end.number == heap_end(areas@) / FRAME_SIZE as int,
            forall|n: u64| #[trigger]
                r.frames().contains(n) ==> !(kernel_start <= n * FRAME_SIZE < kernel_end) && !(
                multiboot_start <= n * FRAME_SIZE < multiboot_end),
    {
        let (heap_start, heap_end) = heap_bounds(areas, kernel_end, multiboot_end);
        // the first frame that starts at or above the heap start
        let below = Frame::containing_address(heap_start);
        let first = if heap_start % FRAME_SIZE == 0 {
            below
        } else {
            below.next()
        };
        proof {
            let h = heap_start;
            assert(h % 4096 == 0 ==> (h + 4095) / 4096 == h / 4096 && (h / 4096) * 4096 >= h)
                by (nonlinear_arith);
            assert(h % 4096 != 0 ==> (h + 4095) / 4096 == h / 4096 + 1 && (h / 4096 + 1) * 4096 >= h)
                by (nonlinear_arith);
        }
        let r = RangeAllocator {
            next_free_frame: first,
            end: Frame::containing_address(heap_end),
            floor: Ghost(heap_start),
        };
        proof {
            assert forall|n: u64| #[trigger] r.frames().contains(n) implies !(kernel_start <= n * FRAME_SIZE
                < kernel_end) && !(multiboot_start <= n * FRAME_SIZE < multiboot_end) by {
                lemma_never_reserved(&r, n, kernel_start, kernel_end, multiboot_start, multiboot_end);
            }
        }
        r
    }
}

impl FrameAllocator for RangeAllocator {
    open spec fn wf(&self) -> bool {
        &&& self.end.number <= crate::frame::MAX_FRAME_NUMBER
        &&& self.next_free_frame.number * FRAME_SIZE >= self.floor@
    }

    open spec fn frames(&self) -> Set<u64> {
        Set::new(|n: u64| self.next_free_frame.number <= n < self.end.number)
    }

    open spec fn remaining(&self) -> nat {
        if self.next_free_frame.number < self.end.number {
            (self.end.number - self.next_free_frame.number) as nat
        } else {
            0
        }
    }

    open spec fn reuses_freed() -> bool {
        false
    }

    open spec fn peek_at(&self, k: nat) -> Option<Frame> {
        if self.next_free_frame.number + k < self.end.number {
            Some(Frame { number: (self.next_free_frame.number + k) as u64 })
        } else {
            None
        }
    }

    open spec fn can_free(&self, frame: Frame) -> bool {
        true
    }

    /// The next frame of the region, until its end.
    fn allocate(&mut self) -> (r: Option<Frame>)
        ensures
            old(self).next_free_frame.number < old(self).end.number ==> r == Some(
                old(self).next_free_frame,
            ) && final(self).next_free_frame.number == old(self).next_free_frame.number + 1
                && final(self).end == old(self).end && final(self).floor == old(self).floor,
            old(self).next_free_frame.number >= old(self).end.number ==> r is None && *final(self)
                == *old(self),
    {
        if self.next_free_frame.number < self.end.number {
            let new = self.next_free_frame;
            self.next_free_frame = self.next_free_frame.next();
            assert(self.frames() =~= old(self).frames().remove(new.number));
            return Some(new);
        }
        assert(self.frames() =~= old(self).frames());
        None
    }

    fn holds(&self, n: u64) -> (r: bool) {
        self.next_free_frame.number <= n && n < self.end.number
    }

    fn available(&self) -> (r: u64) {
        if self.next_free_frame.number < self.end.number {
            self.end.number - self.next_free_frame.number
        } else {
            0
        }
    }

    /// Frames are never taken back.
    fn free(&mut self, frame: Frame)
        ensures
            *final(self) == *old(self),
    {
    }
}

/// No frame the allocator can still hand out starts below its heap start,
/// which lies above the kernel image and the boot information: so no frame
/// it hands out lies inside either.
pub proof fn lemma_never_reserved(
    a: &RangeAllocator,
    n: u64,
    kernel_start: u64,
    kernel_end: u64,
    multiboot_start: u64,
    multiboot_end: u64,
)
    requires
        a.wf(),
        a.frames().contains(n),
        a.floor@ >= kernel_end,
        a.floor@ >= multiboot_end,
    ensures
        !(kernel_start <= n * FRAME_SIZE < kernel_end),
        !(multiboot_start <= n * FRAME_SIZE < multiboot_end),
{
    assert(n >= a.next_free_frame.number);
    assert(n * 4096 >= a.next_free_frame.number * 4096) by (nonlinear_arith)
        requires
            n >= a.next_free_frame.number,
    ;
}

} // verus!
