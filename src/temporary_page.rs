//! A one-page scratch mapping, for editing a table page that the active
//! hierarchy does not reach, with its own small pool of table frames.
use crate::entry::{word_present, word_target, EntryFlags, HUGE_PAGE, WRITABLE};
use crate::frame::{Frame, FrameAllocator};
use crate::mapper::{
    fresh_for_page, full_path, keeps_present, tables_from, writes_only_path, leaf_not_recursive, leaf_word, mapped, missing_tables,
    new_tables, no_huge_on_path, p1_table, p2_table, p3_table, slot_free, unmapped, Mapper,
};
use crate::memory::{walk, MachineOp, TableWrite, TlbFlush};
use crate::page::{p1_of, p4_of, Page, PAGE_SIZE, RECURSIVE_INDEX};
use crate::table::{Level1, Table};
use core::marker::PhantomData;
use vstd::array::ArrayAdditionalExecFns;
use vstd::prelude::*;

verus! {

broadcast use vstd::array::group_array_axioms;

/// The frames of the full slots, first slot first.
pub open spec fn full_slots(s: Seq<Option<Frame>>) -> Seq<Frame> {
    (if s[0] is Some { seq![s[0]->Some_0] } else { Seq::empty() }) + (if s[1] is Some {
        seq![s[1]->Some_0]
    } else {
        Seq::empty()
    }) + (if s[2] is Some { seq![s[2]->Some_0] } else { Seq::empty() })
}

/// Index of the first full slot, 3 if none.
pub open spec fn first_full(s: Seq<Option<Frame>>) -> int {
    if s[0] is Some {
        0
    } else if s[1] is Some {
        1
    } else if s[2] is Some {
        2
    } else {
        3
    }
}

/// Index of the first empty slot, 3 if none.
pub open spec fn first_empty(s: Seq<Option<Frame>>) -> int {
    if s[0] is None {
        0
    } else if s[1] is None {
        1
    } else if s[2] is None {
        2
    } else {
        3
    }
}

pub open spec fn distinct_slots(a: Option<Frame>, b: Option<Frame>) -> bool {
    a is Some && b is Some ==> a != b
}

/// Up to three frames: enough for a P3, a P2 and a P1 table.
pub struct TinyAllocator(pub [Option<Frame>; 3]);

impl TinyAllocator {
    /// Whether slot `i` holds frame `n`.
    pub open spec fn slot_holds(&self, i: int, n: u64) -> bool {
        self.0@[i] == Some(Frame { number: n })
    }

    pub open spec fn count(&self) -> nat {
        (if self.0@[0] is Some { 1nat } else { 0 }) + (if self.0@[1] is Some { 1nat } else { 0 })
            + (if self.0@[2] is Some { 1nat } else { 0 })
    }

    /// Draws three frames from `allocator`; a slot stays empty when it has
    /// none left.
    pub fn new<A: FrameAllocator>(allocator: &mut A) -> (r: TinyAllocator)
        requires
            old(allocator).wf(),
        ensures
            final(allocator).wf(),
            r.wf(),
            r.frames().subset_of(old(allocator).frames()),
            final(allocator).frames() == old(allocator).frames().difference(r.frames()),
            old(allocator).remaining() >= 3 ==> r.remaining() == 3 && final(allocator).remaining() + 3
                == old(allocator).remaining(),
            forall|i: int| 0 <= i < 3 ==> (r.0@[i] is Some <==> i < old(allocator).remaining()),
            final(allocator).remaining() + r.count() == old(allocator).remaining(),
            r.0@ == seq![old(allocator).peek_at(0), old(allocator).peek_at(1), old(allocator).peek_at(2)],
    {
        let a = allocator.allocate();
        let b = allocator.allocate();
        let c = allocator.allocate();
        let r = TinyAllocator([a, b, c]);
        assert(r.0@ == seq![a, b, c]);
        assert(r.frames() =~= old(allocator).frames().difference(final(allocator).frames()));
        assert(final(allocator).frames() =~= old(allocator).frames().difference(r.frames()));
        r
    }
}

impl FrameAllocator for TinyAllocator {
    /// No frame sits in two slots.
    open spec fn wf(&self) -> bool {
        &&& distinct_slots(self.0@[0], self.0@[1])
        &&& distinct_slots(self.0@[0], self.0@[2])
        &&& distinct_slots(self.0@[1], self.0@[2])
    }

    open spec fn frames(&self) -> Set<u64> {
        Set::new(|n: u64| self.slot_holds(0, n) || self.slot_holds(1, n) || self.slot_holds(2, n))
    }

    open spec fn remaining(&self) -> nat {
        self.count()
    }

    open spec fn reuses_freed() -> bool {
        true
    }

    open spec fn peek_at(&self, k: nat) -> Option<Frame> {
        if k < full_slots(self.0@).len() {
            Some(full_slots(self.0@)[k as int])
        } else {
            None
        }
    }

    /// A slot is empty, and `frame` is not already held.
    open spec fn can_free(&self, frame: Frame) -> bool {
        &&& self.count() < 3
        &&& !self.frames().contains(frame.number)
    }

    /// The frame of the first full slot, which is emptied.
    fn allocate(&mut self) -> (r: Option<Frame>)
        ensures
            first_full(old(self).0@) < 3 ==> r == old(self).0@[first_full(old(self).0@)]
                && final(self).0@ == old(self).0@.update(first_full(old(self).0@), None),
            first_full(old(self).0@) == 3 ==> r is None && *final(self) == *old(self),
    {
        let mut i: usize = 0;
        while i < 3
            invariant
                i <= 3,
                *self == *old(self),
                old(self).wf(),
                forall|k: int| 0 <= k < i ==> self.0@[k] is None,
            decreases 3 - i,
        {
            if self.0[i].is_some() {
                let f = self.0[i];
                self.0.set(i, None);
                proof {
                    let n = f->Some_0.number;
                    assert(self.0@ == old(self).0@.update(i as int, None));
                    assert(old(self).slot_holds(i as int, n));
                    assert(self.frames() =~= old(self).frames().remove(n));
                }
                return f;
            }
            i += 1;
        }
        None
    }

    fn holds(&self, n: u64) -> (r: bool) {
        let mut i: usize = 0;
        while i < 3
            invariant
                i <= 3,
                forall|k: int| 0 <= k < i ==> !self.slot_holds(k, n),
            decreases 3 - i,
        {
            if let Some(f) = self.0[i] {
                if f.number == n {
                    return true;
                }
            }
            i += 1;
        }
        false
    }

    fn available(&self) -> (r: u64) {
        let mut c: u64 = 0;
        let mut i: usize = 0;
        while i < 3
            invariant
                i <= 3,
                c == (if i > 0 && self.0@[0] is Some { 1nat } else { 0 }) + (if i > 1 && self.0@[1] is Some {
                    1nat
                } else {
                    0
                }) + (if i > 2 && self.0@[2] is Some { 1nat } else { 0 }),
            decreases 3 - i,
        {
            if self.0[i].is_some() {
                c += 1;
            }
            i += 1;
        }
        c
    }

    /// Puts `frame` in the first empty slot.
    fn free(&mut self, frame: Frame)
        ensures
            final(self).0@ == old(self).0@.update(first_empty(old(self).0@), Some(frame)),
    {
        let mut i: usize = 0;
        while i < 3
            invariant
                i <= 3,
                *self == *old(self),
                old(self).wf(),
                old(self).can_free(frame),
                forall|k: int| 0 <= k < i ==> self.0@[k] is Some,
            decreases 3 - i,
        {
            if self.0[i].is_none() {
                self.0.set(i, Some(frame));
                proof {
                    assert(self.0@ == old(self).0@.update(i as int, Some(frame)));
                    assert(self.frames() =~= old(self).frames().insert(frame.number));
                }
                return;
            }
            i += 1;
        }
    }
}

/// A scratch virtual page and the pool its tables come from.
pub struct TemporaryPage {
    pub page: Page,
    pub allocator: TinyAllocator,
}

impl TemporaryPage {
    /// A scratch page at `page`, with three frames from `allocator`.
    pub fn new<A: FrameAllocator>(page: Page, allocator: &mut A) -> (r: TemporaryPage)
        requires
            old(allocator).wf(),
        ensures
            r.page == page,
            r.allocator.wf(),
            final(allocator).wf(),
            r.allocator.frames().subset_of(old(allocator).frames()),
            final(allocator).frames() == old(allocator).frames().difference(r.allocator.frames()),
            old(allocator).remaining() >= 3 ==> r.allocator.remaining() == 3,
            old(allocator).remaining() >= 3 ==> final(allocator).remaining() + 3 == old(allocator).remaining(),
            forall|i: int| 0 <= i < 3 ==> (r.allocator.0@[i] is Some <==> i < old(allocator).remaining()),
            final(allocator).remaining() + r.allocator.count() == old(allocator).remaining(),
    {
        TemporaryPage { page, allocator: TinyAllocator::new(allocator) }
    }

    /// What mapping the scratch page in `mapper` needs: the mapper edits
    /// the active table, the page is unmapped, and its pool can build the
    /// tables that are missing.
    pub open spec fn can_map(&self, mapper: &Mapper) -> bool {
        let fr = mapper.frames();
        let root = mapper.root();
        let n = self.page.number;
        &&& mapper.wf()
        &&& root == mapper.mem.active()
        &&& self.page.wf()
        &&& p4_of(n) != RECURSIVE_INDEX
        &&& walk(fr, root, n) is None
        &&& no_huge_on_path(fr, root, n)
        &&& slot_free(fr, root, n)
        &&& self.allocator.wf()
        &&& missing_tables(fr, root, n) <= self.allocator.remaining()
        &&& forall|x: u64| #[trigger]
            self.allocator.frames().contains(x) ==> fresh_for_page(&mapper.mem, n, x)
    }

    /// Maps the scratch page to `frame` in the active table, writable, and
    /// returns its address.
    pub fn map(&mut self, frame: Frame, active_table: &mut Mapper) -> (r: u64)
        requires
            old(self).can_map(old(active_table)),
            frame.number < crate::entry::FRAME_NUMBER_LIMIT,
        ensures
            r == old(self).page.number * PAGE_SIZE,
            r >> 12u64 == old(self).page.number,
            final(self).page == old(self).page,
            mapped(&old(active_table).mem, &final(active_table).mem, old(self).page.number, frame.number, WRITABLE),
            tables_from(
                &old(active_table).mem,
                &final(active_table).mem,
                old(self).page.number,
                old(self).allocator.frames().difference(final(self).allocator.frames()),
            ),
            keeps_present(
                old(active_table).frames(),
                final(active_table).frames(),
                old(self).allocator.frames().difference(final(self).allocator.frames()),
            ),
            final(self).allocator.wf(),
            final(self).allocator.frames().subset_of(old(self).allocator.frames()),
            final(self).allocator.remaining() + missing_tables(
                old(active_table).frames(),
                old(active_table).root(),
                old(self).page.number,
            ) == old(self).allocator.remaining(),
            final(active_table).mem.flushes() == old(active_table).mem.flushes(),
            writes_only_path(
                old(active_table).frames(),
                final(active_table).frames(),
                old(active_table).root(),
                old(self).page.number,
                old(self).allocator.frames().difference(final(self).allocator.frames()),
            ),
            missing_tables(old(active_table).frames(), old(active_table).root(), old(self).page.number)
                == 0 ==> final(self).allocator == old(self).allocator,
            seq![
                old(active_table).root(),
                p3_table(final(active_table).frames(), old(active_table).root(), old(self).page.number),
                p2_table(final(active_table).frames(), old(active_table).root(), old(self).page.number),
                p1_table(final(active_table).frames(), old(active_table).root(), old(self).page.number),
            ] == new_tables(old(active_table).frames(), old(active_table).root(), old(self).page.number, old(self).allocator),
    {
        let flags = EntryFlags::from_bits_truncate(WRITABLE);
        proof {
            assert(WRITABLE & 0x8000_0000_0000_03ff == WRITABLE) by (bit_vector);
            assert(WRITABLE & HUGE_PAGE == 0) by (bit_vector);
        }
        active_table.map_to(self.page, frame, flags, &mut self.allocator);
        let r = self.page.start_address();
        proof {
            let n = self.page.number;
            assert(n < 0x10_0000_0000_0000 ==> ((n * 4096) as u64) >> 12u64 == n) by (bit_vector);
        }
        r
    }

    /// Maps the scratch page to `frame` and sees it as a P1-shaped table:
    /// how a table page outside the hierarchy is read and written.
    pub fn map_table_frame(&mut self, frame: Frame, active_table: &mut Mapper) -> (r: Table<Level1>)
        requires
            old(self).can_map(old(active_table)),
            frame.number < crate::entry::FRAME_NUMBER_LIMIT,
        ensures
            r.valid(&final(active_table).mem),
            r.path@ is None,
            r.frame(&final(active_table).mem) == frame.number,
            r.address == old(self).page.number * PAGE_SIZE,
            r.address >> 12u64 == old(self).page.number,
            final(self).page == old(self).page,
            mapped(&old(active_table).mem, &final(active_table).mem, old(self).page.number, frame.number, WRITABLE),
            tables_from(
                &old(active_table).mem,
                &final(active_table).mem,
                old(self).page.number,
                old(self).allocator.frames().difference(final(self).allocator.frames()),
            ),
            keeps_present(
                old(active_table).frames(),
                final(active_table).frames(),
                old(self).allocator.frames().difference(final(self).allocator.frames()),
            ),
            final(self).allocator.wf(),
            final(self).allocator.frames().subset_of(old(self).allocator.frames()),
            final(self).allocator.remaining() + missing_tables(
                old(active_table).frames(),
                old(active_table).root(),
                old(self).page.number,
            ) == old(self).allocator.remaining(),
            final(active_table).mem.flushes() == old(active_table).mem.flushes(),
            writes_only_path(
                old(active_table).frames(),
                final(active_table).frames(),
                old(active_table).root(),
                old(self).page.number,
                old(self).allocator.frames().difference(final(self).allocator.frames()),
            ),
            missing_tables(old(active_table).frames(), old(active_table).root(), old(self).page.number)
                == 0 ==> final(self).allocator == old(self).allocator,
            seq![
                old(active_table).root(),
                p3_table(final(active_table).frames(), old(active_table).root(), old(self).page.number),
                p2_table(final(active_table).frames(), old(active_table).root(), old(self).page.number),
                p1_table(final(active_table).frames(), old(active_table).root(), old(self).page.number),
            ] == new_tables(old(active_table).frames(), old(active_table).root(), old(self).page.number, old(self).allocator),
    {
        let address = self.map(frame, active_table);
        Table { address, path: Ghost(None), level: PhantomData }
    }

    /// Removes the scratch mapping; its frame goes to the pool.
    pub fn unmap(&mut self, active_table: &mut Mapper)
        requires
            old(active_table).wf(),
            old(self).page.wf(),
            full_path(old(active_table).frames(), old(active_table).root(), old(self).page.number),
            word_present(leaf_word(old(active_table).frames(), old(active_table).root(), old(self).page.number)),
            leaf_not_recursive(&old(active_table).mem, old(self).page.number),
            old(self).allocator.wf(),
            old(self).allocator.can_free(
                Frame {
                    number: word_target(
                        leaf_word(old(active_table).frames(), old(active_table).root(), old(self).page.number),
                    ),
                },
            ),
        ensures
            final(self).page == old(self).page,
            unmapped(&old(active_table).mem, &final(active_table).mem, old(self).page.number),
            final(self).allocator.wf(),
            final(self).allocator.frames() == old(self).allocator.frames().insert(
                word_target(leaf_word(old(active_table).frames(), old(active_table).root(), old(self).page.number)),
            ),
            final(self).allocator.remaining() == old(self).allocator.remaining() + 1,
            final(active_table).mem.flushes() == old(active_table).mem.flushes().push(
                TlbFlush::Page((old(self).page.number * PAGE_SIZE) as u64),
            ),
            final(active_table).mem.ops() == old(active_table).mem.ops().push(
                MachineOp::Write(
                    TableWrite::Word {
                        frame: p1_table(old(active_table).frames(), old(active_table).root(), old(self).page.number),
                        index: p1_of(old(self).page.number) as usize,
                        word: 0,
                    },
                ),
            ).push(MachineOp::Flush(TlbFlush::Page((old(self).page.number * PAGE_SIZE) as u64))),
    {
        active_table.unmap(self.page, &mut self.allocator);
    }
}

} // verus!
