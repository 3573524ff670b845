//! The part of the machine that page tables live in: physical frames that
//! hold tables, and the register naming the active P4 table.
use crate::entry::{
    encode, word_huge, word_present, word_target, Entry, EntryFlags, ADDRESS_MASK, ALL_FLAGS,
    FRAME_NUMBER_LIMIT, HUGE_PAGE, PRESENT, WRITABLE,
};
use crate::frame::Frame;
use crate::page::{p1_of, p2_of, p3_of, p4_of, RECURSIVE_INDEX};
use std::collections::HashMap;
use vstd::prelude::*;

verus! {

broadcast use vstd::std_specs::hash::group_hash_axioms;

/// Contents of every frame that has been written as a table.
pub type Frames = Map<u64, Seq<Entry>>;

/// A table of unused entries.
pub open spec fn zero_table() -> Seq<Entry> {
    Seq::new(512, |i: int| Entry(0))
}

/// The 512 entries of frame `f`; a frame never written reads as zero.
pub open spec fn table_of(frames: Frames, f: u64) -> Seq<Entry> {
    if frames.contains_key(f) {
        frames[f]
    } else {
        zero_table()
    }
}

/// Word `i` of frame `f`.
pub open spec fn word_of(frames: Frames, f: u64, i: u64) -> u64 {
    table_of(frames, f)[i as int].0
}

/// Whether entry `i` of frame `f` leads to a next-level table.
pub open spec fn links(frames: Frames, f: u64, i: u64) -> bool {
    word_present(word_of(frames, f, i)) && !word_huge(word_of(frames, f, i))
}

/// Frame of the table that entry `i` of frame `f` points to.
pub open spec fn child(frames: Frames, f: u64, i: u64) -> u64 {
    word_target(word_of(frames, f, i))
}

/// The four-level walk of page `n` from the P4 table in frame `root`: the
/// frame the page lands in, or `None`. A huge entry at P3 (1 GiB) or P2
/// (2 MiB) ends the walk; one whose frame is not aligned to its size maps
/// nothing.
pub open spec fn walk(frames: Frames, root: u64, n: u64) -> Option<u64> {
    if !links(frames, root, p4_of(n)) {
        None
    } else {
        let t3 = child(frames, root, p4_of(n));
        let e3 = word_of(frames, t3, p3_of(n));
        if !word_present(e3) {
            None
        } else if word_huge(e3) {
            if word_target(e3) % 262144 == 0 {
                Some((word_target(e3) + p2_of(n) * 512 + p1_of(n)) as u64)
            } else {
                None
            }
        } else {
            let t2 = word_target(e3);
            let e2 = word_of(frames, t2, p2_of(n));
            if !word_present(e2) {
                None
            } else if word_huge(e2) {
                if word_target(e2) % 512u64 == 0 {
                    Some((word_target(e2) + p1_of(n)) as u64)
                } else {
                    None
                }
            } else {
                let e1 = word_of(frames, word_target(e2), p1_of(n));
                if word_present(e1) {
                    Some(word_target(e1))
                } else {
                    None
                }
            }
        }
    }
}

/// Whether the P4 table in frame `root` maps itself through its last slot.
pub open spec fn self_mapped(frames: Frames, root: u64) -> bool {
    links(frames, root, RECURSIVE_INDEX as u64) && child(frames, root, RECURSIVE_INDEX as u64) == root
}

/// A TLB invalidation the code has ordered, for the machine to perform.
#[derive(Debug, Clone, Copy, PartialEq, Eq, Structural)]
pub enum TlbFlush {
    /// Every cached translation.
    All,
    /// The translation of the page at this virtual address.
    Page(u64),
}

/// A write to page-table memory, for the machine to repeat.
#[derive(Debug, Clone, Copy, PartialEq, Eq, Structural)]
pub enum TableWrite {
    /// Word `index` of frame `frame` becomes `word`.
    Word { frame: u64, index: usize, word: u64 },
    /// Every word of frame `frame` becomes zero.
    Zero { frame: u64 },
}

/// Something the machine must repeat: a table write or a TLB invalidation.
#[derive(Debug, Clone, Copy, PartialEq, Eq, Structural)]
pub enum MachineOp {
    Write(TableWrite),
    Flush(TlbFlush),
}

/// The invalidations among `ops`, in order.
pub open spec fn flushes_of(ops: Seq<MachineOp>) -> Seq<TlbFlush>
    decreases ops.len(),
{
    if ops.len() == 0 {
        Seq::empty()
    } else {
        match ops.last() {
            MachineOp::Flush(f) => flushes_of(ops.drop_last()).push(f),
            MachineOp::Write(_) => flushes_of(ops.drop_last()),
        }
    }
}

/// The table writes among `ops`, in order.
pub open spec fn writes_of(ops: Seq<MachineOp>) -> Seq<TableWrite>
    decreases ops.len(),
{
    if ops.len() == 0 {
        Seq::empty()
    } else {
        match ops.last() {
            MachineOp::Write(w) => writes_of(ops.drop_last()).push(w),
            MachineOp::Flush(_) => writes_of(ops.drop_last()),
        }
    }
}

/// Physical page-table memory, the active-table register, and the table
/// writes and TLB invalidations made, in the order they were made, for the
/// machine to repeat.
pub struct Memory {
    tables: HashMap<u64, Vec<Entry>>,
    cr3: u64,
    ops: Vec<MachineOp>,
}

impl Memory {
    pub closed spec fn frames(&self) -> Frames {
        self.tables@.map_values(|v: Vec<Entry>| v@)
    }

    /// Frame of the active P4 table.
    pub closed spec fn active(&self) -> u64 {
        self.cr3
    }

    /// TLB invalidations ordered and not yet handed out, oldest first.
    pub closed spec fn flushes(&self) -> Seq<TlbFlush> {
        flushes_of(self.ops@)
    }

    /// Table writes and invalidations made and not yet handed out, oldest
    /// first.
    pub closed spec fn ops(&self) -> Seq<MachineOp> {
        self.ops@
    }

    /// Table writes made and not yet handed out, oldest first.
    pub closed spec fn writes(&self) -> Seq<TableWrite> {
        writes_of(self.ops@)
    }

    /// Hands out the table writes and invalidations made, in order, for the
    /// machine to repeat.
    pub fn take_ops(&mut self) -> (r: Vec<MachineOp>)
        ensures
            r@ == old(self).ops(),
            final(self).ops() == Seq::<MachineOp>::empty(),
            final(self).writes() == Seq::<TableWrite>::empty(),
            final(self).flushes() == Seq::<TlbFlush>::empty(),
            final(self).frames() == old(self).frames(),
            final(self).active() == old(self).active(),
    {
        let mut r: Vec<MachineOp> = Vec::new();
        std::mem::swap(&mut r, &mut self.ops);
        r
    }

    /// Orders the invalidation of every cached translation.
    pub fn flush_all(&mut self)
        ensures
            final(self).frames() == old(self).frames(),
            final(self).active() == old(self).active(),
            final(self).flushes() == old(self).flushes().push(TlbFlush::All),
            final(self).writes() == old(self).writes(),
            final(self).ops() == old(self).ops().push(MachineOp::Flush(TlbFlush::All)),
    {
        self.ops.push(MachineOp::Flush(TlbFlush::All));
        assert(self.ops@.drop_last() =~= old(self).ops@);
    }

    /// Orders the invalidation of the translation of `address`.
    pub fn flush(&mut self, address: u64)
        ensures
            final(self).frames() == old(self).frames(),
            final(self).active() == old(self).active(),
            final(self).flushes() == old(self).flushes().push(TlbFlush::Page(address)),
            final(self).writes() == old(self).writes(),
            final(self).ops() == old(self).ops().push(MachineOp::Flush(TlbFlush::Page(address))),
    {
        self.ops.push(MachineOp::Flush(TlbFlush::Page(address)));
        assert(self.ops@.drop_last() =~= old(self).ops@);
    }


    /// Every frame written as a table holds 512 entries.
    pub open spec fn wf(&self) -> bool {
        forall|f: u64| #[trigger]
            self.frames().contains_key(f) ==> self.frames()[f].len() == 512
    }

    pub proof fn lemma_table_len(&self, f: u64)
        requires
            self.wf(),
        ensures
            table_of(self.frames(), f).len() == 512,
    {
    }

    fn zero_vec() -> (r: Vec<Entry>)
        ensures
            r@ == zero_table(),
    {
        let mut v: Vec<Entry> = Vec::new();
        let mut i: usize = 0;
        while i < 512
            invariant
                i <= 512,
                v@.len() == i,
                forall|k: int| 0 <= k < i ==> v@[k] == Entry(0),
            decreases 512 - i,
        {
            v.push(Entry(0));
            i += 1;
        }
        assert(v@ =~= zero_table());
        v
    }

    /// Memory as the boot code leaves it: one P4 table, in `p4`, that maps
    /// only itself through its last slot, and is the active table.
    pub fn new(p4: Frame) -> (r: Memory)
        requires
            p4.number < FRAME_NUMBER_LIMIT,
        ensures
            r.wf(),
            r.active() == p4.number,
            r.frames() == map![p4.number => zero_table().update(
                RECURSIVE_INDEX as int,
                Entry(encode(p4.number, PRESENT | WRITABLE)),
            )],
            self_mapped(r.frames(), p4.number),
            r.flushes() == Seq::<TlbFlush>::empty(),
            r.ops() == Seq::<MachineOp>::empty(),
    {
        let mut t = Memory::zero_vec();
        let mut e = Entry(0);
        let flags = EntryFlags::from_bits_truncate(PRESENT | WRITABLE);
        e.set(p4, flags);
        proof {
            Entry::lemma_set(p4.number, flags);
            crate::entry::lemma_present_writable();
        }
        t.set(511, e);
        let mut tables: HashMap<u64, Vec<Entry>> = HashMap::new();
        tables.insert(p4.number, t);
        let r = Memory { tables, cr3: p4.number, ops: Vec::new() };
        assert(r.frames().contains_key(p4.number));
        assert(word_of(r.frames(), p4.number, RECURSIVE_INDEX as u64) == e.0);
        assert(word_present(e.0));
        assert(!word_huge(e.0));
        assert(r.frames() =~= map![p4.number => zero_table().update(
                RECURSIVE_INDEX as int,
                Entry(encode(p4.number, PRESENT | WRITABLE)),
            )]);
        r
    }

    /// The active-table register.
    pub fn cr3(&self) -> (r: Frame)
        ensures
            r.number == self.active(),
    {
        Frame { number: self.cr3 }
    }

    /// Loads the active-table register.
    pub fn set_cr3(&mut self, frame: Frame)
        ensures
            final(self).active() == frame.number,
            final(self).frames() == old(self).frames(),
            final(self).wf() == old(self).wf(),
            final(self).flushes() == old(self).flushes(),
            final(self).writes() == old(self).writes(),
    {
        self.cr3 = frame.number;
        assert(self.frames() =~= old(self).frames());
    }

    /// Entry `index` of the table in frame `frame`.
    pub fn read(&self, frame: u64, index: usize) -> (r: Entry)
        requires
            self.wf(),
            index < 512,
        ensures
            r.0 == word_of(self.frames(), frame, index as u64),
            r == table_of(self.frames(), frame)[index as int],
    {
        match self.tables.get(&frame) {
            Some(t) => {
                proof {
                    assert(self.frames().contains_key(frame));
                    assert(self.frames()[frame] == t@);
                }
                t[index]
            },
            None => Entry(0),
        }
    }

    /// Writes entry `index` of the table in frame `frame`.
    pub fn write(&mut self, frame: u64, index: usize, e: Entry)
        requires
            old(self).wf(),
            index < 512,
        ensures
            final(self).wf(),
            final(self).active() == old(self).active(),
            final(self).frames() == old(self).frames().insert(
                frame,
                table_of(old(self).frames(), frame).update(index as int, e),
            ),
            final(self).flushes() == old(self).flushes(),
            final(self).writes() == old(self).writes().push(TableWrite::Word { frame, index, word: e.0 }),
            final(self).ops() == old(self).ops().push(MachineOp::Write(TableWrite::Word { frame, index, word: e.0 })),
    {
        let mut t = match self.tables.remove(&frame) {
            Some(t) => {
                proof {
                    assert(old(self).frames().contains_key(frame));
                    assert(old(self).frames()[frame] == t@);
                }
                t
            },
            None => Memory::zero_vec(),
        };
        t.set(index, e);
        self.tables.insert(frame, t);
        self.ops.push(MachineOp::Write(TableWrite::Word { frame, index, word: e.0 }));
        assert(self.ops@.drop_last() =~= old(self).ops@);
        assert(self.frames() =~= old(self).frames().insert(
            frame,
            table_of(old(self).frames(), frame).update(index as int, e),
        ));
    }

    /// Marks every entry of the table in frame `frame` unused.
    pub fn zero_frame(&mut self, frame: u64)
        requires
            old(self).wf(),
        ensures
            final(self).wf(),
            final(self).active() == old(self).active(),
            final(self).frames() == old(self).frames().insert(frame, zero_table()),
            final(self).flushes() == old(self).flushes(),
            final(self).writes() == old(self).writes().push(TableWrite::Zero { frame }),
            final(self).ops() == old(self).ops().push(MachineOp::Write(TableWrite::Zero { frame })),
    {
        let t = Memory::zero_vec();
        self.tables.insert(frame, t);
        self.ops.push(MachineOp::Write(TableWrite::Zero { frame }));
        assert(self.ops@.drop_last() =~= old(self).ops@);
        assert(self.frames() =~= old(self).frames().insert(frame, zero_table()));
    }

    /// What the MMU makes of virtual address `address`: the frame it lands
    /// in, walking the tables from the active P4.
    pub fn resolve(&self, address: u64) -> (r: Option<u64>)
        requires
            self.wf(),
        ensures
            r == walk(self.frames(), self.active(), address >> 12u64),
    {
        let n = address >> 12u64;
        let i4 = ((n >> 27u64) & 511) as usize;
        let i3 = ((n >> 18u64) & 511) as usize;
        let i2 = ((n >> 9u64) & 511) as usize;
        let i1 = (n & 511) as usize;
        proof {
            assert((n >> 27u64) & 511 < 512 && (n >> 18u64) & 511 < 512 && (n >> 9u64) & 511 < 512
                && n & 511 < 512) by (bit_vector);
        }
        let e4 = self.read(self.cr3, i4);
        let f4 = e4.flags();
        if !f4.contains(EntryFlags::from_bits_truncate(PRESENT)) || f4.contains(
            EntryFlags::from_bits_truncate(HUGE_PAGE),
        ) {
            proof { lemma_flag_tests(e4.0); }
            return None;
        }
        proof { lemma_flag_tests(e4.0); }
        let t3 = (e4.0 & ADDRESS_MASK) / 4096;
        let e3 = self.read(t3, i3);
        let f3 = e3.flags();
        proof { lemma_flag_tests(e3.0); }
        if !f3.contains(EntryFlags::from_bits_truncate(PRESENT)) {
            return None;
        }
        let t2 = (e3.0 & ADDRESS_MASK) / 4096;
        if f3.contains(EntryFlags::from_bits_truncate(HUGE_PAGE)) {
            if t2 % (512 * 512) == 0 {
                proof { lemma_target_bound(e3.0); }
                return Some(t2 + (i2 as u64) * 512 + i1 as u64);
            }
            return None;
        }
        let e2 = self.read(t2, i2);
        let f2 = e2.flags();
        proof { lemma_flag_tests(e2.0); }
        if !f2.contains(EntryFlags::from_bits_truncate(PRESENT)) {
            return None;
        }
        let t1 = (e2.0 & ADDRESS_MASK) / 4096;
        if f2.contains(EntryFlags::from_bits_truncate(HUGE_PAGE)) {
            if t1 % 512 == 0 {
                proof { lemma_target_bound(e2.0); }
                return Some(t1 + i1 as u64);
            }
            return None;
        }
        let e1 = self.read(t1, i1);
        proof { lemma_flag_tests(e1.0); }
        if e1.flags().contains(EntryFlags::from_bits_truncate(PRESENT)) {
            Some((e1.0 & ADDRESS_MASK) / 4096)
        } else {
            None
        }
    }
}

/// The flag tests made through `EntryFlags` agree with the word predicates.
pub proof fn lemma_flag_tests(w: u64)
    by (bit_vector)
    ensures
        ((w & ALL_FLAGS) & (PRESENT & ALL_FLAGS) == PRESENT & ALL_FLAGS) == word_present(w),
        ((w & ALL_FLAGS) & (HUGE_PAGE & ALL_FLAGS) == HUGE_PAGE & ALL_FLAGS) == word_huge(w),
{
}

/// The frame number an entry holds is below 2^40.
pub proof fn lemma_target_bound(w: u64)
    by (bit_vector)
    ensures
        word_target(w) < FRAME_NUMBER_LIMIT,
{
}

} // verus!
