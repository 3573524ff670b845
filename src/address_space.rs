//! Building a new address space while another one is running.
use crate::entry::{
    encode, word_huge, word_present, word_target, Entry, EntryFlags, FRAME_NUMBER_LIMIT, HUGE_PAGE,
    PRESENT, WRITABLE,
};
use crate::frame::{Frame, FrameAllocator};
use crate::mapper::{
    fresh_for_page, full_path, keeps_present, leaf_word, new_tables, lemma_write_off_walk, map_allowed, mapped,
    missing_tables, new_tables_distinct, no_huge_on_path, off_walk, p1_table, p2_table, p3_table,
    path_slot, slot_free, tables_from, walk_avoids, writes_only_path, Mapper,
};
use crate::memory::{MachineOp, TableWrite, TlbFlush, child, links, self_mapped, table_of, walk, word_of, zero_table, Frames, Memory};
use crate::page::{canonical, p1_of, p2_of, p3_of, p4_of, Page, PAGE_SIZE, RECURSIVE_INDEX};
use crate::table::{recursive_ok, view_root, Level4, Table};
use crate::temporary_page::TemporaryPage;
use vstd::prelude::*;

verus! {

/// A P4 table in a frame of its own, zeroed but for its recursive slot, and
/// not the active one.
pub struct InactivePageTable {
    pub p4_frame: Frame,
}

impl InactivePageTable {
    /// Makes `frame` a P4 table that maps only itself, editing it through
    /// `temporary_page`.
    pub fn new(frame: Frame, active_table: &mut Mapper, temporary_page: &mut TemporaryPage) -> (r:
        InactivePageTable)
        requires
            old(temporary_page).can_map(old(active_table)),
            p1_of(old(temporary_page).page.number) != RECURSIVE_INDEX,
            frame.number < FRAME_NUMBER_LIMIT,
            frame.number != old(active_table).mem.active(),
            off_walk(old(active_table).frames(), old(active_table).root(), old(temporary_page).page.number, frame.number),
            !old(temporary_page).allocator.frames().contains(frame.number),
            old(temporary_page).allocator.remaining() < 3 + missing_tables(
                old(active_table).frames(),
                old(active_table).root(),
                old(temporary_page).page.number,
            ),
        ensures
            r.p4_frame == frame,
            final(active_table).mem.flushes() == old(active_table).mem.flushes().push(
                TlbFlush::Page((old(temporary_page).page.number * PAGE_SIZE) as u64),
            ),
            final(active_table).wf(),
            final(active_table).root() == old(active_table).root(),
            final(active_table).mem.active() == old(active_table).mem.active(),
            table_of(final(active_table).frames(), frame.number) == zero_table().update(
                RECURSIVE_INDEX as int,
                Entry(encode(frame.number, PRESENT | WRITABLE)),
            ),
            self_mapped(final(active_table).frames(), frame.number),
            walk(final(active_table).frames(), final(active_table).root(), old(temporary_page).page.number) is None,
            final(temporary_page).page == old(temporary_page).page,
            final(temporary_page).allocator.wf(),
            final(temporary_page).allocator.frames().contains(frame.number),
            keeps_present(
                old(active_table).frames(),
                final(active_table).frames(),
                old(temporary_page).allocator.frames().insert(frame.number),
            ),
            tables_from(
                &old(active_table).mem,
                &final(active_table).mem,
                old(temporary_page).page.number,
                old(temporary_page).allocator.frames().difference(final(temporary_page).allocator.frames().remove(frame.number)),
            ),
            forall|q: u64|
                walk(old(active_table).frames(), old(active_table).root(), q) is Some && walk_avoids(
                    old(active_table).frames(),
                    old(active_table).root(),
                    q,
                    old(temporary_page).allocator.frames().insert(frame.number),
                ) ==> #[trigger] walk(final(active_table).frames(), old(active_table).root(), q) == walk(
                    old(active_table).frames(),
                    old(active_table).root(),
                    q,
                ),
            full_path(final(active_table).frames(), final(active_table).root(), old(temporary_page).page.number),
            leaf_word(final(active_table).frames(), final(active_table).root(), old(temporary_page).page.number) == 0,
            off_walk(final(active_table).frames(), final(active_table).root(), old(temporary_page).page.number, frame.number),
            forall|x: u64| #[trigger] final(temporary_page).allocator.frames().contains(x) ==> fresh_for_page(
                &final(active_table).mem,
                old(temporary_page).page.number,
                x,
            ),
            final(temporary_page).allocator.remaining() + missing_tables(
                old(active_table).frames(),
                old(active_table).root(),
                old(temporary_page).page.number,
            ) == old(temporary_page).allocator.remaining() + 1,
    {
        let ghost n = temporary_page.page.number;
        let ghost m0 = active_table.mem;
        let ghost root = active_table.root();
        let ghost t0 = temporary_page.allocator;
        let table = temporary_page.map_table_frame(frame, active_table);
        let ghost m1 = active_table.mem;
        let ghost t1 = temporary_page.allocator;
        table.zero(&mut active_table.mem);
        let ghost m2 = active_table.mem;
        let mut e = table.entry(&active_table.mem, 511);
        let flags = EntryFlags::from_bits_truncate(PRESENT | WRITABLE);
        e.set(frame, flags);
        proof {
            lemma_write_off_walk(&m1, &m2, n, frame.number);
        }
        table.set_entry(&mut active_table.mem, 511, e);
        proof {
            let m3 = active_table.mem;
            Entry::lemma_set(frame.number, flags);
            crate::entry::lemma_present_writable();
            lemma_write_off_walk(&m2, &m3, n, frame.number);
            m2.lemma_table_len(frame.number);
        }
        temporary_page.unmap(active_table);
        proof {
            let m3 = m2;
            let m4 = active_table.mem;
            let fr4 = m4.frames();
            assert(table_of(m4.frames(), frame.number) == table_of(active_table.frames(), frame.number));
            let pool = t0.frames().insert(frame.number);
            let d = p1_table(m3.frames(), root, n);
            assert(!word_present(0u64)) by (bit_vector);
            assert(p1_of(n) < 512) by (bit_vector);
            assert forall|t: u64, i: u64|
                i < 512 && !pool.contains(t) && word_present(word_of(m0.frames(), t, i)) implies #[trigger] word_of(
                    m4.frames(),
                    t,
                    i,
                ) == word_of(m0.frames(), t, i) by {
                assert(!t0.frames().difference(t1.frames()).contains(t));
                assert(word_of(m1.frames(), t, i) == word_of(m0.frames(), t, i));
                assert(t != frame.number);
                assert(word_of(m3.frames(), t, i) == word_of(m1.frames(), t, i));
                if t == d && i == p1_of(n) {
                    if full_path(m0.frames(), root, n) {
                        assert(d == p1_table(m1.frames(), root, n));
                        assert(leaf_word(m0.frames(), root, n) == 0);
                    } else {
                        assert(t0.frames().difference(t1.frames()).contains(p1_table(m1.frames(), root, n)));
                    }
                }
            }
            assert forall|q: u64|
                walk(m0.frames(), root, q) is Some && walk_avoids(m0.frames(), root, q, pool) implies #[trigger] walk(
                    m4.frames(),
                    root,
                    q,
                ) == walk(m0.frames(), root, q) by {
                crate::mapper::lemma_keeps_walk(m0.frames(), m4.frames(), root, q, pool, pool);
            }
            lemma_indices_below(n);
            m2.lemma_table_len(p1_table(m2.frames(), root, n));
            assert(leaf_word(fr4, root, n) == 0);
            assert(full_path(fr4, root, n));
            assert forall|x: u64| #[trigger] temporary_page.allocator.frames().contains(x) implies fresh_for_page(&m4, n, x) by {
                if x != frame.number {
                    assert(t1.frames().contains(x));
                    assert(t0.frames().contains(x));
                    assert(fresh_for_page(&m0, n, x));
                }
            }
        }
        InactivePageTable { p4_frame: frame }
    }
}

/// State in which the body of `PageTable::with` runs: the mapper edits the
/// P4 table in `inactive` while `active` stays the running table, and the
/// scratch page `n` still maps a word `leaf` in the running hierarchy,
/// through the tables `tables`.
pub open spec fn swapped_in(m: &Mapper, active: u64, inactive: u64, n: u64, leaf: u64, tables: Seq<u64>) -> bool {
    &&& m.wf()
    &&& m.mem.active() == active
    &&& m.root() == inactive
    &&& scratch_tables(tables, m.frames(), active, n)
    &&& leaf_word(m.frames(), active, n) == leaf
}

/// `after` differs from `before` at most in the recursive slot of the P4
/// table in `active` and in word `i` of the scratch page's P1 table `p1`.
pub open spec fn swapped_words(before: Frames, after: Frames, active: u64, p1: u64, i: u64) -> bool {
    forall|t: u64, k: u64|
        k < 512 && #[trigger] word_of(after, t, k) != word_of(before, t, k) ==> (t == active && k
            == RECURSIVE_INDEX) || (t == p1 && k == i)
}

/// The tables of page `n`'s walk from `root`, P4 first.
pub open spec fn walk_tables(fr: Frames, root: u64, n: u64) -> Seq<u64> {
    seq![root, p3_table(fr, root, n), p2_table(fr, root, n), p1_table(fr, root, n)]
}

/// The active table, guarded by the kernel's lock.
pub struct PageTable {
    pub mapper: Mapper,
}

impl PageTable {
    pub fn new(mapper: Mapper) -> (r: PageTable)
        ensures
            r.mapper == mapper,
    {
        PageTable { mapper }
    }

    /// Runs `f` on a mapper that edits `table` instead of the running
    /// table: the running P4's recursive slot is pointed at `table` for the
    /// call, and set back after it through `temporary_page`. The body gets
    /// the state it changes as `ctx`.
    pub fn with<C, R, F: FnOnce(&mut Mapper, &mut C) -> R>(
        &mut self,
        table: &mut InactivePageTable,
        temporary_page: &mut TemporaryPage,
        ctx: &mut C,
        f: F,
    ) -> (r: R)
        requires
            old(temporary_page).can_map(&old(self).mapper),
            ({
                let n = old(temporary_page).page.number;
                p3_of(n) != RECURSIVE_INDEX && p2_of(n) != RECURSIVE_INDEX && p1_of(n)
                    != RECURSIVE_INDEX
            }),
            old(self).mapper.mem.active() < FRAME_NUMBER_LIMIT,
            old(table).p4_frame.number < FRAME_NUMBER_LIMIT,
            old(table).p4_frame.number != old(self).mapper.mem.active(),
            self_mapped(old(self).frames_spec(), old(table).p4_frame.number),
            off_walk(
                old(self).frames_spec(),
                old(self).mapper.root(),
                old(temporary_page).page.number,
                old(table).p4_frame.number,
            ),
            missing_tables(old(self).frames_spec(), old(self).mapper.root(), old(temporary_page).page.number)
                == 0 || !old(temporary_page).allocator.frames().contains(old(table).p4_frame.number),
            !old(temporary_page).allocator.frames().contains(old(self).mapper.mem.active()),
            old(temporary_page).allocator.remaining() < 3 + missing_tables(
                old(self).frames_spec(),
                old(self).mapper.root(),
                old(temporary_page).page.number,
            ),
            forall|m: &mut Mapper, c: &mut C|
                swapped_in(
                    &*m,
                    old(self).mapper.mem.active(),
                    old(table).p4_frame.number,
                    old(temporary_page).page.number,
                    encode(old(self).mapper.mem.active(), WRITABLE | PRESENT),
                    new_tables(old(self).frames_spec(), old(self).mapper.root(), old(temporary_page).page.number, old(temporary_page).allocator),
                ) && table_of((*m).frames(), old(table).p4_frame.number) == table_of(
                    old(self).frames_spec(),
                    old(table).p4_frame.number,
                ) && *c == *old(ctx) ==> #[trigger] f.requires((m, c)),
            forall|m: &mut Mapper, c: &mut C, x: R|
                swapped_in(
                    &*m,
                    old(self).mapper.mem.active(),
                    old(table).p4_frame.number,
                    old(temporary_page).page.number,
                    encode(old(self).mapper.mem.active(), WRITABLE | PRESENT),
                    new_tables(old(self).frames_spec(), old(self).mapper.root(), old(temporary_page).page.number, old(temporary_page).allocator),
                ) && #[trigger] f.ensures((m, c), x) ==> swapped_in(
                    &*final(m),
                    old(self).mapper.mem.active(),
                    old(table).p4_frame.number,
                    old(temporary_page).page.number,
                    encode(old(self).mapper.mem.active(), WRITABLE | PRESENT),
                    new_tables(old(self).frames_spec(), old(self).mapper.root(), old(temporary_page).page.number, old(temporary_page).allocator),
                ),
        ensures
            final(self).mapper.wf(),
            final(self).mapper.mem.active() == old(self).mapper.mem.active(),
            final(self).mapper.root() == old(self).mapper.root(),
            walk(final(self).frames_spec(), final(self).mapper.root(), old(temporary_page).page.number) is None,
            final(temporary_page).page == old(temporary_page).page,
            final(temporary_page).allocator.wf(),
            *final(table) == *old(table),
            word_of(final(self).frames_spec(), old(self).mapper.mem.active(), RECURSIVE_INDEX) == encode(
                old(self).mapper.mem.active(),
                PRESENT | WRITABLE,
            ),
            word_of(
                final(self).frames_spec(),
                new_tables(old(self).frames_spec(), old(self).mapper.root(), old(temporary_page).page.number, old(temporary_page).allocator)[3],
                p1_of(old(temporary_page).page.number),
            ) == 0,
            exists|m: &mut Mapper, c: &mut C|
                swapped_in(
                    &*m,
                    old(self).mapper.mem.active(),
                    old(table).p4_frame.number,
                    old(temporary_page).page.number,
                    encode(old(self).mapper.mem.active(), WRITABLE | PRESENT),
                    new_tables(old(self).frames_spec(), old(self).mapper.root(), old(temporary_page).page.number, old(temporary_page).allocator),
                ) && table_of((*m).frames(), old(table).p4_frame.number) == table_of(
                    old(self).frames_spec(),
                    old(table).p4_frame.number,
                ) && (missing_tables(old(self).frames_spec(), old(self).mapper.root(), old(temporary_page).page.number)
                    == 0 ==> swapped_words(
                    old(self).frames_spec(),
                    (*m).frames(),
                    old(self).mapper.mem.active(),
                    new_tables(old(self).frames_spec(), old(self).mapper.root(), old(temporary_page).page.number, old(temporary_page).allocator)[3],
                    p1_of(old(temporary_page).page.number),
                )) && swapped_words(
                    (*final(m)).frames(),
                    final(self).frames_spec(),
                    old(self).mapper.mem.active(),
                    new_tables(old(self).frames_spec(), old(self).mapper.root(), old(temporary_page).page.number, old(temporary_page).allocator)[3],
                    p1_of(old(temporary_page).page.number),
                ) && (*m).mem.ops().len() >= 2 && (*m).mem.ops().last() == MachineOp::Flush(TlbFlush::All)
                    && (*m).mem.ops().drop_last().last() == MachineOp::Write(
                    TableWrite::Word {
                        frame: old(self).mapper.mem.active(),
                        index: 511,
                        word: encode(old(table).p4_frame.number, PRESENT | WRITABLE),
                    },
                ) && final(self).mapper.mem.ops() == (*final(m)).mem.ops().push(
                    MachineOp::Write(
                        TableWrite::Word {
                            frame: old(self).mapper.mem.active(),
                            index: 511,
                            word: encode(old(self).mapper.mem.active(), PRESENT | WRITABLE),
                        },
                    ),
                ).push(MachineOp::Flush(TlbFlush::All)).push(
                    MachineOp::Write(
                        TableWrite::Word {
                            frame: new_tables(old(self).frames_spec(), old(self).mapper.root(), old(temporary_page).page.number, old(temporary_page).allocator)[3],
                            index: p1_of(old(temporary_page).page.number) as usize,
                            word: 0,
                        },
                    ),
                ).push(MachineOp::Flush(TlbFlush::Page((old(temporary_page).page.number * PAGE_SIZE) as u64)))
                    && (*m).mem.flushes() == old(self).mapper.mem.flushes().push(TlbFlush::All)
                    && final(self).mapper.mem.flushes() == (*final(m)).mem.flushes().push(TlbFlush::All).push(
                    TlbFlush::Page((old(temporary_page).page.number * PAGE_SIZE) as u64),
                ) && *c == *old(ctx) && #[trigger] f.ensures((m, c), r) && *final(ctx) == *final(c)
                    && (forall|t: u64|
                    t != old(self).mapper.mem.active() && t != new_tables(old(self).frames_spec(), old(self).mapper.root(), old(temporary_page).page.number, old(temporary_page).allocator)[3] ==> #[trigger] table_of(final(self).frames_spec(), t) == table_of((*final(m)).frames(), t))
                    && (forall|i: u64|
                    i < 512 && i != RECURSIVE_INDEX && !(old(self).mapper.mem.active() == new_tables(old(self).frames_spec(), old(self).mapper.root(), old(temporary_page).page.number, old(temporary_page).allocator)[3] && i == p1_of(old(temporary_page).page.number)) ==> #[trigger] word_of(
                        final(self).frames_spec(),
                        old(self).mapper.mem.active(),
                        i,
                    ) == word_of((*final(m)).frames(), old(self).mapper.mem.active(), i)),
    {
        let ghost n = temporary_page.page.number;
        let ghost m0 = self.mapper.mem;
        let backup = self.mapper.mem.cr3();
        let ghost t0 = temporary_page.allocator;
        let p4_table = temporary_page.map_table_frame(backup, &mut self.mapper);
        let ghost m1 = self.mapper.mem;
        let ghost p1t = new_tables(m0.frames(), m0.active(), n, t0)[3];
        let flags = EntryFlags::from_bits_truncate(PRESENT | WRITABLE);
        proof {
            Entry::lemma_set(table.p4_frame.number, flags);
            Entry::lemma_set(backup.number, flags);
            crate::entry::lemma_present_writable();
            lemma_indices_below(n);
        }
        // point the running P4's recursive slot at the new table
        let p4 = Table::<Level4>::p4(&self.mapper.mem);
        let mut e = p4.entry(&self.mapper.mem, 511);
        e.set(table.p4_frame, flags);
        p4.set_entry(&mut self.mapper.mem, 511, e);
        // every translation through the recursive slot changed
        self.mapper.mem.flush_all();
        proof {
            let m2 = self.mapper.mem;
            m1.lemma_table_len(m0.active());
            assert(word_of(m2.frames(), table.p4_frame.number, RECURSIVE_INDEX) == word_of(
                m1.frames(),
                table.p4_frame.number,
                RECURSIVE_INDEX,
            ));
            lemma_slot_write_keeps(m1.frames(), m2.frames(), m0.active(), n);
            assert(swapped_in(
                &self.mapper,
                m0.active(),
                table.p4_frame.number,
                n,
                encode(m0.active(), WRITABLE | PRESENT),
                new_tables(m0.frames(), m0.active(), n, t0),
            ));
            assert(table_of(self.mapper.frames(), table.p4_frame.number) == table_of(m0.frames(), table.p4_frame.number));
            let pool = t0.frames().difference(temporary_page.allocator.frames());
            if missing_tables(m0.frames(), m0.active(), n) == 0 {
            assert(pool =~= Set::<u64>::empty());
            assert forall|t: u64, k: u64|
                k < 512 && #[trigger] word_of(m2.frames(), t, k) != word_of(m0.frames(), t, k) implies (t
                    == m0.active() && k == RECURSIVE_INDEX) || (t == p1t && k == p1_of(n)) by {
                if !(t == m0.active() && k == RECURSIVE_INDEX) {
                    assert(word_of(m2.frames(), t, k) == word_of(m1.frames(), t, k));
                    assert(path_slot(m1.frames(), m0.active(), n, t, k));
                }
            }
            }
        }
        let r = f(&mut self.mapper, ctx);
        let ghost m3 = self.mapper.mem;
        proof {
            assert(p4_table.valid(&m3));
            assert(p4_table.frame(&m3) == m0.active());
        }
        // and back to the running table
        let mut e2 = p4_table.entry(&self.mapper.mem, 511);
        e2.set(backup, flags);
        p4_table.set_entry(&mut self.mapper.mem, 511, e2);
        self.mapper.mem.flush_all();
        proof {
            let m4 = self.mapper.mem;
            m3.lemma_table_len(m0.active());
            lemma_slot_write_keeps(m3.frames(), m4.frames(), m0.active(), n);
            assert(recursive_ok(&m4));
        }
        let ghost m4 = self.mapper.mem;
        temporary_page.unmap(&mut self.mapper);
        proof {
            let m5 = self.mapper.mem;
            assert(p1_table(m4.frames(), m0.active(), n) == p1t);
            m4.lemma_table_len(p1t);
            assert forall|t: u64, k: u64|
                k < 512 && #[trigger] word_of(m5.frames(), t, k) != word_of(m3.frames(), t, k) implies (t
                    == m0.active() && k == RECURSIVE_INDEX) || (t == p1t && k == p1_of(n)) by {
                if !(t == p1t && k == p1_of(n)) {
                    assert(word_of(m5.frames(), t, k) == word_of(m4.frames(), t, k));
                }
            }
        }
        r
    }

    pub open spec fn frames_spec(&self) -> Frames {
        self.mapper.frames()
    }
}

proof fn lemma_indices_below(n: u64)
    ensures
        p4_of(n) < 512,
        p3_of(n) < 512,
        p2_of(n) < 512,
        p1_of(n) < 512,
{
    assert(p4_of(n) < 512 && p3_of(n) < 512 && p2_of(n) < 512 && p1_of(n) < 512) by (bit_vector);
}

/// Rewriting the recursive slot of the P4 in `c` leaves the walk of a page
/// none of whose lower indices is the recursive one.
proof fn lemma_slot_write_keeps(fr0: Frames, fr1: Frames, c: u64, n: u64)
    requires
        p3_of(n) != RECURSIVE_INDEX,
        p2_of(n) != RECURSIVE_INDEX,
        p1_of(n) != RECURSIVE_INDEX,
        p4_of(n) != RECURSIVE_INDEX,
        table_of(fr0, c).len() == 512,
        fr1 == fr0.insert(c, table_of(fr0, c).update(RECURSIVE_INDEX as int, table_of(fr1, c)[RECURSIVE_INDEX as int])),
    ensures
        full_path(fr1, c, n) == full_path(fr0, c, n),
        full_path(fr0, c, n) ==> leaf_word(fr1, c, n) == leaf_word(fr0, c, n) && p1_table(fr1, c, n) == p1_table(fr0, c, n)
            && p2_table(fr1, c, n) == p2_table(fr0, c, n) && p3_table(fr1, c, n) == p3_table(fr0, c, n),
        forall|t: u64| t != c ==> #[trigger] table_of(fr1, t) == table_of(fr0, t),
{
    lemma_indices_below(n);
}

/// A section of the kernel image, as the boot information lists it.
#[derive(Debug, Clone, Copy, PartialEq, Eq, Structural)]
pub struct ElfSection {
    pub addr: u64,
    pub size: u64,
    /// Whether the section occupies memory at run time.
    pub allocated: bool,
}

impl ElfSection {
    pub fn start_address(&self) -> (r: u64)
        ensures
            r == self.addr,
    {
        self.addr
    }

    /// First address past the section.
    pub fn end_address(&self) -> (r: u64)
        requires
            self.addr + self.size <= u64::MAX,
        ensures
            r == self.addr + self.size,
    {
        self.addr + self.size
    }

    pub fn is_allocated(&self) -> (r: bool)
        ensures
            r == self.allocated,
    {
        self.allocated
    }
}

/// Why building the kernel's address space stopped.
#[derive(Debug, Clone, Copy, PartialEq, Eq, Structural)]
pub enum RemapError {
    /// A section reaches above the lower canonical half.
    SectionTooHigh,
    /// A page cannot be mapped: it is mapped already, a huge page covers
    /// it, or the allocator cannot supply its tables.
    CannotMap,
}

/// Outcome of mapping the kernel's sections.
pub type SectionsMapped = Result<(), RemapError>;

/// The sections that get mapped: loaded, and not empty.
pub open spec fn mapped_section(s: ElfSection) -> bool {
    s.allocated && s.size > 0
}

/// Frame `n` is a page of section `s` that gets mapped.
pub open spec fn in_section(s: ElfSection, n: u64) -> bool {
    &&& mapped_section(s)
    &&& s.addr / PAGE_SIZE <= n
    &&& n <= (s.addr + s.size - 1) / PAGE_SIZE as int
}

/// Page `n` translates to the frame of the same number, through tables
/// outside `pool`.
pub open spec fn identity_mapped(fr: Frames, root: u64, n: u64, pool: Set<u64>) -> bool {
    &&& walk(fr, root, n) == Some(n)
    &&& walk_avoids(fr, root, n, pool)
    &&& full_path(fr, root, n)
    &&& leaf_word(fr, root, n) == encode(n, WRITABLE | PRESENT)
}

/// The frames of `pool` and those listed in `keep`.
pub open spec fn guarded(pool: Set<u64>, keep: Seq<u64>) -> Set<u64> {
    pool.union(keep.to_set())
}

/// Every page of every section of `sections` that gets mapped translates
/// to itself from `root`, through tables not listed in `keep`.
pub open spec fn sections_identity_mapped(sections: Seq<ElfSection>, fr: Frames, root: u64, keep: Seq<u64>) -> bool {
    forall|j: int, n: u64|
        0 <= j < sections.len() && #[trigger] in_section(sections[j], n) ==> walk(fr, root, n) == Some(n)
            && walk_avoids(fr, root, n, keep.to_set()) && full_path(fr, root, n) && leaf_word(fr, root, n)
            == encode(n, WRITABLE | PRESENT)
}

/// A page whose tables all lie outside `keep` translates alike in two
/// frame maps that differ only in the frames `keep` lists.
proof fn lemma_tables_outside(fr_a: Frames, fr_b: Frames, root: u64, n: u64, keep: Seq<u64>)
    requires
        forall|t: u64| !keep.to_set().contains(t) ==> #[trigger] table_of(fr_a, t) == table_of(fr_b, t),
        walk(fr_b, root, n) == Some(n),
        walk_avoids(fr_b, root, n, keep.to_set()),
        full_path(fr_b, root, n),
    ensures
        walk(fr_a, root, n) == Some(n),
        full_path(fr_a, root, n),
        leaf_word(fr_a, root, n) == leaf_word(fr_b, root, n),
{
    assert forall|t: u64, i: u64|
        i < 512 && !keep.to_set().contains(t) && word_present(word_of(fr_b, t, i)) implies #[trigger] word_of(
            fr_a,
            t,
            i,
        ) == word_of(fr_b, t, i) by {
        assert(table_of(fr_a, t) == table_of(fr_b, t));
    }
    crate::mapper::lemma_keeps_walk(fr_b, fr_a, root, n, keep.to_set(), keep.to_set());
}

/// Page `q`'s four table indices are `s`.
pub open spec fn indices_are(q: u64, s: Seq<u64>) -> bool {
    &&& s.len() == 4
    &&& p4_of(q) == s[0]
    &&& p3_of(q) == s[1]
    &&& p2_of(q) == s[2]
    &&& p1_of(q) == s[3]
}

/// What word `i` of table `t` may hold in a hierarchy that identity
/// mapping builds, `own` giving each table's position below the root:
/// nothing, a link to the table one position further down, or, in a P1
/// table, the identity mapping of a page of `done`.
pub open spec fn word_shape(fr: Frames, own: Map<u64, Seq<u64>>, done: Set<u64>, t: u64, i: u64) -> bool {
    let s = own[t];
    let w = word_of(fr, t, i);
    if s.len() == 0 && i == RECURSIVE_INDEX {
        true
    } else if s.len() < 3 {
        w == 0 || (links(fr, t, i) && own.contains_key(child(fr, t, i)) && own[child(fr, t, i)]
            == s.push(i))
    } else {
        w == 0 || (w == encode(word_target(w), WRITABLE | PRESENT) && done.contains(word_target(w))
            && word_target(w) < 0x8_0000_0000 && indices_are(word_target(w), s.push(i)))
    }
}

/// The hierarchy below `root` is a tree of the tables of `own`, none of
/// them in `guard`, whose present P1 words identity-map the pages of
/// `done`.
pub open spec fn built_tables(fr: Frames, root: u64, own: Map<u64, Seq<u64>>, done: Set<u64>, guard: Set<u64>) -> bool {
    &&& own.contains_key(root)
    &&& own[root] == Seq::<u64>::empty()
    &&& forall|t: u64|
        #[trigger] own.contains_key(t) ==> !guard.contains(t) && own[t].len() <= 3 && (own[t].len()
            == 0 ==> t == root)
    &&& forall|t: u64, i: u64|
        own.contains_key(t) && i < 512 ==> #[trigger] word_shape(fr, own, done, t, i)
}

proof fn lemma_same_indices(a: u64, b: u64)
    requires
        a < 0x8_0000_0000,
        b < 0x8_0000_0000,
        p4_of(a) == p4_of(b),
        p3_of(a) == p3_of(b),
        p2_of(a) == p2_of(b),
        p1_of(a) == p1_of(b),
    ensures
        a == b,
{
    assert(a < 0x8_0000_0000 && b < 0x8_0000_0000 && p4_of(a) == p4_of(b) && p3_of(a) == p3_of(b)
        && p2_of(a) == p2_of(b) && p1_of(a) == p1_of(b) ==> a == b) by (bit_vector);
}

/// In such a hierarchy, every page not yet mapped can be mapped.
proof fn lemma_built_allows(
    mem: &Memory,
    own: Map<u64, Seq<u64>>,
    done: Set<u64>,
    guard: Set<u64>,
    q: u64,
    pool: Set<u64>,
    count: nat,
    keep: Seq<u64>,
)
    requires
        built_tables(mem.frames(), view_root(mem), own, done, guard),
        q < 0x8_0000_0000,
        !done.contains(q),
        count >= 3,
        !pool.contains(mem.active()),
        forall|x: u64| pool.contains(x) || keep.contains(x) ==> #[trigger] guard.contains(x),
    ensures
        map_allowed(mem, q, pool, count, keep),
{
    let fr = mem.frames();
    let r = view_root(mem);
    assert(q < 0x8_0000_0000 ==> p4_of(q) < 256 && p3_of(q) < 512 && p2_of(q) < 512 && p1_of(q) < 512)
        by (bit_vector);
    assert(!word_present(0u64) && !word_huge(0u64)) by (bit_vector);
    assert(word_shape(fr, own, done, r, p4_of(q)));
    if links(fr, r, p4_of(q)) {
        let t1 = p3_table(fr, r, q);
        assert(own.contains_key(t1));
        assert(word_shape(fr, own, done, t1, p3_of(q)));
        if links(fr, t1, p3_of(q)) {
            let t2 = p2_table(fr, r, q);
            assert(own.contains_key(t2));
            assert(word_shape(fr, own, done, t2, p2_of(q)));
            if links(fr, t2, p2_of(q)) {
                let t3 = p1_table(fr, r, q);
                assert(own.contains_key(t3));
                assert(own[t3] == seq![p4_of(q), p3_of(q), p2_of(q)]);
                assert(word_shape(fr, own, done, t3, p1_of(q)));
                let w = word_of(fr, t3, p1_of(q));
                if w != 0 {
                    assert(own[t3].push(p1_of(q)) =~= seq![p4_of(q), p3_of(q), p2_of(q), p1_of(q)]);
                    lemma_same_indices(word_target(w), q);
                }
            }
        }
    }
}

/// Identity-mapping page `p` keeps the hierarchy a tree of the same shape,
/// with the tables it made added at their positions.
proof fn lemma_built_keeps(
    before: &Memory,
    after: &Memory,
    own: Map<u64, Seq<u64>>,
    done: Set<u64>,
    guard: Set<u64>,
    guard2: Set<u64>,
    p: u64,
    pool: Set<u64>,
)
    requires
        built_tables(before.frames(), view_root(before), own, done, guard),
        p < 0x8_0000_0000,
        !done.contains(p),
        mapped(before, after, p, p, WRITABLE),
        writes_only_path(before.frames(), after.frames(), view_root(before), p, pool),
        tables_from(before, after, p, pool),
        new_tables_distinct(after.frames(), view_root(before), p, pool),
        forall|x: u64| pool.contains(x) ==> #[trigger] guard.contains(x) && !guard2.contains(x),
        forall|x: u64| #[trigger] guard2.contains(x) ==> guard.contains(x),
    ensures
        built_tables(
            after.frames(),
            view_root(after),
            own.insert(p3_table(after.frames(), view_root(before), p), seq![p4_of(p)]).insert(
                p2_table(after.frames(), view_root(before), p),
                seq![p4_of(p), p3_of(p)],
            ).insert(p1_table(after.frames(), view_root(before), p), seq![p4_of(p), p3_of(p), p2_of(p)]),
            done.insert(p),
            guard2,
        ),
{
    let fb = before.frames();
    let fa = after.frames();
    let r = view_root(before);
    let t1 = p3_table(fa, r, p);
    let t2 = p2_table(fa, r, p);
    let t3 = p1_table(fa, r, p);
    let s1 = seq![p4_of(p)];
    let s2 = seq![p4_of(p), p3_of(p)];
    let s3 = seq![p4_of(p), p3_of(p), p2_of(p)];
    let own2 = own.insert(t1, s1).insert(t2, s2).insert(t3, s3);
    let done2 = done.insert(p);
    assert(p < 0x8_0000_0000 ==> p4_of(p) < 256 && p3_of(p) < 512 && p2_of(p) < 512 && p1_of(p) < 512)
        by (bit_vector);
    assert(!word_present(0u64) && !word_huge(0u64)) by (bit_vector);
    assert(Seq::<u64>::empty().push(p4_of(p)) =~= s1);
    assert(s1.push(p3_of(p)) =~= s2);
    assert(s2.push(p2_of(p)) =~= s3);
    assert(s3.push(p1_of(p)) =~= seq![p4_of(p), p3_of(p), p2_of(p), p1_of(p)]);
    // old tables on the walk already sit at these positions
    assert(word_shape(fb, own, done, r, p4_of(p)));
    if links(fb, r, p4_of(p)) {
        assert(own[t1] == s1);
        assert(word_shape(fb, own, done, t1, p3_of(p)));
        if links(fb, t1, p3_of(p)) {
            assert(own[t2] == s2);
            assert(word_shape(fb, own, done, t2, p2_of(p)));
            if links(fb, t2, p2_of(p)) {
                assert(own[t3] == s3);
            }
        }
    }
    assert(t1 != r && t2 != r && t3 != r && t1 != t2 && t1 != t3 && t2 != t3);
    assert(own2[t1] == s1 && own2[t2] == s2 && own2[t3] == s3);
    assert(forall|t: u64| own.contains_key(t) ==> #[trigger] own2[t] == own[t]);
    crate::entry::lemma_present_writable();
    Entry::lemma_set(p, EntryFlags::spec_from(WRITABLE | PRESENT));
    EntryFlags::lemma_spec_from(WRITABLE | PRESENT);
    assert forall|t: u64| #[trigger] own2.contains_key(t) implies !guard2.contains(t) && own2[t].len() <= 3
        && (own2[t].len() == 0 ==> t == r) by {}
    assert forall|t: u64, i: u64| own2.contains_key(t) && i < 512 implies #[trigger] word_shape(
        fa,
        own2,
        done2,
        t,
        i,
    ) by {
        if path_slot(fa, r, p, t, i) {
        } else if pool.contains(t) {
        } else {
            assert(own.contains_key(t));
            assert(word_shape(fb, own, done, t, i));
            assert(word_of(fa, t, i) == word_of(fb, t, i));
        }
    }
}

/// No mapped section reaches the upper 2^47 bytes' boundary.
pub open spec fn sections_below(sections: Seq<ElfSection>) -> bool {
    forall|i: int|
        0 <= i < sections.len() && mapped_section(#[trigger] sections[i]) ==> sections[i].addr
            + sections[i].size - 1 < 0x8000_0000_0000
}

/// No page lies in two mapped sections.
pub open spec fn sections_disjoint(sections: Seq<ElfSection>) -> bool {
    forall|j1: int, j2: int, n: u64|
        0 <= j1 < j2 < sections.len() && #[trigger] in_section(sections[j1], n) ==> !#[trigger] in_section(
            sections[j2],
            n,
        )
}

/// Number of pages of section `s` that get mapped.
pub open spec fn section_pages(s: ElfSection) -> nat {
    if mapped_section(s) && s.addr / PAGE_SIZE <= (s.addr + s.size - 1) / PAGE_SIZE as int {
        ((s.addr + s.size - 1) / PAGE_SIZE as int - s.addr / PAGE_SIZE + 1) as nat
    } else {
        0
    }
}

/// Number of pages the sections map, in all.
pub open spec fn pages_total(sections: Seq<ElfSection>) -> nat
    decreases sections.len(),
{
    if sections.len() == 0 {
        0
    } else {
        section_pages(sections[0]) + pages_total(sections.drop_first())
    }
}

/// A P4 table that holds nothing but its recursive slot.
pub open spec fn fresh_p4(fr: Frames, root: u64) -> bool {
    table_of(fr, root) == zero_table().update(
        RECURSIVE_INDEX as int,
        Entry(encode(root, PRESENT | WRITABLE)),
    )
}

/// What mapping the sections into the fresh table at `root` needs to
/// succeed: page-aligned sections below 2^47 that share no page, and three
/// frames for every page, none of them a table in use.
pub open spec fn sections_mappable(
    sections: Seq<ElfSection>,
    mem: &Memory,
    pool: Set<u64>,
    count: nat,
    keep: Seq<u64>,
) -> bool {
    &&& sections_aligned(sections)
    &&& sections_below(sections)
    &&& sections_disjoint(sections)
    &&& count >= 3 * pages_total(sections)
    &&& fresh_p4(mem.frames(), view_root(mem))
    &&& !pool.contains(view_root(mem))
    &&& !keep.contains(view_root(mem))
    &&& !pool.contains(mem.active())
}

proof fn lemma_built_fresh(fr: Frames, root: u64, guard: Set<u64>)
    requires
        fresh_p4(fr, root),
        !guard.contains(root),
    ensures
        built_tables(fr, root, map![root => Seq::<u64>::empty()], Set::empty(), guard),
{
    let own = map![root => Seq::<u64>::empty()];
    assert forall|t: u64, i: u64| own.contains_key(t) && i < 512 implies #[trigger] word_shape(
        fr,
        own,
        Set::empty(),
        t,
        i,
    ) by {
        if i != RECURSIVE_INDEX {
            assert(table_of(fr, root)[i as int] == Entry(0));
        }
    }
}

proof fn lemma_pages_step(s: Seq<ElfSection>, i: int)
    requires
        0 <= i < s.len(),
    ensures
        pages_total(s.subrange(i, s.len() as int)) == section_pages(s[i]) + pages_total(
            s.subrange(i + 1, s.len() as int),
        ),
{
    assert(s.subrange(i, s.len() as int).drop_first() =~= s.subrange(i + 1, s.len() as int));
}

/// Identity-maps every page of every loaded, non-empty section, writable,
/// leaving the tables in `keep` alone. Stops at the first section that is
/// not page aligned, or page that cannot be mapped.
pub fn map_kernel_sections<A: FrameAllocator>(
    mapper: &mut Mapper,
    allocator: &mut A,
    sections: &Vec<ElfSection>,
    keep: &[u64; 4],
) -> (r: Result<(), RemapError>)
    requires
        sections_aligned(sections@),
        old(mapper).wf(),
        old(allocator).wf(),
        forall|x: u64| #[trigger]
            old(allocator).frames().contains(x) ==> x < FRAME_NUMBER_LIMIT && !keep@.contains(x),
        forall|i: int| 0 <= i < sections.len() ==> #[trigger] sections[i].addr + sections[i].size <= u64::MAX,
    ensures
        final(mapper).wf(),
        final(mapper).mem.active() == old(mapper).mem.active(),
        final(mapper).root() == old(mapper).root(),
        final(allocator).wf(),
        final(allocator).frames().subset_of(old(allocator).frames()),
        forall|t: u64| #[trigger] keep@.contains(t) ==> table_of(final(mapper).frames(), t) == table_of(old(mapper).frames(), t),
        r is Ok ==> forall|i: int| 0 <= i < sections.len() && mapped_section(#[trigger] sections[i]) ==> sections[i].addr % PAGE_SIZE == 0,
        r is Ok ==> forall|j: int, n: u64|
            0 <= j < sections.len() && #[trigger] in_section(sections[j], n) ==> identity_mapped(
                final(mapper).frames(),
                final(mapper).root(),
                n,
                guarded(final(allocator).frames(), keep@),
            ),
        r == Err::<(), RemapError>(RemapError::SectionTooHigh) <==> sections_aligned(sections@)
            && !sections_below(sections@),
        sections_mappable(sections@, &old(mapper).mem, old(allocator).frames(), old(allocator).remaining(), keep@)
            ==> r is Ok,
        final(mapper).mem.flushes() == old(mapper).mem.flushes(),
        r == Err::<(), RemapError>(RemapError::CannotMap) ==> exists|j: int, n: u64|
            0 <= j < sections.len() && #[trigger] in_section(sections[j], n) && !map_allowed(
                &final(mapper).mem,
                n,
                final(allocator).frames(),
                final(allocator).remaining(),
                keep@,
            ),
{
    let ghost m0 = mapper.mem;
    let ghost a0 = *allocator;
    let flags = EntryFlags::from_bits_truncate(WRITABLE);
    proof {
        assert(WRITABLE & 0x8000_0000_0000_03ff == WRITABLE) by (bit_vector);
        assert(WRITABLE & HUGE_PAGE == 0) by (bit_vector);
    }
    let mut k: usize = 0;
    while k < sections.len()
        invariant
            k <= sections.len(),
            *mapper == *old(mapper),
            *allocator == *old(allocator),
            mapper.wf(),
            allocator.wf(),
            sections_aligned(sections@),
            forall|j: int| 0 <= j < sections.len() ==> #[trigger] sections[j].addr + sections[j].size <= u64::MAX,
            forall|j: int| 0 <= j < k && mapped_section(#[trigger] sections[j]) ==> sections[j].addr + sections[j].size - 1 < 0x8000_0000_0000,
        decreases sections.len() - k,
    {
        if sections[k].is_allocated() && sections[k].size > 0 && sections[k].end_address() - 1 >= 0x8000_0000_0000 {
            return Err(RemapError::SectionTooHigh);
        }
        k += 1;
    }
    let ghost good = sections_mappable(sections@, &m0, a0.frames(), a0.remaining(), keep@);
    let ghost root = view_root(&m0);
    let ghost mut own: Map<u64, Seq<u64>> = map![root => Seq::<u64>::empty()];
    let ghost mut done: Set<u64> = Set::empty();
    proof {
        if good {
            lemma_built_fresh(m0.frames(), root, guarded(a0.frames(), keep@));
        }
        assert(sections@.subrange(0, sections.len() as int) =~= sections@);
    }
    let mut i: usize = 0;
    while i < sections.len()
        invariant
            i <= sections.len(),
            flags@ & HUGE_PAGE == 0,
            flags@ == WRITABLE,
            m0 == old(mapper).mem,
            a0 == *old(allocator),
            mapper.wf(),
            mapper.mem.active() == m0.active(),
            mapper.mem.flushes() == m0.flushes(),
            mapper.root() == view_root(&m0),
            allocator.wf(),
            allocator.frames().subset_of(a0.frames()),
            forall|x: u64| #[trigger]
                a0.frames().contains(x) ==> x < FRAME_NUMBER_LIMIT && !keep@.contains(x),
            forall|t: u64| #[trigger] keep@.contains(t) ==> table_of(mapper.frames(), t) == table_of(m0.frames(), t),
            forall|k: int| 0 <= k < sections.len() ==> #[trigger] sections[k].addr + sections[k].size <= u64::MAX,
            sections_aligned(sections@),
            sections_below(sections@),
            forall|j: int, n: u64|
                0 <= j < i && #[trigger] in_section(sections[j], n) ==> identity_mapped(
                    mapper.frames(),
                    mapper.root(),
                    n,
                    guarded(allocator.frames(), keep@),
                ),
            good == sections_mappable(sections@, &m0, a0.frames(), a0.remaining(), keep@),
            root == view_root(&m0),
            good ==> built_tables(mapper.frames(), root, own, done, guarded(allocator.frames(), keep@)),
            good ==> sections_disjoint(sections@) && !allocator.frames().contains(m0.active()),
            good ==> allocator.remaining() >= 3 * pages_total(sections@.subrange(i as int, sections.len() as int)),
            good ==> forall|n: u64|
                #[trigger] done.contains(n) ==> exists|j: int| 0 <= j < i && #[trigger] in_section(sections[j], n),
        decreases sections.len() - i,
    {
        let section = sections[i];
        proof {
            lemma_pages_step(sections@, i as int);
        }
        if section.is_allocated() && section.size > 0 {
            let last = section.end_address() - 1;
            let mut frames = Frame::range_inclusive(
                Frame::containing_address(section.start_address()),
                Frame::containing_address(last),
            );
            loop
                invariant
                    frames.end.number < 0x8_0000_0000,
                    frames.end.number <= crate::frame::MAX_FRAME_NUMBER,
                    flags@ & HUGE_PAGE == 0,
                    flags@ == WRITABLE,
                    m0 == old(mapper).mem,
                    a0 == *old(allocator),
                    forall|k: int| 0 <= k <= i && mapped_section(#[trigger] sections[k]) ==> sections[k].addr % PAGE_SIZE == 0,
                    i < sections.len(),
                    section == sections[i as int],
                    mapped_section(section),
                    frames.end.number == (section.addr + section.size - 1) / PAGE_SIZE as int,
                    section.addr / PAGE_SIZE <= frames.current.number,
                    forall|j: int, n: u64|
                        0 <= j < i && #[trigger] in_section(sections[j], n) ==> identity_mapped(
                            mapper.frames(),
                            mapper.root(),
                            n,
                            guarded(allocator.frames(), keep@),
                        ),
                    forall|n: u64|
                        #[trigger] in_section(section, n) && n < frames.current.number ==> identity_mapped(
                            mapper.frames(),
                            mapper.root(),
                            n,
                            guarded(allocator.frames(), keep@),
                        ),
                    mapper.wf(),
                    mapper.mem.active() == m0.active(),
                    mapper.mem.flushes() == m0.flushes(),
                    mapper.root() == view_root(&m0),
                    allocator.wf(),
                    allocator.frames().subset_of(a0.frames()),
                    forall|x: u64| #[trigger]
                        a0.frames().contains(x) ==> x < FRAME_NUMBER_LIMIT && !keep@.contains(x),
                    forall|t: u64| #[trigger] keep@.contains(t) ==> table_of(mapper.frames(), t) == table_of(m0.frames(), t),
                    good == sections_mappable(sections@, &m0, a0.frames(), a0.remaining(), keep@),
                    root == view_root(&m0),
                    last == section.addr + section.size - 1,
                    sections_aligned(sections@),
                    sections_below(sections@),
                    good ==> built_tables(mapper.frames(), root, own, done, guarded(allocator.frames(), keep@)),
                    good ==> sections_disjoint(sections@) && !allocator.frames().contains(m0.active()),
                    good ==> allocator.remaining() >= 3 * (pages_total(sections@.subrange(i as int + 1, sections.len() as int))
                        + (if frames.current.number <= frames.end.number { (frames.end.number - frames.current.number + 1) as nat } else { 0 })),
                    good ==> forall|n: u64|
                        #[trigger] done.contains(n) ==> (exists|j: int| 0 <= j < i && #[trigger] in_section(sections[j], n))
                            || (in_section(section, n) && n < frames.current.number),
                ensures
                    forall|j: int, n: u64|
                        0 <= j <= i && #[trigger] in_section(sections[j], n) ==> identity_mapped(
                            mapper.frames(),
                            mapper.root(),
                            n,
                            guarded(allocator.frames(), keep@),
                        ),
                    good ==> built_tables(mapper.frames(), root, own, done, guarded(allocator.frames(), keep@)),
                    good ==> allocator.remaining() >= 3 * pages_total(sections@.subrange(i as int + 1, sections.len() as int)),
                    good ==> forall|n: u64|
                        #[trigger] done.contains(n) ==> exists|j: int| 0 <= j <= i && #[trigger] in_section(sections[j], n),
                decreases frames.remaining().len(),
            {
                let frame = match frames.next() {
                    Some(f) => f,
                    None => {
                        proof {
                            assert forall|j: int, n: u64|
                                0 <= j <= i && #[trigger] in_section(sections[j], n) implies identity_mapped(
                                    mapper.frames(),
                                    mapper.root(),
                                    n,
                                    guarded(allocator.frames(), keep@),
                                ) by {
                                if j == i {
                                    assert(in_section(section, n));
                                }
                            }
                        }
                        break;
                    },
                };
                let page = crate::page::Page { number: frame.number };
                proof {
                    if good {
                        assert(in_section(section, frame.number));
                        if done.contains(frame.number) {
                            assert(in_section(sections[i as int], frame.number));
                        }
                        lemma_built_allows(&mapper.mem, own, done, guarded(allocator.frames(), keep@), frame.number,
                            allocator.frames(), allocator.remaining(), keep@);
                    }
                }
                proof {
                    assert(in_section(sections[i as int], frame.number));
                }
                if !mapper.map_check(page, allocator, keep) {
                    return Err(RemapError::CannotMap);
                }
                let ghost mb = mapper.mem;
                let ghost ab = *allocator;
                proof {
                    assert forall|x: u64| #[trigger] ab.frames().contains(x) implies fresh_for_page(&mb, frame.number, x) by {
                        assert(a0.frames().contains(x));
                    }
                }
                mapper.identity_map(frame, flags, allocator);
                proof {
                    let ma = mapper.mem;
                    let aa = *allocator;
                    if good {
                        let pool = ab.frames().difference(aa.frames());
                        lemma_built_keeps(&mb, &ma, own, done, guarded(ab.frames(), keep@), guarded(aa.frames(), keep@),
                            frame.number, pool);
                        let fa = ma.frames();
                        own = own.insert(p3_table(fa, root, frame.number), seq![p4_of(frame.number)]).insert(
                            p2_table(fa, root, frame.number),
                            seq![p4_of(frame.number), p3_of(frame.number)],
                        ).insert(p1_table(fa, root, frame.number), seq![p4_of(frame.number), p3_of(frame.number), p2_of(frame.number)]);
                        done = done.insert(frame.number);
                    }
                    let used = ab.frames().difference(aa.frames());
                    let root = view_root(&mb);
                    assert forall|n: u64| identity_mapped(mb.frames(), root, n, guarded(ab.frames(), keep@)) implies identity_mapped(
                        ma.frames(),
                        root,
                        n,
                        guarded(aa.frames(), keep@),
                    ) by {
                        crate::mapper::lemma_keeps_walk(mb.frames(), ma.frames(), root, n, used, guarded(aa.frames(), keep@));
                    }
                    assert(identity_mapped(ma.frames(), root, frame.number, guarded(aa.frames(), keep@)));
                    assert forall|t: u64| #[trigger] keep@.contains(t) implies table_of(ma.frames(), t) == table_of(m0.frames(), t) by {
                        assert(table_of(mb.frames(), t) == table_of(m0.frames(), t));
                        if links(mb.frames(), view_root(&mb), p4_of(frame.number)) {
                        } else {
                            assert(a0.frames().contains(p3_table(ma.frames(), view_root(&mb), frame.number)));
                        }
                        if links(mb.frames(), view_root(&mb), p4_of(frame.number)) && links(mb.frames(), p3_table(mb.frames(), view_root(&mb), frame.number), p3_of(frame.number)) {
                        } else {
                            assert(a0.frames().contains(p2_table(ma.frames(), view_root(&mb), frame.number)));
                        }
                        if full_path(mb.frames(), view_root(&mb), frame.number) {
                        } else {
                            assert(a0.frames().contains(p1_table(ma.frames(), view_root(&mb), frame.number)));
                        }
                    }
                }
            }
        }
        proof {
            assert forall|j: int, n: u64|
                0 <= j < i + 1 && #[trigger] in_section(sections[j], n) implies identity_mapped(
                    mapper.frames(),
                    mapper.root(),
                    n,
                    guarded(allocator.frames(), keep@),
                ) by {
                if j == i {
                    assert(mapped_section(section));
                }
            }
        }
        i += 1;
    }
    Ok(())
}

/// `keep` lists the four tables of page `n`'s walk from `root`.
pub open spec fn scratch_tables(keep: Seq<u64>, fr: Frames, root: u64, n: u64) -> bool {
    &&& keep == seq![root, p3_table(fr, root, n), p2_table(fr, root, n), p1_table(fr, root, n)]
    &&& full_path(fr, root, n)
}

/// No section reaches past the end of the address space.
pub open spec fn sections_fit(sections: Seq<ElfSection>) -> bool {
    forall|i: int| 0 <= i < sections.len() ==> #[trigger] sections[i].addr + sections[i].size <= u64::MAX
}

/// Every section that gets mapped starts on a page boundary.
pub open spec fn sections_aligned(sections: Seq<ElfSection>) -> bool {
    forall|i: int|
        0 <= i < sections.len() && mapped_section(#[trigger] sections[i]) ==> sections[i].addr % PAGE_SIZE == 0
}

proof fn lemma_seq4_contains(s: Seq<u64>)
    requires
        s.len() == 4,
    ensures
        s.contains(s[0]),
        s.contains(s[1]),
        s.contains(s[2]),
        s.contains(s[3]),
{
    assert(s[0] == s[0] && s[1] == s[1] && s[2] == s[2] && s[3] == s[3]);
}

/// Virtual address of the scratch page used while the kernel's new
/// address space is built; the running tables must not map it.
pub const TEMPORARY_PAGE_ADDRESS: u64 = 0xcafe_babe;

/// Start address of the scratch page.
pub const TEMPORARY_PAGE_START: u64 = 0xcafe_b000;

/// Number of the scratch page.
pub open spec fn scratch_page() -> u64 {
    0xcafe_babeu64 / 4096
}

/// Builds the kernel's new address space: a fresh P4 table in which every
/// page of every loaded section is identity-mapped, writable, built while
/// the running table stays active. The new table is returned for the
/// caller to switch to.
pub fn remap_the_kernel<A: FrameAllocator>(
    active_table: &mut PageTable,
    allocator: &mut A,
    sections: &Vec<ElfSection>,
) -> (r: Result<InactivePageTable, RemapError>)
    requires
        sections_aligned(sections@),
        old(active_table).mapper.wf(),
        old(active_table).mapper.root() == old(active_table).mapper.mem.active(),
        old(active_table).mapper.mem.active() < FRAME_NUMBER_LIMIT,
        walk(old(active_table).frames_spec(), old(active_table).mapper.root(), scratch_page()) is None,
        no_huge_on_path(old(active_table).frames_spec(), old(active_table).mapper.root(), scratch_page()),
        slot_free(old(active_table).frames_spec(), old(active_table).mapper.root(), scratch_page()),
        missing_tables(old(active_table).frames_spec(), old(active_table).mapper.root(), scratch_page()) >= 2,
        old(allocator).wf(),
        old(allocator).remaining() >= 4,
        forall|x: u64| #[trigger]
            old(allocator).frames().contains(x) ==> x < FRAME_NUMBER_LIMIT && fresh_for_page(
                &old(active_table).mapper.mem,
                scratch_page(),
                x,
            ) && off_walk(old(active_table).frames_spec(), old(active_table).mapper.root(), scratch_page(), x),
        forall|i: int| 0 <= i < sections.len() ==> #[trigger] sections[i].addr + sections[i].size <= u64::MAX,
    ensures
        final(active_table).mapper.wf(),
        final(active_table).mapper.mem.active() == old(active_table).mapper.mem.active(),
        final(active_table).mapper.root() == old(active_table).mapper.root(),
        walk(final(active_table).frames_spec(), final(active_table).mapper.root(), scratch_page()) is None,
        r matches Ok(t) ==> t.p4_frame.number != final(active_table).mapper.mem.active(),
        r is Ok ==> forall|i: int| 0 <= i < sections.len() && mapped_section(#[trigger] sections[i]) ==> sections[i].addr % PAGE_SIZE == 0,
        r matches Ok(t) ==> forall|j: int, n: u64|
            0 <= j < sections.len() && #[trigger] in_section(sections[j], n) ==> walk(
                final(active_table).frames_spec(),
                t.p4_frame.number,
                n,
            ) == Some(n) && full_path(final(active_table).frames_spec(), t.p4_frame.number, n) && leaf_word(
                final(active_table).frames_spec(),
                t.p4_frame.number,
                n,
            ) == encode(n, WRITABLE | PRESENT),
        r matches Ok(t) ==> self_mapped(final(active_table).frames_spec(), t.p4_frame.number),
        r matches Err(e) ==> e == RemapError::SectionTooHigh ==> sections_aligned(sections@)
            && !sections_below(sections@),
        sections_aligned(sections@) && sections_below(sections@) && sections_disjoint(sections@)
            && old(allocator).remaining() >= 4 + 3 * pages_total(sections@) ==> r is Ok,
        final(active_table).mapper.mem.flushes() == old(active_table).mapper.mem.flushes().push(
            TlbFlush::Page(TEMPORARY_PAGE_START),
        ).push(TlbFlush::All).push(TlbFlush::All).push(TlbFlush::Page(TEMPORARY_PAGE_START)),
{
    let ghost s = scratch_page();
    let ghost m0 = active_table.mapper.mem;
    let ghost root = active_table.mapper.root();
    proof {
        assert((0xcafe_babeu64 / 4096) * 4096 == TEMPORARY_PAGE_START);
        assert(canonical(TEMPORARY_PAGE_ADDRESS)) by (bit_vector);
        assert(p4_of(0xcafe_babeu64 / 4096) == 0 && p3_of(0xcafe_babeu64 / 4096) == 3 && p2_of(0xcafe_babeu64 / 4096) == 0x57
            && p1_of(0xcafe_babeu64 / 4096) == 0x1eb) by (bit_vector);
    }
    let tmp_page_page = Page::containing_address(TEMPORARY_PAGE_ADDRESS);
    let mut tmp_page = TemporaryPage::new(tmp_page_page, allocator);
    let ghost tmp0 = tmp_page.allocator;
    let ghost a1 = *allocator;
    let tmp_frame = allocator.allocate().unwrap();
    proof {
        assert(a1.frames().contains(tmp_frame.number));
        assert(!tmp_page.allocator.frames().contains(tmp_frame.number));
        assert forall|x: u64| #[trigger] tmp_page.allocator.frames().contains(x) implies fresh_for_page(&m0, s, x) by {}
    }
    let mut new_table = InactivePageTable::new(tmp_frame, &mut active_table.mapper, &mut tmp_page);
    let keep = active_table.mapper.page_tables(tmp_page_page);
    let ghost m1 = active_table.mapper.mem;
    proof {
        assert(keep@ =~= walk_tables(m1.frames(), active_table.mapper.root(), s));
    }
    let ghost n4 = tmp_frame.number;
    let ghost active = m0.active();
    let ghost leaf = encode(active, WRITABLE | PRESENT);
    proof {
        assert forall|x: u64| #[trigger] allocator.frames().contains(x) implies x < FRAME_NUMBER_LIMIT
            && !keep@.contains(x) by {
            assert(old(allocator).frames().contains(x));
            assert(!tmp0.frames().contains(x));
            assert(fresh_for_page(&m0, s, x));
            if keep@.contains(x) {
                let k = choose|k: int| 0 <= k < 4 && keep@[k] == x;
                assert(k == 0 || k == 1 || k == 2 || k == 3);
            }
        }
        assert(!keep@.contains(n4)) by {
            if keep@.contains(n4) {
                let k = choose|k: int| 0 <= k < 4 && keep@[k] == n4;
                assert(k == 0 || k == 1 || k == 2 || k == 3);
            }
        }
    }
    let ghost a_before = *allocator;
    let body = |mapper: &mut Mapper, alloc: &mut A| -> (r: SectionsMapped)
            requires
                swapped_in(&*mapper, active, n4, s, leaf, keep@),
                table_of(mapper.frames(), n4) == table_of(m1.frames(), n4),
                *alloc == a_before,
                sections_aligned(sections@),
                alloc.wf(),
                forall|x: u64| #[trigger]
                    alloc.frames().contains(x) ==> x < FRAME_NUMBER_LIMIT && !keep@.contains(x),
                sections_fit(sections@),
            ensures
                swapped_in(&*final(mapper), active, n4, s, leaf, keep@),
                r is Ok ==> sections_aligned(sections@),
                r is Ok ==> sections_identity_mapped(sections@, final(mapper).frames(), n4, keep@),
                r == Err::<(), RemapError>(RemapError::SectionTooHigh) ==> sections_aligned(sections@)
                    && !sections_below(sections@),
                sections_aligned(sections@) && sections_below(sections@) && sections_disjoint(sections@)
                    && a_before.remaining() >= 3 * pages_total(sections@) ==> r is Ok,
                final(mapper).mem.flushes() == old(mapper).mem.flushes()
            {
                let ghost mb = mapper.mem;
                proof {
                    assert(fresh_p4(mb.frames(), view_root(&mb)));
                }
                let r = map_kernel_sections(mapper, alloc, sections, &keep);
                proof {
                    let fa = mapper.frames();
                    lemma_seq4_contains(keep@);
                    crate::mapper::lemma_walk_tables_same(mb.frames(), fa, active, s);
                    if r is Ok {
                        assert forall|j: int, n: u64|
                            0 <= j < sections.len() && #[trigger] in_section(sections[j], n) implies walk(fa, n4, n)
                                == Some(n) && walk_avoids(fa, n4, n, keep@.to_set()) by {
                            assert(identity_mapped(fa, n4, n, guarded(alloc.frames(), keep@)));
                        }
                    }
                }
                r
            };
    let result = active_table.with(&mut new_table, &mut tmp_page, allocator, body);
    proof {
        let fr = active_table.frames_spec();
        let (mm, cc) = choose|m: &mut Mapper, c: &mut A|
            swapped_in(&*m, active, n4, s, leaf, keep@) && table_of((*m).frames(), n4) == table_of(
                m1.frames(),
                n4,
            ) && (*m).mem.flushes() == m1.flushes().push(TlbFlush::All)
                && active_table.mapper.mem.flushes() == (*final(m)).mem.flushes().push(TlbFlush::All).push(
                TlbFlush::Page((s * PAGE_SIZE) as u64),
            ) && *c == a_before && #[trigger] body.ensures((m, c), result) && forall|t: u64|
                    t != active && t != p1_table(m1.frames(), active, s) ==> #[trigger] table_of(fr, t)
                        == table_of((*final(m)).frames(), t);
        if result is Ok {
            let fb = (*final(mm)).frames();
            lemma_seq4_contains(keep@);
            assert forall|j: int, n: u64|
                0 <= j < sections.len() && #[trigger] in_section(sections[j], n) implies walk(fr, n4, n) == Some(n)
                    && full_path(fr, n4, n) && leaf_word(fr, n4, n) == encode(n, WRITABLE | PRESENT) by {
                lemma_tables_outside(fr, fb, n4, n, keep@);
            }
            assert(table_of(fr, n4) == table_of(fb, n4));
        }
    }
    match result {
        Ok(()) => Ok(new_table),
        Err(e) => Err(e),
    }
}

} // verus!
