//! Page tables seen through the recursive mapping: a table is reached at a
//! virtual address, and the MMU's walk of that address finds its frame.
use crate::entry::{
    encode, word_huge, word_present, Entry, EntryFlags, FRAME_NUMBER_LIMIT, HUGE_PAGE, PRESENT, WRITABLE,
};
use crate::frame::{Frame, FrameAllocator};
use crate::memory::{
    child, lemma_flag_tests, links, self_mapped, table_of, walk, word_of, zero_table, Frames, MachineOp, Memory, TableWrite,
};
use crate::page::{lemma_next_table_addr, lemma_p4_addr, next_table_addr, P4_ADDR, RECURSIVE_INDEX};
use core::marker::PhantomData;
use vstd::prelude::*;

verus! {

/// The frame the active P4's recursive slot points at: the P4 table that
/// recursive addresses reach.
pub open spec fn view_root(mem: &Memory) -> u64 {
    child(mem.frames(), mem.active(), RECURSIVE_INDEX)
}

/// The recursive addresses work: the active P4's last slot leads to a P4
/// table that maps itself through its own last slot.
pub open spec fn recursive_ok(mem: &Memory) -> bool {
    &&& mem.wf()
    &&& links(mem.frames(), mem.active(), RECURSIVE_INDEX)
    &&& self_mapped(mem.frames(), view_root(mem))
}

/// The table reached from `root` through the entries `path`.
pub open spec fn descend(frames: Frames, root: u64, path: Seq<u64>) -> u64
    decreases path.len(),
{
    if path.len() == 0 {
        root
    } else {
        child(frames, descend(frames, root, path.drop_last()), path.last())
    }
}

/// Every step of `path` from `root` goes through a table link.
pub open spec fn path_links(frames: Frames, root: u64, path: Seq<u64>) -> bool
    decreases path.len(),
{
    if path.len() == 0 {
        true
    } else {
        path_links(frames, root, path.drop_last()) && path.last() < 512 && links(
            frames,
            descend(frames, root, path.drop_last()),
            path.last(),
        )
    }
}

/// Recursive virtual address of the table at `path` below the P4.
pub open spec fn rec_addr(path: Seq<u64>) -> u64
    decreases path.len(),
{
    if path.len() == 0 {
        P4_ADDR
    } else {
        next_table_addr(rec_addr(path.drop_last()), path.last())
    }
}

/// The load-bearing fact of the recursive mapping: the MMU's walk of the
/// recursive address of a path lands in the table that path reaches.
pub proof fn lemma_resolve_rec(mem: &Memory, path: Seq<u64>)
    requires
        recursive_ok(mem),
        path.len() <= 3,
        path_links(mem.frames(), view_root(mem), path),
    ensures
        walk(mem.frames(), mem.active(), rec_addr(path) >> 12u64) == Some(
            descend(mem.frames(), view_root(mem), path),
        ),
{
    let fr = mem.frames();
    let root = view_root(mem);
    lemma_p4_addr();
    lemma_target_links(fr, mem.active(), RECURSIVE_INDEX);
    lemma_target_links(fr, root, RECURSIVE_INDEX);
    lemma_path_links_bounded(fr, root, path);
    if path.len() == 0 {
    } else if path.len() == 1 {
        let p0 = path.drop_last();
        assert(p0 =~= Seq::<u64>::empty());
        assert(rec_addr(p0) == P4_ADDR);
        assert(descend(fr, root, p0) == root);
        lemma_next_table_addr(P4_ADDR, path[0]);
        assert(rec_addr(path) == next_table_addr(P4_ADDR, path[0]));
        assert(descend(fr, root, path) == child(fr, root, path[0]));
    } else if path.len() == 2 {
        let p1 = path.drop_last();
        let p0 = p1.drop_last();
        assert(p0 =~= Seq::<u64>::empty());
        assert(rec_addr(p0) == P4_ADDR);
        assert(descend(fr, root, p0) == root);
        assert(p1.last() == path[0]);
        lemma_next_table_addr(P4_ADDR, path[0]);
        assert(rec_addr(p1) == next_table_addr(P4_ADDR, path[0]));
        lemma_next_table_addr(rec_addr(p1), path[1]);
        assert(rec_addr(path) == next_table_addr(rec_addr(p1), path[1]));
        lemma_target_links(fr, root, path[0]);
        assert(descend(fr, root, p1) == child(fr, root, path[0]));
        assert(path_links(fr, root, p1));
        assert(links(fr, root, path[0]));
    } else {
        let p2 = path.drop_last();
        let p1 = p2.drop_last();
        let p0 = p1.drop_last();
        assert(p0 =~= Seq::<u64>::empty());
        assert(rec_addr(p0) == P4_ADDR);
        assert(descend(fr, root, p0) == root);
        assert(p1.last() == path[0]);
        assert(p2.last() == path[1]);
        lemma_next_table_addr(P4_ADDR, path[0]);
        assert(rec_addr(p1) == next_table_addr(P4_ADDR, path[0]));
        lemma_next_table_addr(rec_addr(p1), path[1]);
        assert(rec_addr(p2) == next_table_addr(rec_addr(p1), path[1]));
        assert(rec_addr(path) == next_table_addr(rec_addr(p2), path[2]));
        assert(descend(fr, root, p1) == child(fr, root, path[0]));
        assert(path_links(fr, root, p2));
        assert(path_links(fr, root, p1));
        assert(links(fr, root, path[0]));
        assert(links(fr, descend(fr, root, p1), path[1]));
        lemma_next_table_addr(rec_addr(p1), path[1]);
        lemma_next_table_addr(rec_addr(p2), path[2]);
        lemma_target_links(fr, root, path[0]);
        lemma_target_links(fr, descend(fr, root, p1), path[1]);
    }
}

proof fn lemma_path_links_bounded(frames: Frames, root: u64, path: Seq<u64>)
    requires
        path_links(frames, root, path),
    ensures
        forall|k: int| 0 <= k < path.len() ==> path[k] < 512,
    decreases path.len(),
{
    if path.len() > 0 {
        lemma_path_links_bounded(frames, root, path.drop_last());
        assert forall|k: int| 0 <= k < path.len() implies path[k] < 512 by {
            if k < path.len() - 1 {
                assert(path[k] == path.drop_last()[k]);
            }
        }
    }
}

/// A link is present and not huge.
proof fn lemma_target_links(frames: Frames, f: u64, i: u64)
    ensures
        links(frames, f, i) ==> word_present(word_of(frames, f, i)) && !word_huge(
            word_of(frames, f, i),
        ),
{
}

/// Level of a table in the hierarchy.
pub trait TableLevel {
    /// Number of descents from the P4 table.
    spec fn depth() -> nat;
}

/// Level of a table that has a next level.
pub trait HierarchicalLevel: TableLevel {
    type NextLevel: TableLevel;

    proof fn lemma_next_depth()
        ensures
            Self::depth() < 3,
            Self::NextLevel::depth() == Self::depth() + 1,
    ;
}

/// Tag of a P4 table.
pub enum Level4 {
    P4,
}

/// Tag of a P3 table.
pub enum Level3 {
    P3,
}

/// Tag of a P2 table.
pub enum Level2 {
    P2,
}

/// Tag of a P1 table.
pub enum Level1 {
    P1,
}

impl TableLevel for Level4 {
    open spec fn depth() -> nat {
        0
    }
}

impl TableLevel for Level3 {
    open spec fn depth() -> nat {
        1
    }
}

impl TableLevel for Level2 {
    open spec fn depth() -> nat {
        2
    }
}

impl TableLevel for Level1 {
    open spec fn depth() -> nat {
        3
    }
}

impl HierarchicalLevel for Level4 {
    type NextLevel = Level3;

    proof fn lemma_next_depth() {
    }
}

impl HierarchicalLevel for Level3 {
    type NextLevel = Level2;

    proof fn lemma_next_depth() {
    }
}

impl HierarchicalLevel for Level2 {
    type NextLevel = Level1;

    proof fn lemma_next_depth() {
    }
}

/// A table of level `L`, as the code reaches it: at a virtual address.
/// Either a recursive address, and then `path` holds the ghost list of
/// entries that lead to it from the P4 table; or an ordinary mapping of
/// its frame (`path` is `None`).
pub struct Table<L: TableLevel> {
    pub address: u64,
    pub path: Ghost<Option<Seq<u64>>>,
    pub level: PhantomData<L>,
}

impl<L: TableLevel> Table<L> {
    /// Entries from the P4 table to a table reached recursively.
    pub open spec fn steps(&self) -> Seq<u64> {
        match self.path@ {
            Some(p) => p,
            None => Seq::empty(),
        }
    }

    /// The table is reachable in `mem` at its address.
    pub open spec fn valid(&self, mem: &Memory) -> bool {
        match self.path@ {
            Some(p) => {
                &&& recursive_ok(mem)
                &&& p.len() == L::depth()
                &&& L::depth() <= 3
                &&& path_links(mem.frames(), view_root(mem), p)
                &&& self.address == rec_addr(p)
            },
            None => {
                &&& mem.wf()
                &&& walk(mem.frames(), mem.active(), self.address >> 12u64) is Some
            },
        }
    }

    /// Frame that holds the table.
    pub open spec fn frame(&self, mem: &Memory) -> u64 {
        match self.path@ {
            Some(p) => descend(mem.frames(), view_root(mem), p),
            None => walk(mem.frames(), mem.active(), self.address >> 12u64)->Some_0,
        }
    }

    /// The P4 table reached through the recursive slot.
    pub fn p4(mem: &Memory) -> (r: Table<Level4>)
        requires
            recursive_ok(mem),
        ensures
            r.valid(mem),
            r.path@ == Some(Seq::<u64>::empty()),
            r.frame(mem) == view_root(mem),
    {
        Table { address: P4_ADDR, path: Ghost(Some(Seq::empty())), level: PhantomData }
    }

    /// Frame that holds the table, as the MMU finds it.
    fn frame_number(&self, mem: &Memory) -> (r: u64)
        requires
            self.valid(mem),
        ensures
            r == self.frame(mem),
    {
        proof {
            if self.path@ is Some {
                lemma_resolve_rec(mem, self.steps());
            }
        }
        mem.resolve(self.address).unwrap()
    }

    /// Entry `index` of the table.
    pub fn entry(&self, mem: &Memory, index: usize) -> (r: Entry)
        requires
            self.valid(mem),
            index < 512,
        ensures
            r == table_of(mem.frames(), self.frame(mem))[index as int],
    {
        let f = self.frame_number(mem);
        mem.read(f, index)
    }

    /// Writes entry `index` of the table. The recursive slots are left
    /// alone.
    pub fn set_entry(&self, mem: &mut Memory, index: usize, e: Entry)
        requires
            self.valid(old(mem)),
            index < 512,
        ensures
            final(mem).wf(),
            final(mem).active() == old(mem).active(),
            final(mem).frames() == old(mem).frames().insert(
                self.frame(old(mem)),
                table_of(old(mem).frames(), self.frame(old(mem))).update(index as int, e),
            ),
            final(mem).flushes() == old(mem).flushes(),
            final(mem).ops() == old(mem).ops().push(
                MachineOp::Write(TableWrite::Word { frame: self.frame(old(mem)), index, word: e.0 }),
            ),
    {
        let f = self.frame_number(mem);
        mem.write(f, index, e);
    }

    /// Marks every entry unused.
    pub fn zero(&self, mem: &mut Memory)
        requires
            self.valid(old(mem)),
            self.frame(old(mem)) != old(mem).active(),
            self.frame(old(mem)) != view_root(old(mem)),
        ensures
            final(mem).wf(),
            final(mem).active() == old(mem).active(),
            final(mem).frames() == old(mem).frames().insert(self.frame(old(mem)), zero_table()),
            final(mem).flushes() == old(mem).flushes(),
            self.path@ is Some && (forall|k: int|
                0 <= k < self.steps().len() ==> #[trigger] descend(
                    old(mem).frames(),
                    view_root(old(mem)),
                    self.steps().subrange(0, k),
                ) != self.frame(old(mem))) ==> self.valid(final(mem)) && self.frame(final(mem))
                == self.frame(old(mem)),
            self.path@ is None && crate::mapper::walk_avoids(
                old(mem).frames(),
                old(mem).active(),
                self.address >> 12u64,
                set![self.frame(old(mem))],
            ) ==> self.valid(final(mem)) && self.frame(final(mem)) == self.frame(old(mem)),
    {
        let f = self.frame_number(mem);
        let ghost m0 = *mem;
        mem.zero_frame(f);
        proof {
            let s = set![f];
            if self.path@ is Some {
                if forall|k: int|
                    0 <= k < self.steps().len() ==> #[trigger] descend(
                        m0.frames(),
                        view_root(&m0),
                        self.steps().subrange(0, k),
                    ) != f {
                    lemma_zero_keeps_path(&m0, mem, self.steps(), f);
                    assert(self.steps().subrange(0, self.steps().len() as int) =~= self.steps());
                }
            } else {
                assert forall|t: u64, i: u64|
                    i < 512 && !s.contains(t) && word_present(word_of(m0.frames(), t, i)) implies #[trigger] word_of(
                        mem.frames(),
                        t,
                        i,
                    ) == word_of(m0.frames(), t, i) by {}
                if crate::mapper::walk_avoids(m0.frames(), m0.active(), self.address >> 12u64, s) {
                    crate::mapper::lemma_keeps_walk(m0.frames(), mem.frames(), m0.active(), self.address >> 12u64, s, s);
                }
            }
        }
    }
}

impl<L: HierarchicalLevel> Table<L> {
    /// Address of the next-level table that entry `index` leads to, if it
    /// is present and not huge.
    fn next_table_address(&self, mem: &Memory, index: usize) -> (r: Option<u64>)
        requires
            self.valid(mem),
            self.path@ is Some,
            index < 512,
        ensures
            r == (if links(mem.frames(), self.frame(mem), index as u64) {
                Some(next_table_addr(self.address, index as u64))
            } else {
                None
            }),
    {
        let entry_flags = self.entry(mem, index).flags();
        proof {
            lemma_flag_tests(word_of(mem.frames(), self.frame(mem), index as u64));
        }
        if entry_flags.contains(EntryFlags::from_bits_truncate(PRESENT)) && !entry_flags.contains(
            EntryFlags::from_bits_truncate(HUGE_PAGE),
        ) {
            let table_address = self.address;
            Some((table_address << 9u64) | ((index as u64) << 12u64))
        } else {
            None
        }
    }

    /// The next-level table that entry `index` leads to.
    pub fn next_table(&self, mem: &Memory, index: usize) -> (r: Option<Table<L::NextLevel>>)
        requires
            self.valid(mem),
            self.path@ is Some,
            index < 512,
        ensures
            r is Some == links(mem.frames(), self.frame(mem), index as u64),
            r matches Some(t) ==> t.valid(mem) && t.path@ == Some(self.steps().push(index as u64))
                && t.frame(mem) == child(mem.frames(), self.frame(mem), index as u64),
    {
        match self.next_table_address(mem, index) {
            Some(address) => {
                let ghost path = self.steps().push(index as u64);
                proof {
                    L::lemma_next_depth();
                    assert(path.drop_last() =~= self.steps());
                }
                Some(Table { address, path: Ghost(Some(path)), level: PhantomData })
            },
            None => None,
        }
    }

    /// The next-level table of entry `index`, made first if there is none:
    /// a frame from `allocator`, linked present and writable, then zeroed.
    pub fn next_table_create<A: FrameAllocator>(
        &self,
        mem: &mut Memory,
        index: usize,
        allocator: &mut A,
    ) -> (r: Table<L::NextLevel>)
        requires
            self.valid(old(mem)),
            self.path@ is Some,
            index < 512,
            !word_huge(word_of(old(mem).frames(), self.frame(old(mem)), index as u64)),
            old(allocator).wf(),
            links(old(mem).frames(), self.frame(old(mem)), index as u64) || old(
                allocator,
            ).remaining() > 0,
            forall|n: u64| #[trigger]
                old(allocator).frames().contains(n) ==> fresh_frame(
                    old(mem),
                    self.steps(),
                    n,
                ),
        ensures
            final(allocator).wf(),
            r.valid(final(mem)),
            r.path@ == Some(self.steps().push(index as u64)),
            final(mem).active() == old(mem).active(),
            view_root(final(mem)) == view_root(old(mem)),
            self.valid(final(mem)),
            self.frame(final(mem)) == self.frame(old(mem)),
            links(old(mem).frames(), self.frame(old(mem)), index as u64) ==> final(mem).frames()
                == old(mem).frames() && *final(allocator) == *old(allocator),
            !links(old(mem).frames(), self.frame(old(mem)), index as u64) ==> ({
                let x = r.frame(final(mem));
                &&& old(allocator).peek_at(0) == Some(Frame { number: x })
                &&& forall|k: nat| #[trigger] final(allocator).peek_at(k) == old(allocator).peek_at(k + 1)
                &&& old(allocator).frames().contains(x)
                &&& final(allocator).frames() == old(allocator).frames().remove(x)
                &&& final(allocator).remaining() + 1 == old(allocator).remaining()
                &&& final(mem).frames() == old(mem).frames().insert(
                    self.frame(old(mem)),
                    table_of(old(mem).frames(), self.frame(old(mem))).update(
                        index as int,
                        Entry(encode(x, PRESENT | WRITABLE)),
                    ),
                ).insert(x, zero_table())
            }),
            final(mem).flushes() == old(mem).flushes(),
    {
        if self.next_table(mem, index).is_none() {
            let ghost m0 = *mem;
            let ghost f = self.frame(&m0);
            let table_frame = allocator.allocate().unwrap();
            let mut e = self.entry(mem, index);
            let flags = EntryFlags::from_bits_truncate(PRESENT | WRITABLE);
            proof {
                assert(fresh_frame(&m0, self.steps(), table_frame.number));
                assert(word_present(word_of(m0.frames(), f, index as u64)) ==> links(
                    m0.frames(),
                    f,
                    index as u64,
                ));
            }
            e.set(table_frame, flags);
            self.set_entry(mem, index, e);
            let ghost m1 = *mem;
            proof {
                Entry::lemma_set(table_frame.number, flags);
                crate::entry::lemma_present_writable();
                lemma_write_keeps_path(&m0, &m1, self.steps(), f, index as u64, e);
                assert(links(m1.frames(), f, index as u64));
                assert(child(m1.frames(), f, index as u64) == table_frame.number);
            }
            let t = self.next_table(mem, index).unwrap();
            proof {
                assert(t.frame(&m1) == table_frame.number);
                assert(descend(m1.frames(), view_root(&m1), self.steps()) == f);
            }
            t.zero(mem);
            proof {
                let m2 = *mem;
                assert forall|k: int| 0 <= k < t.steps().len() implies #[trigger] descend(
                    m1.frames(),
                    view_root(&m1),
                    t.steps().subrange(0, k),
                ) != table_frame.number by {
                    assert(t.steps().subrange(0, k) =~= self.steps().subrange(0, k));
                }
                lemma_zero_keeps_path(&m1, &m2, t.steps(), table_frame.number);
                assert(t.steps().drop_last() =~= self.steps());
                assert(m2.frames() =~= m0.frames().insert(
                    f,
                    table_of(m0.frames(), f).update(
                        index as int,
                        Entry(encode(table_frame.number, PRESENT | WRITABLE)),
                    ),
                ).insert(table_frame.number, zero_table()));
            }
        }
        self.next_table(mem, index).unwrap()
    }
}

/// Frame `n` may become a new table below the table at `path`: it is a
/// valid entry target, and is neither the active P4, nor the P4 the
/// recursive slot reaches, nor any table on `path`.
pub open spec fn fresh_frame(mem: &Memory, path: Seq<u64>, n: u64) -> bool {
    &&& n < FRAME_NUMBER_LIMIT
    &&& n != mem.active()
    &&& n != view_root(mem)
    &&& forall|k: int|
        0 <= k <= path.len() ==> #[trigger] descend(mem.frames(), view_root(mem), path.subrange(0, k))
            != n
}

/// The link words along `path` are the same in two frame maps.
pub open spec fn same_links(fr1: Frames, fr2: Frames, root: u64, path: Seq<u64>) -> bool {
    forall|k: int|
        0 <= k < path.len() ==> word_of(
            fr2,
            #[trigger] descend(fr1, root, path.subrange(0, k)),
            path[k],
        ) == word_of(fr1, descend(fr1, root, path.subrange(0, k)), path[k])
}

/// A path whose link words did not change reaches the same tables, at
/// every prefix.
proof fn lemma_same_links(fr1: Frames, fr2: Frames, root: u64, path: Seq<u64>)
    requires
        path_links(fr1, root, path),
        same_links(fr1, fr2, root, path),
    ensures
        path_links(fr2, root, path),
        forall|k: int|
            0 <= k <= path.len() ==> #[trigger] descend(fr2, root, path.subrange(0, k)) == descend(
                fr1,
                root,
                path.subrange(0, k),
            ),
    decreases path.len(),
{
    assert(path.subrange(0, path.len() as int) =~= path);
    if path.len() > 0 {
        let p = path.drop_last();
        assert forall|k: int| 0 <= k < p.len() implies word_of(
            fr2,
            #[trigger] descend(fr1, root, p.subrange(0, k)),
            p[k],
        ) == word_of(fr1, descend(fr1, root, p.subrange(0, k)), p[k]) by {
            assert(p.subrange(0, k) =~= path.subrange(0, k));
        }
        lemma_same_links(fr1, fr2, root, p);
        assert forall|k: int| 0 <= k <= p.len() implies #[trigger] descend(
            fr2,
            root,
            path.subrange(0, k),
        ) == descend(fr1, root, path.subrange(0, k)) by {
            assert(p.subrange(0, k) =~= path.subrange(0, k));
        }
        let k = p.len() as int;
        assert(path.subrange(0, k) =~= p);
        assert(p.subrange(0, k) =~= p);
        assert(descend(fr2, root, p) == descend(fr1, root, p));
        assert(word_of(fr2, descend(fr1, root, path.subrange(0, k)), path[k]) == word_of(
            fr1,
            descend(fr1, root, path.subrange(0, k)),
            path[k],
        ));
        assert(descend(fr2, root, path) == descend(fr1, root, path));
        assert forall|j: int| 0 <= j <= path.len() implies #[trigger] descend(
            fr2,
            root,
            path.subrange(0, j),
        ) == descend(fr1, root, path.subrange(0, j)) by {
            if j == path.len() {
                assert(path.subrange(0, j) =~= path);
            }
        }
    } else {
        assert(path.subrange(0, 0) =~= path);
    }
}

/// The tables along a linked path hold present words at the path's
/// indices.
proof fn lemma_links_present(fr: Frames, root: u64, path: Seq<u64>, k: int)
    requires
        path_links(fr, root, path),
        0 <= k < path.len(),
    ensures
        links(fr, descend(fr, root, path.subrange(0, k)), path[k]),
    decreases path.len(),
{
    let p = path.drop_last();
    if k < p.len() {
        lemma_links_present(fr, root, p, k);
        assert(p.subrange(0, k) =~= path.subrange(0, k));
    } else {
        assert(path.subrange(0, k) =~= p);
    }
}

/// Writing a word that was not present keeps every linked path.
pub proof fn lemma_write_keeps_path(m0: &Memory, m1: &Memory, path: Seq<u64>, f: u64, i: u64, e: Entry)
    requires
        recursive_ok(m0),
        path_links(m0.frames(), view_root(m0), path),
        m1.wf(),
        m1.active() == m0.active(),
        !word_present(word_of(m0.frames(), f, i)),
        i < 512,
        m1.frames() == m0.frames().insert(f, table_of(m0.frames(), f).update(i as int, e)),
    ensures
        recursive_ok(m1),
        view_root(m1) == view_root(m0),
        path_links(m1.frames(), view_root(m1), path),
        forall|k: int|
            0 <= k <= path.len() ==> #[trigger] descend(m1.frames(), view_root(m1), path.subrange(0, k))
                == descend(m0.frames(), view_root(m0), path.subrange(0, k)),
{
    let fr0 = m0.frames();
    let fr1 = m1.frames();
    m0.lemma_table_len(f);
    assert(word_of(fr1, m0.active(), RECURSIVE_INDEX) == word_of(fr0, m0.active(), RECURSIVE_INDEX));
    assert(word_of(fr1, view_root(m0), RECURSIVE_INDEX) == word_of(fr0, view_root(m0), RECURSIVE_INDEX));
    assert forall|k: int| 0 <= k < path.len() implies word_of(
        fr1,
        #[trigger] descend(fr0, view_root(m0), path.subrange(0, k)),
        path[k],
    ) == word_of(fr0, descend(fr0, view_root(m0), path.subrange(0, k)), path[k]) by {
        lemma_links_present(fr0, view_root(m0), path, k);
        lemma_path_links_bounded(fr0, view_root(m0), path);
        m0.lemma_table_len(descend(fr0, view_root(m0), path.subrange(0, k)));
    }
    lemma_same_links(fr0, fr1, view_root(m0), path);
}

/// Zeroing a frame off a path keeps that path.
pub proof fn lemma_zero_keeps_path(m1: &Memory, m2: &Memory, path: Seq<u64>, x: u64)
    requires
        recursive_ok(m1),
        path_links(m1.frames(), view_root(m1), path),
        m2.wf(),
        m2.active() == m1.active(),
        x != m1.active(),
        x != view_root(m1),
        forall|k: int| 0 <= k < path.len() ==> #[trigger] descend(m1.frames(), view_root(m1), path.subrange(0, k)) != x,
        m2.frames() == m1.frames().insert(x, zero_table()),
    ensures
        recursive_ok(m2),
        view_root(m2) == view_root(m1),
        path_links(m2.frames(), view_root(m2), path),
        forall|k: int|
            0 <= k <= path.len() ==> #[trigger] descend(m2.frames(), view_root(m2), path.subrange(0, k))
                == descend(m1.frames(), view_root(m1), path.subrange(0, k)),
{
    let fr1 = m1.frames();
    let fr2 = m2.frames();
    assert(word_of(fr2, m1.active(), RECURSIVE_INDEX) == word_of(fr1, m1.active(), RECURSIVE_INDEX));
    assert(word_of(fr2, view_root(m1), RECURSIVE_INDEX) == word_of(fr1, view_root(m1), RECURSIVE_INDEX));
    assert forall|k: int| 0 <= k < path.len() implies word_of(
        fr2,
        #[trigger] descend(fr1, view_root(m1), path.subrange(0, k)),
        path[k],
    ) == word_of(fr1, descend(fr1, view_root(m1), path.subrange(0, k)), path[k]) by {
    }
    lemma_same_links(fr1, fr2, view_root(m1), path);
}

} // verus!
