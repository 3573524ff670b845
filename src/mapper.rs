//! Translation, mapping and unmapping in the page tables that the
//! recursive slot reaches.
use crate::entry::{
    encode, word_huge, word_present, word_target, Entry, EntryFlags, FRAME_NUMBER_LIMIT, HUGE_PAGE,
    PRESENT, WRITABLE,
};
use crate::frame::{Frame, FrameAllocator, FRAME_SIZE};
use crate::memory::{
    child, lemma_flag_tests, lemma_target_bound, links, table_of, walk, word_of, zero_table, Frames,
    MachineOp, Memory, TableWrite, TlbFlush,
};
use crate::page::{canonical, p1_of, p2_of, p3_of, p4_of, Page, PAGE_SIZE, RECURSIVE_INDEX};
use crate::table::{recursive_ok, view_root, Level4, Table};
use vstd::prelude::*;

verus! {

/// Every huge entry that the walk of page `n` meets is aligned to its size.
pub open spec fn huge_aligned(frames: Frames, root: u64, n: u64) -> bool {
    links(frames, root, p4_of(n)) ==> {
        let e3 = word_of(frames, child(frames, root, p4_of(n)), p3_of(n));
        &&& word_present(e3) && word_huge(e3) ==> word_target(e3) % 262144 == 0
        &&& word_present(e3) && !word_huge(e3) ==> {
            let e2 = word_of(frames, word_target(e3), p2_of(n));
            word_present(e2) && word_huge(e2) ==> word_target(e2) % 512 == 0
        }
    }
}

/// Frame of the P3 table on page `n`'s walk.
pub open spec fn p3_table(frames: Frames, root: u64, n: u64) -> u64 {
    child(frames, root, p4_of(n))
}

/// Frame of the P2 table on page `n`'s walk.
pub open spec fn p2_table(frames: Frames, root: u64, n: u64) -> u64 {
    child(frames, p3_table(frames, root, n), p3_of(n))
}

/// Frame of the P1 table on page `n`'s walk.
pub open spec fn p1_table(frames: Frames, root: u64, n: u64) -> u64 {
    child(frames, p2_table(frames, root, n), p2_of(n))
}

/// Whether the walk of page `n` meets no huge entry (present or not) at
/// the P4, P3 or P2 level.
pub open spec fn no_huge_on_path(frames: Frames, root: u64, n: u64) -> bool {
    &&& !word_huge(word_of(frames, root, p4_of(n)))
    &&& links(frames, root, p4_of(n)) ==> !word_huge(
        word_of(frames, p3_table(frames, root, n), p3_of(n)),
    )
    &&& links(frames, root, p4_of(n)) && links(frames, p3_table(frames, root, n), p3_of(n))
        ==> !word_huge(word_of(frames, p2_table(frames, root, n), p2_of(n)))
}

/// Whether the walk of page `n` reaches its P1 table through links.
pub open spec fn full_path(frames: Frames, root: u64, n: u64) -> bool {
    &&& links(frames, root, p4_of(n))
    &&& links(frames, p3_table(frames, root, n), p3_of(n))
    &&& links(frames, p2_table(frames, root, n), p2_of(n))
}

/// How many tables mapping page `n` must create.
pub open spec fn missing_tables(frames: Frames, root: u64, n: u64) -> nat {
    if !links(frames, root, p4_of(n)) {
        3
    } else if !links(frames, p3_table(frames, root, n), p3_of(n)) {
        2
    } else if !links(frames, p2_table(frames, root, n), p2_of(n)) {
        1
    } else {
        0
    }
}

/// The P1 word of page `n`, once its path is complete.
pub open spec fn leaf_word(frames: Frames, root: u64, n: u64) -> u64 {
    word_of(frames, p1_table(frames, root, n), p1_of(n))
}

/// Mapping page `n` finds its P1 slot unused.
pub open spec fn slot_free(frames: Frames, root: u64, n: u64) -> bool {
    full_path(frames, root, n) ==> leaf_word(frames, root, n) == 0
}

/// Frame `x` may become a table for page `n`: a valid entry target that is
/// neither P4 table nor a table already on the page's walk.
pub open spec fn fresh_for_page(mem: &Memory, n: u64, x: u64) -> bool {
    let fr = mem.frames();
    let root = view_root(mem);
    &&& x < FRAME_NUMBER_LIMIT
    &&& x != mem.active()
    &&& x != root
    &&& links(fr, root, p4_of(n)) ==> x != p3_table(fr, root, n)
    &&& links(fr, root, p4_of(n)) && links(fr, p3_table(fr, root, n), p3_of(n)) ==> x != p2_table(
        fr,
        root,
        n,
    )
}

/// `after` is `before` with page `n` mapped to frame `f` with flags `fl`:
/// the walk of `n` ends in a present P1 entry for `f`, the recursive slots
/// are as they were, and no table off the page's walk changed.
pub open spec fn mapped(before: &Memory, after: &Memory, n: u64, f: u64, fl: u64) -> bool {
    let fr = after.frames();
    let root = view_root(before);
    &&& recursive_ok(after)
    &&& view_root(after) == root
    &&& after.active() == before.active()
    &&& full_path(fr, root, n)
    &&& leaf_word(fr, root, n) == encode(f, fl | PRESENT)
    &&& walk(fr, root, n) == Some(f)
    &&& forall|t: u64|
        t != root && t != p3_table(fr, root, n) && t != p2_table(fr, root, n) && t != p1_table(
            fr,
            root,
            n,
        ) ==> #[trigger] table_of(fr, t) == table_of(before.frames(), t)
}

/// Every word that was present in `before` is unchanged in `after`, but in
/// the frames of `pool`.
pub open spec fn keeps_present(before: Frames, after: Frames, pool: Set<u64>) -> bool {
    forall|t: u64, i: u64|
        i < 512 && !pool.contains(t) && word_present(word_of(before, t, i)) ==> #[trigger] word_of(
            after,
            t,
            i,
        ) == word_of(before, t, i)
}

/// Word `i` of frame `t` is the one page `n`'s walk reads from the table at
/// that level.
pub open spec fn path_slot(fr: Frames, root: u64, n: u64, t: u64, i: u64) -> bool {
    ||| t == root && i == p4_of(n)
    ||| t == p3_table(fr, root, n) && i == p3_of(n)
    ||| t == p2_table(fr, root, n) && i == p2_of(n)
    ||| t == p1_table(fr, root, n) && i == p1_of(n)
}

/// `after` differs from `before` only in the words page `n`'s walk reads in
/// `after`, and in the frames of `pool`, which hold nothing else.
pub open spec fn writes_only_path(before: Frames, after: Frames, root: u64, n: u64, pool: Set<u64>) -> bool {
    &&& forall|t: u64, i: u64|
        i < 512 && #[trigger] word_of(after, t, i) != word_of(before, t, i) ==> pool.contains(t)
            || path_slot(after, root, n, t, i)
    &&& forall|t: u64, i: u64|
        i < 512 && pool.contains(t) && !path_slot(after, root, n, t, i) ==> #[trigger] word_of(
            after,
            t,
            i,
        ) == 0
}

/// The tables of page `n`'s walk that come from `pool` are distinct from
/// each other and from the other tables of the walk.
pub open spec fn new_tables_distinct(fr: Frames, root: u64, n: u64, pool: Set<u64>) -> bool {
    let t1 = p3_table(fr, root, n);
    let t2 = p2_table(fr, root, n);
    let t3 = p1_table(fr, root, n);
    &&& pool.contains(t1) ==> t1 != root && t1 != t2 && t1 != t3
    &&& pool.contains(t2) ==> t2 != root && t2 != t1 && t2 != t3
    &&& pool.contains(t3) ==> t3 != root && t3 != t1 && t3 != t2
}

/// None of the tables that page `n`'s walk reads is in `pool`.
pub open spec fn walk_avoids(fr: Frames, root: u64, n: u64, pool: Set<u64>) -> bool {
    &&& !pool.contains(root)
    &&& links(fr, root, p4_of(n)) ==> !pool.contains(p3_table(fr, root, n))
    &&& links(fr, root, p4_of(n)) && links(fr, p3_table(fr, root, n), p3_of(n)) ==> !pool.contains(
        p2_table(fr, root, n),
    )
    &&& full_path(fr, root, n) ==> !pool.contains(p1_table(fr, root, n))
}

/// A translation survives any change that keeps present words outside
/// `pool`, when no table it reads is in `pool`.
pub proof fn lemma_keeps_walk(fr0: Frames, fr1: Frames, root: u64, n: u64, pool: Set<u64>, other: Set<u64>)
    requires
        keeps_present(fr0, fr1, pool),
        walk(fr0, root, n) is Some,
        walk_avoids(fr0, root, n, pool),
    ensures
        walk(fr1, root, n) == walk(fr0, root, n),
        walk_avoids(fr0, root, n, other) ==> walk_avoids(fr1, root, n, other),
        full_path(fr1, root, n) == full_path(fr0, root, n),
        full_path(fr0, root, n) ==> leaf_word(fr1, root, n) == leaf_word(fr0, root, n),
{
    assert(p4_of(n) < 512 && p3_of(n) < 512 && p2_of(n) < 512 && p1_of(n) < 512) by (bit_vector);
    assert(word_of(fr1, root, p4_of(n)) == word_of(fr0, root, p4_of(n)));
    let t3 = p3_table(fr0, root, n);
    assert(word_of(fr1, t3, p3_of(n)) == word_of(fr0, t3, p3_of(n)));
    let e3 = word_of(fr0, t3, p3_of(n));
    if !word_huge(e3) {
        let t2 = p2_table(fr0, root, n);
        assert(word_of(fr1, t2, p2_of(n)) == word_of(fr0, t2, p2_of(n)));
        let e2 = word_of(fr0, t2, p2_of(n));
        if !word_huge(e2) {
            let t1 = p1_table(fr0, root, n);
            assert(word_of(fr1, t1, p1_of(n)) == word_of(fr0, t1, p1_of(n)));
        }
    }
}

/// Each table on page `n`'s walk in `after` was there in `before`, or is
/// one of `pool`.
pub open spec fn tables_from(before: &Memory, after: &Memory, n: u64, pool: Set<u64>) -> bool {
    let fb = before.frames();
    let fa = after.frames();
    let root = view_root(before);
    &&& links(fb, root, p4_of(n)) ==> p3_table(fa, root, n) == p3_table(fb, root, n)
    &&& !links(fb, root, p4_of(n)) ==> pool.contains(p3_table(fa, root, n))
    &&& links(fb, root, p4_of(n)) && links(fb, p3_table(fb, root, n), p3_of(n)) ==> p2_table(fa, root, n)
        == p2_table(fb, root, n)
    &&& !(links(fb, root, p4_of(n)) && links(fb, p3_table(fb, root, n), p3_of(n))) ==> pool.contains(
        p2_table(fa, root, n),
    )
    &&& full_path(fb, root, n) ==> p1_table(fa, root, n) == p1_table(fb, root, n)
    &&& !full_path(fb, root, n) ==> pool.contains(p1_table(fa, root, n))
}

/// Frame `x` is none of the tables on page `n`'s walk from `root`.
pub open spec fn off_walk(fr: Frames, root: u64, n: u64, x: u64) -> bool {
    &&& x != root
    &&& links(fr, root, p4_of(n)) ==> x != p3_table(fr, root, n)
    &&& links(fr, root, p4_of(n)) && links(fr, p3_table(fr, root, n), p3_of(n)) ==> x != p2_table(
        fr,
        root,
        n,
    )
    &&& full_path(fr, root, n) ==> x != p1_table(fr, root, n)
}

/// Rewriting a frame off page `n`'s walk, and neither P4 table, changes
/// nothing on that walk.
pub proof fn lemma_write_off_walk(m0: &Memory, m1: &Memory, n: u64, x: u64)
    requires
        recursive_ok(m0),
        m1.wf(),
        m1.active() == m0.active(),
        x != m0.active(),
        off_walk(m0.frames(), view_root(m0), n, x),
        m1.frames() == m0.frames().insert(x, table_of(m1.frames(), x)),
    ensures
        recursive_ok(m1),
        view_root(m1) == view_root(m0),
        off_walk(m1.frames(), view_root(m0), n, x),
        links(m1.frames(), view_root(m0), p4_of(n)) == links(m0.frames(), view_root(m0), p4_of(n)),
        p3_table(m1.frames(), view_root(m0), n) == p3_table(m0.frames(), view_root(m0), n),
        links(m0.frames(), view_root(m0), p4_of(n)) ==> p2_table(m1.frames(), view_root(m0), n)
            == p2_table(m0.frames(), view_root(m0), n),
        links(m0.frames(), view_root(m0), p4_of(n)) && links(
            m0.frames(),
            p3_table(m0.frames(), view_root(m0), n),
            p3_of(n),
        ) ==> p1_table(m1.frames(), view_root(m0), n) == p1_table(m0.frames(), view_root(m0), n),
        full_path(m1.frames(), view_root(m0), n) == full_path(m0.frames(), view_root(m0), n),
        full_path(m0.frames(), view_root(m0), n) ==> leaf_word(m1.frames(), view_root(m0), n)
            == leaf_word(m0.frames(), view_root(m0), n),
        walk(m1.frames(), view_root(m0), n) == walk(m0.frames(), view_root(m0), n),
{
    let root = view_root(m0);
    assert(word_of(m1.frames(), m0.active(), RECURSIVE_INDEX) == word_of(m0.frames(), m0.active(), RECURSIVE_INDEX));
    assert(word_of(m1.frames(), root, RECURSIVE_INDEX) == word_of(m0.frames(), root, RECURSIVE_INDEX));
}

/// Whether `x` is one of `keep`.
pub fn in_keep(keep: &[u64; 4], x: u64) -> (r: bool)
    ensures
        r == keep@.contains(x),
{
    let mut i: usize = 0;
    while i < 4
        invariant
            i <= 4,
            forall|k: int| 0 <= k < i ==> keep@[k] != x,
        decreases 4 - i,
    {
        if keep[i] == x {
            return true;
        }
        i += 1;
    }
    false
}

/// What `map_check` finds: `map_to` of page `n` may go ahead with an
/// allocator holding `pool` (`count` frames), and leaves the tables in
/// `keep` alone.
pub open spec fn map_allowed(mem: &Memory, n: u64, pool: Set<u64>, count: nat, keep: Seq<u64>) -> bool {
    let fr = mem.frames();
    let root = view_root(mem);
    &&& p4_of(n) != RECURSIVE_INDEX
    &&& no_huge_on_path(fr, root, n)
    &&& slot_free(fr, root, n)
    &&& missing_tables(fr, root, n) <= count
    &&& !pool.contains(root) && !pool.contains(mem.active()) && !keep.contains(root)
    &&& links(fr, root, p4_of(n)) ==> !pool.contains(p3_table(fr, root, n)) && !keep.contains(
        p3_table(fr, root, n),
    )
    &&& links(fr, root, p4_of(n)) && links(fr, p3_table(fr, root, n), p3_of(n)) ==> !pool.contains(
        p2_table(fr, root, n),
    ) && !keep.contains(p2_table(fr, root, n))
    &&& full_path(fr, root, n) ==> !keep.contains(p1_table(fr, root, n)) && !pool.contains(
        p1_table(fr, root, n),
    )
}

/// Page `n`'s walk only reads its four tables.
pub proof fn lemma_walk_tables_same(fr0: Frames, fr1: Frames, root: u64, n: u64)
    requires
        full_path(fr0, root, n),
        table_of(fr1, root) == table_of(fr0, root),
        table_of(fr1, p3_table(fr0, root, n)) == table_of(fr0, p3_table(fr0, root, n)),
        table_of(fr1, p2_table(fr0, root, n)) == table_of(fr0, p2_table(fr0, root, n)),
        table_of(fr1, p1_table(fr0, root, n)) == table_of(fr0, p1_table(fr0, root, n)),
    ensures
        full_path(fr1, root, n),
        leaf_word(fr1, root, n) == leaf_word(fr0, root, n),
        p3_table(fr1, root, n) == p3_table(fr0, root, n),
        p2_table(fr1, root, n) == p2_table(fr0, root, n),
        p1_table(fr1, root, n) == p1_table(fr0, root, n),
{
}

/// Number of the frame the `k`-th next allocation of `a` hands out.
pub open spec fn peek_number<A: FrameAllocator>(a: A, k: nat) -> u64 {
    a.peek_at(k)->Some_0.number
}

/// The tables of page `n`'s walk once `map_to` has made the missing ones,
/// in the order `a` hands out frames: P4, P3, P2, P1.
pub open spec fn new_tables<A: FrameAllocator>(fr: Frames, root: u64, n: u64, a: A) -> Seq<u64> {
    let m = missing_tables(fr, root, n);
    seq![
        root,
        if m < 3 { p3_table(fr, root, n) } else { peek_number(a, 0) },
        if m < 2 { p2_table(fr, root, n) } else { peek_number(a, (m - 2) as nat) },
        if m < 1 { p1_table(fr, root, n) } else { peek_number(a, (m - 1) as nat) },
    ]
}

/// The P1 slot of page `n` is not one of the recursive slots.
pub open spec fn leaf_not_recursive(mem: &Memory, n: u64) -> bool {
    let d = p1_table(mem.frames(), view_root(mem), n);
    p1_of(n) == RECURSIVE_INDEX ==> d != mem.active() && d != view_root(mem)
}

/// `after` is `before` with the P1 entry of page `n` cleared, and nothing
/// else changed.
pub open spec fn unmapped(before: &Memory, after: &Memory, n: u64) -> bool {
    let fr = before.frames();
    let root = view_root(before);
    let d = p1_table(fr, root, n);
    &&& recursive_ok(after)
    &&& view_root(after) == root
    &&& after.active() == before.active()
    &&& after.frames() == fr.insert(d, table_of(fr, d).update(p1_of(n) as int, Entry(0)))
    &&& walk(after.frames(), root, n) is None
}

/// Clearing the P1 entry of a page with a full path leaves it untranslated.
proof fn lemma_unmapped_walk(fr0: Frames, fr1: Frames, root: u64, n: u64)
    requires
        full_path(fr0, root, n),
        word_of(fr1, p1_table(fr0, root, n), p1_of(n)) == 0,
        forall|t: u64, i: u64|
            t != p1_table(fr0, root, n) ==> #[trigger] word_of(fr1, t, i) == word_of(fr0, t, i),
        forall|i: u64|
            i < 512 && i != p1_of(n) ==> #[trigger] word_of(fr1, p1_table(fr0, root, n), i) == word_of(
                fr0,
                p1_table(fr0, root, n),
                i,
            ),
    ensures
        walk(fr1, root, n) is None,
{
    lemma_word_zero();
    let d = p1_table(fr0, root, n);
    assert(p4_of(n) < 512 && p3_of(n) < 512 && p2_of(n) < 512 && p1_of(n) < 512) by (bit_vector);
    if root == d {
        assert(p4_of(n) != p1_of(n) || word_of(fr1, d, p1_of(n)) == 0);
    }
}

/// A translation is a frame number below 2^41.
pub proof fn lemma_walk_bound(frames: Frames, root: u64, n: u64)
    ensures
        walk(frames, root, n) matches Some(x) ==> x < 0x200_0000_0000,
{
    lemma_target_bound(word_of(frames, p3_table(frames, root, n), p3_of(n)));
    lemma_target_bound(word_of(frames, p2_table(frames, root, n), p2_of(n)));
    lemma_target_bound(word_of(frames, p1_table(frames, root, n), p1_of(n)));
    assert(p2_of(n) < 512 && p1_of(n) < 512) by (bit_vector);
}

/// An unused word is neither present nor huge.
proof fn lemma_word_zero()
    ensures
        !word_present(0),
        !word_huge(0),
{
    assert(!word_present(0) && !word_huge(0)) by (bit_vector);
}

/// The tables the recursive paths of page `n` reach.
proof fn lemma_descend_steps(frames: Frames, root: u64, n: u64)
    ensures
        crate::table::descend(frames, root, seq![p4_of(n)]) == p3_table(frames, root, n),
        crate::table::descend(frames, root, seq![p4_of(n), p3_of(n)]) == p2_table(frames, root, n),
        crate::table::descend(frames, root, seq![p4_of(n), p3_of(n), p2_of(n)]) == p1_table(
            frames,
            root,
            n,
        ),
{
    let s1 = seq![p4_of(n)];
    let s2 = seq![p4_of(n), p3_of(n)];
    let s3 = seq![p4_of(n), p3_of(n), p2_of(n)];
    assert(s1.drop_last() =~= Seq::<u64>::empty());
    assert(s2.drop_last() =~= s1);
    assert(s3.drop_last() =~= s2);
    assert(crate::table::descend(frames, root, Seq::<u64>::empty()) == root);
    assert(crate::table::descend(frames, root, s1) == p3_table(frames, root, n));
    assert(s2.last() == p3_of(n));
    assert(crate::table::descend(frames, root, s2) == p2_table(frames, root, n));
    assert(s3.last() == p2_of(n));
}

/// Owns the page tables, reached through the recursive slot of the active
/// P4 table.
pub struct Mapper {
    pub mem: Memory,
}

impl Mapper {
    pub open spec fn wf(&self) -> bool {
        recursive_ok(&self.mem)
    }

    pub open spec fn frames(&self) -> Frames {
        self.mem.frames()
    }

    /// Frame of the P4 table that the mapper edits.
    pub open spec fn root(&self) -> u64 {
        view_root(&self.mem)
    }

    /// Frame that page `n` translates to.
    pub open spec fn translation(&self, n: u64) -> Option<u64> {
        walk(self.frames(), self.root(), n)
    }

    /// Physical address that virtual address `va` translates to.
    pub open spec fn translated(&self, va: u64) -> Option<u64> {
        match self.translation(va / PAGE_SIZE) {
            Some(n) => Some((n * FRAME_SIZE + va % PAGE_SIZE) as u64),
            None => None,
        }
    }

    pub fn new(mem: Memory) -> (r: Mapper)
        ensures
            r.mem == mem,
    {
        Mapper { mem }
    }

    /// The frame that `page` is mapped to.
    pub fn translate_page(&self, page: Page) -> (r: Option<Frame>)
        requires
            self.wf(),
            huge_aligned(self.frames(), self.root(), page.number),
        ensures
            r == match self.translation(page.number) {
                Some(n) => Some(Frame { number: n }),
                None => None,
            },
    {
        let ghost fr = self.frames();
        let ghost n = page.number;
        let ghost root = self.root();
        let p4 = Table::<Level4>::p4(&self.mem);
        let p3 = match p4.next_table(&self.mem, page.p4_index()) {
            Some(t) => t,
            None => return None,
        };
        let p3_entry = p3.entry(&self.mem, page.p3_index());
        proof {
            lemma_flag_tests(p3_entry.0);
            lemma_target_bound(p3_entry.0);
            assert(p3.frame(&self.mem) == p3_table(fr, root, n));
        }
        if let Some(start_frame) = p3_entry.frame() {
            if p3_entry.flags().contains(EntryFlags::from_bits_truncate(HUGE_PAGE)) {
                // a 1 GiB page: its frame is aligned to 512 * 512 frames
                return Some(
                    Frame {
                        number: start_frame.number + (page.p2_index() as u64) * 512
                            + page.p1_index() as u64,
                    },
                );
            }
        }
        let p2 = match p3.next_table(&self.mem, page.p3_index()) {
            Some(t) => t,
            None => return None,
        };
        let p2_entry = p2.entry(&self.mem, page.p2_index());
        proof {
            lemma_flag_tests(p2_entry.0);
            lemma_target_bound(p2_entry.0);
            assert(p2.frame(&self.mem) == p2_table(fr, root, n));
        }
        if let Some(start_frame) = p2_entry.frame() {
            if p2_entry.flags().contains(EntryFlags::from_bits_truncate(HUGE_PAGE)) {
                // a 2 MiB page: its frame is aligned to 512 frames
                return Some(Frame { number: start_frame.number + page.p1_index() as u64 });
            }
        }
        let p1 = match p2.next_table(&self.mem, page.p2_index()) {
            Some(t) => t,
            None => return None,
        };
        proof {
            assert(p1.frame(&self.mem) == p1_table(fr, root, n));
        }
        p1.entry(&self.mem, page.p1_index()).frame()
    }

    /// The physical address that `virtual_address` translates to.
    pub fn translate(&self, virtual_address: u64) -> (r: Option<u64>)
        requires
            self.wf(),
            canonical(virtual_address),
            huge_aligned(self.frames(), self.root(), virtual_address / PAGE_SIZE),
        ensures
            r == self.translated(virtual_address),
    {
        let offset = virtual_address % PAGE_SIZE;
        let page = Page::containing_address(virtual_address);
        proof {
            lemma_walk_bound(self.frames(), self.root(), page.number);
        }
        match self.translate_page(page) {
            Some(frame) => Some(frame.number * FRAME_SIZE + offset),
            None => None,
        }
    }

    /// Maps `page` to `frame` with `flags` (and present), making the
    /// missing tables from `allocator`.
    pub fn map_to<A: FrameAllocator>(
        &mut self,
        page: Page,
        frame: Frame,
        flags: EntryFlags,
        allocator: &mut A,
    )
        requires
            old(self).wf(),
            p4_of(page.number) != RECURSIVE_INDEX,
            frame.number < FRAME_NUMBER_LIMIT,
            flags@ & HUGE_PAGE == 0,
            no_huge_on_path(old(self).frames(), old(self).root(), page.number),
            slot_free(old(self).frames(), old(self).root(), page.number),
            old(allocator).wf(),
            missing_tables(old(self).frames(), old(self).root(), page.number) <= old(
                allocator,
            ).remaining(),
            forall|x: u64| #[trigger]
                old(allocator).frames().contains(x) ==> fresh_for_page(
                    &old(self).mem,
                    page.number,
                    x,
                ),
        ensures
            mapped(&old(self).mem, &final(self).mem, page.number, frame.number, flags@),
            tables_from(
                &old(self).mem,
                &final(self).mem,
                page.number,
                old(allocator).frames().difference(final(allocator).frames()),
            ),
            keeps_present(
                old(self).frames(),
                final(self).frames(),
                old(allocator).frames().difference(final(allocator).frames()),
            ),
            writes_only_path(
                old(self).frames(),
                final(self).frames(),
                old(self).root(),
                page.number,
                old(allocator).frames().difference(final(allocator).frames()),
            ),
            new_tables_distinct(
                final(self).frames(),
                old(self).root(),
                page.number,
                old(allocator).frames().difference(final(allocator).frames()),
            ),
            final(allocator).wf(),
            final(allocator).frames().subset_of(old(allocator).frames()),
            final(allocator).remaining() + missing_tables(
                old(self).frames(),
                old(self).root(),
                page.number,
            ) == old(allocator).remaining(),
            final(self).mem.flushes() == old(self).mem.flushes(),
            missing_tables(old(self).frames(), old(self).root(), page.number) == 0 ==> *final(allocator)
                == *old(allocator),
            seq![
                old(self).root(),
                p3_table(final(self).frames(), old(self).root(), page.number),
                p2_table(final(self).frames(), old(self).root(), page.number),
                p1_table(final(self).frames(), old(self).root(), page.number),
            ] == new_tables(old(self).frames(), old(self).root(), page.number, *old(allocator)),
    {
        let ghost n = page.number;
        let ghost m0 = self.mem;
        let ghost root = self.root();
        let ghost a0 = *allocator;
        let p4 = Table::<Level4>::p4(&self.mem);
        let p3 = p4.next_table_create(&mut self.mem, page.p4_index(), allocator);
        let ghost m1 = self.mem;
        let ghost a1 = *allocator;
        proof {
            lemma_descend_steps(m1.frames(), root, n);
            lemma_word_zero();
            assert(p3.steps() =~= seq![p4_of(n)]);
            assert forall|x: u64| #[trigger] a1.frames().contains(x) implies crate::table::fresh_frame(
                &m1,
                p3.steps(),
                x,
            ) by {
                assert(a0.frames().contains(x));
                assert(fresh_for_page(&m0, n, x));
                assert(p3.steps().subrange(0, 0) =~= Seq::<u64>::empty());
                assert(p3.steps().subrange(0, 1) =~= p3.steps());
            }
        }
        let p2 = p3.next_table_create(&mut self.mem, page.p3_index(), allocator);
        let ghost m2 = self.mem;
        let ghost a2 = *allocator;
        proof {
            lemma_descend_steps(m2.frames(), root, n);
            assert(p2.steps() =~= seq![p4_of(n), p3_of(n)]);
            assert forall|x: u64| #[trigger] a2.frames().contains(x) implies crate::table::fresh_frame(
                &m2,
                p2.steps(),
                x,
            ) by {
                assert(a1.frames().contains(x));
                assert(a0.frames().contains(x));
                assert(fresh_for_page(&m0, n, x));
                assert(p2.steps().subrange(0, 0) =~= Seq::<u64>::empty());
                assert(p2.steps().subrange(0, 1) =~= p3.steps());
                assert(p2.steps().subrange(0, 2) =~= p2.steps());
            }
        }
        let p1 = p2.next_table_create(&mut self.mem, page.p2_index(), allocator);
        let ghost m3 = self.mem;
        proof {
            lemma_descend_steps(m3.frames(), root, n);
            assert(p1.steps() =~= seq![p4_of(n), p3_of(n), p2_of(n)]);
        }
        let mut e = p1.entry(&self.mem, page.p1_index());
        let all = flags.union(EntryFlags::from_bits_truncate(PRESENT));
        e.set(frame, all);
        p1.set_entry(&mut self.mem, page.p1_index(), e);
        proof {
            let m4 = self.mem;
            Entry::lemma_set(frame.number, all);
            assert(PRESENT & 0x8000_0000_0000_03ff == PRESENT) by (bit_vector);
            let fl = flags@;
            assert((fl | PRESENT) & PRESENT == PRESENT) by (bit_vector);
            crate::table::lemma_write_keeps_path(&m3, &m4, p1.steps(), p1.frame(&m3), p1_of(n), e);
            lemma_descend_steps(m4.frames(), root, n);
            assert(p1.steps().subrange(0, 3) =~= p1.steps());
            let fr = m4.frames();
            assert(recursive_ok(&m4));
            assert(view_root(&m4) == root);
            let s3 = p1.steps();
            let s2 = s3.drop_last();
            let s1 = s2.drop_last();
            assert(s2 =~= seq![p4_of(n), p3_of(n)]);
            assert(s1 =~= seq![p4_of(n)]);
            assert(s1.drop_last() =~= Seq::<u64>::empty());
            assert(crate::table::path_links(fr, root, s3));
            assert(crate::table::path_links(fr, root, s2));
            assert(crate::table::path_links(fr, root, s1));
            assert(crate::table::descend(fr, root, Seq::<u64>::empty()) == root);
            assert(full_path(fr, root, n));
            assert(leaf_word(fr, root, n) == encode(frame.number, flags@ | PRESENT));
            assert(walk(fr, root, n) == Some(frame.number));
        }
    }

    /// Maps `page` to a fresh frame from `allocator`.
    pub fn map<A: FrameAllocator>(&mut self, page: Page, flags: EntryFlags, allocator: &mut A)
        requires
            old(self).wf(),
            p4_of(page.number) != RECURSIVE_INDEX,
            flags@ & HUGE_PAGE == 0,
            no_huge_on_path(old(self).frames(), old(self).root(), page.number),
            slot_free(old(self).frames(), old(self).root(), page.number),
            old(allocator).wf(),
            missing_tables(old(self).frames(), old(self).root(), page.number) + 1 <= old(
                allocator,
            ).remaining(),
            forall|x: u64| #[trigger]
                old(allocator).frames().contains(x) ==> fresh_for_page(
                    &old(self).mem,
                    page.number,
                    x,
                ),
        ensures
            final(self).translation(page.number) matches Some(f) && old(allocator).frames().contains(f)
                && !final(allocator).frames().contains(f) && mapped(
                &old(self).mem,
                &final(self).mem,
                page.number,
                f,
                flags@,
            ),
            final(allocator).wf(),
            final(allocator).frames().subset_of(old(allocator).frames()),
            final(self).mem.flushes() == old(self).mem.flushes(),
    {
        let frame = allocator.allocate().unwrap();
        proof {
            assert(fresh_for_page(&self.mem, page.number, frame.number));
        }
        self.map_to(page, frame, flags, allocator);
    }

    /// Maps the page with the same number as `frame` to `frame`.
    pub fn identity_map<A: FrameAllocator>(
        &mut self,
        frame: Frame,
        flags: EntryFlags,
        allocator: &mut A,
    )
        requires
            old(self).wf(),
            frame.number < 0x8_0000_0000,
            flags@ & HUGE_PAGE == 0,
            no_huge_on_path(old(self).frames(), old(self).root(), frame.number),
            slot_free(old(self).frames(), old(self).root(), frame.number),
            old(allocator).wf(),
            missing_tables(old(self).frames(), old(self).root(), frame.number) <= old(
                allocator,
            ).remaining(),
            forall|x: u64| #[trigger]
                old(allocator).frames().contains(x) ==> fresh_for_page(
                    &old(self).mem,
                    frame.number,
                    x,
                ),
        ensures
            mapped(&old(self).mem, &final(self).mem, frame.number, frame.number, flags@),
            tables_from(
                &old(self).mem,
                &final(self).mem,
                frame.number,
                old(allocator).frames().difference(final(allocator).frames()),
            ),
            keeps_present(
                old(self).frames(),
                final(self).frames(),
                old(allocator).frames().difference(final(allocator).frames()),
            ),
            writes_only_path(
                old(self).frames(),
                final(self).frames(),
                old(self).root(),
                frame.number,
                old(allocator).frames().difference(final(allocator).frames()),
            ),
            new_tables_distinct(
                final(self).frames(),
                old(self).root(),
                frame.number,
                old(allocator).frames().difference(final(allocator).frames()),
            ),
            final(allocator).wf(),
            final(allocator).frames().subset_of(old(allocator).frames()),
            final(allocator).remaining() + missing_tables(
                old(self).frames(),
                old(self).root(),
                frame.number,
            ) == old(allocator).remaining(),
            final(self).mem.flushes() == old(self).mem.flushes(),
    {
        let address = frame.start_address();
        proof {
            let k = frame.number;
            assert(k < 0x8_0000_0000 ==> k * 4096 < 0x0000_8000_0000_0000 && (k * 4096) / 4096 == k)
                by (nonlinear_arith);
            assert(k < 0x8_0000_0000 ==> p4_of(k) != 511) by (bit_vector);
        }
        let page = Page::containing_address(address);
        self.map_to(page, frame, flags, allocator);
    }

    /// Removes the mapping of `page` and hands its frame to `allocator`.
    /// Tables that become empty are kept.
    pub fn unmap<A: FrameAllocator>(&mut self, page: Page, allocator: &mut A)
        requires
            old(self).wf(),
            page.wf(),
            full_path(old(self).frames(), old(self).root(), page.number),
            word_present(leaf_word(old(self).frames(), old(self).root(), page.number)),
            leaf_not_recursive(&old(self).mem, page.number),
            old(allocator).wf(),
            old(allocator).can_free(
                Frame {
                    number: word_target(
                        leaf_word(old(self).frames(), old(self).root(), page.number),
                    ),
                },
            ),
        ensures
            unmapped(&old(self).mem, &final(self).mem, page.number),
            final(allocator).wf(),
            ({
                let f = word_target(leaf_word(old(self).frames(), old(self).root(), page.number));
                &&& A::reuses_freed() ==> final(allocator).frames() == old(allocator).frames().insert(f)
                    && final(allocator).remaining() == old(allocator).remaining() + 1
                &&& !A::reuses_freed() ==> final(allocator).frames() == old(allocator).frames()
            }),
            final(self).mem.flushes() == old(self).mem.flushes().push(
                TlbFlush::Page((page.number * PAGE_SIZE) as u64),
            ),
            final(self).mem.ops() == old(self).mem.ops().push(
                MachineOp::Write(
                    TableWrite::Word {
                        frame: p1_table(old(self).frames(), old(self).root(), page.number),
                        index: p1_of(page.number) as usize,
                        word: 0,
                    },
                ),
            ).push(MachineOp::Flush(TlbFlush::Page((page.number * PAGE_SIZE) as u64))),
    {
        let ghost n = page.number;
        let ghost m0 = self.mem;
        let ghost root = self.root();
        let p4 = Table::<Level4>::p4(&self.mem);
        proof {
            lemma_descend_steps(m0.frames(), root, n);
            assert(Seq::<u64>::empty().push(p4_of(n)) =~= seq![p4_of(n)]);
            assert(seq![p4_of(n)].push(p3_of(n)) =~= seq![p4_of(n), p3_of(n)]);
        }
        let p3 = p4.next_table(&self.mem, page.p4_index()).unwrap();
        let p2 = p3.next_table(&self.mem, page.p3_index()).unwrap();
        let p1 = p2.next_table(&self.mem, page.p2_index()).unwrap();
        proof {
            assert(p1.steps() =~= seq![p4_of(n), p3_of(n), p2_of(n)]);
        }
        let mut entry = p1.entry(&self.mem, page.p1_index());
        let frame = entry.frame().unwrap();
        entry.set_unused();
        p1.set_entry(&mut self.mem, page.p1_index(), entry);
        // the page's cached translation is stale now
        self.mem.flush(page.start_address());
        proof {
            let m1 = self.mem;
            let fr0 = m0.frames();
            let fr1 = m1.frames();
            let d = p1_table(fr0, root, n);
            m0.lemma_table_len(d);
            assert(word_of(fr1, m0.active(), RECURSIVE_INDEX) == word_of(fr0, m0.active(), RECURSIVE_INDEX));
            assert(word_of(fr1, root, RECURSIVE_INDEX) == word_of(fr0, root, RECURSIVE_INDEX));
            assert(recursive_ok(&m1));
            lemma_word_zero();
            assert(p1_of(n) < 512) by (bit_vector);
            assert(word_of(fr1, d, p1_of(n)) == 0);
            assert(fr1 == fr0.insert(d, table_of(fr0, d).update(p1_of(n) as int, Entry(0))));
            lemma_unmapped_walk(fr0, fr1, root, n);
        }
        allocator.free(frame);
    }

    /// How many tables mapping `page` would have to make.
    pub fn tables_missing(&self, page: Page) -> (r: u64)
        requires
            self.wf(),
        ensures
            r == missing_tables(self.frames(), self.root(), page.number),
    {
        let ghost fr = self.frames();
        let ghost root = self.root();
        let ghost n = page.number;
        proof {
            lemma_descend_steps(fr, root, n);
            assert(seq![p4_of(n)].push(p3_of(n)) =~= seq![p4_of(n), p3_of(n)]);
        }
        let p4 = Table::<Level4>::p4(&self.mem);
        match p4.next_table(&self.mem, page.p4_index()) {
            None => 3,
            Some(p3) => match p3.next_table(&self.mem, page.p3_index()) {
                None => 2,
                Some(p2) => match p2.next_table(&self.mem, page.p2_index()) {
                    None => 1,
                    Some(_) => 0,
                },
            },
        }
    }

    /// Whether every huge entry the walk of `page` meets is aligned to its
    /// size, as `translate_page` needs.
    pub fn huge_entries_aligned(&self, page: Page) -> (r: bool)
        requires
            self.wf(),
        ensures
            r == huge_aligned(self.frames(), self.root(), page.number),
    {
        let ghost fr = self.frames();
        let ghost root = self.root();
        let ghost n = page.number;
        proof {
            lemma_descend_steps(fr, root, n);
        }
        let huge = EntryFlags::from_bits_truncate(HUGE_PAGE);
        let p4 = Table::<Level4>::p4(&self.mem);
        let p3 = match p4.next_table(&self.mem, page.p4_index()) {
            Some(t) => t,
            None => return true,
        };
        let e3 = p3.entry(&self.mem, page.p3_index());
        proof {
            lemma_flag_tests(e3.0);
        }
        if let Some(f) = e3.frame() {
            if e3.flags().contains(huge) {
                return f.number % 262144 == 0;
            }
        } else {
            return true;
        }
        let p2 = p3.next_table(&self.mem, page.p3_index()).unwrap();
        let e2 = p2.entry(&self.mem, page.p2_index());
        proof {
            lemma_flag_tests(e2.0);
            assert(seq![p4_of(n)].push(p3_of(n)) =~= seq![p4_of(n), p3_of(n)]);
        }
        match e2.frame() {
            Some(f) => !e2.flags().contains(huge) || f.number % 512 == 0,
            None => true,
        }
    }

    /// Whether `map_to` of `page` from `allocator` can go ahead: no huge
    /// entry on the way, a free P1 slot, enough frames for the missing
    /// tables, none of the page's tables among the allocator's frames, and
    /// none of them in `keep`.
    pub fn map_check<A: FrameAllocator>(&self, page: Page, allocator: &A, keep: &[u64; 4]) -> (r:
        bool)
        requires
            self.wf(),
            allocator.wf(),
        ensures
            r == map_allowed(&self.mem, page.number, allocator.frames(), allocator.remaining(), keep@),
    {
        let ghost fr = self.frames();
        let ghost root = self.root();
        let ghost n = page.number;
        let i4 = page.p4_index();
        let i3 = page.p3_index();
        let i2 = page.p2_index();
        let i1 = page.p1_index();
        if i4 == 511 {
            return false;
        }
        let huge = EntryFlags::from_bits_truncate(HUGE_PAGE);
        let p4 = Table::<Level4>::p4(&self.mem);
        let root_frame = p4.entry(&self.mem, 511).frame().unwrap().number;
        let active = self.mem.cr3().number;
        if in_keep(keep, root_frame) || allocator.holds(root_frame) || allocator.holds(active) {
            return false;
        }
        let e4 = p4.entry(&self.mem, i4);
        proof {
            lemma_flag_tests(e4.0);
        }
        if e4.flags().contains(huge) {
            return false;
        }
        let mut missing: u64 = 3;
        if let Some(p3) = p4.next_table(&self.mem, i4) {
            let b = e4.frame().unwrap().number;
            if in_keep(keep, b) || allocator.holds(b) {
                return false;
            }
            missing = 2;
            let e3 = p3.entry(&self.mem, i3);
            proof {
                lemma_flag_tests(e3.0);
                lemma_descend_steps(fr, root, n);
            }
            if e3.flags().contains(huge) {
                return false;
            }
            if let Some(p2) = p3.next_table(&self.mem, i3) {
                let c = e3.frame().unwrap().number;
                if in_keep(keep, c) || allocator.holds(c) {
                    return false;
                }
                missing = 1;
                let e2 = p2.entry(&self.mem, i2);
                proof {
                    lemma_flag_tests(e2.0);
                    assert(seq![p4_of(n)].push(p3_of(n)) =~= seq![p4_of(n), p3_of(n)]);
                }
                if e2.flags().contains(huge) {
                    return false;
                }
                if let Some(p1) = p2.next_table(&self.mem, i2) {
                    let d = e2.frame().unwrap().number;
                    if in_keep(keep, d) || allocator.holds(d) {
                        return false;
                    }
                    missing = 0;
                    proof {
                        assert(seq![p4_of(n), p3_of(n)].push(p2_of(n)) =~= seq![p4_of(n), p3_of(n), p2_of(n)]);
                    }
                    if !p1.entry(&self.mem, i1).is_unused() {
                        return false;
                    }
                }
            }
        }
        missing <= allocator.available()
    }

    /// Frames of the P4, P3, P2 and P1 tables on the walk of `page`.
    pub fn page_tables(&self, page: Page) -> (r: [u64; 4])
        requires
            self.wf(),
            full_path(self.frames(), self.root(), page.number),
        ensures
            r@ == seq![
                self.root(),
                p3_table(self.frames(), self.root(), page.number),
                p2_table(self.frames(), self.root(), page.number),
                p1_table(self.frames(), self.root(), page.number),
            ],
    {
        let ghost n = page.number;
        let ghost fr = self.frames();
        let ghost root = self.root();
        proof {
            lemma_descend_steps(fr, root, n);
            assert(seq![p4_of(n)].push(p3_of(n)) =~= seq![p4_of(n), p3_of(n)]);
        }
        let p4 = Table::<Level4>::p4(&self.mem);
        let t4 = p4.entry(&self.mem, 511).frame().unwrap().number;
        let e4 = p4.entry(&self.mem, page.p4_index());
        let t3 = e4.frame().unwrap().number;
        let p3 = p4.next_table(&self.mem, page.p4_index()).unwrap();
        let e3 = p3.entry(&self.mem, page.p3_index());
        let t2 = e3.frame().unwrap().number;
        let p2 = p3.next_table(&self.mem, page.p3_index()).unwrap();
        let e2 = p2.entry(&self.mem, page.p2_index());
        let t1 = e2.frame().unwrap().number;
        let r = [t4, t3, t2, t1];
        assert(r@ =~= seq![t4, t3, t2, t1]);
        r
    }
}

/// In a P4 table that holds nothing but its recursive slot, no page
/// outside the recursive slot's reach is mapped.
pub proof fn lemma_fresh_table_maps_nothing(fr: Frames, root: u64, n: u64)
    requires
        table_of(fr, root) == zero_table().update(
            RECURSIVE_INDEX as int,
            Entry(encode(root, PRESENT | WRITABLE)),
        ),
        p4_of(n) != RECURSIVE_INDEX,
    ensures
        walk(fr, root, n) is None,
{
    lemma_word_zero();
    assert(p4_of(n) < 512) by (bit_vector);
}

/// After `map_to(page, frame, flags)` the page translates to `frame`, and
/// its entry holds `frame` with exactly `flags`, present, and the used
/// marker.
pub proof fn lemma_map_to_entry(before: &Memory, after: &Memory, n: u64, f: u64, fl: EntryFlags)
    requires
        mapped(before, after, n, f, fl@),
        f < FRAME_NUMBER_LIMIT,
    ensures
        walk(after.frames(), view_root(after), n) == Some(f),
        word_target(leaf_word(after.frames(), view_root(after), n)) == f,
        leaf_word(after.frames(), view_root(after), n) & crate::entry::ALL_FLAGS == fl@ | PRESENT
            | crate::entry::USED,
{
    fl.lemma_recognized();
    let x = fl@;
    assert(x & !crate::entry::ALL_FLAGS == 0 ==> (x | PRESENT) & !crate::entry::ALL_FLAGS == 0)
        by (bit_vector);
    let y = fl@ | PRESENT;
    assert(y & !crate::entry::ALL_FLAGS == 0 ==> y & crate::entry::ALL_FLAGS == y) by (bit_vector);
    EntryFlags::lemma_spec_from(y);
    Entry::lemma_set(f, EntryFlags::spec_from(y));
}

/// Unmapping a page right after mapping it to `f` leaves it untranslated
/// and hands `f` back: `unmap` is a left inverse of `map_to`.
pub proof fn lemma_unmap_after_map(m0: &Memory, m1: &Memory, m2: &Memory, n: u64, f: u64, fl: EntryFlags)
    requires
        mapped(m0, m1, n, f, fl@),
        unmapped(m1, m2, n),
        f < FRAME_NUMBER_LIMIT,
    ensures
        walk(m2.frames(), view_root(m2), n) is None,
        word_target(leaf_word(m1.frames(), view_root(m1), n)) == f,
{
    lemma_map_to_entry(m0, m1, n, f, fl);
}

/// A page that translates to the frame of the same number is identity
/// mapped: its start address translates to itself.
pub proof fn lemma_identity_translation(m: &Mapper, n: u64)
    requires
        m.translation(n) == Some(n),
        n < 0x8_0000_0000,
    ensures
        m.translated((n * PAGE_SIZE) as u64) == Some((n * PAGE_SIZE) as u64),
{
    assert(n < 0x8_0000_0000 ==> (n * 4096) as u64 / 4096 == n && (n * 4096) as u64 % 4096 == 0 && (n
        * 4096) as u64 == n * 4096) by (nonlinear_arith);
}

/// A present huge P3 entry whose frame `s` is aligned to 1 GiB maps every
/// page of its window to `s + p2 * 512 + p1`; a misaligned one maps
/// nothing, and `translate_page` does not accept it.
pub proof fn lemma_huge_p3_translation(fr: Frames, root: u64, n: u64)
    requires
        links(fr, root, p4_of(n)),
        word_present(word_of(fr, p3_table(fr, root, n), p3_of(n))),
        word_huge(word_of(fr, p3_table(fr, root, n), p3_of(n))),
    ensures
        ({
            let s = word_target(word_of(fr, p3_table(fr, root, n), p3_of(n)));
            &&& s % 262144 == 0 ==> walk(fr, root, n) == Some((s + p2_of(n) * 512 + p1_of(n)) as u64)
            &&& s % 262144 != 0 ==> walk(fr, root, n) is None && !huge_aligned(fr, root, n)
        }),
{
}

} // verus!
