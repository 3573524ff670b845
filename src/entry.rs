//! One 64-bit page-table entry and its flags.
use crate::frame::Frame;
use vstd::prelude::*;

verus! {

pub const PRESENT: u64 = 1 << 0;
pub const WRITABLE: u64 = 1 << 1;
pub const USER_ACCESSIBLE: u64 = 1 << 2;
pub const WRITE_THROUGH: u64 = 1 << 3;
pub const NO_CACHE: u64 = 1 << 4;
pub const ACCESSED: u64 = 1 << 5;
pub const DIRTY: u64 = 1 << 6;
pub const HUGE_PAGE: u64 = 1 << 7;
pub const GLOBAL: u64 = 1 << 8;
/// No meaning for the CPU: set in every used entry, so that an all-zero
/// word means "unused" even when no functional flag is set.
pub const USED: u64 = 1 << 9;
pub const NO_EXECUTE: u64 = 1 << 63;

/// Every recognized flag bit.
pub const ALL_FLAGS: u64 = 0x8000_0000_0000_03ff;
/// Bits 12 to 51: the physical address of the target frame.
pub const ADDRESS_MASK: u64 = 0x000f_ffff_ffff_f000;
/// Frames below this number have a start address that fits in 52 bits.
pub const FRAME_NUMBER_LIMIT: u64 = 0x100_0000_0000;

pub open spec fn word_present(w: u64) -> bool {
    w & PRESENT == PRESENT
}

pub open spec fn word_huge(w: u64) -> bool {
    w & HUGE_PAGE == HUGE_PAGE
}

/// Number of the frame whose address an entry word holds.
pub open spec fn word_target(w: u64) -> u64 {
    ((w & ADDRESS_MASK) / 4096) as u64
}

/// The word that `Entry::set` writes for frame `n` and flag bits `f`.
pub open spec fn encode(n: u64, f: u64) -> u64 {
    ((n * 4096) as u64) | (f | USED)
}

proof fn lemma_encode(n: u64, f: u64)
    requires
        n < FRAME_NUMBER_LIMIT,
        f & !ALL_FLAGS == 0,
    ensures
        word_target(encode(n, f)) == n,
        encode(n, f) & ALL_FLAGS == f | USED,
        word_present(encode(n, f)) == (f & PRESENT == PRESENT),
        word_huge(encode(n, f)) == (f & HUGE_PAGE == HUGE_PAGE),
        encode(n, f) != 0,
{
    assert(word_target(encode(n, f)) == n && encode(n, f) & ALL_FLAGS == f | USED
        && word_present(encode(n, f)) == (f & PRESENT == PRESENT) && word_huge(encode(n, f)) == (f
        & HUGE_PAGE == HUGE_PAGE) && encode(n, f) != 0) by (bit_vector)
        requires
            n < FRAME_NUMBER_LIMIT,
            f & !ALL_FLAGS == 0,
    ;
}

/// Facts about the flags of a table link: present and writable, not huge.
pub proof fn lemma_present_writable()
    ensures
        (PRESENT | WRITABLE) & ALL_FLAGS == PRESENT | WRITABLE,
        (PRESENT | WRITABLE) & PRESENT == PRESENT,
        (PRESENT | WRITABLE) & HUGE_PAGE != HUGE_PAGE,
        WRITABLE | PRESENT == PRESENT | WRITABLE,
{
    assert((PRESENT | WRITABLE) & ALL_FLAGS == PRESENT | WRITABLE && (PRESENT | WRITABLE) & PRESENT
        == PRESENT && (PRESENT | WRITABLE) & HUGE_PAGE != HUGE_PAGE && WRITABLE | PRESENT == PRESENT
        | WRITABLE) by (bit_vector);
}

/// A set of entry flags; bits outside the recognized flags never show.
#[derive(Clone, Copy)]
pub struct EntryFlags {
    bits: u64,
}

impl View for EntryFlags {
    type V = u64;

    closed spec fn view(&self) -> u64 {
        self.bits & ALL_FLAGS
    }
}

impl EntryFlags {
    /// The flags among `bits`, in specifications.
    pub closed spec fn spec_from(bits: u64) -> EntryFlags {
        EntryFlags { bits }
    }

    pub proof fn lemma_spec_from(bits: u64)
        ensures
            EntryFlags::spec_from(bits)@ == bits & ALL_FLAGS,
    {
    }

    pub fn empty() -> (r: EntryFlags)
        ensures
            r@ == 0,
    {
        proof {
            assert(0u64 & ALL_FLAGS == 0) by (bit_vector);
        }
        EntryFlags { bits: 0 }
    }

    /// The flags among `bits`; unknown bits are dropped.
    pub fn from_bits_truncate(bits: u64) -> (r: EntryFlags)
        ensures
            r@ == bits & ALL_FLAGS,
    {
        proof {
            assert((bits & ALL_FLAGS) & ALL_FLAGS == bits & ALL_FLAGS) by (bit_vector);
        }
        EntryFlags { bits: bits & ALL_FLAGS }
    }

    pub fn bits(&self) -> (r: u64)
        ensures
            r == self@,
            r & !ALL_FLAGS == 0,
    {
        let b = self.bits & ALL_FLAGS;
        proof {
            let x = self.bits;
            assert((x & ALL_FLAGS) & !ALL_FLAGS == 0) by (bit_vector);
        }
        b
    }

    /// Whether every flag of `other` is set here.
    pub fn contains(&self, other: EntryFlags) -> (r: bool)
        ensures
            r == (self@ & other@ == other@),
    {
        self.bits() & other.bits() == other.bits()
    }

    /// The flags set in either operand.
    pub fn union(&self, other: EntryFlags) -> (r: EntryFlags)
        ensures
            r@ == self@ | other@,
    {
        let a = self.bits();
        let b = other.bits();
        proof {
            assert(a & !ALL_FLAGS == 0 && b & !ALL_FLAGS == 0 ==> (a | b) & ALL_FLAGS == a | b)
                by (bit_vector);
        }
        EntryFlags { bits: a | b }
    }

    pub proof fn lemma_recognized(self)
        ensures
            self@ & !ALL_FLAGS == 0,
    {
        let x = self.bits;
        assert((x & ALL_FLAGS) & !ALL_FLAGS == 0) by (bit_vector);
    }
}

/// One page-table entry: a frame address in bits 12 to 51 and flags in the
/// low twelve bits and bit 63. All zero means unused.
#[derive(Clone, Copy)]
pub struct Entry(pub u64);

impl Entry {
    /// The target frame, if the entry is present.
    pub fn frame(&self) -> (r: Option<Frame>)
        ensures
            r == (if word_present(self.0) {
                Some(Frame { number: word_target(self.0) })
            } else {
                None
            }),
    {
        if !self.flags().contains(EntryFlags::from_bits_truncate(PRESENT)) {
            proof {
                let w = self.0;
                assert(((w & ALL_FLAGS) & (PRESENT & ALL_FLAGS) == PRESENT & ALL_FLAGS) == (w
                    & PRESENT == PRESENT)) by (bit_vector);
            }
            return None;
        }
        proof {
            let w = self.0;
            assert(((w & ALL_FLAGS) & (PRESENT & ALL_FLAGS) == PRESENT & ALL_FLAGS) == (w & PRESENT
                == PRESENT)) by (bit_vector);
        }
        Some(Frame::containing_address(self.0 & ADDRESS_MASK))
    }

    /// Points the entry at `frame` with `flags`, plus the used marker.
    pub fn set(&mut self, frame: Frame, flags: EntryFlags)
        requires
            frame.number < FRAME_NUMBER_LIMIT,
        ensures
            final(self).0 == encode(frame.number, flags@),
    {
        let addr = frame.start_address();
        let f = flags.union(EntryFlags::from_bits_truncate(USED)).bits();
        proof {
            flags.lemma_recognized();
            let a = flags@;
            assert(USED & ALL_FLAGS == USED) by (bit_vector);
            assert(a & !ALL_FLAGS == 0 ==> (a | USED) | USED == a | USED) by (bit_vector);
        }
        self.0 = addr | f;
    }

    pub fn set_unused(&mut self)
        ensures
            final(self).0 == 0,
    {
        self.0 = 0;
    }

    pub fn is_unused(&self) -> (r: bool)
        ensures
            r == (self.0 == 0),
    {
        self.0 == 0
    }

    /// The recognized flag bits of the entry.
    pub fn flags(&self) -> (r: EntryFlags)
        ensures
            r@ == self.0 & ALL_FLAGS,
    {
        EntryFlags::from_bits_truncate(self.0)
    }

    pub proof fn lemma_set(n: u64, f: EntryFlags)
        requires
            n < FRAME_NUMBER_LIMIT,
        ensures
            word_target(encode(n, f@)) == n,
            encode(n, f@) & ALL_FLAGS == f@ | USED,
            word_present(encode(n, f@)) == (f@ & PRESENT == PRESENT),
            word_huge(encode(n, f@)) == (f@ & HUGE_PAGE == HUGE_PAGE),
            encode(n, f@) != 0,
    {
        f.lemma_recognized();
        lemma_encode(n, f@);
    }
}

} // verus!
