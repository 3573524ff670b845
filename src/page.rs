//! Virtual pages, their table indices, and the recursive-mapping addresses.
use vstd::prelude::*;

verus! {

/// Size in bytes of one virtual page; equal to the frame size.
pub const PAGE_SIZE: u64 = 4096;
/// Number of entries in one table.
pub const ENTRY_COUNT: u64 = 512;
/// The P4 slot that points back at the P4 table itself.
pub const RECURSIVE_INDEX: u64 = 511;
/// Virtual address of the active P4 table through the recursive slot.
pub const P4_ADDR: u64 = 0xffff_ffff_ffff_f000;
/// First address above the lower canonical half.
pub const LOWER_HALF_END: u64 = 0x0000_8000_0000_0000;
/// First address of the upper canonical half.
pub const UPPER_HALF_START: u64 = 0xffff_8000_0000_0000;

/// Whether `address` lies in one of the two canonical halves.
pub open spec fn canonical(address: u64) -> bool {
    address < LOWER_HALF_END || address >= UPPER_HALF_START
}

pub open spec fn p4_of(n: u64) -> u64 {
    (n >> 27u64) & 511
}

pub open spec fn p3_of(n: u64) -> u64 {
    (n >> 18u64) & 511
}

pub open spec fn p2_of(n: u64) -> u64 {
    (n >> 9u64) & 511
}

pub open spec fn p1_of(n: u64) -> u64 {
    n & 511
}

/// Address of the table that entry `index` of the table at `table_address`
/// points to, seen through the recursive slot: one more level of descent
/// shifts the alias by nine bits and puts `index` in the lowest index.
pub open spec fn next_table_addr(table_address: u64, index: u64) -> u64 {
    (table_address << 9u64) | (index << 12u64)
}

/// Descending one level moves each index up one level and puts `index` last.
pub proof fn lemma_next_table_addr(a: u64, i: u64)
    requires
        a & 0xfff == 0,
        i < 512,
    ensures
        ({
            let b = next_table_addr(a, i);
            &&& p4_of(b >> 12u64) == p3_of(a >> 12u64)
            &&& p3_of(b >> 12u64) == p2_of(a >> 12u64)
            &&& p2_of(b >> 12u64) == p1_of(a >> 12u64)
            &&& p1_of(b >> 12u64) == i
            &&& b & 0xfff == 0
        }),
{
    assert({
        let b = (a << 9u64) | (i << 12u64);
        &&& ((b >> 12u64) >> 27u64) & 511 == ((a >> 12u64) >> 18u64) & 511
        &&& ((b >> 12u64) >> 18u64) & 511 == ((a >> 12u64) >> 9u64) & 511
        &&& ((b >> 12u64) >> 9u64) & 511 == (a >> 12u64) & 511
        &&& (b >> 12u64) & 511 == i
        &&& b & 0xfff == 0
    }) by (bit_vector)
        requires
            a & 0xfff == 0,
            i < 512,
    ;
}

/// Every index of the recursive P4 address is the recursive slot.
pub proof fn lemma_p4_addr()
    ensures
        p4_of(P4_ADDR >> 12u64) == RECURSIVE_INDEX,
        p3_of(P4_ADDR >> 12u64) == RECURSIVE_INDEX,
        p2_of(P4_ADDR >> 12u64) == RECURSIVE_INDEX,
        p1_of(P4_ADDR >> 12u64) == RECURSIVE_INDEX,
        P4_ADDR & 0xfff == 0,
{
    assert(p4_of(P4_ADDR >> 12u64) == RECURSIVE_INDEX && p3_of(P4_ADDR >> 12u64)
        == RECURSIVE_INDEX && p2_of(P4_ADDR >> 12u64) == RECURSIVE_INDEX && p1_of(P4_ADDR >> 12u64)
        == RECURSIVE_INDEX && P4_ADDR & 0xfff == 0) by (bit_vector);
}

/// A virtual page, identified by its index.
#[derive(Debug, Clone, Copy, PartialEq, Eq, Structural)]
pub struct Page {
    pub number: u64,
}

impl Page {
    /// A page whose start address is canonical.
    pub open spec fn wf(self) -> bool {
        self.number < 0x10_0000_0000_0000 && canonical((self.number * 4096) as u64)
    }

    /// The page that holds `address`.
    pub fn containing_address(address: u64) -> (r: Page)
        requires
            canonical(address),
        ensures
            r.number == address / PAGE_SIZE,
            r.wf(),
    {
        let r = Page { number: address / PAGE_SIZE };
        proof {
            assert(canonical(address) ==> (address / 4096) < 0x10_0000_0000_0000 && canonical(
                ((address / 4096) * 4096) as u64,
            )) by (bit_vector);
        }
        r
    }

    pub fn p4_index(&self) -> (r: usize)
        ensures
            r == p4_of(self.number),
            r < 512,
    {
        let n = self.number;
        proof {
            assert((n >> 27u64) & 511 < 512) by (bit_vector);
        }
        ((n >> 27u64) & 0o777) as usize
    }

    pub fn p3_index(&self) -> (r: usize)
        ensures
            r == p3_of(self.number),
            r < 512,
    {
        let n = self.number;
        proof {
            assert((n >> 18u64) & 511 < 512) by (bit_vector);
        }
        ((n >> 18u64) & 0o777) as usize
    }

    pub fn p2_index(&self) -> (r: usize)
        ensures
            r == p2_of(self.number),
            r < 512,
    {
        let n = self.number;
        proof {
            assert((n >> 9u64) & 511 < 512) by (bit_vector);
        }
        ((n >> 9u64) & 0o777) as usize
    }

    pub fn p1_index(&self) -> (r: usize)
        ensures
            r == p1_of(self.number),
            r < 512,
    {
        let n = self.number;
        proof {
            assert(n & 511 < 512) by (bit_vector);
        }
        (n & 0o777) as usize
    }

    /// Virtual address of the first byte of the page.
    pub fn start_address(&self) -> (r: u64)
        requires
            self.wf(),
        ensures
            r == self.number * PAGE_SIZE,
    {
        self.number * PAGE_SIZE
    }
}

/// A page's start address leads back to the same page, for every page with
/// a canonical start address.
pub proof fn lemma_page_round_trip(p: Page)
    requires
        p.wf(),
    ensures
        canonical((p.number * PAGE_SIZE) as u64),
        ((p.number * PAGE_SIZE) as u64) / PAGE_SIZE == p.number,
{
    let n = p.number;
    assert(n < 0x10_0000_0000_0000 ==> ((n * 4096) as u64) / 4096 == n) by (bit_vector);
}

} // verus!
