//! Physical frame allocation and four-level x86_64 page tables for a small
//! kernel.
//!
//! The page-table memory is modelled explicitly (`memory`): frames that hold
//! tables, and the register naming the active P4 table. Code reaches a
//! table only as the kernel does, at a virtual address resolved by the
//! MMU's walk; the recursive slot of the P4 table makes every table of the
//! hierarchy reachable that way, and `table::lemma_resolve_rec` proves it.
//! The model hands out the table writes it made and the TLB invalidations
//! the code ordered, for the machine to repeat.
//!
//! Addresses and frame/page numbers are `u64`: the hardware's word width,
//! whatever width `usize` has on the host.
pub mod address_space;
pub mod entry;
pub mod frame;
pub mod keyboard;
pub mod mapper;
pub mod memory;
pub mod page;
pub mod range_allocator;
pub mod table;
pub mod temporary_page;
