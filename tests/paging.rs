use kmem::address_space::{InactivePageTable, PageTable};
use kmem::entry::{Entry, EntryFlags, HUGE_PAGE, PRESENT, USED, WRITABLE};
use kmem::frame::{Frame, FrameAllocator};
use kmem::mapper::Mapper;
use kmem::memory::{MachineOp, Memory, TableWrite, TlbFlush};
use kmem::page::Page;
use kmem::range_allocator::{MemoryArea, RangeAllocator};
use kmem::temporary_page::{TemporaryPage, TinyAllocator};

const P4_FRAME: u64 = 1;

fn boot_mapper() -> Mapper {
    Mapper::new(Memory::new(Frame { number: P4_FRAME }))
}

fn allocator() -> RangeAllocator {
    let areas = vec![MemoryArea { base_addr: 0, length: 0x100_0000 }];
    RangeAllocator::new(&areas, 0, 0x10_0000, 0, 0x10_0000)
}

fn take_flushes(mem: &mut Memory) -> Vec<TlbFlush> {
    mem.take_ops()
        .into_iter()
        .filter_map(|o| match o {
            MachineOp::Flush(f) => Some(f),
            MachineOp::Write(_) => None,
        })
        .collect()
}

fn take_writes(mem: &mut Memory) -> Vec<TableWrite> {
    mem.take_ops()
        .into_iter()
        .filter_map(|o| match o {
            MachineOp::Write(w) => Some(w),
            MachineOp::Flush(_) => None,
        })
        .collect()
}

fn flags(bits: u64) -> EntryFlags {
    EntryFlags::from_bits_truncate(bits)
}

#[test]
fn fresh_table_maps_nothing() {
    let m = boot_mapper();
    for addr in [0u64, 0x1000, 0x3fff_f000, 1 << 30, 42 * 512 * 512 * 4096, 0xffff_8000_0000_0000] {
        assert_eq!(m.translate_page(Page::containing_address(addr)), None);
        assert_eq!(m.translate(addr), None);
    }
}

#[test]
fn recursive_address_reaches_p4() {
    let m = boot_mapper();
    assert_eq!(
        m.translate_page(Page::containing_address(0xffff_ffff_ffff_f000)),
        Some(Frame { number: P4_FRAME })
    );
}

#[test]
fn map_to_then_translate() {
    let mut m = boot_mapper();
    let mut a = allocator();
    let addr = 42 * 512 * 512 * 4096;
    let page = Page::containing_address(addr);
    let frame = a.allocate().unwrap();
    m.map_to(page, frame, EntryFlags::empty(), &mut a);
    assert_eq!(m.translate_page(page), Some(frame));
    assert_eq!(m.translate(addr + 0x123), Some(frame.start_address() + 0x123));
    assert_eq!(m.translate_page(Page::containing_address(addr + 4096)), None);
    // three tables were made for the page
    assert_eq!(a.allocate().unwrap().number, frame.number + 4);
}

#[test]
fn mapped_entry_flags_are_flags_present_and_used() {
    let mut m = boot_mapper();
    let mut a = allocator();
    let page = Page::containing_address(0x40_0000);
    m.map_to(page, Frame { number: 0x999 }, flags(WRITABLE), &mut a);
    // the P1 table holding the entry is the third frame the allocator gave
    let p1_frame = a.next_free_frame.number - 1;
    let e: Entry = m.mem.read(p1_frame, page.p1_index() as usize);
    assert_eq!(e.flags().bits(), WRITABLE | PRESENT | USED);
    assert_eq!(e.frame(), Some(Frame { number: 0x999 }));
}

#[test]
fn second_mapping_of_a_page_is_refused_by_map_check() {
    let mut m = boot_mapper();
    let mut a = allocator();
    let keep = [0u64; 4];
    let page = Page::containing_address(0x7000);
    assert!(m.map_check(page, &a, &keep));
    m.map_to(page, Frame { number: 0x500 }, EntryFlags::empty(), &mut a);
    assert!(m.translate_page(page).is_some());
    assert!(!m.map_check(page, &a, &keep));
}

#[test]
fn map_allocates_its_frame() {
    let mut m = boot_mapper();
    let mut a = allocator();
    let page = Page::containing_address(0x20_0000);
    m.map(page, flags(WRITABLE), &mut a);
    assert_eq!(m.translate_page(page), Some(Frame { number: 0x100 }));
}

#[test]
fn identity_map_translates_to_itself() {
    let mut m = boot_mapper();
    let mut a = allocator();
    for n in [0x200u64, 0x201, 0x7_0000] {
        let f = Frame { number: n };
        m.identity_map(f, flags(WRITABLE), &mut a);
        let start = Page { number: n }.start_address();
        assert_eq!(m.translate(start), Some(start));
    }
}

#[test]
fn unmap_undoes_map_to_and_returns_the_frame() {
    let mut m = boot_mapper();
    let mut tiny = TinyAllocator([
        Some(Frame { number: 20 }),
        Some(Frame { number: 21 }),
        Some(Frame { number: 22 }),
    ]);
    let page = Page::containing_address(0x1234_5000);
    let frame = Frame { number: 0x77 };
    m.map_to(page, frame, flags(WRITABLE), &mut tiny);
    assert_eq!(tiny.available(), 0);
    assert_eq!(m.translate_page(page), Some(frame));
    assert!(take_flushes(&mut m.mem).is_empty());
    m.unmap(page, &mut tiny);
    assert_eq!(take_flushes(&mut m.mem), vec![TlbFlush::Page(0x1234_5000)]);
    assert_eq!(m.translate_page(page), None);
    assert!(tiny.holds(0x77));
    assert_eq!(tiny.allocate(), Some(frame));
}

#[test]
fn unmap_keeps_neighbours() {
    let mut m = boot_mapper();
    let mut a = allocator();
    let p = Page::containing_address(0x5000);
    let q = Page::containing_address(0x6000);
    m.map_to(p, Frame { number: 0x300 }, EntryFlags::empty(), &mut a);
    m.map_to(q, Frame { number: 0x301 }, EntryFlags::empty(), &mut a);
    m.unmap(p, &mut a);
    assert_eq!(m.translate_page(p), None);
    assert_eq!(m.translate_page(q), Some(Frame { number: 0x301 }));
}

fn link(mem: &mut Memory, table: u64, index: usize, target: u64, bits: u64) {
    let mut e = Entry(0);
    e.set(Frame { number: target }, flags(bits));
    mem.write(table, index, e);
}

#[test]
fn huge_1g_page_translation() {
    let mut mem = Memory::new(Frame { number: P4_FRAME });
    link(&mut mem, P4_FRAME, 0, 2, PRESENT | WRITABLE);
    link(&mut mem, 2, 1, 512 * 512, PRESENT | WRITABLE | HUGE_PAGE);
    let m = Mapper::new(mem);
    for (p2, p1) in [(0u64, 0u64), (5, 7), (511, 511)] {
        let page = Page { number: (1 << 18) | (p2 << 9) | p1 };
        assert_eq!(m.translate_page(page), Some(Frame { number: 512 * 512 + p2 * 512 + p1 }));
    }
    assert_eq!(m.translate((1 << 30) + 0x1234), Some((512 * 512) * 4096 + 0x1234));
}

#[test]
fn huge_2m_page_translation() {
    let mut mem = Memory::new(Frame { number: P4_FRAME });
    link(&mut mem, P4_FRAME, 0, 2, PRESENT | WRITABLE);
    link(&mut mem, 2, 2, 3, PRESENT | WRITABLE);
    link(&mut mem, 3, 4, 1024, PRESENT | HUGE_PAGE);
    let m = Mapper::new(mem);
    let page = Page { number: (2 << 18) | (4 << 9) | 9 };
    assert_eq!(m.translate_page(page), Some(Frame { number: 1024 + 9 }));
    let beside = Page { number: (2 << 18) | (5 << 9) | 9 };
    assert_eq!(m.translate_page(beside), None);
}

#[test]
fn inactive_table_maps_only_itself() {
    let mut m = boot_mapper();
    let mut a = allocator();
    let mut tmp = TemporaryPage::new(Page::containing_address(0xcafe_babe), &mut a);
    let frame = a.allocate().unwrap();
    let t = InactivePageTable::new(frame, &mut m, &mut tmp);
    assert_eq!(t.p4_frame, frame);
    assert_eq!(m.translate_page(Page::containing_address(0xcafe_babe)), None);
    let slot = m.mem.read(frame.number, 511);
    assert_eq!(slot.frame(), Some(frame));
    for i in [0usize, 1, 255, 510] {
        assert!(m.mem.read(frame.number, i).is_unused());
    }
    assert!(tmp.allocator.holds(frame.number));
}

#[test]
fn with_edits_inactive_table_and_swaps_back() {
    let mut pt = PageTable::new(boot_mapper());
    let mut a = allocator();
    let outer = Page::containing_address(42 * 512 * 512 * 4096);
    let outer_frame = a.allocate().unwrap();
    pt.mapper.map_to(outer, outer_frame, EntryFlags::empty(), &mut a);
    let mut tmp = TemporaryPage::new(Page::containing_address(0xcafe_babe), &mut a);
    let frame = a.allocate().unwrap();
    let mut t = InactivePageTable::new(frame, &mut pt.mapper, &mut tmp);
    let inner = Page::containing_address(0x40_0000);
    let seen = pt.with(&mut t, &mut tmp, &mut a, |m: &mut Mapper, a: &mut RangeAllocator| {
        let before = m.translate_page(outer);
        m.map_to(inner, Frame { number: 0x4444 }, flags(WRITABLE), a);
        (before, m.translate_page(inner))
    });
    assert_eq!(seen, (None, Some(Frame { number: 0x4444 })));
    assert_eq!(
        take_flushes(&mut pt.mapper.mem),
        vec![
            TlbFlush::Page(0xcafe_b000),
            TlbFlush::All,
            TlbFlush::All,
            TlbFlush::Page(0xcafe_b000),
        ]
    );
    assert_eq!(pt.mapper.translate_page(outer), Some(outer_frame));
    assert_eq!(pt.mapper.translate_page(inner), None);
    assert_eq!(pt.mapper.mem.cr3().number, P4_FRAME);
    pt.mapper.mem.set_cr3(frame);
    assert_eq!(pt.mapper.translate_page(inner), Some(Frame { number: 0x4444 }));
    assert_eq!(pt.mapper.translate_page(outer), None);
}

#[test]
fn inactive_table_keeps_outer_mappings() {
    let mut m = boot_mapper();
    let mut a = allocator();
    let outer = Page::containing_address(0x40_0000);
    m.map_to(outer, Frame { number: 0x321 }, EntryFlags::empty(), &mut a);
    let mut tmp = TemporaryPage::new(Page::containing_address(0xcafe_babe), &mut a);
    let frame = a.allocate().unwrap();
    InactivePageTable::new(frame, &mut m, &mut tmp);
    assert_eq!(m.translate_page(outer), Some(Frame { number: 0x321 }));
    assert_eq!(m.tables_missing(Page::containing_address(0xcafe_babe)), 0);
    assert!(m.huge_entries_aligned(outer));
}

#[test]
fn table_writes_are_handed_out_in_order() {
    let mut m = boot_mapper();
    let mut tiny = TinyAllocator([
        Some(Frame { number: 20 }),
        Some(Frame { number: 21 }),
        Some(Frame { number: 22 }),
    ]);
    take_writes(&mut m.mem);
    m.map_to(Page::containing_address(0x1000), Frame { number: 0x55 }, flags(WRITABLE), &mut tiny);
    let w = take_writes(&mut m.mem);
    assert_eq!(w.len(), 7);
    assert_eq!(w[1], TableWrite::Zero { frame: 20 });
    assert_eq!(w[6], TableWrite::Word { frame: 22, index: 1, word: 0x55_000 | PRESENT | WRITABLE | USED });
    assert!(take_writes(&mut m.mem).is_empty());
}

#[test]
fn unmap_writes_then_invalidates() {
    let mut m = boot_mapper();
    let mut tiny = TinyAllocator([
        Some(Frame { number: 20 }),
        Some(Frame { number: 21 }),
        Some(Frame { number: 22 }),
    ]);
    let page = Page::containing_address(0x3000);
    m.map_to(page, Frame { number: 0x66 }, flags(WRITABLE), &mut tiny);
    m.mem.take_ops();
    m.unmap(page, &mut tiny);
    assert_eq!(
        m.mem.take_ops(),
        vec![
            MachineOp::Write(TableWrite::Word { frame: 22, index: 3, word: 0 }),
            MachineOp::Flush(TlbFlush::Page(0x3000)),
        ]
    );
}

#[test]
fn with_accepts_a_fresh_scratch_page() {
    let mut pt = PageTable::new(boot_mapper());
    let mut a = allocator();
    let outer = Page::containing_address(0x40_0000);
    pt.mapper.map_to(outer, Frame { number: 0x123 }, EntryFlags::empty(), &mut a);
    let mut building = TemporaryPage::new(Page::containing_address(0xcafe_babe), &mut a);
    let frame = a.allocate().unwrap();
    let mut t = InactivePageTable::new(frame, &mut pt.mapper, &mut building);
    let scratch = Page::containing_address(3 << 39);
    let mut tmp = TemporaryPage::new(scratch, &mut a);
    assert_eq!(pt.mapper.tables_missing(scratch), 3);
    let inner = Page::containing_address(0x80_0000);
    pt.with(&mut t, &mut tmp, &mut a, |m: &mut Mapper, a: &mut RangeAllocator| {
        m.map_to(inner, Frame { number: 0x777 }, flags(WRITABLE), a);
    });
    assert_eq!(pt.mapper.translate_page(outer), Some(Frame { number: 0x123 }));
    assert_eq!(pt.mapper.translate_page(scratch), None);
    assert_eq!(pt.mapper.translate_page(inner), None);
    pt.mapper.mem.set_cr3(frame);
    assert_eq!(pt.mapper.translate_page(inner), Some(Frame { number: 0x777 }));
}
