use kmem::address_space::{remap_the_kernel, ElfSection, PageTable, RemapError};
use kmem::frame::Frame;
use kmem::mapper::Mapper;
use kmem::memory::Memory;
use kmem::page::Page;
use kmem::range_allocator::{MemoryArea, RangeAllocator};

fn setup() -> (PageTable, RangeAllocator) {
    let pt = PageTable::new(Mapper::new(Memory::new(Frame { number: 1 })));
    let areas = vec![MemoryArea { base_addr: 0, length: 0x100_0000 }];
    (pt, RangeAllocator::new(&areas, 0x10_0000, 0x20_0000, 0x20_0000, 0x20_1000))
}

#[test]
fn remap_identity_maps_loaded_sections() {
    let (mut pt, mut a) = setup();
    let sections = vec![
        ElfSection { addr: 0x10_0000, size: 0x3000, allocated: true },
        ElfSection { addr: 0x18_0000, size: 0x10, allocated: true },
        ElfSection { addr: 0x19_0000, size: 0, allocated: true },
        ElfSection { addr: 0x1a_0000, size: 0x1000, allocated: false },
    ];
    let t = remap_the_kernel(&mut pt, &mut a, &sections).unwrap();
    assert_eq!(pt.mapper.translate_page(Page::containing_address(0xcafe_babe)), None);
    assert_eq!(pt.mapper.translate(0x10_0000), None);
    pt.mapper.mem.set_cr3(t.p4_frame);
    for addr in [0x10_0000u64, 0x10_1abc, 0x10_2fff, 0x18_0000] {
        assert_eq!(pt.mapper.translate(addr), Some(addr));
    }
    // the new table still maps itself through its last slot
    assert_eq!(pt.mapper.translate(0xffff_ffff_ffff_f000), Some(t.p4_frame.start_address()));
    assert_eq!(pt.mapper.translate(0x10_3000), None);
    assert_eq!(pt.mapper.translate(0x19_0000), None);
    assert_eq!(pt.mapper.translate(0x1a_0000), None);
}

#[test]
fn remap_rejects_overlapping_sections() {
    let (mut pt, mut a) = setup();
    let sections = vec![
        ElfSection { addr: 0x10_0000, size: 0x2000, allocated: true },
        ElfSection { addr: 0x10_1000, size: 0x1000, allocated: true },
    ];
    assert_eq!(remap_the_kernel(&mut pt, &mut a, &sections).err(), Some(RemapError::CannotMap));
}

#[test]
fn section_addresses() {
    let s = ElfSection { addr: 0x1000, size: 0x234, allocated: true };
    assert_eq!(s.start_address(), 0x1000);
    assert_eq!(s.end_address(), 0x1234);
    assert!(s.is_allocated());
}

#[test]
fn remap_rejects_section_above_lower_half() {
    let (mut pt, mut a) = setup();
    let sections = vec![ElfSection { addr: 0x7fff_ffff_f000, size: 0x2000, allocated: true }];
    assert_eq!(remap_the_kernel(&mut pt, &mut a, &sections).err(), Some(RemapError::SectionTooHigh));
}
