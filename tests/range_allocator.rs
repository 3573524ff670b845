use kmem::frame::{Frame, FrameAllocator};
use kmem::range_allocator::{MemoryArea, RangeAllocator};

#[test]
fn first_two_frames_skip_kernel_and_boot_info() {
    let areas = vec![MemoryArea { base_addr: 0, length: 0x10000 }];
    let mut a = RangeAllocator::new(&areas, 0x1000, 0x2000, 0x2000, 0x3000);
    let first = a.allocate().unwrap();
    assert_eq!(first.number, 3);
    assert_eq!(first.start_address(), 0x3000);
    assert_eq!(a.allocate().unwrap().number, 4);
}

#[test]
fn never_hands_out_reserved_frames() {
    let areas = vec![MemoryArea { base_addr: 0x1000, length: 0x20000 }];
    let (ks, ke, ms, me) = (0x2000u64, 0x5800u64, 0x7000u64, 0x9100u64);
    let mut a = RangeAllocator::new(&areas, ks, ke, ms, me);
    let mut count = 0;
    while let Some(f) = a.allocate() {
        let start = f.start_address();
        let end = start + 0x1000;
        assert!(end <= ks || start >= ke);
        assert!(end <= ms || start >= me);
        assert!(end <= 0x21000);
        count += 1;
    }
    assert_eq!(count, 0x21 - 0xa);
}

#[test]
fn picks_largest_area_last_of_ties() {
    let areas = vec![
        MemoryArea { base_addr: 0x0, length: 0x9000 },
        MemoryArea { base_addr: 0x100000, length: 0x40000 },
        MemoryArea { base_addr: 0x200000, length: 0x40000 },
        MemoryArea { base_addr: 0x300000, length: 0x1000 },
    ];
    let mut a = RangeAllocator::new(&areas, 0x100000, 0x150000, 0x150000, 0x151000);
    assert_eq!(a.allocate().unwrap().number, 0x200);
    assert_eq!(a.end.number, 0x240);
}

#[test]
fn runs_dry_at_region_end_and_free_is_a_no_op() {
    let areas = vec![MemoryArea { base_addr: 0, length: 0x5000 }];
    let mut a = RangeAllocator::new(&areas, 0, 0x2000, 0, 0x3000);
    assert_eq!(a.available(), 2);
    assert_eq!(a.allocate().unwrap().number, 3);
    assert_eq!(a.allocate().unwrap().number, 4);
    assert_eq!(a.allocate(), None);
    a.free(Frame { number: 3 });
    assert_eq!(a.allocate(), None);
    assert!(!a.holds(3));
}

#[test]
fn heap_start_not_frame_aligned_rounds_up() {
    let areas = vec![MemoryArea { base_addr: 0, length: 0x10000 }];
    let mut a = RangeAllocator::new(&areas, 0x1000, 0x2001, 0x0, 0x0);
    assert_eq!(a.allocate().unwrap().number, 3);
}

#[test]
fn heap_starting_at_zero_hands_out_frame_zero() {
    let areas = vec![MemoryArea { base_addr: 0, length: 0x3000 }];
    let mut a = RangeAllocator::new(&areas, 0, 0, 0, 0);
    assert_eq!(a.allocate().unwrap().number, 0);
    assert_eq!(a.allocate().unwrap().number, 1);
    assert_eq!(a.allocate().unwrap().number, 2);
    assert_eq!(a.allocate(), None);
}
