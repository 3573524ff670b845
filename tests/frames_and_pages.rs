use kmem::frame::{Frame, FrameRangeInclusiveIter};
use kmem::page::Page;

#[test]
fn frame_round_trip() {
    for n in [0u64, 1, 3, 0x1234, 0xf_ffff_ffff_ffff] {
        let f = Frame { number: n };
        assert_eq!(Frame::containing_address(f.start_address()), f);
    }
}

#[test]
fn frame_containing_address_rounds_down() {
    assert_eq!(Frame::containing_address(0x3000).number, 3);
    assert_eq!(Frame::containing_address(0x3fff).number, 3);
    assert_eq!(Frame::containing_address(0x4000).number, 4);
    assert_eq!(Frame { number: 4 }.start_address(), 0x4000);
}

#[test]
fn page_round_trip() {
    for n in [0u64, 7, 0x7_ffff_ffff, 0xf_fff8_0000_0000, 0xf_ffff_ffff_ffff] {
        let p = Page { number: n };
        assert_eq!(Page::containing_address(p.start_address()), p);
    }
}

#[test]
fn page_indices() {
    let p = Page::containing_address(42 * 512 * 512 * 4096 + 5 * 512 * 4096 + 7 * 4096);
    assert_eq!(p.p4_index(), 0);
    assert_eq!(p.p3_index(), 42);
    assert_eq!(p.p2_index(), 5);
    assert_eq!(p.p1_index(), 7);
    let top = Page::containing_address(0xffff_ffff_ffff_f000);
    assert_eq!((top.p4_index(), top.p3_index(), top.p2_index(), top.p1_index()), (511, 511, 511, 511));
}

#[test]
fn frame_range_is_inclusive_and_finite() {
    let mut it: FrameRangeInclusiveIter = Frame::range_inclusive(Frame { number: 3 }, Frame { number: 5 });
    assert_eq!(it.next(), Some(Frame { number: 3 }));
    assert_eq!(it.next(), Some(Frame { number: 4 }));
    assert_eq!(it.next(), Some(Frame { number: 5 }));
    assert_eq!(it.next(), None);
    assert_eq!(it.next(), None);
    let mut empty = Frame::range_inclusive(Frame { number: 6 }, Frame { number: 5 });
    assert_eq!(empty.next(), None);
}

#[test]
fn frames_are_ordered() {
    assert!(Frame { number: 2 } < Frame { number: 3 });
    assert_eq!(Frame { number: 2 }.next(), Frame { number: 3 });
}
