use kmem::entry::{
    Entry, EntryFlags, ACCESSED, ALL_FLAGS, HUGE_PAGE, NO_EXECUTE, PRESENT, USED, WRITABLE,
};
use kmem::frame::Frame;

#[test]
fn set_then_frame_and_flags() {
    let mut e = Entry(0);
    assert!(e.is_unused());
    e.set(Frame { number: 0x1234 }, EntryFlags::from_bits_truncate(PRESENT | WRITABLE));
    assert!(!e.is_unused());
    assert_eq!(e.0, 0x1234_000 | PRESENT | WRITABLE | USED);
    assert_eq!(e.frame(), Some(Frame { number: 0x1234 }));
    assert_eq!(e.flags().bits(), PRESENT | WRITABLE | USED);
}

#[test]
fn used_marker_makes_flagless_entry_used() {
    let mut e = Entry(0);
    e.set(Frame { number: 0 }, EntryFlags::empty());
    assert!(!e.is_unused());
    assert_eq!(e.0, USED);
    assert_eq!(e.frame(), None);
}

#[test]
fn not_present_has_no_frame() {
    let mut e = Entry(0);
    e.set(Frame { number: 9 }, EntryFlags::from_bits_truncate(WRITABLE));
    assert_eq!(e.frame(), None);
    e.set_unused();
    assert!(e.is_unused());
    assert_eq!(e.0, 0);
}

#[test]
fn flags_drop_unknown_bits() {
    let e = Entry(0x0000_0000_0000_7000 | (1 << 62) | (1 << 10) | ACCESSED | NO_EXECUTE);
    assert_eq!(e.flags().bits(), ACCESSED | NO_EXECUTE);
    assert_eq!(EntryFlags::from_bits_truncate(u64::MAX).bits(), ALL_FLAGS);
}

#[test]
fn flag_set_operations() {
    let a = EntryFlags::from_bits_truncate(PRESENT | HUGE_PAGE);
    let b = EntryFlags::from_bits_truncate(PRESENT);
    assert!(a.contains(b));
    assert!(!b.contains(a));
    assert_eq!(b.union(EntryFlags::from_bits_truncate(WRITABLE)).bits(), PRESENT | WRITABLE);
    assert_eq!(EntryFlags::empty().bits(), 0);
}
