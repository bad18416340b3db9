//! The frame allocator over a booted memory map: determinism, round
//! trips and exhaustion.

use blanc_os::boot::boot_environment;
use blanc_os::frame::PhysFrameAllocator;
use blanc_os::page_table::PageTables;

/// A booted environment over the given usable region, with the bootstrap
/// tables in a disjoint area above it.
fn booted(
    usable_start: u64,
    usable_end: u64,
) -> (PageTables, u64, PhysFrameAllocator) {
    let boot_start = 0x4000_0000;
    let boot_end = 0x4400_0000;
    let (mut pt, root, regions) =
        boot_environment(usable_start, usable_end, boot_start, boot_end).expect("boot");
    let fa = PhysFrameAllocator::init(&regions, &mut pt, root).expect("allocator");
    (pt, root, fa)
}

#[test]
fn boot_to_idle_reports_frames_past_the_bitmap() {
    // one usable region and the kernel recursive slot installed
    let (pt, root, mut fa) = booted(0x100000, 0x2000000);
    assert_eq!(pt.get_entry(root, 508) & 0x000F_FFFF_FFFF_F000, root);
    // 7936 frames need 992 bitmap bytes: one bitmap frame
    let bitmap_bytes = fa.bit_map_region.end - fa.bit_map_region.start;
    assert_eq!(bitmap_bytes, 4096);
    let f1 = fa.allocate_frame().expect("first frame");
    assert!(f1 >= 0x100000 + bitmap_bytes);
    assert_eq!(f1, 0x101000);
}

#[test]
fn allocate_free_round_trip_returns_the_same_frame() {
    let (_pt, _root, mut fa) = booted(0x100000, 0x200000);
    let f1 = fa.allocate_frame().expect("frame");
    fa.deallocate_frame(f1);
    let f2 = fa.allocate_frame().expect("frame");
    assert_eq!(f1, f2);
}

#[test]
fn consecutive_allocations_are_distinct() {
    let (_pt, _root, mut fa) = booted(0x100000, 0x200000);
    let f1 = fa.allocate_frame().expect("frame");
    let f2 = fa.allocate_frame().expect("frame");
    assert_ne!(f1, f2);
}

#[test]
fn exhaustion_after_every_usable_frame() {
    // ten frames, one goes to the bitmap: nine allocations succeed
    let (_pt, _root, mut fa) = booted(0x100000, 0x10A000);
    for _ in 0..9 {
        assert!(fa.allocate_frame().is_some());
    }
    assert!(fa.allocate_frame().is_none());
}

#[test]
fn frames_freed_in_reverse_come_back_in_order() {
    let (_pt, _root, mut fa) = booted(0x100000, 0x200000);
    let a = fa.allocate_frame().unwrap();
    let b = fa.allocate_frame().unwrap();
    let c = fa.allocate_frame().unwrap();
    fa.deallocate_frame(c);
    fa.deallocate_frame(b);
    fa.deallocate_frame(a);
    assert_eq!(fa.allocate_frame().unwrap(), a);
    assert_eq!(fa.allocate_frame().unwrap(), b);
    assert_eq!(fa.allocate_frame().unwrap(), c);
}

#[test]
fn double_free_changes_nothing() {
    let (_pt, _root, mut fa) = booted(0x100000, 0x200000);
    let a = fa.allocate_frame().unwrap();
    let b = fa.allocate_frame().unwrap();
    fa.deallocate_frame(b);
    fa.deallocate_frame(b);
    // the bitmap's own frames cannot be freed either
    fa.deallocate_frame(0x100000);
    assert_eq!(fa.allocate_frame().unwrap(), b);
    let next = fa.allocate_frame().unwrap();
    assert_ne!(next, a);
    assert_ne!(next, b);
}

#[test]
fn free_frame_count_tracks_allocations() {
    let (_pt, _root, mut fa) = booted(0x100000, 0x10A000);
    assert_eq!(fa.free_frames(), 9);
    let f = fa.allocate_frame().unwrap();
    assert_eq!(fa.free_frames(), 8);
    fa.deallocate_frame(f);
    assert_eq!(fa.free_frames(), 9);
}
