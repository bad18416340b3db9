//! Page-table operations and address-space construction.

use blanc_os::address_space::AddressSpace;
use blanc_os::boot::boot_environment;
use blanc_os::frame::PhysFrameAllocator;
use blanc_os::mem::PhysMemory;
use blanc_os::page_table::{PageTables, ADDR_MASK, PRESENT, WRITABLE, USER_ACCESSIBLE};
use blanc_os::virt::{init_heap, allocate_pages, deallocate_pages, search_free_addr};

fn booted() -> (PageTables, u64, PhysFrameAllocator) {
    let (mut pt, root, regions) =
        boot_environment(0x100000, 0x800000, 0x4000_0000, 0x4400_0000).expect("boot");
    let fa = PhysFrameAllocator::init(&regions, &mut pt, root).expect("allocator");
    (pt, root, fa)
}

#[test]
fn map_translate_unmap_round_trip() {
    let (mut pt, root, mut fa) = booted();
    let frame = fa.allocate_frame().unwrap();
    let pn = 0x1000_0000 / 4096;
    assert_eq!(pt.translate(root, pn), None);
    pt.map_to(&mut fa, root, pn, frame, PRESENT | WRITABLE).unwrap();
    assert_eq!(pt.translate(root, pn), Some(frame));
    let freed = pt.unmap(root, pn).unwrap();
    assert_eq!(freed, frame);
    assert_eq!(pt.translate(root, pn), None);
}

#[test]
fn mapping_twice_reports_already_mapped() {
    let (mut pt, root, mut fa) = booted();
    let frame = fa.allocate_frame().unwrap();
    let pn = 0x2000_0000 / 4096;
    pt.map_to(&mut fa, root, pn, frame, PRESENT | WRITABLE).unwrap();
    let again = fa.allocate_frame().unwrap();
    assert_eq!(
        pt.map_to(&mut fa, root, pn, again, PRESENT | WRITABLE),
        Err(blanc_os::page_table::MapError::AlreadyMapped)
    );
}

#[test]
fn mapping_leaves_other_pages_alone() {
    let (mut pt, root, mut fa) = booted();
    let f1 = fa.allocate_frame().unwrap();
    let f2 = fa.allocate_frame().unwrap();
    let pn1 = 0x1000_0000 / 4096;
    let pn2 = pn1 + 1;
    pt.map_to(&mut fa, root, pn1, f1, PRESENT | WRITABLE).unwrap();
    pt.map_to(&mut fa, root, pn2, f2, PRESENT | WRITABLE).unwrap();
    assert_eq!(pt.translate(root, pn1), Some(f1));
    assert_eq!(pt.translate(root, pn2), Some(f2));
    pt.unmap(root, pn2).unwrap();
    assert_eq!(pt.translate(root, pn1), Some(f1));
    assert_eq!(pt.translate(root, pn2), None);
}

#[test]
fn update_flags_keeps_the_frame() {
    let (mut pt, root, mut fa) = booted();
    let frame = fa.allocate_frame().unwrap();
    let pn = 0x3000_0000 / 4096;
    pt.map_to(&mut fa, root, pn, frame, PRESENT | WRITABLE).unwrap();
    pt.update_flags(root, pn, PRESENT | WRITABLE | USER_ACCESSIBLE).unwrap();
    assert_eq!(pt.translate(root, pn), Some(frame));
}

#[test]
fn fresh_address_spaces_share_the_kernel_slots() {
    let (mut pt, kernel_root, mut fa) = booted();
    let a = AddressSpace::new(&mut pt, &mut fa, kernel_root).expect("space a");
    let b = AddressSpace::new(&mut pt, &mut fa, kernel_root).expect("space b");
    let af = a.pml4_frame;
    let bf = b.pml4_frame;
    // the shared slots mirror the kernel table
    for s in [0usize, 256, 507, 508, 509, 510] {
        assert_eq!(pt.get_entry(af, s), pt.get_entry(kernel_root, s));
        assert_eq!(pt.get_entry(bf, s), pt.get_entry(kernel_root, s));
    }
    // the recursive slot points back at the table itself
    assert_eq!(pt.get_entry(af, 511) & ADDR_MASK, af);
    assert_eq!(pt.get_entry(af, 511) & 3, 3);
    assert_eq!(pt.get_entry(bf, 511) & ADDR_MASK, bf);
    // the user slots past the shared ones start empty
    for s in 1..256usize {
        assert_eq!(pt.get_entry(af, s), 0);
    }
    // mapping a private user page gives each space its own user tables
    let fa1 = fa.allocate_frame().unwrap();
    let fa2 = fa.allocate_frame().unwrap();
    let pn = 0x80_0000_0000u64 / 4096;
    pt.map_to(&mut fa, af, pn, fa1, PRESENT | WRITABLE | USER_ACCESSIBLE).unwrap();
    pt.map_to(&mut fa, bf, pn, fa2, PRESENT | WRITABLE | USER_ACCESSIBLE).unwrap();
    assert_ne!(pt.get_entry(af, 1), pt.get_entry(bf, 1));
    assert_eq!(pt.translate(af, pn), Some(fa1));
    assert_eq!(pt.translate(bf, pn), Some(fa2));
    // and slot 256 stays the kernel's
    assert_eq!(pt.get_entry(af, 256), pt.get_entry(kernel_root, 256));
    assert_eq!(pt.get_entry(bf, 256), pt.get_entry(kernel_root, 256));
}

#[test]
fn heap_pages_are_mapped_by_init_heap() {
    let (mut pt, kernel_root, mut fa) = booted();
    let mut mem = PhysMemory::new();
    init_heap(&mut pt, &mut fa, &mut mem, kernel_root).expect("heap");
    let heap_low = 0xFFFF_FF00_004A_0000u64 % 0x1_0000_0000_0000;
    let first_pn = heap_low / 4096;
    let pages = 0x32000 / 4096;
    for k in 0..pages {
        assert!(pt.translate(kernel_root, first_pn + k).is_some());
    }
}

#[test]
fn page_runs_allocate_and_free() {
    let (mut pt, root, mut fa) = booted();
    let mut mem = PhysMemory::new();
    allocate_pages(&mut pt, &mut fa, &mut mem, root, 0x4000_0000_0000 - 0x10000, 4).unwrap();
    let base_pn = (0x4000_0000_0000u64 - 0x10000) / 4096;
    for k in 0..4 {
        assert!(pt.translate(root, base_pn + k).is_some());
    }
    deallocate_pages(&mut pt, &mut fa, &mut mem, root, 0x4000_0000_0000 - 0x10000, 4);
    for k in 0..4 {
        assert!(pt.translate(root, base_pn + k).is_none());
    }
}

#[test]
fn free_address_search_finds_unmapped_runs() {
    let (mut pt, root, mut fa) = booted();
    let frame = fa.allocate_frame().unwrap();
    // occupy the second page so a three-page run must skip it
    pt.map_to(&mut fa, root, 1, frame, PRESENT | WRITABLE).unwrap();
    let found = search_free_addr(&pt, root, 3, 0x100000).expect("free run");
    assert_eq!(found % 4096, 0);
    assert!(found != 0);
    let pn = found / 4096;
    for k in 0..3 {
        assert!(pt.translate(root, pn + k).is_none());
    }
}
