//! Loading ELF images into an address space, and running the loaded
//! program's syscalls against the kernel model.

use blanc_os::address_space::{AddressSpace, Cpu};
use blanc_os::boot::boot_environment;
use blanc_os::elf::{align_bin, load_elf, ElfError};
use blanc_os::frame::PhysFrameAllocator;
use blanc_os::mem::{read_virt_byte, PhysMemory};
use blanc_os::page_table::PageTables;
use blanc_os::printer::{FrameBufferInfo, PixelFormat, Writer};
use blanc_os::scheduler::{SchedDecision, Scheduler};
use blanc_os::syscall::{dispatch, SyscallAction};
use blanc_os::task::{Ring, Task, TaskState};

fn booted() -> (PageTables, u64, PhysFrameAllocator) {
    let (mut pt, root, regions) =
        boot_environment(0x100000, 0x800000, 0x4000_0000, 0x4400_0000).expect("boot");
    let fa = PhysFrameAllocator::init(&regions, &mut pt, root).expect("allocator");
    (pt, root, fa)
}

fn le16(v: u16) -> [u8; 2] {
    [v as u8, (v >> 8) as u8]
}

fn le32(v: u32) -> [u8; 4] {
    [v as u8, (v >> 8) as u8, (v >> 16) as u8, (v >> 24) as u8]
}

fn le64(v: u64) -> [u8; 8] {
    let mut r = [0u8; 8];
    for i in 0..8 {
        r[i] = (v >> (8 * i)) as u8;
    }
    r
}

/// A minimal static ELF64 image: one loadable segment whose file bytes
/// are "HELLO" followed by eleven zero bytes of memory, entry at its
/// start.
fn hello_world_image() -> Vec<u8> {
    let mut img = Vec::new();
    // the identification: magic, 64-bit, little-endian
    img.extend_from_slice(&[0x7f, b'E', b'L', b'F', 2, 1, 1, 0]);
    img.extend_from_slice(&[0u8; 8]);
    img.extend_from_slice(&le16(2)); // executable
    img.extend_from_slice(&le16(0x3e)); // x86_64
    img.extend_from_slice(&le32(1)); // version
    img.extend_from_slice(&le64(0x1000)); // entry
    img.extend_from_slice(&le64(64)); // program header table offset
    img.extend_from_slice(&le64(0)); // no section headers
    img.extend_from_slice(&le32(0)); // flags
    img.extend_from_slice(&le16(64)); // header size
    img.extend_from_slice(&le16(56)); // program header size
    img.extend_from_slice(&le16(1)); // one program header
    img.extend_from_slice(&le16(64)); // section header size
    img.extend_from_slice(&le16(0)); // no section headers
    img.extend_from_slice(&le16(0)); // no string table
    assert_eq!(img.len(), 64);
    // the one loadable segment
    img.extend_from_slice(&le32(1)); // loadable
    img.extend_from_slice(&le32(5)); // readable and executable
    img.extend_from_slice(&le64(120)); // file offset
    img.extend_from_slice(&le64(0x1000)); // virtual address
    img.extend_from_slice(&le64(0)); // physical address
    img.extend_from_slice(&le64(5)); // file size
    img.extend_from_slice(&le64(16)); // memory size
    img.extend_from_slice(&le64(0x1000)); // alignment
    assert_eq!(img.len(), 120);
    img.extend_from_slice(b"HELLO");
    img
}

fn test_writer() -> Writer {
    let info = FrameBufferInfo {
        horizontal_resolution: 64,
        vertical_resolution: 64,
        stride: 64,
        bytes_per_pixel: 4,
        pixel_format: PixelFormat::Rgb,
    };
    Writer::new(vec![0u8; 64 * 64 * 4], info)
}

#[test]
fn loaded_segment_reads_back_with_entry_relocated() {
    let (mut pt, kernel_root, mut fa) = booted();
    let mut mem = PhysMemory::new();
    let space = AddressSpace::new(&mut pt, &mut fa, kernel_root).expect("space");
    let img = align_bin(&hello_world_image());
    let entry = load_elf(&mut pt, &mut fa, &mut mem, space.pml4_frame, &img, 0xFF00_0000)
        .expect("load");
    assert_eq!(entry, 0xFF00_0000 + 0x1000);
    let base = 0xFF00_0000u64 + 0x1000;
    for (i, b) in b"HELLO".iter().enumerate() {
        assert_eq!(
            read_virt_byte(&pt, &mem, space.pml4_frame, base + i as u64),
            Some(*b)
        );
    }
    // the tail past the file bytes is the zero-filled BSS
    for i in 5..16u64 {
        assert_eq!(read_virt_byte(&pt, &mem, space.pml4_frame, base + i), Some(0));
    }
}

#[test]
fn elf_memory_placement_loads_at_its_base() {
    let (mut pt, kernel_root, mut fa) = booted();
    let mut mem = PhysMemory::new();
    let space = AddressSpace::new(&mut pt, &mut fa, kernel_root).expect("space");
    let img = hello_world_image();
    let placement = blanc_os::elf::ElfMemory::new(0x2000_0000);
    assert_eq!(*placement.vbase(), 0x2000_0000);
    let entry = placement
        .load(&mut pt, &mut fa, &mut mem, space.pml4_frame, &img)
        .expect("load");
    assert_eq!(entry, 0x2000_0000 + 0x1000);
    assert_eq!(
        read_virt_byte(&pt, &mem, space.pml4_frame, 0x2000_1000),
        Some(b'H')
    );
}

#[test]
fn bad_magic_is_refused() {
    let (mut pt, kernel_root, mut fa) = booted();
    let mut mem = PhysMemory::new();
    let mut img = hello_world_image();
    img[0] = 0;
    assert_eq!(
        load_elf(&mut pt, &mut fa, &mut mem, kernel_root, &img, 0xFF00_0000),
        Err(ElfError::BadMagic)
    );
}

#[test]
fn wrong_class_is_refused() {
    let (mut pt, kernel_root, mut fa) = booted();
    let mut mem = PhysMemory::new();
    let mut img = hello_world_image();
    img[4] = 1;
    assert_eq!(
        load_elf(&mut pt, &mut fa, &mut mem, kernel_root, &img, 0xFF00_0000),
        Err(ElfError::UnsupportedClass)
    );
}

#[test]
fn kernel_half_segments_are_refused() {
    let (mut pt, kernel_root, mut fa) = booted();
    let mut mem = PhysMemory::new();
    let mut img = hello_world_image();
    // point the segment at the base of the kernel half
    img[80..88].copy_from_slice(&le64(0x8000_0000_0000));
    let space = AddressSpace::new(&mut pt, &mut fa, kernel_root).expect("space");
    assert_eq!(
        load_elf(&mut pt, &mut fa, &mut mem, space.pml4_frame, &img, 0x1000),
        Err(ElfError::SegmentOverlap)
    );
}

#[test]
fn hello_world_runs_to_finished(){
    // load the program as a task
    let (mut pt, kernel_root, mut fa) = booted();
    let mut mem = PhysMemory::new();
    let mut cpu = Cpu { cr3: kernel_root, recursive_index: 508 };
    let mut next_id = 1usize;
    let img = hello_world_image();
    let task = Task::binary(
        &mut pt,
        &mut fa,
        &mut mem,
        &mut cpu,
        kernel_root,
        &mut next_id,
        Some("hello_world"),
        &img,
        Some(Ring::Ring3),
        Some(0xFF00_0000),
    )
    .expect("task");
    // loading restored the kernel table
    assert_eq!(cpu.cr3, kernel_root);
    assert_eq!(cpu.recursive_index, 508);
    assert_eq!(task.entry, 0xFF00_0000 + 0x1000);
    assert_eq!(task.state, TaskState::New);
    let task_root = task.pml4_frame;
    let task_id = task.task_id.pid as u64;
    // admit and schedule it
    let mut sched = Scheduler::init();
    assert!(sched.add_task(task).is_ok());
    let decision = sched.schedule();
    assert_eq!(decision, SchedDecision::EnterNew(task_id));
    assert_eq!(sched.task_state(task_id), Some(TaskState::Running));
    // the program prints its string and exits
    let mut writer = test_writer();
    let r = dispatch(
        &pt,
        &mem,
        &mut writer,
        &mut sched,
        task_root,
        0,
        0,
        0xFF00_1000,
        5,
    );
    assert_eq!(r, SyscallAction::Completed);
    let written: String = writer.written.iter().collect();
    assert_eq!(written, "HELLO");
    let r = dispatch(&pt, &mem, &mut writer, &mut sched, task_root, 1, 0, 0, 0);
    assert_eq!(r, SyscallAction::Reschedule);
    assert_eq!(sched.task_state(task_id), Some(TaskState::Finished));
    // the scheduler drops the finished task and goes idle
    let decision = sched.schedule();
    assert_eq!(decision, SchedDecision::Idle);
    assert_eq!(sched.running_task(), None);
}

/// A static image like the hello-world one, with a section-header table
/// holding one relocation section of a single entry.  The entry's type
/// field is the caller's.
fn relocated_image(rtype: u32) -> Vec<u8> {
    let mut img = Vec::new();
    img.extend_from_slice(&[0x7f, b'E', b'L', b'F', 2, 1, 1, 0]);
    img.extend_from_slice(&[0u8; 8]);
    img.extend_from_slice(&le16(2)); // executable
    img.extend_from_slice(&le16(0x3e)); // x86_64
    img.extend_from_slice(&le32(1)); // version
    img.extend_from_slice(&le64(0x1000)); // entry
    img.extend_from_slice(&le64(64)); // program header table offset
    img.extend_from_slice(&le64(128)); // section header table offset
    img.extend_from_slice(&le32(0)); // flags
    img.extend_from_slice(&le16(64)); // header size
    img.extend_from_slice(&le16(56)); // program header size
    img.extend_from_slice(&le16(1)); // one program header
    img.extend_from_slice(&le16(64)); // section header size
    img.extend_from_slice(&le16(1)); // one section header
    img.extend_from_slice(&le16(0)); // no string table
    assert_eq!(img.len(), 64);
    // the one loadable segment
    img.extend_from_slice(&le32(1)); // loadable
    img.extend_from_slice(&le32(5)); // readable and executable
    img.extend_from_slice(&le64(120)); // file offset
    img.extend_from_slice(&le64(0x1000)); // virtual address
    img.extend_from_slice(&le64(0)); // physical address
    img.extend_from_slice(&le64(5)); // file size
    img.extend_from_slice(&le64(16)); // memory size
    img.extend_from_slice(&le64(0x1000)); // alignment
    assert_eq!(img.len(), 120);
    img.extend_from_slice(b"HELLO");
    img.extend_from_slice(&[0u8; 3]); // pad to the section header table
    assert_eq!(img.len(), 128);
    // the relocation section header
    img.extend_from_slice(&le32(0)); // no name
    img.extend_from_slice(&le32(4)); // a relocation section
    img.extend_from_slice(&le64(0)); // flags
    img.extend_from_slice(&le64(0)); // address
    img.extend_from_slice(&le64(192)); // offset of the entries
    img.extend_from_slice(&le64(24)); // one 24-byte entry
    img.extend_from_slice(&le32(0)); // link
    img.extend_from_slice(&le32(0)); // info
    img.extend_from_slice(&le64(8)); // alignment
    img.extend_from_slice(&le64(24)); // entry size
    assert_eq!(img.len(), 192);
    // the one relocation entry
    img.extend_from_slice(&le64(0x1008)); // where, from the load base
    img.extend_from_slice(&le64(rtype as u64)); // type, no symbol
    img.extend_from_slice(&le64(0x1234)); // addend
    img
}

#[test]
fn relative_relocation_writes_base_plus_addend() {
    let (mut pt, kernel_root, mut fa) = booted();
    let mut mem = PhysMemory::new();
    let space = AddressSpace::new(&mut pt, &mut fa, kernel_root).expect("space");
    let img = relocated_image(8);
    let entry = load_elf(&mut pt, &mut fa, &mut mem, space.pml4_frame, &img, 0xFF00_0000)
        .expect("load");
    assert_eq!(entry, 0xFF00_0000 + 0x1000);
    // the loader wrote the load base plus the addend, little-endian
    let value: u64 = 0xFF00_0000 + 0x1234;
    for m in 0..8u64 {
        assert_eq!(
            read_virt_byte(&pt, &mem, space.pml4_frame, 0xFF00_1008 + m),
            Some(((value >> (8 * m)) & 0xFF) as u8)
        );
    }
    // the bytes before the relocation target are untouched
    assert_eq!(
        read_virt_byte(&pt, &mem, space.pml4_frame, 0xFF00_1000),
        Some(b'H')
    );
}

#[test]
fn non_relative_relocation_is_refused() {
    let (mut pt, kernel_root, mut fa) = booted();
    let mut mem = PhysMemory::new();
    let space = AddressSpace::new(&mut pt, &mut fa, kernel_root).expect("space");
    let img = relocated_image(1);
    assert_eq!(
        load_elf(&mut pt, &mut fa, &mut mem, space.pml4_frame, &img, 0xFF00_0000),
        Err(ElfError::BadRelocation)
    );
}
