//! Scheduler fairness, syscall dispatch, interrupts, the filesystem
//! skeleton and the framebuffer writer.

use blanc_os::boot::boot_environment;
use blanc_os::frame::PhysFrameAllocator;
use blanc_os::fs::{FileContents, FileHandle, FileTable, FileTypeFlags, Metadata, OFlags, RamNode};
use blanc_os::interrupts::{init_idt, page_fault_decision, HandlerKind, InterruptIndex,
    PageFaultOutcome};
use blanc_os::mem::PhysMemory;
use blanc_os::page_table::{PageTables, PRESENT, WRITABLE, USER_ACCESSIBLE};
use blanc_os::printer::{FrameBufferInfo, PixelFormat, Writer};
use blanc_os::scheduler::{self, PidQueue, SchedDecision, Scheduler};
use blanc_os::syscall::{dispatch, SyscallAction};
use blanc_os::task::{Ring, Task, TaskID, TaskState};
use blanc_os::virt::{TaskMapping, TaskMemoryMap, MAP_ANONYMOUS, MAP_PRIVATE, PROT_READ,
    PROT_WRITE};

fn dummy_task(pid: usize) -> Task {
    Task {
        task_id: TaskID { pid },
        entry: 0x1000,
        pml4_frame: 0x5000 + pid as u64 * 4096,
        state: TaskState::New,
        name: "",
        ring: Ring::Ring3,
    }
}

fn test_writer() -> Writer {
    let info = FrameBufferInfo {
        horizontal_resolution: 64,
        vertical_resolution: 64,
        stride: 64,
        bytes_per_pixel: 4,
        pixel_format: PixelFormat::Bgr,
    };
    Writer::new(vec![0u8; 64 * 64 * 4], info)
}

#[test]
fn round_robin_runs_every_task_within_a_cycle() {
    let mut sched = Scheduler::init();
    for pid in 1..=3usize {
        assert!(sched.add_task(dummy_task(pid)).is_ok());
    }
    // new tasks first, in admission order
    assert_eq!(sched.schedule(), SchedDecision::EnterNew(1));
    assert_eq!(sched.schedule(), SchedDecision::EnterNew(2));
    assert_eq!(sched.schedule(), SchedDecision::EnterNew(3));
    // then pure rotation: each of the three runs once every three ticks
    for round in 0..3 {
        for pid in 1..=3u64 {
            assert_eq!(sched.schedule(), SchedDecision::ResumeReady(pid), "round {round}");
            assert_eq!(sched.task_state(pid), Some(TaskState::Running));
        }
    }
}

#[test]
fn scheduler_idles_without_tasks() {
    let mut sched = Scheduler::init();
    assert_eq!(sched.schedule(), SchedDecision::Idle);
    assert_eq!(sched.running_task(), None);
}

#[test]
fn unknown_syscall_numbers_are_ignored() {
    let (pt, root, _fa) = {
        let (mut pt, root, regions) =
            boot_environment(0x100000, 0x300000, 0x4000_0000, 0x4400_0000).expect("boot");
        let fa = PhysFrameAllocator::init(&regions, &mut pt, root).expect("allocator");
        (pt, root, fa)
    };
    let mem = PhysMemory::new();
    let mut writer = test_writer();
    let mut sched = Scheduler::init();
    let r = dispatch(&pt, &mem, &mut writer, &mut sched, root, 2, 0, 0, 0);
    assert_eq!(r, SyscallAction::Ignored);
    assert!(writer.written.is_empty());
}

#[test]
fn write_syscall_prints_the_pointed_word_in_decimal() {
    let (mut pt, root, regions) =
        boot_environment(0x100000, 0x300000, 0x4000_0000, 0x4400_0000).expect("boot");
    let mut fa = PhysFrameAllocator::init(&regions, &mut pt, root).expect("allocator");
    let mut mem = PhysMemory::new();
    let frame = fa.allocate_frame().unwrap();
    let pn = 0x7000u64 / 4096;
    pt.map_to(&mut fa, root, pn, frame, PRESENT | WRITABLE | USER_ACCESSIBLE).unwrap();
    mem.add_frame(frame);
    // nine 0xFF bytes are not UTF-8; the first eight read as one word
    for i in 0..9 {
        blanc_os::mem::write_virt_byte(&pt, &mut mem, root, 0x7000 + i, 0xFF);
    }
    let mut writer = test_writer();
    let mut sched = Scheduler::init();
    let r = dispatch(&pt, &mem, &mut writer, &mut sched, root, 0, 0, 0x7000, 9);
    assert_eq!(r, SyscallAction::Completed);
    let written: String = writer.written.iter().collect();
    assert_eq!(written, "18446744073709551615");
}

#[test]
fn write_syscall_of_unmapped_memory_prints_nothing() {
    let (pt, root, _fa) = {
        let (mut pt, root, regions) =
            boot_environment(0x100000, 0x300000, 0x4000_0000, 0x4400_0000).expect("boot");
        let fa = PhysFrameAllocator::init(&regions, &mut pt, root).expect("allocator");
        (pt, root, fa)
    };
    let mem = PhysMemory::new();
    let mut writer = test_writer();
    let mut sched = Scheduler::init();
    let r = dispatch(&pt, &mem, &mut writer, &mut sched, root, 0, 0, 0x9000, 4);
    assert_eq!(r, SyscallAction::Completed);
    assert!(writer.written.is_empty());
}

#[test]
fn interrupt_table_routes_the_devices() {
    let idt = init_idt();
    assert_eq!(idt.entries.len(), 256);
    assert_eq!(idt.entries[3], HandlerKind::Exception);
    assert_eq!(idt.entries[32], HandlerKind::Timer);
    assert_eq!(idt.entries[33], HandlerKind::Keyboard);
    assert_eq!(idt.entries[44], HandlerKind::Mouse);
    assert_eq!(idt.entries[46], HandlerKind::PrimaryAta);
    assert_eq!(idt.entries[128], HandlerKind::Syscall);
    assert_eq!(idt.entries[200], HandlerKind::Unassigned);
    assert_eq!(InterruptIndex::Timer.as_u8(), 32);
    assert_eq!(InterruptIndex::Keyboard.as_u8(), 33);
    assert_eq!(InterruptIndex::Mouse.as_u8(), 44);
    assert_eq!(InterruptIndex::PrimAta.as_u8(), 46);
    assert_eq!(
        page_fault_decision(blanc_os::interrupts::PF_INSTRUCTION_FETCH, true),
        PageFaultOutcome::FatalToTask
    );
    assert_eq!(page_fault_decision(0, false), PageFaultOutcome::Halt);
}

#[test]
fn private_anonymous_faults_grow_the_task() {
    let (mut pt, root, regions) =
        boot_environment(0x100000, 0x300000, 0x4000_0000, 0x4400_0000).expect("boot");
    let mut fa = PhysFrameAllocator::init(&regions, &mut pt, root).expect("allocator");
    let mut mem = PhysMemory::new();
    let mut map = TaskMemoryMap::new();
    map.mappings.push(TaskMapping {
        protocol: PROT_READ | PROT_WRITE,
        flags: MAP_PRIVATE | MAP_ANONYMOUS,
        start_addr: 0x5000,
        end_addr: 0x9000,
        file: None,
    });
    // a write fault inside the area maps one page
    assert!(map.page_fault_handler(&mut pt, &mut fa, &mut mem, root, 2, 0x6123));
    assert!(pt.translate(root, 0x6123 / 4096).is_some());
    // a fault outside every area is refused
    assert!(!map.page_fault_handler(&mut pt, &mut fa, &mut mem, root, 2, 0xA000));
    // a write fault in a read-only area is refused
    map.mappings.push(TaskMapping {
        protocol: PROT_READ,
        flags: MAP_PRIVATE | MAP_ANONYMOUS,
        start_addr: 0x2_0000,
        end_addr: 0x2_4000,
        file: None,
    });
    assert!(!map.page_fault_handler(&mut pt, &mut fa, &mut mem, root, 2, 0x2_1000));
}

#[test]
fn file_handles_read_and_write_at_the_cursor() {
    let node = RamNode {
        id: 1,
        file_type: FileTypeFlags::file(),
        contents: FileContents::Content(vec![10, 11, 12, 13, 14]),
    };
    let handle = FileHandle::new(3, node, OFlags { bits: blanc_os::fs::O_RDWR });
    assert_eq!(handle.fd, 3);
    let mut buf = Vec::new();
    handle.read(&mut buf, 3);
    assert_eq!(buf, vec![10, 11, 12]);
    let mut handle = handle;
    handle.write(&vec![7, 8], 2);
    let mut buf2 = Vec::new();
    handle.read(&mut buf2, 5);
    assert_eq!(buf2, vec![7, 8, 12, 13, 14]);
}

#[test]
fn file_table_hands_out_the_lowest_descriptor() {
    let mut table = FileTable::new();
    let node = RamNode { id: 1, file_type: FileTypeFlags::file(), contents: FileContents::Empty };
    let fd = table.open_file(node, OFlags { bits: blanc_os::fs::O_RDONLY }).expect("fd");
    assert_eq!(fd, 0);
    assert!(table.get_handle(0).is_some());
    assert!(table.get_handle(1).is_none());
    let node2 = RamNode { id: 2, file_type: FileTypeFlags::file(), contents: FileContents::Empty };
    assert_eq!(table.open_file(node2, OFlags { bits: blanc_os::fs::O_RDONLY }), Ok(1));
}

#[test]
fn metadata_reports_its_fields() {
    let m = Metadata::new(5, FileTypeFlags::directory(), 0);
    assert!(m.is_directory());
    assert_eq!(*m.id(), 5);
    assert_eq!(*m.size(), 0);
    let f = Metadata::new(6, FileTypeFlags::file(), 42);
    assert!(!f.is_directory());
    assert_eq!(*f.size(), 42);
}

#[test]
fn pid_rotation_cycles_the_active_task() {
    let mut q = PidQueue::new();
    scheduler::add(&mut q, TaskID { pid: 1 });
    scheduler::add(&mut q, TaskID { pid: 2 });
    scheduler::add(&mut q, TaskID { pid: 3 });
    assert_eq!(scheduler::active_pid(&q).pid, 1);
    scheduler::change_active_pid(&mut q);
    assert_eq!(scheduler::active_pid(&q).pid, 2);
    scheduler::change_active_pid(&mut q);
    assert_eq!(scheduler::active_pid(&q).pid, 3);
    assert_eq!(scheduler::pop(&mut q).pid, 3);
    assert_eq!(scheduler::active_pid(&q).pid, 1);
}

#[test]
fn writer_renders_characters_and_logs_them() {
    let mut writer = test_writer();
    writer.write_char('A');
    // the glyph of a printable character paints at least one pixel
    assert!(writer.framebuffer.iter().any(|b| *b != 0));
    let chars: Vec<char> = vec!['B', '\n', 'C'];
    writer.write_str(&chars);
    let written: String = writer.written.iter().collect();
    assert_eq!(written, "AB\nC");
    writer.clear();
    assert!(writer.framebuffer.iter().all(|b| *b == 0));
    assert_eq!(writer.x_pos, 0);
    assert_eq!(writer.y_pos, 0);
}

#[test]
fn irq_path_wakes_the_consumer_exactly_when_queued() {
    let mut executor = blanc_os::executor::Executor::new();
    let mut stream = blanc_os::keyboard::ScancodeStream::new();
    // every queued scancode wakes the consumer task once
    for code in 1..=3u8 {
        assert!(blanc_os::interrupts::keyboard_interrupt(&mut stream, &mut executor, 7, code));
    }
    assert_eq!(executor.next_ready(), Some(7));
    assert_eq!(executor.next_ready(), Some(7));
    assert_eq!(executor.next_ready(), Some(7));
    assert_eq!(executor.next_ready(), None);
    // a dropped scancode wakes nothing
    for code in 0..100u8 {
        blanc_os::keyboard::add_scancode(&mut stream, code);
    }
    assert!(!blanc_os::interrupts::keyboard_interrupt(&mut stream, &mut executor, 7, 0xAA));
    assert_eq!(executor.next_ready(), None);
}

#[test]
fn empty_allocator_never_hands_out_frames() {
    let mut empty = blanc_os::frame::EmptyFrameAllocator;
    assert_eq!(empty.allocate_frame(), None);
    let mut bitmap_form = blanc_os::frame::EmptyFrameAllocator::as_bitmap();
    assert_eq!(bitmap_form.allocate_frame(), None);
}

#[test]
fn decimal_rendering_handles_zero_and_digits() {
    let mut writer = test_writer();
    blanc_os::syscall::write_decimal(&mut writer, 0);
    blanc_os::syscall::write_decimal(&mut writer, 1024);
    let written: String = writer.written.iter().collect();
    assert_eq!(written, "01024");
}

#[test]
fn packed_mouse_words_round_trip() {
    let w = blanc_os::mouse::pack_packet(0x08, 0x7F, 0xFF);
    assert_eq!(blanc_os::mouse::unpack_packet(w), (0x08, 0x7F, 0xFF));
}

#[test]
fn align_helpers_round_to_the_grid() {
    assert_eq!(blanc_os::addr::align_up(4097, 4096), 8192);
    assert_eq!(blanc_os::addr::align_up(4096, 4096), 4096);
    assert_eq!(blanc_os::addr::align_down(4097, 4096), 4096);
    assert_eq!(blanc_os::addr::page_number(0x1000), 1);
    let (i4, i3, i2, i1) = blanc_os::addr::page_indices(0x1000_0000 / 4096);
    assert_eq!((i4, i3, i2, i1), (0, 0, 128, 0));
}
