//! The cooperative device paths: scancode order, ring overflow, mouse
//! packet assembly, cursor movement and the executor's ready ring.

use blanc_os::executor::{Executor, TaskWaker};
use blanc_os::keyboard;
use blanc_os::keyboard::Key;
use blanc_os::mouse;
use blanc_os::mouse::MousePoint;

#[test]
fn scancodes_arrive_in_interrupt_order() {
    let mut stream = keyboard::ScancodeStream::new();
    for code in 1..=50u8 {
        assert!(keyboard::add_scancode(&mut stream, code));
    }
    for code in 1..=50u8 {
        assert_eq!(stream.poll_next(), Some(code));
    }
    assert_eq!(stream.poll_next(), None);
    assert_eq!(stream.dropped, 0);
}

#[test]
fn scancode_overflow_drops_and_warns_once() {
    let mut stream = keyboard::ScancodeStream::new();
    for code in 0..101usize {
        keyboard::add_scancode(&mut stream, code as u8);
    }
    // the push count stays at the ring's capacity, one warning recorded
    assert_eq!(stream.dropped, 1);
    let mut count = 0;
    while let Some(_) = stream.poll_next() {
        count += 1;
    }
    assert_eq!(count, 100);
}

#[test]
fn keyboard_decodes_a_make_code() {
    let mut kb = keyboard::new_us_keyboard();
    // scancode set one: 0x1E is the make code of the A key
    let ev = keyboard::keyboard_add_byte(&mut kb, 0x1E).expect("key event");
    let key = keyboard::keyboard_process_keyevent(&mut kb, ev).expect("decoded");
    assert_eq!(key, Key::Unicode('a'));
}

#[test]
fn mouse_packets_assemble_in_threes() {
    let mut stream = mouse::ScancodeStream::new();
    assert!(!mouse::add_scancode(&mut stream, 0x08));
    assert!(!mouse::add_scancode(&mut stream, 0x05));
    assert!(mouse::add_scancode(&mut stream, 0xFF));
    assert_eq!(stream.poll_next(), Some((0x08, 0x05, 0xFF)));
    assert_eq!(stream.poll_next(), None);
    // a first byte without the sync bit is discarded and assembly restarts
    assert!(!mouse::add_scancode(&mut stream, 0x00));
    assert!(!mouse::add_scancode(&mut stream, 0x09));
    assert!(!mouse::add_scancode(&mut stream, 0x01));
    assert!(mouse::add_scancode(&mut stream, 0x02));
    assert_eq!(stream.poll_next(), Some((0x09, 0x01, 0x02)));
}

#[test]
fn mouse_point_moves_and_clamps() {
    let mut p = MousePoint::new();
    assert_eq!((p.x, p.y), (0, 0));
    // x grows by dx; y is inverted into screen coordinates and clamps
    p.apply_packet(0, 5, 3, 100, 100);
    assert_eq!((p.x, p.y), (5, 0));
    // a negative x movement of six: 256 - 250
    p.apply_packet(mouse::XSIGN, 250, 0, 100, 100);
    assert_eq!(p.x, 0);
    // a negative y movement moves the cursor down the screen
    p.apply_packet(mouse::YSIGN, 0, 246, 100, 100);
    assert_eq!(p.y, 10);
    // clamping at the far edge
    p.apply_packet(0, 255, 0, 100, 100);
    assert_eq!(p.x, 99);
}

#[test]
fn keyboard_consumer_prints_decoded_keys() {
    let info = blanc_os::printer::FrameBufferInfo {
        horizontal_resolution: 64,
        vertical_resolution: 64,
        stride: 64,
        bytes_per_pixel: 1,
        pixel_format: blanc_os::printer::PixelFormat::U8,
    };
    let mut writer = blanc_os::printer::Writer::new(vec![0u8; 64 * 64], info);
    let mut stream = keyboard::ScancodeStream::new();
    let mut decoder = keyboard::new_us_keyboard();
    // the make and break codes of the A key
    keyboard::add_scancode(&mut stream, 0x1E);
    keyboard::add_scancode(&mut stream, 0x9E);
    assert!(keyboard::print_keypresses(&mut stream, &mut decoder, &mut writer));
    assert!(keyboard::print_keypresses(&mut stream, &mut decoder, &mut writer));
    assert!(!keyboard::print_keypresses(&mut stream, &mut decoder, &mut writer));
    let written: String = writer.written.iter().collect();
    assert_eq!(written, "a");
}

#[test]
fn mouse_consumer_moves_and_paints_the_cursor() {
    let info = blanc_os::printer::FrameBufferInfo {
        horizontal_resolution: 64,
        vertical_resolution: 64,
        stride: 64,
        bytes_per_pixel: 1,
        pixel_format: blanc_os::printer::PixelFormat::U8,
    };
    let mut writer = blanc_os::printer::Writer::new(vec![0u8; 64 * 64], info);
    let mut stream = mouse::ScancodeStream::new();
    let mut point = MousePoint::new();
    for code in [0x08u8, 0x05, 0xFF] {
        mouse::add_scancode(&mut stream, code);
    }
    assert!(mouse::print_mouse(&mut stream, &mut point, &mut writer));
    assert!(!mouse::print_mouse(&mut stream, &mut point, &mut writer));
    assert_eq!(point.x, 5);
    // dy 0xFF with no sign flag moves one pixel up, clamped at the top
    assert_eq!(point.y, 0);
    assert!(writer.framebuffer.iter().any(|b| *b != 0));
}

#[test]
fn executor_wakes_run_in_order() {
    let mut executor = Executor::new();
    assert!(executor.should_sleep());
    assert!(executor.spawn(7));
    let waker = TaskWaker::new(9);
    assert!(waker.wake(&mut executor));
    assert!(!executor.should_sleep());
    assert_eq!(executor.next_ready(), Some(7));
    assert_eq!(executor.next_ready(), Some(9));
    assert_eq!(executor.next_ready(), None);
    assert!(executor.should_sleep());
}
