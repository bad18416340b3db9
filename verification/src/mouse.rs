//! The mouse path: the IRQ handler assembles raw bytes into three-byte
//! packets — the first byte must carry the sync bit — and queues each
//! complete packet atomically; the consumer turns packets into cursor
//! movements, clamped to the screen.

use vstd::prelude::*;

verus! {

use crate::queues::{id_queue_view, id_queue_cap, new_id_queue, id_queue_push, id_queue_pop};

/// Capacity of the mouse packet ring.
pub const MOUSE_CAPACITY: usize = 100;

/// Flag bit of the first packet byte: left button.
pub const LEFT_BUTTON: u8 = 1;

/// Flag bit of the first packet byte: right button.
pub const RIGHT_BUTTON: u8 = 2;

/// Flag bit of the first packet byte: middle button.
pub const MIDDLE_BUTTON: u8 = 4;

/// Flag bit of the first packet byte: always set on a packet's first
/// byte, used to resynchronize the stream.
pub const SYNC_BIT: u8 = 8;

/// Flag bit of the first packet byte: the x movement is negative.
pub const XSIGN: u8 = 16;

/// Flag bit of the first packet byte: the y movement is negative.
pub const YSIGN: u8 = 32;

/// Flag bit of the first packet byte: the x movement overflowed.
pub const XOVERFLOW: u8 = 64;

/// Flag bit of the first packet byte: the y movement overflowed.
pub const YOVERFLOW: u8 = 128;

/// A three-byte packet packed into one word: flags, then dx, then dy.
pub open spec fn spec_pack(b0: u8, b1: u8, b2: u8) -> int {
    b0 + 0x100 * b1 + 0x10000 * b2
}

/// Packs a packet's three bytes into one queue word.
pub fn pack_packet(b0: u8, b1: u8, b2: u8) -> (r: u64)
    ensures
        r == spec_pack(b0, b1, b2),
{
    (b0 as u64) + 0x100 * (b1 as u64) + 0x10000 * (b2 as u64)
}

/// Unpacks a queue word into the packet's three bytes.
pub fn unpack_packet(w: u64) -> (r: (u8, u8, u8))
    requires
        w < 0x100_0000,
    ensures
        w == spec_pack(r.0, r.1, r.2),
{
    proof {
        vstd::arithmetic::div_mod::lemma_fundamental_div_mod(w as int, 0x100);
        vstd::arithmetic::div_mod::lemma_mod_bound(w as int, 0x100);
        vstd::arithmetic::div_mod::lemma_fundamental_div_mod(w as int / 0x100, 0x100);
        vstd::arithmetic::div_mod::lemma_mod_bound(w as int / 0x100, 0x100);
    }
    ((w % 0x100) as u8, ((w / 0x100) % 0x100) as u8, ((w / 0x10000) % 0x100) as u8)
}

/// The mouse packet ring with the assembly state of the next packet.
pub struct ScancodeStream {
    /// Completed packets, packed three bytes to a word.
    pub queue: crossbeam_queue::ArrayQueue<u64>,
    /// How many bytes of the next packet have arrived: 0, 1 or 2.
    pub state: u8,
    /// First byte of the packet being assembled.
    pub b0: u8,
    /// Second byte of the packet being assembled.
    pub b1: u8,
    /// How many packets were dropped on a full ring.
    pub dropped: u64,
}

impl ScancodeStream {
    /// The completed packets waiting to be consumed, oldest first.
    pub open spec fn packets(&self) -> Seq<u64> {
        id_queue_view(self.queue)
    }

    /// A valid assembler: the ring has its capacity, the byte counter
    /// stays below three, and every queued word packs three bytes.
    pub open spec fn wf(&self) -> bool {
        &&& id_queue_cap(self.queue) == MOUSE_CAPACITY
        &&& self.state < 3
        &&& forall|i: int| 0 <= i < self.packets().len() ==> self.packets()[i] < 0x100_0000
    }

    /// An empty stream over a ring of one hundred packets.
    pub fn new() -> (r: ScancodeStream)
        ensures
            r.wf(),
            r.packets() == Seq::<u64>::empty(),
            r.state == 0,
            r.dropped == 0,
    {
        ScancodeStream {
            queue: new_id_queue(MOUSE_CAPACITY),
            state: 0,
            b0: 0,
            b1: 0,
            dropped: 0,
        }
    }

    /// Takes the oldest complete packet, or reports an empty ring.
    pub fn poll_next(&mut self) -> (r: Option<(u8, u8, u8)>)
        requires
            old(self).wf(),
        ensures
            final(self).wf(),
            final(self).state == old(self).state,
            old(self).packets().len() > 0 ==> (r matches Some(p) && old(self).packets()[0]
                == spec_pack(p.0, p.1, p.2) && final(self).packets() == old(
                self,
            ).packets().drop_first()),
            old(self).packets().len() == 0 ==> r is None && final(self).packets() == old(
                self,
            ).packets(),
    {
        let ghost ops = self.packets();
        match id_queue_pop(&mut self.queue) {
            Some(w) => {
                proof {
                    assert(ops[0] < 0x100_0000);
                    assert forall|i: int|
                        0 <= i < self.packets().len() implies self.packets()[i]
                        < 0x100_0000 by {
                        assert(self.packets()[i] == ops[i + 1]);
                    }
                }
                Some(unpack_packet(w))
            },
            None => None,
        }
    }
}

/// Called by the mouse interrupt with one raw byte.  The first byte of a
/// packet is accepted only with its sync bit set; after three bytes the
/// packet is queued atomically and assembly restarts.  A full ring drops
/// the packet and logs one warning.
pub fn add_scancode(stream: &mut ScancodeStream, scancode: u8) -> (woke: bool)
    requires
        old(stream).wf(),
        old(stream).dropped < u64::MAX,
    ensures
        final(stream).wf(),
        // byte one: kept only with the sync bit, never queued
        old(stream).state == 0 && scancode & SYNC_BIT == SYNC_BIT ==> !woke && final(stream).state
            == 1 && final(stream).b0 == scancode && final(stream).packets() == old(
            stream,
        ).packets() && final(stream).dropped == old(stream).dropped,
        // a first byte without the sync bit is discarded
        old(stream).state == 0 && scancode & SYNC_BIT != SYNC_BIT ==> !woke && final(stream).state
            == 0 && final(stream).packets() == old(stream).packets() && final(stream).dropped
            == old(stream).dropped,
        // byte two is stored
        old(stream).state == 1 ==> !woke && final(stream).state == 2 && final(stream).b0 == old(
            stream,
        ).b0 && final(stream).b1 == scancode && final(stream).packets() == old(stream).packets()
            && final(stream).dropped == old(stream).dropped,
        // byte three completes the packet
        old(stream).state == 2 && old(stream).packets().len() < MOUSE_CAPACITY ==> woke
            && final(stream).state == 0 && final(stream).packets() == old(stream).packets().push(
            spec_pack(old(stream).b0, old(stream).b1, scancode) as u64,
        ) && final(stream).dropped == old(stream).dropped,
        old(stream).state == 2 && old(stream).packets().len() >= MOUSE_CAPACITY ==> !woke
            && final(stream).state == 0 && final(stream).packets() == old(stream).packets()
            && final(stream).dropped == old(stream).dropped + 1,
{
    if stream.state == 0 {
        if scancode & SYNC_BIT == SYNC_BIT {
            stream.b0 = scancode;
            stream.state = 1;
        } else {
            stream.state = 0;
        }
        false
    } else if stream.state == 1 {
        stream.b1 = scancode;
        stream.state = 2;
        false
    } else {
        let ghost ops = stream.packets();
        let w = pack_packet(stream.b0, stream.b1, scancode);
        stream.state = 0;
        if id_queue_push(&mut stream.queue, w) {
            proof {
                assert forall|i: int|
                    0 <= i < stream.packets().len() implies stream.packets()[i]
                    < 0x100_0000 by {
                    if i < ops.len() {
                        assert(stream.packets()[i] == ops[i]);
                    } else {
                        assert(stream.packets()[i] == w);
                    }
                }
            }
            true
        } else {
            stream.dropped = stream.dropped + 1;
            false
        }
    }
}

/// One step of the mouse consumer: takes the oldest complete packet,
/// moves the cursor by it and paints the cursor's pixel.  Reports whether
/// a packet was consumed; with an empty ring the poll would suspend.
pub fn print_mouse(
    stream: &mut ScancodeStream,
    point: &mut MousePoint,
    writer: &mut crate::printer::Writer,
) -> (progress: bool)
    requires
        old(stream).wf(),
        old(writer).wf(),
        8 <= old(writer).info.horizontal_resolution <= 0x7000,
        8 <= old(writer).info.vertical_resolution <= 0x7000,
    ensures
        final(stream).wf(),
        final(writer).wf(),
        old(stream).packets().len() > 0 ==> progress && final(stream).packets() == old(
            stream,
        ).packets().drop_first() && ({
            let p = old(stream).packets()[0];
            &&& final(point).x == spec_clamp(
                spec_move_x(old(point).x as int, (p % 0x100) as u8, (p / 0x100 % 0x100) as int),
                old(writer).info.horizontal_resolution as int,
            )
            &&& final(point).y == spec_clamp(
                spec_move_y(old(point).y as int, (p % 0x100) as u8, (p / 0x10000 % 0x100) as int),
                old(writer).info.vertical_resolution as int,
            )
            // the cursor's pixel is painted at full intensity
            &&& (forall|m: int|
                0 <= m < old(writer).info.bytes_per_pixel
                    ==> #[trigger] final(writer).framebuffer@[(final(point).y * old(
                    writer,
                ).info.stride + final(point).x) * old(writer).info.bytes_per_pixel + m]
                    == crate::printer::spec_pixel_byte(old(writer).info.pixel_format, 255, m))
        }),
        old(stream).packets().len() == 0 ==> !progress && *final(point) == *old(point)
            && *final(writer) == *old(writer),
{
    let (flags, dx, dy) = match stream.poll_next() {
        Some(p) => p,
        None => {
            return false;
        },
    };
    let width = writer.width() as i16;
    let height = writer.height() as i16;
    proof {
        let p = old(stream).packets()[0];
        vstd::arithmetic::div_mod::lemma_fundamental_div_mod(p as int, 0x100);
        vstd::arithmetic::div_mod::lemma_mod_bound(p as int, 0x100);
        vstd::arithmetic::div_mod::lemma_fundamental_div_mod(p as int / 0x100, 0x100);
        vstd::arithmetic::div_mod::lemma_mod_bound(p as int / 0x100, 0x100);
        lemma_packet_bytes(p, flags, dx, dy);
    }
    point.apply_packet(flags, dx, dy, width, height);
    let x = if point.x < 0 {
        0usize
    } else {
        point.x as usize
    };
    let y = if point.y < 0 {
        0usize
    } else {
        point.y as usize
    };
    if x < writer.width() && y < writer.height() {
        writer.write_pixel(x, y, 255);
    }
    true
}

/// A packed word below 2^24 determines its three bytes.
proof fn lemma_packet_bytes(p: u64, b0: u8, b1: u8, b2: u8)
    requires
        p < 0x100_0000,
        p == spec_pack(b0, b1, b2),
    ensures
        b0 == p % 0x100,
        b1 == p / 0x100 % 0x100,
        b2 == p / 0x10000 % 0x100,
{
    vstd::arithmetic::div_mod::lemma_fundamental_div_mod_converse(
        p as int,
        0x100,
        b1 + 0x100 * b2,
        b0 as int,
    );
    vstd::arithmetic::div_mod::lemma_fundamental_div_mod_converse(
        b1 + 0x100 * b2,
        0x100,
        b2 as int,
        b1 as int,
    );
    vstd::arithmetic::div_mod::lemma_fundamental_div_mod_converse(
        p as int,
        0x10000,
        b2 as int,
        b0 + 0x100 * b1,
    );
}

/// The cursor position in screen coordinates.
pub struct MousePoint {
    /// Column, from the left edge.
    pub x: i16,
    /// Row, from the top edge.
    pub y: i16,
}

/// A value clamped into `[0, limit - 1]`.
pub open spec fn spec_clamp(v: int, limit: int) -> int {
    if v < 0 {
        0
    } else if v > limit - 1 {
        limit - 1
    } else {
        v
    }
}

/// The new column after a packet: add the movement, or subtract its
/// two's complement when the sign flag is set; the overflow flag adds a
/// further step of 255.
pub open spec fn spec_move_x(x: int, flags: u8, dx: int) -> int {
    if flags & XSIGN == 0 {
        if flags & XOVERFLOW != 0 {
            x + dx + 255
        } else {
            x + dx
        }
    } else {
        if flags & XOVERFLOW != 0 {
            x - (256 - dx) - 255
        } else {
            x - (256 - dx)
        }
    }
}

/// The new row after a packet: the y movement is inverted into screen
/// coordinates.
pub open spec fn spec_move_y(y: int, flags: u8, dy: int) -> int {
    if flags & YSIGN == 0 {
        if flags & YOVERFLOW != 0 {
            y - dy - 255
        } else {
            y - dy
        }
    } else {
        if flags & YOVERFLOW != 0 {
            y + (256 - dy) + 255
        } else {
            y + (256 - dy)
        }
    }
}

impl MousePoint {
    /// The cursor starts in the top-left corner.
    pub fn new() -> (r: MousePoint)
        ensures
            r.x == 0,
            r.y == 0,
    {
        MousePoint { x: 0, y: 0 }
    }

    /// Moves the cursor by one packet and clamps it to a screen of
    /// `width` by `height` pixels.
    pub fn apply_packet(&mut self, flags: u8, dx: u8, dy: u8, width: i16, height: i16)
        requires
            0 < width,
            0 < height,
        ensures
            final(self).x == spec_clamp(spec_move_x(old(self).x as int, flags, dx as int), width as int),
            final(self).y == spec_clamp(spec_move_y(old(self).y as int, flags, dy as int), height as int),
    {
        let mut nx: i32 = self.x as i32;
        let mut ny: i32 = self.y as i32;
        if flags & XSIGN == 0 {
            nx = nx + dx as i32;
            if flags & XOVERFLOW != 0 {
                nx = nx + 255;
            }
        } else {
            nx = nx - (256 - dx as i32);
            if flags & XOVERFLOW != 0 {
                nx = nx - 255;
            }
        }
        if flags & YSIGN == 0 {
            ny = ny - dy as i32;
            if flags & YOVERFLOW != 0 {
                ny = ny - 255;
            }
        } else {
            ny = ny + (256 - dy as i32);
            if flags & YOVERFLOW != 0 {
                ny = ny + 255;
            }
        }
        if nx < 0 {
            nx = 0;
        }
        if nx > width as i32 - 1 {
            nx = width as i32 - 1;
        }
        if ny < 0 {
            ny = 0;
        }
        if ny > height as i32 - 1 {
            ny = height as i32 - 1;
        }
        self.x = nx as i16;
        self.y = ny as i16;
    }
}

} // verus!
