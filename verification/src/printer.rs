//! The pixel framebuffer writer: renders characters as 8-by-8 glyphs
//! into a plain byte buffer, and keeps the stream of characters it has
//! accepted, which is what the write syscall's output is checked
//! against.

use vstd::prelude::*;

verus! {


/// How a pixel's bytes are laid out.
#[derive(Clone, Copy, Debug, PartialEq, Eq, Structural)]
pub enum PixelFormat {
    /// Red, green, blue.
    Rgb,
    /// Blue, green, red.
    Bgr,
    /// A single luminance byte.
    U8,
}

/// Shape of the framebuffer, as the boot handoff reports it.
#[derive(Clone, Copy, Debug, PartialEq, Eq, Structural)]
pub struct FrameBufferInfo {
    /// Visible pixels per row.
    pub horizontal_resolution: usize,
    /// Visible rows.
    pub vertical_resolution: usize,
    /// Pixels per row in memory, at least the horizontal resolution.
    pub stride: usize,
    /// Bytes each pixel occupies.
    pub bytes_per_pixel: usize,
    /// The pixel layout.
    pub pixel_format: PixelFormat,
}

/// The glyph bitmap of a character in the 8-by-8 basic font: eight rows
/// of eight pixels each.
pub uninterp spec fn glyph_of(c: char) -> Seq<u8>;

/// Relies on font8x8::UnicodeFonts::get on the basic font: the glyph of
/// a character, eight bytes, one per row.
#[verifier::external_body]
fn basic_glyph(c: char) -> (r: Option<Vec<u8>>)
    ensures
        (r matches Some(v) ==> v@ == glyph_of(c) && v@.len() == 8),
{
    match <font8x8::unicode::BasicFonts as font8x8::UnicodeFonts>::get(&font8x8::BASIC_FONTS, c) {
        Some(g) => {
            let mut v = Vec::new();
            v.extend_from_slice(&g);
            Some(v)
        },
        None => None,
    }
}

/// Channel byte `m` of a painted pixel: how an intensity lands in the
/// byte layout of each pixel format.
pub open spec fn spec_pixel_byte(format: PixelFormat, intensity: u8, m: int) -> u8 {
    match format {
        PixelFormat::Rgb => if m == 0 || m == 1 {
            intensity
        } else if m == 2 {
            intensity / 2
        } else {
            0
        },
        PixelFormat::Bgr => if m == 0 {
            intensity / 2
        } else if m == 1 || m == 2 {
            intensity
        } else {
            0
        },
        PixelFormat::U8 => if m == 0 {
            if intensity > 200 {
                0xf
            } else {
                0
            }
        } else {
            0
        },
    }
}

/// The intensity of glyph column `gx` in a row byte: full where the bit
/// is set, dark elsewhere.
pub open spec fn glyph_intensity(row: u8, gx: u8) -> u8 {
    if (row >> gx) & 1 == 0 {
        0
    } else {
        255
    }
}

/// Two distinct on-screen pixels occupy distinct pixel offsets.
proof fn lemma_pixel_offsets_distinct(stride: int, x1: int, y1: int, x2: int, y2: int)
    requires
        0 <= x1 < stride,
        0 <= x2 < stride,
        0 <= y1,
        0 <= y2,
        (x1, y1) != (x2, y2),
    ensures
        y1 * stride + x1 != y2 * stride + x2,
{
    if y1 == y2 {
    } else {
        assert(y1 * stride + x1 != y2 * stride + x2) by (nonlinear_arith)
            requires
                0 <= x1 < stride,
                0 <= x2 < stride,
                0 <= y1,
                0 <= y2,
                y1 != y2,
        ;
    }
}

/// Renders text into the framebuffer and logs every character accepted.
pub struct Writer {
    /// The pixel bytes.
    pub framebuffer: Vec<u8>,
    /// The framebuffer's shape.
    pub info: FrameBufferInfo,
    /// Column of the next glyph, in pixels.
    pub x_pos: usize,
    /// Row of the next glyph, in pixels.
    pub y_pos: usize,
    /// Every character accepted, in order: the writer's output stream.
    pub written: Vec<char>,
}

impl Writer {
    /// A well-formed writer: the buffer matches its shape, the glyph
    /// grid divides the screen, and the cursor is on the glyph grid.
    pub open spec fn wf(&self) -> bool {
        &&& self.framebuffer@.len() == self.info.stride * self.info.vertical_resolution
            * self.info.bytes_per_pixel
        &&& self.info.horizontal_resolution <= self.info.stride
        &&& 1 <= self.info.bytes_per_pixel <= 4
        &&& 8 <= self.info.horizontal_resolution
        &&& 8 <= self.info.vertical_resolution
        &&& self.info.horizontal_resolution % 8 == 0
        &&& self.info.vertical_resolution % 8 == 0
        &&& self.info.stride <= 4096
        &&& self.info.vertical_resolution <= 4096
        &&& self.x_pos % 8 == 0
        &&& self.y_pos % 8 == 0
        &&& self.x_pos <= self.info.horizontal_resolution
        &&& self.y_pos <= self.info.vertical_resolution
    }

    /// A writer over a cleared framebuffer.
    pub fn new(framebuffer: Vec<u8>, info: FrameBufferInfo) -> (r: Writer)
        requires
            framebuffer@.len() == info.stride * info.vertical_resolution * info.bytes_per_pixel,
            info.horizontal_resolution <= info.stride,
            1 <= info.bytes_per_pixel <= 4,
            8 <= info.horizontal_resolution,
            8 <= info.vertical_resolution,
            info.horizontal_resolution % 8 == 0,
            info.vertical_resolution % 8 == 0,
            info.stride <= 4096,
            info.vertical_resolution <= 4096,
        ensures
            r.wf(),
            r.info == info,
            r.x_pos == 0,
            r.y_pos == 0,
            r.written@ == Seq::<char>::empty(),
            forall|i: int| 0 <= i < r.framebuffer@.len() ==> r.framebuffer@[i] == 0,
    {
        let mut w = Writer { framebuffer, info, x_pos: 0, y_pos: 0, written: Vec::new() };
        w.clear();
        w
    }

    /// Erases the screen and homes the cursor.
    pub fn clear(&mut self)
        requires
            old(self).wf(),
        ensures
            final(self).wf(),
            final(self).info == old(self).info,
            final(self).written == old(self).written,
            final(self).x_pos == 0,
            final(self).y_pos == 0,
            final(self).framebuffer@.len() == old(self).framebuffer@.len(),
            forall|i: int|
                0 <= i < final(self).framebuffer@.len() ==> final(self).framebuffer@[i] == 0,
    {
        self.x_pos = 0;
        self.y_pos = 0;
        let n = self.framebuffer.len();
        let mut i: usize = 0;
        while i < n
            invariant
                i <= n,
                n == self.framebuffer@.len(),
                self.info == old(self).info,
                self.written == old(self).written,
                self.x_pos == 0,
                self.y_pos == 0,
                forall|m: int| 0 <= m < i ==> self.framebuffer@[m] == 0,
            decreases n - i,
        {
            self.framebuffer.set(i, 0);
            i = i + 1;
        }
    }

    /// Visible pixels per row.
    pub fn width(&self) -> (r: usize)
        ensures
            r == self.info.horizontal_resolution,
    {
        self.info.horizontal_resolution
    }

    /// Visible rows.
    pub fn height(&self) -> (r: usize)
        ensures
            r == self.info.vertical_resolution,
    {
        self.info.vertical_resolution
    }

    /// Moves the cursor to the start of the next glyph row.
    pub fn newline(&mut self)
        requires
            old(self).wf(),
            old(self).y_pos + 8 <= old(self).info.vertical_resolution,
        ensures
            final(self).wf(),
            final(self).info == old(self).info,
            final(self).written == old(self).written,
            final(self).framebuffer == old(self).framebuffer,
            final(self).x_pos == 0,
            final(self).y_pos == old(self).y_pos + 8,
    {
        self.y_pos = self.y_pos + 8;
        self.carriage_return()
    }

    /// Moves the cursor to the start of the row.
    pub fn carriage_return(&mut self)
        ensures
            *final(self) == (Writer { x_pos: 0, ..*old(self) }),
    {
        self.x_pos = 0;
    }

    /// Paints one pixel.  The byte layout follows the pixel format; the
    /// intensity fills the colour channels.
    pub fn write_pixel(&mut self, x: usize, y: usize, intensity: u8)
        requires
            old(self).wf(),
            x < old(self).info.horizontal_resolution,
            y < old(self).info.vertical_resolution,
        ensures
            final(self).wf(),
            final(self).info == old(self).info,
            final(self).written == old(self).written,
            final(self).x_pos == old(self).x_pos,
            final(self).y_pos == old(self).y_pos,
            final(self).framebuffer@.len() == old(self).framebuffer@.len(),
            // bytes off the painted pixel keep their values
            forall|i: int|
                0 <= i < old(self).framebuffer@.len() && !((y * old(self).info.stride + x)
                    * old(self).info.bytes_per_pixel <= i < (y * old(self).info.stride + x)
                    * old(self).info.bytes_per_pixel + old(self).info.bytes_per_pixel)
                    ==> final(self).framebuffer@[i] == old(self).framebuffer@[i],
            // the painted pixel takes the format's bytes for the intensity
            forall|m: int|
                0 <= m < old(self).info.bytes_per_pixel ==> final(self).framebuffer@[(y * old(
                    self,
                ).info.stride + x) * old(self).info.bytes_per_pixel + m] == spec_pixel_byte(
                    old(self).info.pixel_format,
                    intensity,
                    m,
                ),
    {
        proof {
            lemma_pixel_in_bounds(
                self.info.stride as int,
                self.info.vertical_resolution as int,
                self.info.bytes_per_pixel as int,
                x as int,
                y as int,
                self.info.horizontal_resolution as int,
            );
        }
        let pixel_offset = y * self.info.stride + x;
        let byte_offset = pixel_offset * self.info.bytes_per_pixel;
        let bpp = self.info.bytes_per_pixel;
        let c0: u8;
        let c1: u8;
        let c2: u8;
        match self.info.pixel_format {
            PixelFormat::Rgb => {
                c0 = intensity;
                c1 = intensity;
                c2 = intensity / 2;
            },
            PixelFormat::Bgr => {
                c0 = intensity / 2;
                c1 = intensity;
                c2 = intensity;
            },
            PixelFormat::U8 => {
                c0 = if intensity > 200 {
                    0xf
                } else {
                    0
                };
                c1 = 0;
                c2 = 0;
            },
        }
        let color = [c0, c1, c2, 0u8];
        let mut m: usize = 0;
        while m < bpp
            invariant
                m <= bpp,
                bpp == self.info.bytes_per_pixel,
                self.info == old(self).info,
                self.written == old(self).written,
                self.x_pos == old(self).x_pos,
                self.y_pos == old(self).y_pos,
                self.framebuffer@.len() == old(self).framebuffer@.len(),
                byte_offset + bpp <= self.framebuffer@.len(),
                byte_offset == (y * self.info.stride + x) * self.info.bytes_per_pixel,
                forall|i: int|
                    0 <= i < old(self).framebuffer@.len() && !(byte_offset <= i < byte_offset
                        + bpp) ==> self.framebuffer@[i] == old(self).framebuffer@[i],
                c0 == spec_pixel_byte(old(self).info.pixel_format, intensity, 0),
                c1 == spec_pixel_byte(old(self).info.pixel_format, intensity, 1),
                c2 == spec_pixel_byte(old(self).info.pixel_format, intensity, 2),
                forall|i: int|
                    0 <= i < m ==> self.framebuffer@[byte_offset + i] == spec_pixel_byte(
                        old(self).info.pixel_format,
                        intensity,
                        i,
                    ),
            decreases bpp - m,
        {
            let v = if m == 0 {
                c0
            } else if m == 1 {
                c1
            } else if m == 2 {
                c2
            } else {
                0
            };
            self.framebuffer.set(byte_offset + m, v);
            m = m + 1;
        }
    }

    /// Renders one glyph row-by-row at the cursor and advances it: each
    /// of the 64 pixels takes the format's bytes for its glyph intensity.
    fn write_rendered_char(&mut self, rendered: &Vec<u8>)
        requires
            old(self).wf(),
            rendered@.len() == 8,
            old(self).x_pos + 8 <= old(self).info.horizontal_resolution,
            old(self).y_pos + 8 <= old(self).info.vertical_resolution,
        ensures
            final(self).wf(),
            final(self).info == old(self).info,
            final(self).written == old(self).written,
            final(self).x_pos == old(self).x_pos + 8,
            final(self).y_pos == old(self).y_pos,
            final(self).framebuffer@.len() == old(self).framebuffer@.len(),
            forall|gy: int, gx: int, m: int|
                0 <= gy < 8 && 0 <= gx < 8 && 0 <= m < old(self).info.bytes_per_pixel
                    ==> #[trigger] final(self).framebuffer@[((old(self).y_pos + gy) * old(
                    self,
                ).info.stride + old(self).x_pos + gx) * old(self).info.bytes_per_pixel + m]
                    == spec_pixel_byte(
                    old(self).info.pixel_format,
                    glyph_intensity(rendered@[gy], gx as u8),
                    m,
                ),
    {
        let ghost x0 = old(self).x_pos as int;
        let ghost y0 = old(self).y_pos as int;
        let ghost stride = old(self).info.stride as int;
        let ghost bpp = old(self).info.bytes_per_pixel as int;
        let mut y: usize = 0;
        while y < 8
            invariant
                y <= 8,
                rendered@.len() == 8,
                self.wf(),
                self.info == old(self).info,
                self.written == old(self).written,
                self.x_pos == old(self).x_pos,
                self.y_pos == old(self).y_pos,
                self.x_pos + 8 <= self.info.horizontal_resolution,
                self.y_pos + 8 <= self.info.vertical_resolution,
                self.framebuffer@.len() == old(self).framebuffer@.len(),
                x0 == self.x_pos as int && y0 == self.y_pos as int,
                stride == self.info.stride as int && bpp == self.info.bytes_per_pixel as int,
                forall|gy: int, gx: int, m: int|
                    0 <= gy < y && 0 <= gx < 8 && 0 <= m < bpp ==> #[trigger] self.framebuffer@[((
                    y0 + gy) * stride + x0 + gx) * bpp + m] == spec_pixel_byte(
                        self.info.pixel_format,
                        glyph_intensity(rendered@[gy], gx as u8),
                        m,
                    ),
            decreases 8 - y,
        {
            let byte = rendered[y];
            let mut x: usize = 0;
            while x < 8
                invariant
                    x <= 8,
                    y < 8,
                    rendered@.len() == 8,
                    byte == rendered@[y as int],
                    self.wf(),
                    self.info == old(self).info,
                    self.written == old(self).written,
                    self.x_pos == old(self).x_pos,
                    self.y_pos == old(self).y_pos,
                    self.x_pos + 8 <= self.info.horizontal_resolution,
                    self.y_pos + 8 <= self.info.vertical_resolution,
                    self.framebuffer@.len() == old(self).framebuffer@.len(),
                    x0 == self.x_pos as int && y0 == self.y_pos as int,
                    stride == self.info.stride as int && bpp == self.info.bytes_per_pixel as int,
                    forall|gy: int, gx: int, m: int|
                        0 <= gy < y && 0 <= gx < 8 && 0 <= m < bpp
                            ==> #[trigger] self.framebuffer@[((y0 + gy) * stride + x0 + gx) * bpp
                            + m] == spec_pixel_byte(
                            self.info.pixel_format,
                            glyph_intensity(rendered@[gy], gx as u8),
                            m,
                        ),
                    forall|gx: int, m: int|
                        0 <= gx < x && 0 <= m < bpp ==> #[trigger] self.framebuffer@[((y0 + y)
                            * stride + x0 + gx) * bpp + m] == spec_pixel_byte(
                            self.info.pixel_format,
                            glyph_intensity(rendered@[y as int], gx as u8),
                            m,
                        ),
                decreases 8 - x,
            {
                let ghost fb_prev = self.framebuffer@;
                let alpha: u8 = if (byte >> x) & 1 == 0 {
                    0
                } else {
                    255
                };
                proof {
                    let xb = x as u8;
                    assert((byte >> x) & 1 == (byte >> xb) & 1) by (bit_vector)
                        requires
                            x < 8,
                            xb == x as u8,
                    ;
                }
                let px = self.x_pos + x;
                let py = self.y_pos + y;
                self.write_pixel(px, py, alpha);
                proof {
                    lemma_pixel_in_bounds(
                        stride,
                        self.info.vertical_resolution as int,
                        bpp,
                        px as int,
                        py as int,
                        self.info.horizontal_resolution as int,
                    );
                    let po = (py as int) * stride + px as int;
                    assert forall|gy: int, gx: int, m: int|
                        (0 <= gy < y && 0 <= gx < 8 && 0 <= m < bpp) || (gy == y && 0 <= gx < x
                            && 0 <= m < bpp) implies #[trigger] self.framebuffer@[((y0 + gy)
                        * stride + x0 + gx) * bpp + m] == spec_pixel_byte(
                        self.info.pixel_format,
                        glyph_intensity(rendered@[gy], gx as u8),
                        m,
                    ) by {
                        let qo = (y0 + gy) * stride + x0 + gx;
                        lemma_pixel_offsets_distinct(stride, x0 + gx, y0 + gy, px as int, py as int);
                        assert(qo * bpp + m < po * bpp || qo * bpp + m >= po * bpp + bpp)
                            by (nonlinear_arith)
                            requires
                                qo != po,
                                0 <= m < bpp,
                                1 <= bpp,
                        ;
                        lemma_pixel_in_bounds(
                            stride,
                            self.info.vertical_resolution as int,
                            bpp,
                            x0 + gx,
                            y0 + gy,
                            self.info.horizontal_resolution as int,
                        );
                        assert(self.framebuffer@[qo * bpp + m] == fb_prev[qo * bpp + m]);
                    }
                }
                x = x + 1;
            }
            y = y + 1;
        }
        self.x_pos = self.x_pos + 8;
    }

    /// Accepts one character: newline and carriage return move the
    /// cursor; anything else is rendered from the basic font, wrapping
    /// at the right edge and clearing at the bottom.  Every accepted
    /// character joins the output stream.
    pub fn write_char(&mut self, c: char)
        requires
            old(self).wf(),
        ensures
            final(self).wf(),
            final(self).info == old(self).info,
            final(self).written@ == old(self).written@.push(c),
    {
        if c == '\n' {
            if self.y_pos + 8 <= self.info.vertical_resolution - 8 {
                self.newline();
            } else {
                self.clear();
            }
        } else if c == '\r' {
            self.carriage_return();
        } else {
            if self.x_pos + 8 > self.info.horizontal_resolution {
                if self.y_pos + 8 <= self.info.vertical_resolution - 8 {
                    self.newline();
                } else {
                    self.clear();
                }
            }
            if self.y_pos + 8 > self.info.vertical_resolution {
                self.clear();
            }
            match basic_glyph(c) {
                Some(rendered) => {
                    if rendered.len() == 8 {
                        self.write_rendered_char(&rendered);
                    }
                },
                None => {
                    // no glyph in the basic font: the character is
                    // logged but nothing is drawn
                },
            }
        }
        self.written.push(c);
    }

    /// Accepts every character of a string, in order.
    pub fn write_str(&mut self, s: &[char])
        requires
            old(self).wf(),
        ensures
            final(self).wf(),
            final(self).info == old(self).info,
            final(self).written@ == old(self).written@ + s@,
    {
        let n = s.len();
        let mut i: usize = 0;
        while i < n
            invariant
                i <= n,
                n == s@.len(),
                self.wf(),
                self.info == old(self).info,
                self.written@ == old(self).written@ + s@.subrange(0, i as int),
            decreases n - i,
        {
            self.write_char(s[i]);
            proof {
                assert(old(self).written@ + s@.subrange(0, i as int) + seq![s@[i as int]]
                    =~= old(self).written@ + s@.subrange(0, i + 1));
            }
            i = i + 1;
        }
        proof {
            assert(s@.subrange(0, n as int) =~= s@);
        }
    }
}

/// The painted pixel's bytes lie inside the framebuffer.
proof fn lemma_pixel_in_bounds(stride: int, vres: int, bpp: int, x: int, y: int, hres: int)
    requires
        0 <= x < hres,
        hres <= stride,
        0 <= y < vres,
        1 <= bpp <= 4,
        stride <= 4096,
        vres <= 4096,
    ensures
        (y * stride + x) * bpp + bpp <= stride * vres * bpp,
        (y * stride + x) * bpp >= 0,
        y * stride + x >= 0,
        y * stride + x + 1 <= stride * vres,
        stride * vres <= 0x1000000,
        stride * vres * bpp <= 0x4000000,
{
    assert(y * stride + x + 1 <= stride * vres) by (nonlinear_arith)
        requires
            0 <= x < hres,
            hres <= stride,
            0 <= y < vres,
    ;
    assert(stride * vres <= 0x1000000) by (nonlinear_arith)
        requires
            0 <= stride <= 4096,
            0 <= vres <= 4096,
    ;
    assert((y * stride + x) * bpp + bpp <= stride * vres * bpp) by (nonlinear_arith)
        requires
            0 <= x < hres,
            hres <= stride,
            0 <= y < vres,
            1 <= bpp <= 4,
    ;
    assert((y * stride + x) * bpp >= 0) by (nonlinear_arith)
        requires
            0 <= x,
            0 <= y,
            0 <= stride,
            1 <= bpp,
    ;
    assert(stride * vres * bpp <= 0x4000000) by (nonlinear_arith)
        requires
            0 <= stride <= 4096,
            0 <= vres <= 4096,
            1 <= bpp <= 4,
    ;
}

/// The boot-time writer over the handed-off framebuffer.
pub fn init_logger(framebuffer: Vec<u8>, info: FrameBufferInfo) -> (r: Writer)
    requires
        framebuffer@.len() == info.stride * info.vertical_resolution * info.bytes_per_pixel,
        info.horizontal_resolution <= info.stride,
        1 <= info.bytes_per_pixel <= 4,
        8 <= info.horizontal_resolution,
        8 <= info.vertical_resolution,
        info.horizontal_resolution % 8 == 0,
        info.vertical_resolution % 8 == 0,
        info.stride <= 4096,
        info.vertical_resolution <= 4096,
    ensures
        r.wf(),
        r.info == info,
        r.written@ == Seq::<char>::empty(),
{
    Writer::new(framebuffer, info)
}

} // verus!
