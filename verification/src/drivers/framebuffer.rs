use vstd::prelude::*;
use vstd::string::StringSliceAdditionalSpecFns;
use crate::font::psf::{
    backspace_target, cell_fits, lemma_text_run_ok_extend, pos_run, text_run, text_run_ok, Psf, TextPos,
    FONT_MIN_LEN,
};

verus! {

/// The screen: its pixel buffer (when the bootloader provided one), the
/// distance between lines in bytes, the number of lines, and the text
/// console drawn on it.
pub struct Framebuffer {
    pixels: Vec<u32>,
    pitch: usize,
    height: usize,
    attached: bool,
    psf: Psf,
}

impl Framebuffer {
    pub closed spec fn wf(&self) -> bool {
        self.psf.wf()
    }

    /// Whether a pixel buffer is attached.
    pub closed spec fn attached(&self) -> bool {
        self.attached
    }

    pub closed spec fn pixels(&self) -> Seq<u32> {
        self.pixels@
    }

    pub closed spec fn pitch(&self) -> usize {
        self.pitch
    }

    pub closed spec fn height(&self) -> usize {
        self.height
    }

    /// The text console.
    pub closed spec fn text(&self) -> Psf {
        self.psf
    }

    /// A screen with no pixel buffer yet and a console using `font`.
    pub fn new(font: Vec<u8>) -> (r: Self)
        requires
            font.len() >= FONT_MIN_LEN,
        ensures
            r.wf(),
            !r.attached(),
            r.pixels() == Seq::<u32>::empty(),
            r.text().font() == font@,
            r.text().pos() == (TextPos { x: 0, y: 0, prev_end: 0 }),
            r.text().cols() == 80,
            !r.text().cursor_shown(),
    {
        Framebuffer { pixels: Vec::new(), pitch: 0, height: 0, attached: false, psf: Psf::new(font) }
    }

    /// Attaches a pixel buffer of `height` lines `pitch` bytes apart, its
    /// `pitch * height` bytes taken as whole 32-bit pixels, that starts out
    /// with the screen's current contents `pixels`, and sets the
    /// console's column count from the `width` in pixels.
    pub fn init(&mut self, pitch: usize, width: usize, height: usize, pixels: Vec<u32>)
        requires
            old(self).wf(),
            pixels@.len() == (pitch * height) / 4,
        ensures
            final(self).wf(),
            final(self).attached(),
            final(self).pitch() == pitch,
            final(self).height() == height,
            final(self).pixels() == pixels@,
            final(self).text().cols() == width / 8,
            final(self).text().pos() == old(self).text().pos(),
            final(self).text().font() == old(self).text().font(),
            final(self).text().cursor_shown() == old(self).text().cursor_shown(),
    {
        self.pixels = pixels;
        self.pitch = pitch;
        self.height = height;
        self.attached = true;
        self.psf.set_screen_width(width);
    }

    /// The cursor and pixels after printing `s` in colour `fg` on black:
    /// unchanged without a pixel buffer.
    pub open spec fn after_print(&self, s: Seq<u8>, fg: u32) -> (TextPos, Seq<u32>) {
        if self.attached() {
            text_run(self.text().font(), (self.pitch() / 4) as int, fg, 0, self.text().pos(), self.pixels(), s)
        } else {
            (self.text().pos(), self.pixels())
        }
    }

    /// The cursor and pixels after clearing the screen: all pixels black and
    /// the cursor at the top left; unchanged without a pixel buffer.
    pub open spec fn after_clear(&self) -> (TextPos, Seq<u32>) {
        if self.attached() {
            (
                TextPos { x: 0, y: 0, prev_end: self.text().pos().prev_end },
                Seq::new(self.pixels().len(), |i: int| 0u32),
            )
        } else {
            (self.text().pos(), self.pixels())
        }
    }

    /// Two screens with the same buffer shape, font, columns and cursor
    /// visibility.
    pub open spec fn same_setup(&self, other: &Framebuffer) -> bool {
        &&& self.wf() == other.wf()
        &&& self.attached() == other.attached()
        &&& self.pitch() == other.pitch()
        &&& self.height() == other.height()
        &&& self.text().font() == other.text().font()
        &&& self.text().cols() == other.text().cols()
        &&& self.text().cursor_shown() == other.text().cursor_shown()
    }

    /// Printing `s` keeps every cursor position and pixel offset inside the
    /// address space (always true without a pixel buffer).
    pub open spec fn print_fits_spec(&self, s: Seq<u8>) -> bool {
        self.attached() ==> text_run_ok((self.pitch() / 4) as int, self.text().pos(), s)
    }

    /// Whether `s` can be printed without leaving the address space.
    pub fn print_fits(&self, s: &str) -> (r: bool)
        ensures
            r == self.print_fits_spec(s.spec_bytes()),
    {
        self.print_bytes_fits(s.as_bytes())
    }

    /// Whether the bytes `s` can be printed without leaving the address space.
    pub fn print_bytes_fits(&self, s: &[u8]) -> (r: bool)
        ensures
            r == self.print_fits_spec(s@),
    {
        if !self.attached {
            return true;
        }
        let bytes = s;
        let stride = self.pitch / 4;
        let ghost p0 = self.psf.pos();
        let mut x = self.psf.cursor_x();
        let mut y = self.psf.cursor_y();
        let mut prev = self.psf.prev_end_x();
        let mut i: usize = 0;
        proof {
            assert(bytes@.take(0) =~= Seq::<u8>::empty());
        }
        while i < bytes.len()
            invariant
                i <= bytes@.len(),
                bytes@ == s@,
                stride == self.pitch / 4,
                p0 == self.text().pos(),
                self.attached,
                pos_run(p0, bytes@.take(i as int)) == (TextPos { x, y, prev_end: prev }),
                text_run_ok(stride as int, p0, bytes@.take(i as int)),
            decreases bytes@.len() - i,
        {
            let c = bytes[i];
            proof {
                assert(bytes@.take(i + 1).drop_last() =~= bytes@.take(i as int));
                assert(bytes@.take(i + 1).last() == c);
            }
            if c == 0x0A {
                match y.checked_add(16) {
                    None => {
                        proof {
                            lemma_text_run_ok_extend(stride as int, p0, bytes@, i as int);
                        }
                        return false;
                    },
                    Some(ny) => {
                        prev = x;
                        x = 0;
                        y = ny;
                    },
                }
            } else {
                let fits = Self::cell_fits_exec(stride, x, y) && x <= usize::MAX - 8;
                if !fits {
                    proof {
                        lemma_text_run_ok_extend(stride as int, p0, bytes@, i as int);
                    }
                    return false;
                }
                x = x + 8;
            }
            i = i + 1;
        }
        proof {
            assert(bytes@.take(bytes@.len() as int) =~= bytes@);
        }
        true
    }

    fn cell_fits_exec(stride: usize, x: usize, y: usize) -> (r: bool)
        ensures
            r == cell_fits(stride as int, x as int, y as int),
    {
        match y.checked_add(15) {
            None => false,
            Some(yy) => match yy.checked_mul(stride) {
                None => {
                    proof {
                        assert(yy * stride >= 0) by (nonlinear_arith) requires yy >= 0, stride >= 0;
                    }
                    false
                },
                Some(a) => match a.checked_add(x) {
                    None => false,
                    Some(b) => b.checked_add(7).is_some(),
                },
            },
        }
    }

    /// Backspace stays inside the address space (always true without a
    /// pixel buffer).
    pub fn backspace_fits(&self) -> (r: bool)
        ensures
            r == (self.attached() ==> (backspace_target(
                self.text().pos().x,
                self.text().pos().y,
                self.text().pos().prev_end,
            ) matches Some((nx, ny)) ==> cell_fits((self.pitch() / 4) as int, nx as int, ny as int))),
    {
        if !self.attached {
            return true;
        }
        let x = self.psf.cursor_x();
        let y = self.psf.cursor_y();
        if x >= 8 {
            Self::cell_fits_exec(self.pitch / 4, x - 8, y)
        } else if y >= 16 {
            Self::cell_fits_exec(self.pitch / 4, self.psf.prev_end_x(), y - 16)
        } else {
            true
        }
    }

    /// Drawing the cursor stays inside the address space (always true
    /// without a pixel buffer).
    pub fn cursor_fits(&self) -> (r: bool)
        ensures
            r == (self.attached() ==> cell_fits(
                (self.pitch() / 4) as int,
                self.text().pos().x as int,
                self.text().pos().y as int,
            )),
    {
        !self.attached || Self::cell_fits_exec(self.pitch / 4, self.psf.cursor_x(), self.psf.cursor_y())
    }

    /// Draws `s` at the console cursor in colour `fg` on black.
    pub fn print(&mut self, s: &str, fg: u32)
        requires
            old(self).wf(),
            old(self).print_fits_spec(s.spec_bytes()),
        ensures
            final(self).wf(),
            final(self).attached() == old(self).attached(),
            final(self).pitch() == old(self).pitch(),
            final(self).height() == old(self).height(),
            final(self).text().font() == old(self).text().font(),
            final(self).text().cols() == old(self).text().cols(),
            final(self).text().cursor_shown() == old(self).text().cursor_shown(),
            if old(self).attached() {
                (final(self).text().pos(), final(self).pixels()) == text_run(
                    old(self).text().font(),
                    (old(self).pitch() / 4) as int,
                    fg,
                    0,
                    old(self).text().pos(),
                    old(self).pixels(),
                    s.spec_bytes(),
                )
            } else {
                final(self).text().pos() == old(self).text().pos() && final(self).pixels() == old(self).pixels()
            },
    {
        if self.attached {
            self.psf.draw_str(&mut self.pixels, self.pitch, s, fg, 0x00000000);
        }
    }

    /// Draws the bytes `s` at the console cursor in colour `fg` on black.
    pub fn print_bytes(&mut self, s: &[u8], fg: u32)
        requires
            old(self).wf(),
            old(self).print_fits_spec(s@),
        ensures
            final(self).wf(),
            final(self).attached() == old(self).attached(),
            final(self).pitch() == old(self).pitch(),
            final(self).height() == old(self).height(),
            final(self).text().font() == old(self).text().font(),
            final(self).text().cols() == old(self).text().cols(),
            final(self).text().cursor_shown() == old(self).text().cursor_shown(),
            if old(self).attached() {
                (final(self).text().pos(), final(self).pixels()) == text_run(
                    old(self).text().font(),
                    (old(self).pitch() / 4) as int,
                    fg,
                    0,
                    old(self).text().pos(),
                    old(self).pixels(),
                    s@,
                )
            } else {
                final(self).text().pos() == old(self).text().pos() && final(self).pixels() == old(self).pixels()
            },
    {
        if self.attached {
            self.psf.draw_bytes(&mut self.pixels, self.pitch, s, fg, 0x00000000);
        }
    }

    /// Erases the character before the console cursor (see
    /// `Psf::backspace`); nothing without a pixel buffer.
    pub fn backspace(&mut self)
        requires
            old(self).wf(),
            old(self).attached() ==> (backspace_target(
                old(self).text().pos().x,
                old(self).text().pos().y,
                old(self).text().pos().prev_end,
            ) matches Some((nx, ny)) ==> cell_fits((old(self).pitch() / 4) as int, nx as int, ny as int)),
        ensures
            final(self).wf(),
            final(self).attached() == old(self).attached(),
            final(self).pitch() == old(self).pitch(),
            final(self).height() == old(self).height(),
            final(self).text().font() == old(self).text().font(),
            final(self).text().cols() == old(self).text().cols(),
            final(self).text().cursor_shown() == old(self).text().cursor_shown(),
            !old(self).attached() ==> final(self).text().pos() == old(self).text().pos()
                && final(self).pixels() == old(self).pixels(),
            old(self).attached() ==> match backspace_target(
                old(self).text().pos().x,
                old(self).text().pos().y,
                old(self).text().pos().prev_end,
            ) {
                None => final(self).text().pos() == old(self).text().pos() && final(self).pixels()
                    == old(self).pixels(),
                Some((nx, ny)) => {
                    &&& final(self).text().pos() == (TextPos {
                        x: nx,
                        y: ny,
                        prev_end: old(self).text().pos().prev_end,
                    })
                    &&& final(self).pixels() == crate::font::psf::paint(
                        old(self).pixels(),
                        crate::font::psf::glyph(old(self).text().font(), 0x20),
                        (old(self).pitch() / 4) as int,
                        nx as int,
                        ny as int,
                        0x00FFFFFF,
                        0,
                    )
                },
            },
    {
        if self.attached {
            self.psf.backspace(&mut self.pixels, self.pitch);
        }
    }

    /// Draws the console cursor; nothing without a pixel buffer.
    pub fn cursor_draw(&mut self)
        requires
            old(self).attached() ==> cell_fits(
                (old(self).pitch() / 4) as int,
                old(self).text().pos().x as int,
                old(self).text().pos().y as int,
            ),
        ensures
            final(self).wf() == old(self).wf(),
            final(self).attached() == old(self).attached(),
            final(self).pitch() == old(self).pitch(),
            final(self).height() == old(self).height(),
            final(self).text().pos() == old(self).text().pos(),
            final(self).text().font() == old(self).text().font(),
            final(self).text().cols() == old(self).text().cols(),
            if old(self).attached() {
                &&& final(self).text().cursor_shown()
                &&& final(self).pixels() == crate::font::psf::paint(
                    old(self).pixels(),
                    crate::font::psf::cursor_bits(),
                    (old(self).pitch() / 4) as int,
                    old(self).text().pos().x as int,
                    old(self).text().pos().y + 14,
                    0x00FFFFFF,
                    0,
                )
            } else {
                final(self).text().cursor_shown() == old(self).text().cursor_shown()
                    && final(self).pixels() == old(self).pixels()
            },
    {
        if self.attached {
            self.psf.cursor_draw(&mut self.pixels, self.pitch);
        }
    }

    /// Erases the console cursor; nothing without a pixel buffer.
    pub fn cursor_erase(&mut self)
        requires
            old(self).attached() ==> cell_fits(
                (old(self).pitch() / 4) as int,
                old(self).text().pos().x as int,
                old(self).text().pos().y as int,
            ),
        ensures
            final(self).wf() == old(self).wf(),
            final(self).attached() == old(self).attached(),
            final(self).pitch() == old(self).pitch(),
            final(self).height() == old(self).height(),
            final(self).text().pos() == old(self).text().pos(),
            final(self).text().font() == old(self).text().font(),
            final(self).text().cols() == old(self).text().cols(),
            if old(self).attached() {
                &&& !final(self).text().cursor_shown()
                &&& final(self).pixels() == crate::font::psf::paint(
                    old(self).pixels(),
                    crate::font::psf::cursor_bits(),
                    (old(self).pitch() / 4) as int,
                    old(self).text().pos().x as int,
                    old(self).text().pos().y + 14,
                    0,
                    0,
                )
            } else {
                final(self).text().cursor_shown() == old(self).text().cursor_shown()
                    && final(self).pixels() == old(self).pixels()
            },
    {
        if self.attached {
            self.psf.cursor_erase(&mut self.pixels, self.pitch);
        }
    }

    /// Flips the console cursor; nothing without a pixel buffer.
    pub fn cursor_toggle(&mut self)
        requires
            old(self).attached() ==> cell_fits(
                (old(self).pitch() / 4) as int,
                old(self).text().pos().x as int,
                old(self).text().pos().y as int,
            ),
        ensures
            final(self).wf() == old(self).wf(),
            final(self).attached() == old(self).attached(),
            final(self).pitch() == old(self).pitch(),
            final(self).height() == old(self).height(),
            final(self).text().pos() == old(self).text().pos(),
            final(self).text().font() == old(self).text().font(),
            final(self).text().cols() == old(self).text().cols(),
            if old(self).attached() {
                &&& final(self).text().cursor_shown() == !old(self).text().cursor_shown()
                &&& final(self).pixels() == crate::font::psf::paint(
                    old(self).pixels(),
                    crate::font::psf::cursor_bits(),
                    (old(self).pitch() / 4) as int,
                    old(self).text().pos().x as int,
                    old(self).text().pos().y + 14,
                    if old(self).text().cursor_shown() { 0u32 } else { 0x00FFFFFFu32 },
                    0,
                )
            } else {
                final(self).text().cursor_shown() == old(self).text().cursor_shown()
                    && final(self).pixels() == old(self).pixels()
            },
    {
        if self.attached {
            self.psf.cursor_toggle(&mut self.pixels, self.pitch);
        }
    }

    /// Blanks the whole screen and moves the cursor to the top left; nothing
    /// without a pixel buffer.
    pub fn clear(&mut self)
        ensures
            final(self).wf() == old(self).wf(),
            final(self).attached() == old(self).attached(),
            final(self).pitch() == old(self).pitch(),
            final(self).height() == old(self).height(),
            final(self).text().font() == old(self).text().font(),
            final(self).text().cols() == old(self).text().cols(),
            final(self).text().cursor_shown() == old(self).text().cursor_shown(),
            if old(self).attached() {
                &&& final(self).pixels() == Seq::new(old(self).pixels().len(), |i: int| 0u32)
                &&& final(self).text().pos() == (TextPos { x: 0, y: 0, prev_end: old(self).text().pos().prev_end })
            } else {
                final(self).pixels() == old(self).pixels() && final(self).text().pos() == old(self).text().pos()
            },
    {
        if !self.attached {
            return;
        }
        let mut i: usize = 0;
        while i < self.pixels.len()
            invariant
                i <= self.pixels.len(),
                self.pixels.len() == old(self).pixels.len(),
                self.attached == old(self).attached,
                self.psf == old(self).psf,
                self.pitch == old(self).pitch,
                self.height == old(self).height,
                forall|j: int| 0 <= j < i ==> self.pixels@[j] == 0,
            decreases self.pixels.len() - i,
        {
            self.pixels.set(i, 0);
            i = i + 1;
        }
        proof {
            assert(self.pixels@ =~= Seq::new(old(self).pixels@.len(), |i: int| 0u32));
        }
        self.psf.reset_cursor();
    }

    /// Moves the console cursor to the top left.
    pub fn reset_cursor(&mut self)
        ensures
            final(self).wf() == old(self).wf(),
            final(self).attached() == old(self).attached(),
            final(self).pitch() == old(self).pitch(),
            final(self).height() == old(self).height(),
            final(self).pixels() == old(self).pixels(),
            final(self).text().font() == old(self).text().font(),
            final(self).text().cols() == old(self).text().cols(),
            final(self).text().cursor_shown() == old(self).text().cursor_shown(),
            final(self).text().pos() == (TextPos { x: 0, y: 0, prev_end: old(self).text().pos().prev_end }),
    {
        self.psf.reset_cursor();
    }

    /// The console cursor's pixel position (column, row).
    pub fn cursor_position(&self) -> (r: (usize, usize))
        ensures
            r == (self.text().pos().x, self.text().pos().y),
    {
        (self.psf.cursor_x(), self.psf.cursor_y())
    }

    /// The pixels, as the screen should show them.
    pub fn pixel_buffer(&self) -> (r: &[u32])
        ensures
            r@ == self.pixels(),
    {
        self.pixels.as_slice()
    }
}

} // verus!
