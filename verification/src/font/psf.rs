use vstd::prelude::*;
use vstd::arithmetic::div_mod::lemma_fundamental_div_mod_converse;
use vstd::arithmetic::mul::lemma_mul_inequality;
use vstd::string::StringSliceAdditionalSpecFns;

verus! {

/// Bytes of the font file header before the first glyph.
pub const HEADER_SIZE: usize = 32;
/// Bytes per glyph: one per pixel row.
pub const BYTES_PER_GLYPH: usize = 16;
/// Glyph height in pixels.
pub const GLYPH_HEIGHT: usize = 16;
/// Glyph width in pixels.
pub const GLYPH_WIDTH: usize = 8;
/// First pixel row of the underline cursor inside a character cell.
pub const CURSOR_TOP: usize = 14;
/// Smallest font file that holds all 256 glyphs.
pub const FONT_MIN_LEN: usize = 4128;

/// Whether pixel column `col` (0 is leftmost) of a glyph row is set.
pub open spec fn bit_set(byte: u8, col: int) -> bool {
    byte & (0x80u8 >> (col as u8)) != 0
}

/// Which row and column of a `rows`-high, 8-wide box drawn at offset `base`
/// of a buffer with `stride` pixels per line lands on pixel `p`: of the cells
/// that land there, the one drawn last (rows are drawn top to bottom).
pub open spec fn cell(p: int, base: int, stride: int, rows: int) -> Option<(int, int)> {
    if p < base {
        None
    } else {
        let d = p - base;
        let r = if stride == 0 {
            rows - 1
        } else if d / stride < rows {
            d / stride
        } else {
            rows - 1
        };
        let c = d - r * stride;
        if 0 <= c < 8 {
            Some((r, c))
        } else {
            None
        }
    }
}

/// The pixels after drawing the bitmap `bits` (one byte per row, leftmost
/// pixel in the top bit) at column `x`, row `y`: set bits in `fg`, clear bits
/// in `bg`; pixels beyond the buffer are not drawn.
pub open spec fn paint(pix: Seq<u32>, bits: Seq<u8>, stride: int, x: int, y: int, fg: u32, bg: u32) -> Seq<u32> {
    Seq::new(
        pix.len(),
        |p: int|
            match cell(p, y * stride + x, stride, bits.len() as int) {
                Some((r, c)) => if bit_set(bits[r], c) {
                    fg
                } else {
                    bg
                },
                None => pix[p],
            },
    )
}

spec fn paint_upto(pix: Seq<u32>, bits: Seq<u8>, stride: int, x: int, y: int, fg: u32, bg: u32, row: int, col: int) -> Seq<u32> {
    Seq::new(
        pix.len(),
        |p: int|
            match cell(p, y * stride + x, stride, bits.len() as int) {
                Some((r, c)) => if r < row || (r == row && c < col) {
                    if bit_set(bits[r], c) {
                        fg
                    } else {
                        bg
                    }
                } else {
                    pix[p]
                },
                None => pix[p],
            },
    )
}

spec fn paint_prefix(pix: Seq<u32>, bits: Seq<u8>, stride: int, x: int, y: int, fg: u32, bg: u32, n: int) -> Seq<u32> {
    Seq::new(
        pix.len(),
        |p: int|
            match cell(p, y * stride + x, stride, bits.len() as int) {
                Some((r, c)) => if p - (y * stride + x) < n {
                    if bit_set(bits[r], c) {
                        fg
                    } else {
                        bg
                    }
                } else {
                    pix[p]
                },
                None => pix[p],
            },
    )
}

proof fn lemma_cell_of(base: int, stride: int, rows: int, row: int, col: int)
    requires
        stride >= 8,
        0 <= row < rows,
        0 <= col < 8,
    ensures
        cell(base + row * stride + col, base, stride, rows) == Some((row, col)),
{
    lemma_fundamental_div_mod_converse(row * stride + col, stride, row, col);
}

proof fn lemma_cell_unique(p: int, base: int, stride: int, rows: int)
    requires
        cell(p, base, stride, rows) is Some,
    ensures
        p == base + cell(p, base, stride, rows)->Some_0.0 * stride + cell(p, base, stride, rows)->Some_0.1,
{
}

proof fn lemma_cell_bound(p: int, base: int, stride: int, rows: int)
    requires
        cell(p, base, stride, rows) is Some,
        rows >= 1,
        stride >= 0,
    ensures
        0 <= cell(p, base, stride, rows)->Some_0.0 < rows,
        p - base <= (rows - 1) * stride + 7,
{
    let (r, c) = cell(p, base, stride, rows)->Some_0;
    let d = p - base;
    if stride > 0 {
        assert(d / stride >= 0) by (nonlinear_arith)
            requires d >= 0, stride > 0;
    }
    lemma_mul_inequality(r, rows - 1, stride);
}

/// Draws a bitmap box on a buffer at least 8 pixels wide, row by row.
fn paint_wide(fb: &mut Vec<u32>, bits: &[u8], stride: usize, x: usize, y: usize, fg: u32, bg: u32)
    requires
        stride >= 8,
        1 <= bits@.len() <= 16,
        (y + bits@.len() - 1) * stride + x + 7 <= usize::MAX,
    ensures
        final(fb)@ == paint(old(fb)@, bits@, stride as int, x as int, y as int, fg, bg),
{
    let ghost old_pix = fb@;
    let ghost base = y * stride + x;
    let ghost rows = bits@.len() as int;
    let mut row: usize = 0;
    proof {
        assert(fb@ =~= paint_upto(old_pix, bits@, stride as int, x as int, y as int, fg, bg, 0, 0));
    }
    while row < bits.len()
        invariant
            stride >= 8,
            1 <= bits@.len() <= 16,
            (y + bits@.len() - 1) * stride + x + 7 <= usize::MAX,
            row <= bits@.len(),
            rows == bits@.len(),
            base == y * stride + x,
            old_pix.len() == fb@.len(),
            fb@ == paint_upto(old_pix, bits@, stride as int, x as int, y as int, fg, bg, row as int, 0),
        decreases bits@.len() - row,
    {
        let byte = bits[row];
        let mut col: usize = 0;
        while col < GLYPH_WIDTH
            invariant
                stride >= 8,
                1 <= bits@.len() <= 16,
                (y + bits@.len() - 1) * stride + x + 7 <= usize::MAX,
                row < bits@.len(),
                col <= 8,
                rows == bits@.len(),
                base == y * stride + x,
                byte == bits@[row as int],
                old_pix.len() == fb@.len(),
                fb@ == paint_upto(old_pix, bits@, stride as int, x as int, y as int, fg, bg, row as int, col as int),
            decreases 8 - col,
        {
            proof {
                assert(y + row <= (y + rows - 1) * stride) by (nonlinear_arith)
                    requires stride >= 8, row <= rows - 1, y >= 0, row >= 0;
                lemma_mul_inequality(y + row, y + rows - 1, stride as int);
                assert((y + row) * stride == y * stride + row * stride) by (nonlinear_arith);
                lemma_cell_of(base, stride as int, rows, row as int, col as int);
            }
            let p = (y + row) * stride + (x + col);
            let pixel = if byte & (0x80u8 >> (col as u8)) != 0 {
                fg
            } else {
                bg
            };
            let ghost before = fb@;
            if p < fb.len() {
                fb.set(p, pixel);
            }
            proof {
                let next = paint_upto(old_pix, bits@, stride as int, x as int, y as int, fg, bg, row as int, col + 1);
                assert forall|q: int| 0 <= q < fb@.len() implies fb@[q] == next[q] by {
                    if cell(q, base, stride as int, rows) is Some {
                        lemma_cell_unique(q, base, stride as int, rows);
                    }
                }
                assert(fb@ =~= next);
            }
            col = col + 1;
        }
        proof {
            let a = paint_upto(old_pix, bits@, stride as int, x as int, y as int, fg, bg, row as int, 8);
            let b = paint_upto(old_pix, bits@, stride as int, x as int, y as int, fg, bg, row + 1, 0);
            assert(a =~= b);
        }
        row = row + 1;
    }
    proof {
        let a = paint_upto(old_pix, bits@, stride as int, x as int, y as int, fg, bg, rows, 0);
        let b = paint(old_pix, bits@, stride as int, x as int, y as int, fg, bg);
        assert forall|q: int| 0 <= q < a.len() implies a[q] == b[q] by {
            if cell(q, base, stride as int, rows) is Some {
                lemma_cell_bound(q, base, stride as int, rows);
            }
        }
        assert(a =~= b);
    }
}


/// Draws a bitmap box on a buffer less than 8 pixels wide, where the rows of
/// the box overlap: each pixel of the box is visited once and takes the cell
/// that the row-by-row drawing would leave there.
fn paint_narrow(fb: &mut Vec<u32>, bits: &[u8], stride: usize, x: usize, y: usize, fg: u32, bg: u32)
    requires
        stride < 8,
        1 <= bits@.len() <= 16,
        (y + bits@.len() - 1) * stride + x + 7 <= usize::MAX,
    ensures
        final(fb)@ == paint(old(fb)@, bits@, stride as int, x as int, y as int, fg, bg),
{
    let ghost old_pix = fb@;
    let rows = bits.len();
    proof {
        assert(y * stride + (rows - 1) * stride == (y + rows - 1) * stride) by (nonlinear_arith);
        assert(y * stride >= 0 && (rows - 1) * stride >= 0) by (nonlinear_arith)
            requires y >= 0, rows >= 1, stride >= 0;
        assert((rows - 1) * stride <= 105) by (nonlinear_arith)
            requires 1 <= rows <= 16, 0 <= stride < 8;
    }
    let base = y * stride + x;
    let n = (rows - 1) * stride + GLYPH_WIDTH;
    let mut d: usize = 0;
    proof {
        assert(fb@ =~= paint_prefix(old_pix, bits@, stride as int, x as int, y as int, fg, bg, 0));
    }
    while d < n
        invariant
            stride < 8,
            rows == bits@.len(),
            1 <= rows <= 16,
            base == y * stride + x,
            n == (rows - 1) * stride + 8,
            base + n - 1 <= usize::MAX,
            d <= n,
            old_pix.len() == fb@.len(),
            fb@ == paint_prefix(old_pix, bits@, stride as int, x as int, y as int, fg, bg, d as int),
        decreases n - d,
    {
        let r: usize = if stride == 0 {
            rows - 1
        } else if d / stride < rows {
            d / stride
        } else {
            rows - 1
        };
        proof {
            if stride > 0 {
                assert(r * stride <= d) by (nonlinear_arith)
                    requires
                        stride > 0,
                        r <= d / stride;
                assert((d / stride) * stride <= d) by (nonlinear_arith) requires stride > 0;
                if d / stride >= rows {
                    assert(r * stride <= (d / stride) * stride) by (nonlinear_arith)
                        requires r <= d / stride, stride > 0;
                }
            }
        }
        let c = d - r * stride;
        let ghost before = fb@;
        if c < GLYPH_WIDTH {
            let p = base + d;
            let pixel = if bits[r] & (0x80u8 >> (c as u8)) != 0 {
                fg
            } else {
                bg
            };
            if p < fb.len() {
                fb.set(p, pixel);
            }
        }
        proof {
            let next = paint_prefix(old_pix, bits@, stride as int, x as int, y as int, fg, bg, d + 1);
            assert(cell(base + d, base as int, stride as int, rows as int) == (if c < 8 {
                Some((r as int, c as int))
            } else {
                None
            }));
            assert forall|q: int| 0 <= q < fb@.len() implies fb@[q] == next[q] by {
            }
            assert(fb@ =~= next);
        }
        d = d + 1;
    }
    proof {
        let a = paint_prefix(old_pix, bits@, stride as int, x as int, y as int, fg, bg, n as int);
        let b = paint(old_pix, bits@, stride as int, x as int, y as int, fg, bg);
        assert forall|q: int| 0 <= q < a.len() implies a[q] == b[q] by {
            if cell(q, base as int, stride as int, rows as int) is Some {
                lemma_cell_bound(q, base as int, stride as int, rows as int);
            }
        }
        assert(a =~= b);
    }
}

/// Draws a bitmap box whatever the buffer's width.
fn paint_box(fb: &mut Vec<u32>, bits: &[u8], stride: usize, x: usize, y: usize, fg: u32, bg: u32)
    requires
        1 <= bits@.len() <= 16,
        (y + bits@.len() - 1) * stride + x + 7 <= usize::MAX,
    ensures
        final(fb)@ == paint(old(fb)@, bits@, stride as int, x as int, y as int, fg, bg),
{
    if stride >= GLYPH_WIDTH {
        paint_wide(fb, bits, stride, x, y, fg, bg);
    } else {
        paint_narrow(fb, bits, stride, x, y, fg, bg);
    }
}


/// The 16 row bytes of glyph `c` in a font file.
pub open spec fn glyph(font: Seq<u8>, c: u8) -> Seq<u8> {
    font.subrange(32 + c * 16, 32 + c * 16 + 16)
}

/// The bitmap of the underline cursor: two full rows.
pub open spec fn cursor_bits() -> Seq<u8> {
    seq![0xFFu8, 0xFFu8]
}

/// Where the text cursor stands, and where the previous line ended.
pub struct TextPos {
    pub x: usize,
    pub y: usize,
    pub prev_end: usize,
}

/// A glyph cell drawn at (`x`, `y`) stays inside the address space.
pub open spec fn cell_fits(stride: int, x: int, y: int) -> bool {
    &&& y + 15 <= usize::MAX
    &&& (y + 15) * stride + x + 7 <= usize::MAX
}

/// Byte `c` can be drawn from position `p` without leaving the address space.
pub open spec fn text_step_ok(p: TextPos, stride: int, c: u8) -> bool {
    if c == 0x0A {
        p.y + 16 <= usize::MAX
    } else {
        cell_fits(stride, p.x as int, p.y as int) && p.x + 8 <= usize::MAX
    }
}

/// Where the cursor goes for one byte of text: a newline moves to the start
/// of the next line (remembering where the line ended); any other byte moves
/// one cell right.
pub open spec fn pos_step(p: TextPos, c: u8) -> TextPos {
    if c == 0x0A {
        TextPos { x: 0, y: (p.y + 16) as usize, prev_end: p.x }
    } else {
        TextPos { x: (p.x + 8) as usize, y: p.y, prev_end: p.prev_end }
    }
}

/// Where the cursor goes for a run of text.
pub open spec fn pos_run(p: TextPos, s: Seq<u8>) -> TextPos
    decreases s.len(),
{
    if s.len() == 0 {
        p
    } else {
        pos_step(pos_run(p, s.drop_last()), s.last())
    }
}

/// One byte of text: the cursor moves as `pos_step` says, and any byte other
/// than a newline is drawn as its glyph in the cell the cursor was on.
pub open spec fn text_step(font: Seq<u8>, stride: int, fg: u32, bg: u32, p: TextPos, pix: Seq<u32>, c: u8) -> (TextPos, Seq<u32>) {
    if c == 0x0A {
        (pos_step(p, c), pix)
    } else {
        (pos_step(p, c), paint(pix, glyph(font, c), stride, p.x as int, p.y as int, fg, bg))
    }
}

/// A run of text, byte after byte.
pub open spec fn text_run(font: Seq<u8>, stride: int, fg: u32, bg: u32, p: TextPos, pix: Seq<u32>, s: Seq<u8>) -> (TextPos, Seq<u32>)
    decreases s.len(),
{
    if s.len() == 0 {
        (p, pix)
    } else {
        let (q, pix1) = text_run(font, stride, fg, bg, p, pix, s.drop_last());
        text_step(font, stride, fg, bg, q, pix1, s.last())
    }
}

/// Every byte of a run can be drawn from where the cursor stands by then
/// without leaving the address space.
pub open spec fn text_run_ok(stride: int, p: TextPos, s: Seq<u8>) -> bool
    decreases s.len(),
{
    if s.len() == 0 {
        true
    } else {
        &&& text_run_ok(stride, p, s.drop_last())
        &&& text_step_ok(pos_run(p, s.drop_last()), stride, s.last())
    }
}

/// A run is fine exactly when its first `i` bytes are and byte `i` can be
/// drawn from where they leave the cursor.
pub proof fn lemma_text_run_ok_extend(stride: int, p: TextPos, s: Seq<u8>, i: int)
    requires
        0 <= i < s.len(),
    ensures
        text_run_ok(stride, p, s.take(i + 1)) == (text_run_ok(stride, p, s.take(i)) && text_step_ok(
            pos_run(p, s.take(i)),
            stride,
            s[i],
        )),
        !text_step_ok(pos_run(p, s.take(i)), stride, s[i]) ==> !text_run_ok(stride, p, s),
    decreases s.len(),
{
    assert(s.take(i + 1).drop_last() =~= s.take(i));
    if !text_step_ok(pos_run(p, s.take(i)), stride, s[i]) {
        if text_run_ok(stride, p, s) {
            lemma_text_run_ok_prefix(stride, p, s, i + 1);
        }
    }
}

pub proof fn lemma_text_run_pos(font: Seq<u8>, stride: int, fg: u32, bg: u32, p: TextPos, pix: Seq<u32>, s: Seq<u8>)
    ensures
        text_run(font, stride, fg, bg, p, pix, s).0 == pos_run(p, s),
    decreases s.len(),
{
    if s.len() > 0 {
        lemma_text_run_pos(font, stride, fg, bg, p, pix, s.drop_last());
    }
}

proof fn lemma_text_run_ok_prefix(stride: int, p: TextPos, s: Seq<u8>, n: int)
    requires
        text_run_ok(stride, p, s),
        0 <= n <= s.len(),
    ensures
        text_run_ok(stride, p, s.take(n)),
    decreases s.len(),
{
    if n < s.len() {
        assert(s.drop_last().take(n) =~= s.take(n));
        lemma_text_run_ok_prefix(stride, p, s.drop_last(), n);
    } else {
        assert(s.take(n) =~= s);
    }
}

/// Where backspace moves the cursor from (`x`, `y`): one cell left, or to the
/// end of the previous line from the start of a line, or nowhere at the top
/// left corner.
pub open spec fn backspace_target(x: usize, y: usize, prev_end: usize) -> Option<(usize, usize)> {
    if x >= 8 {
        Some(((x - 8) as usize, y))
    } else if y >= 16 {
        Some((prev_end, (y - 16) as usize))
    } else {
        None
    }
}

/// The text console's font and cursor state.
pub struct Psf {
    font: Vec<u8>,
    cursor_x: usize,
    cursor_y: usize,
    screen_cols: usize,
    prev_line_end_x: usize,
    cursor_on: bool,
}

impl Psf {
    /// The font holds all 256 glyphs.
    pub closed spec fn wf(&self) -> bool {
        self.font.len() >= FONT_MIN_LEN
    }

    pub closed spec fn font(&self) -> Seq<u8> {
        self.font@
    }

    pub closed spec fn pos(&self) -> TextPos {
        TextPos { x: self.cursor_x, y: self.cursor_y, prev_end: self.prev_line_end_x }
    }

    pub closed spec fn cols(&self) -> usize {
        self.screen_cols
    }

    pub closed spec fn cursor_shown(&self) -> bool {
        self.cursor_on
    }

    /// Column of the cursor in pixels.
    pub fn cursor_x(&self) -> (r: usize)
        ensures
            r == self.pos().x,
    {
        self.cursor_x
    }

    /// Row of the cursor in pixels.
    pub fn cursor_y(&self) -> (r: usize)
        ensures
            r == self.pos().y,
    {
        self.cursor_y
    }

    /// Where the previous line ended, in pixels.
    pub fn prev_end_x(&self) -> (r: usize)
        ensures
            r == self.pos().prev_end,
    {
        self.prev_line_end_x
    }

    /// A console with `font`, the cursor at the top left, 80 columns, and the
    /// cursor not shown.
    pub fn new(font: Vec<u8>) -> (r: Self)
        requires
            font.len() >= FONT_MIN_LEN,
        ensures
            r.wf(),
            r.font() == font@,
            r.pos() == (TextPos { x: 0, y: 0, prev_end: 0 }),
            r.cols() == 80,
            !r.cursor_shown(),
    {
        Psf { font, cursor_x: 0, cursor_y: 0, screen_cols: 80, prev_line_end_x: 0, cursor_on: false }
    }

    /// Sets the number of text columns from the screen's width in pixels.
    pub fn set_screen_width(&mut self, pixel_width: usize)
        ensures
            final(self).cols() == pixel_width / 8,
            final(self).font() == old(self).font(),
            final(self).pos() == old(self).pos(),
            final(self).cursor_shown() == old(self).cursor_shown(),
            final(self).wf() == old(self).wf(),
    {
        self.screen_cols = pixel_width / GLYPH_WIDTH;
    }

    /// Moves the cursor to the top left corner.
    pub fn reset_cursor(&mut self)
        ensures
            final(self).pos() == (TextPos { x: 0, y: 0, prev_end: old(self).pos().prev_end }),
            final(self).font() == old(self).font(),
            final(self).cols() == old(self).cols(),
            final(self).cursor_shown() == old(self).cursor_shown(),
            final(self).wf() == old(self).wf(),
    {
        self.cursor_x = 0;
        self.cursor_y = 0;
    }

    /// Draws glyph `c` with its top left corner at pixel (`x`, `y`) of a
    /// buffer whose lines are `pitch` bytes apart.
    pub fn draw_char(&self, fb: &mut Vec<u32>, pitch: usize, x: usize, y: usize, c: u8, fg: u32, bg: u32)
        requires
            self.wf(),
            cell_fits((pitch / 4) as int, x as int, y as int),
        ensures
            final(fb)@ == paint(old(fb)@, glyph(self.font(), c), (pitch / 4) as int, x as int, y as int, fg, bg),
    {
        let index: usize = if (c as usize) < 256 {
            c as usize
        } else {
            0x3F
        };
        let glyph_offset = HEADER_SIZE + index * BYTES_PER_GLYPH;
        let mut rows = [0u8; 16];
        let mut i: usize = 0;
        while i < BYTES_PER_GLYPH
            invariant
                i <= 16,
                glyph_offset == 32 + c * 16,
                self.font.len() >= FONT_MIN_LEN,
                forall|j: int| 0 <= j < i ==> rows@[j] == self.font@[glyph_offset + j],
            decreases 16 - i,
        {
            rows[i] = self.font[glyph_offset + i];
            i = i + 1;
        }
        proof {
            assert(rows@ =~= glyph(self.font@, c));
        }
        let stride = pitch / 4;
        paint_box(fb, rows.as_slice(), stride, x, y, fg, bg);
    }

    /// Draws `s` at the cursor: newlines move to the next line, other bytes
    /// are drawn and move the cursor one cell right.
    pub fn draw_str(&mut self, fb: &mut Vec<u32>, pitch: usize, s: &str, fg: u32, bg: u32)
        requires
            old(self).wf(),
            text_run_ok((pitch / 4) as int, old(self).pos(), s.spec_bytes()),
        ensures
            final(self).wf(),
            (final(self).pos(), final(fb)@) == text_run(
                old(self).font(),
                (pitch / 4) as int,
                fg,
                bg,
                old(self).pos(),
                old(fb)@,
                s.spec_bytes(),
            ),
            final(self).font() == old(self).font(),
            final(self).cols() == old(self).cols(),
            final(self).cursor_shown() == old(self).cursor_shown(),
    {
        self.draw_bytes(fb, pitch, s.as_bytes(), fg, bg);
    }

    /// Draws the bytes `bytes` as `draw_str` draws a string.
    pub fn draw_bytes(&mut self, fb: &mut Vec<u32>, pitch: usize, bytes: &[u8], fg: u32, bg: u32)
        requires
            old(self).wf(),
            text_run_ok((pitch / 4) as int, old(self).pos(), bytes@),
        ensures
            final(self).wf(),
            (final(self).pos(), final(fb)@) == text_run(
                old(self).font(),
                (pitch / 4) as int,
                fg,
                bg,
                old(self).pos(),
                old(fb)@,
                bytes@,
            ),
            final(self).font() == old(self).font(),
            final(self).cols() == old(self).cols(),
            final(self).cursor_shown() == old(self).cursor_shown(),
    {
        let ghost font = self.font@;
        let ghost stride = (pitch / 4) as int;
        let ghost p0 = self.pos();
        let ghost pix0 = fb@;
        let mut i: usize = 0;
        proof {
            assert(bytes@.take(0) =~= Seq::<u8>::empty());
        }
        while i < bytes.len()
            invariant
                i <= bytes@.len(),
                self.wf(),
                self.font@ == font,
                stride == (pitch / 4) as int,
                text_run_ok(stride, p0, bytes@),
                (self.pos(), fb@) == text_run(font, stride, fg, bg, p0, pix0, bytes@.take(i as int)),
                self.screen_cols == old(self).screen_cols,
                self.cursor_on == old(self).cursor_on,
            decreases bytes@.len() - i,
        {
            let c = bytes[i];
            proof {
                lemma_text_run_ok_prefix(stride, p0, bytes@, i + 1);
                lemma_text_run_pos(font, stride, fg, bg, p0, pix0, bytes@.take(i as int));
                assert(bytes@.take(i + 1).drop_last() =~= bytes@.take(i as int));
                assert(bytes@.take(i + 1).last() == c);
            }
            if c == 0x0A {
                self.prev_line_end_x = self.cursor_x;
                self.cursor_y = self.cursor_y + GLYPH_HEIGHT;
                self.cursor_x = 0;
            } else {
                self.draw_char(fb, pitch, self.cursor_x, self.cursor_y, c, fg, bg);
                self.cursor_x = self.cursor_x + GLYPH_WIDTH;
            }
            i = i + 1;
        }
        proof {
            assert(bytes@.take(bytes@.len() as int) =~= bytes@);
        }
    }

    /// Moves the cursor back one cell (to the end of the previous line from
    /// the start of a line) and blanks that cell; does nothing at the top
    /// left corner.
    pub fn backspace(&mut self, fb: &mut Vec<u32>, pitch: usize)
        requires
            old(self).wf(),
            backspace_target(old(self).pos().x, old(self).pos().y, old(self).pos().prev_end) matches Some((nx, ny)) ==> cell_fits((pitch / 4) as int, nx as int, ny as int),
        ensures
            final(self).wf(),
            final(self).font() == old(self).font(),
            final(self).cols() == old(self).cols(),
            final(self).cursor_shown() == old(self).cursor_shown(),
            match backspace_target(old(self).pos().x, old(self).pos().y, old(self).pos().prev_end) {
                None => final(self).pos() == old(self).pos() && final(fb)@ == old(fb)@,
                Some((nx, ny)) => {
                    &&& final(self).pos() == (TextPos { x: nx, y: ny, prev_end: old(self).pos().prev_end })
                    &&& final(fb)@ == paint(old(fb)@, glyph(old(self).font(), 0x20), (pitch / 4) as int, nx as int, ny as int, 0x00FFFFFF, 0)
                },
            },
    {
        let x = self.cursor_x;
        let y = self.cursor_y;
        let (new_x, new_y) = if x >= GLYPH_WIDTH {
            (x - GLYPH_WIDTH, y)
        } else if y >= GLYPH_HEIGHT {
            (self.prev_line_end_x, y - GLYPH_HEIGHT)
        } else {
            return;
        };
        self.cursor_x = new_x;
        self.cursor_y = new_y;
        self.draw_char(fb, pitch, new_x, new_y, 0x20, 0x00FFFFFF, 0x00000000);
    }

    /// Draws the underline cursor under the current cell.
    pub fn cursor_draw(&mut self, fb: &mut Vec<u32>, pitch: usize)
        requires
            cell_fits((pitch / 4) as int, old(self).pos().x as int, old(self).pos().y as int),
        ensures
            final(fb)@ == paint(old(fb)@, cursor_bits(), (pitch / 4) as int, old(self).pos().x as int, old(self).pos().y + 14, 0x00FFFFFF, 0),
            final(self).cursor_shown(),
            final(self).pos() == old(self).pos(),
            final(self).font() == old(self).font(),
            final(self).cols() == old(self).cols(),
            final(self).wf() == old(self).wf(),
    {
        let bits = [0xFFu8, 0xFFu8];
        proof {
            assert(bits@ =~= cursor_bits());
        }
        paint_box(fb, bits.as_slice(), pitch / 4, self.cursor_x, self.cursor_y + CURSOR_TOP, 0x00FFFFFF, 0);
        self.cursor_on = true;
    }

    /// Erases the underline cursor under the current cell.
    pub fn cursor_erase(&mut self, fb: &mut Vec<u32>, pitch: usize)
        requires
            cell_fits((pitch / 4) as int, old(self).pos().x as int, old(self).pos().y as int),
        ensures
            final(fb)@ == paint(old(fb)@, cursor_bits(), (pitch / 4) as int, old(self).pos().x as int, old(self).pos().y + 14, 0, 0),
            !final(self).cursor_shown(),
            final(self).pos() == old(self).pos(),
            final(self).font() == old(self).font(),
            final(self).cols() == old(self).cols(),
            final(self).wf() == old(self).wf(),
    {
        let bits = [0xFFu8, 0xFFu8];
        proof {
            assert(bits@ =~= cursor_bits());
        }
        paint_box(fb, bits.as_slice(), pitch / 4, self.cursor_x, self.cursor_y + CURSOR_TOP, 0x00000000, 0);
        self.cursor_on = false;
    }

    /// Erases the cursor if it is shown, draws it otherwise.
    pub fn cursor_toggle(&mut self, fb: &mut Vec<u32>, pitch: usize)
        requires
            cell_fits((pitch / 4) as int, old(self).pos().x as int, old(self).pos().y as int),
        ensures
            final(fb)@ == paint(
                old(fb)@,
                cursor_bits(),
                (pitch / 4) as int,
                old(self).pos().x as int,
                old(self).pos().y + 14,
                if old(self).cursor_shown() { 0u32 } else { 0x00FFFFFFu32 },
                0,
            ),
            final(self).cursor_shown() == !old(self).cursor_shown(),
            final(self).pos() == old(self).pos(),
            final(self).font() == old(self).font(),
            final(self).cols() == old(self).cols(),
            final(self).wf() == old(self).wf(),
    {
        if self.cursor_on {
            self.cursor_erase(fb, pitch);
        } else {
            self.cursor_draw(fb, pitch);
        }
    }
}


/// Drawing a character and then pressing backspace puts the cursor back
/// where the character was drawn.
pub proof fn lemma_char_then_backspace(font: Seq<u8>, stride: int, fg: u32, bg: u32, p: TextPos, pix: Seq<u32>, c: u8)
    requires
        c != 0x0A,
        p.x + 8 <= usize::MAX,
    ensures
        ({
            let q = text_step(font, stride, fg, bg, p, pix, c).0;
            backspace_target(q.x, q.y, q.prev_end) == Some((p.x, p.y))
        }),
{
}

/// A newline followed by backspace puts the cursor back at the end of the
/// line it left.
pub proof fn lemma_newline_then_backspace(font: Seq<u8>, stride: int, fg: u32, bg: u32, p: TextPos, pix: Seq<u32>)
    requires
        p.y + 16 <= usize::MAX,
    ensures
        ({
            let q = text_step(font, stride, fg, bg, p, pix, 0x0A).0;
            backspace_target(q.x, q.y, q.prev_end) == Some((p.x, p.y))
        }),
{
}


/// Text joined from two pieces can be drawn exactly when the first piece can
/// and the second can from where the first leaves the cursor, which is
/// where the joined text leaves it after the first piece.
pub proof fn lemma_text_run_ok_concat(stride: int, p: TextPos, a: Seq<u8>, b: Seq<u8>)
    ensures
        pos_run(p, a + b) == pos_run(pos_run(p, a), b),
        text_run_ok(stride, p, a + b) == (text_run_ok(stride, p, a) && text_run_ok(stride, pos_run(p, a), b)),
    decreases b.len(),
{
    if b.len() == 0 {
        assert(a + b =~= a);
    } else {
        assert((a + b).drop_last() =~= a + b.drop_last());
        lemma_text_run_ok_concat(stride, p, a, b.drop_last());
    }
}

/// Drawing a byte other than a newline on a buffer at least 8 pixels wide:
/// pixel `k` (from the left) of row `r` (from the top) of the cell at the
/// cursor takes `fg` when bit `0x80 >> k` of font byte `32 + 16 * c + r` is
/// set and `bg` otherwise, so the glyph's first row lands on the cursor's
/// row; the cursor moves one cell right.
pub proof fn lemma_drawn_glyph_pixels(font: Seq<u8>, stride: int, fg: u32, bg: u32, p: TextPos, pix: Seq<u32>, c: u8)
    requires
        c != 0x0A,
        font.len() >= 4128,
        stride >= 8,
        (p.y + 15) * stride + p.x + 7 < pix.len(),
    ensures
        ({
            let (q, out) = text_run(font, stride, fg, bg, p, pix, seq![c]);
            &&& q == TextPos { x: (p.x + 8) as usize, y: p.y, prev_end: p.prev_end }
            &&& forall|r: int, k: int|
                0 <= r < 16 && 0 <= k < 8 ==> #[trigger] out[(p.y + r) * stride + p.x + k] == if font[32 + 16
                    * c + r] & (0x80u8 >> (k as u8)) != 0 {
                    fg
                } else {
                    bg
                }
        }),
{
    let s = seq![c];
    assert(s.drop_last() =~= Seq::<u8>::empty());
    assert(s.last() == c);
    assert(text_run(font, stride, fg, bg, p, pix, s.drop_last()) == (p, pix));
    let out = paint(pix, glyph(font, c), stride, p.x as int, p.y as int, fg, bg);
    assert forall|r: int, k: int| 0 <= r < 16 && 0 <= k < 8 implies #[trigger] out[(p.y + r) * stride + p.x + k]
        == if font[32 + 16 * c + r] & (0x80u8 >> (k as u8)) != 0 {
        fg
    } else {
        bg
    } by {
        let base = p.y * stride + p.x;
        assert((p.y + r) * stride == p.y * stride + r * stride) by (nonlinear_arith);
        assert(0 <= r * stride) by (nonlinear_arith)
            requires
                0 <= r,
                stride >= 8,
        ;
        assert((p.y + r) * stride <= (p.y + 15) * stride) by (nonlinear_arith)
            requires
                0 <= r < 16,
                stride >= 8,
        ;
        let idx = (p.y + r) * stride + p.x + k;
        assert(idx == base + r * stride + k);
        assert(0 <= idx < pix.len());
        lemma_cell_of(base, stride, 16, r, k);
        assert(cell(idx, base, stride, 16) == Some((r, k)));
        assert(glyph(font, c)[r] == font[32 + 16 * c + r]);
        assert(out[idx] == if bit_set(glyph(font, c)[r], k) {
            fg
        } else {
            bg
        });
    }
}

/// Printing two pieces of text one after the other draws the same pixels and
/// leaves the cursor in the same place as printing them joined.
pub proof fn lemma_text_run_concat(font: Seq<u8>, stride: int, fg: u32, bg: u32, p: TextPos, pix: Seq<u32>, a: Seq<u8>, b: Seq<u8>)
    ensures
        text_run(font, stride, fg, bg, p, pix, a + b) == {
            let (q, pix1) = text_run(font, stride, fg, bg, p, pix, a);
            text_run(font, stride, fg, bg, q, pix1, b)
        },
    decreases b.len(),
{
    if b.len() == 0 {
        assert(a + b =~= a);
    } else {
        assert((a + b).drop_last() =~= a + b.drop_last());
        lemma_text_run_concat(font, stride, fg, bg, p, pix, a, b.drop_last());
    }
}

} // verus!
