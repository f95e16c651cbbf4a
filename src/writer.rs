use vstd::prelude::*;
use vstd::string::StringSliceAdditionalSpecFns;

use crate::font::{psf_bit, psf_height, psf_kept, psf_valid, psf_width, Font, SPACE};
use crate::framebuffer::{lemma_inside_fits, moved, Color, DoubleBufferedFramebuffer, FramebufferInfo};

verus! {

/// Shadow bytes and device bytes.
pub type Pixels = (Seq<u8>, Seq<u8>);

/// Cursor row, cursor column, shadow bytes, device bytes.
pub type ConsoleState = (int, int, Seq<u8>, Seq<u8>);

/// The pixels after writing, on pixel row `top + gr`, the first `n` bits of
/// glyph row `gr`, from column `left` on.
pub open spec fn paint_row(
    g: FramebufferInfo,
    st: Pixels,
    glyph: Seq<Seq<bool>>,
    top: int,
    left: int,
    gr: int,
    fg: Color,
    bg: Color,
    n: nat,
) -> Pixels
    decreases n,
{
    if n == 0 {
        st
    } else {
        let c = n - 1;
        g.write_step(
            paint_row(g, st, glyph, top, left, gr, fg, bg, (n - 1) as nat),
            top + gr,
            left + c,
            if glyph[gr][c] {
                fg
            } else {
                bg
            },
        )
    }
}

/// The pixels after writing the first `m` rows, each `w` bits wide, of
/// `glyph` with its top-left pixel at (`top`, `left`).
pub open spec fn paint_glyph(
    g: FramebufferInfo,
    st: Pixels,
    glyph: Seq<Seq<bool>>,
    top: int,
    left: int,
    fg: Color,
    bg: Color,
    w: nat,
    m: nat,
) -> Pixels
    decreases m,
{
    if m == 0 {
        st
    } else {
        paint_row(
            g,
            paint_glyph(g, st, glyph, top, left, fg, bg, w, (m - 1) as nat),
            glyph,
            top,
            left,
            m - 1,
            fg,
            bg,
            w,
        )
    }
}

/// The shadow after moving, on pixel row `row`, the `n` pixels from column
/// `left` on up to row `row - by`, one after another.
pub open spec fn copy_row(g: FramebufferInfo, sh: Seq<u8>, row: int, by: int, left: int, n: nat) -> Seq<u8>
    decreases n,
{
    if n == 0 {
        sh
    } else {
        let c = left + n - 1;
        moved(
            copy_row(g, sh, row, by, left, (n - 1) as nat),
            g.addr(row, c),
            g.addr(row - by, c),
            g.bytes_per_pixel(),
        )
    }
}

/// `copy_row` applied to the `m` pixel rows from `top` down, in order.
pub open spec fn copy_rows(
    g: FramebufferInfo,
    sh: Seq<u8>,
    top: int,
    by: int,
    left: int,
    w: nat,
    m: nat,
) -> Seq<u8>
    decreases m,
{
    if m == 0 {
        sh
    } else {
        copy_row(g, copy_rows(g, sh, top, by, left, w, (m - 1) as nat), top + m - 1, by, left, w)
    }
}

/// The device after showing, on pixel row `row`, the `n` shadow pixels from
/// column `left` on.
pub open spec fn blit_row(g: FramebufferInfo, dev: Seq<u8>, sh: Seq<u8>, row: int, left: int, n: nat) -> Seq<u8>
    decreases n,
{
    if n == 0 {
        dev
    } else {
        g.blitted(blit_row(g, dev, sh, row, left, (n - 1) as nat), sh, row, left + n - 1)
    }
}

/// `blit_row` applied to the `m` pixel rows from `top` down.
pub open spec fn blit_rows(
    g: FramebufferInfo,
    dev: Seq<u8>,
    sh: Seq<u8>,
    top: int,
    left: int,
    w: nat,
    m: nat,
) -> Seq<u8>
    decreases m,
{
    if m == 0 {
        dev
    } else {
        blit_row(g, blit_rows(g, dev, sh, top, left, w, (m - 1) as nat), sh, top + m - 1, left, w)
    }
}

/// The first pixel row that a scroll by `by` reads from.
pub open spec fn scroll_start(g: FramebufferInfo, top: int, by: int) -> int {
    if by <= g.height - top {
        top + by
    } else {
        g.height as int
    }
}

/// The pixels after scrolling the area right of column `left` and at or
/// below row `top` up by `by` pixel rows: first in the shadow, each row
/// from `top + by` down moved up by `by`; then on the device, every row
/// from `top` to `height - by` shown from the shadow. The last `by` rows
/// keep their old shadow content.
pub open spec fn scrolled(g: FramebufferInfo, st: Pixels, top: int, left: int, by: int) -> Pixels {
    let height = g.height as int;
    let w = (g.width - left) as nat;
    let start = scroll_start(g, top, by);
    let sh = copy_rows(g, st.0, start, by, left, w, (height - start) as nat);
    let end = height - by;
    (sh, blit_rows(g, st.1, sh, top, left, w, if end > top { (end - top) as nat } else { 0 }))
}

/// A text console: renders bytes as glyphs on a grid of cells whose
/// top-left pixel is a fixed origin, wraps lines and scrolls.
pub struct FramebufferWriter {
    fb: DoubleBufferedFramebuffer,
    font: Font,
    font_width: usize,
    font_height: usize,
    px_row: usize,
    px_col: usize,
    fg: Color,
    bg: Color,
    fb_width_glyphs: usize,
    fb_height_glyphs: usize,
    current_glyph_row: usize,
    current_glyph_col: usize,
}

impl FramebufferWriter {
    pub closed spec fn buffered(&self) -> DoubleBufferedFramebuffer {
        self.fb
    }

    pub closed spec fn glyph_source(&self) -> Font {
        self.font
    }

    pub closed spec fn cell_width(&self) -> int {
        self.font_width as int
    }

    pub closed spec fn cell_height(&self) -> int {
        self.font_height as int
    }

    pub closed spec fn origin_row(&self) -> int {
        self.px_row as int
    }

    pub closed spec fn origin_col(&self) -> int {
        self.px_col as int
    }

    pub closed spec fn fg(&self) -> Color {
        self.fg
    }

    pub closed spec fn bg(&self) -> Color {
        self.bg
    }

    /// Glyph cells in a row of the grid.
    pub closed spec fn cols(&self) -> int {
        self.fb_width_glyphs as int
    }

    /// Rows of glyph cells in the grid.
    pub closed spec fn rows(&self) -> int {
        self.fb_height_glyphs as int
    }

    pub closed spec fn cursor_row(&self) -> int {
        self.current_glyph_row as int
    }

    pub closed spec fn cursor_col(&self) -> int {
        self.current_glyph_col as int
    }

    /// Geometry of the device surface.
    pub open spec fn geometry(&self) -> FramebufferInfo {
        self.buffered().device().info()
    }

    pub open spec fn wf(&self) -> bool {
        &&& self.buffered().wf()
        &&& self.glyph_source().wf()
        &&& self.cell_width() == self.glyph_source().glyph_width()
        &&& self.cell_height() == self.glyph_source().glyph_height()
        &&& 0 <= self.origin_row()
        &&& 0 <= self.origin_col()
        &&& self.cols() >= 1
        &&& self.rows() >= 1
        &&& self.origin_col() + self.cols() * self.cell_width() <= self.geometry().width
        &&& self.origin_row() + self.rows() * self.cell_height() <= self.geometry().height
        &&& 0 <= self.cursor_row() < self.rows()
        &&& 0 <= self.cursor_col() < self.cols()
    }

    /// Everything but the pixels and the cursor is the same in both.
    pub open spec fn same_setup(&self, other: FramebufferWriter) -> bool {
        &&& self.glyph_source() == other.glyph_source()
        &&& self.cell_width() == other.cell_width()
        &&& self.cell_height() == other.cell_height()
        &&& self.origin_row() == other.origin_row()
        &&& self.origin_col() == other.origin_col()
        &&& self.fg() == other.fg()
        &&& self.bg() == other.bg()
        &&& self.cols() == other.cols()
        &&& self.rows() == other.rows()
        &&& self.geometry() == other.geometry()
    }

    pub open spec fn pixels(&self) -> Pixels {
        self.buffered().pixels()
    }

    pub open spec fn state(&self) -> ConsoleState {
        (self.cursor_row(), self.cursor_col(), self.pixels().0, self.pixels().1)
    }

    /// The glyph drawn for `c`: its own, or the space glyph where the font
    /// does not map it.
    pub open spec fn glyph_for(&self, c: u8) -> Seq<Seq<bool>> {
        if self.glyph_source().mapped(c) {
            self.glyph_source().glyph(c as int)
        } else {
            self.glyph_source().glyph(SPACE as int)
        }
    }

    /// The pixels after drawing `c` in the cell at (`row`, `col`).
    pub open spec fn render(&self, st: Pixels, row: int, col: int, c: u8) -> Pixels {
        paint_glyph(
            self.geometry(),
            st,
            self.glyph_for(c),
            self.origin_row() + row * self.cell_height(),
            self.origin_col() + col * self.cell_width(),
            self.fg(),
            self.bg(),
            self.cell_width() as nat,
            self.cell_height() as nat,
        )
    }

    /// Next line: on the last row the grid scrolls up by one cell height
    /// and the cursor stays; elsewhere the cursor goes down one row. The
    /// column becomes 0.
    pub open spec fn newline_from(&self, s: ConsoleState) -> ConsoleState {
        if s.0 == self.rows() - 1 {
            let p = scrolled(
                self.geometry(),
                (s.2, s.3),
                self.origin_row(),
                self.origin_col(),
                self.cell_height(),
            );
            (s.0, 0, p.0, p.1)
        } else {
            (s.0 + 1, 0, s.2, s.3)
        }
    }

    /// One cell right; past the last column, a new line.
    pub open spec fn advance_from(&self, s: ConsoleState) -> ConsoleState {
        if s.1 + 1 == self.cols() {
            self.newline_from(s)
        } else {
            (s.0, s.1 + 1, s.2, s.3)
        }
    }

    /// The effect of one byte: a newline byte starts a new line; any other
    /// is drawn at the cursor, which then advances.
    pub open spec fn byte_step(&self, s: ConsoleState, c: u8) -> ConsoleState {
        if c == 10 {
            self.newline_from(s)
        } else {
            let p = self.render((s.2, s.3), s.0, s.1, c);
            self.advance_from((s.0, s.1, p.0, p.1))
        }
    }

    /// The effect of the bytes of `bs`, in order.
    pub open spec fn bytes_step(&self, s: ConsoleState, bs: Seq<u8>) -> ConsoleState
        decreases bs.len(),
    {
        if bs.len() == 0 {
            s
        } else {
            self.byte_step(self.bytes_step(s, bs.drop_last()), bs.last())
        }
    }

    /// A console on `fb` that draws the glyphs of the PSF2 font
    /// `font_data`, with its top-left cell at pixel (`px_row`, `px_col`)
    /// and the cursor in the first cell. The grid has as many whole cells
    /// as fit right of and below the origin, at least one each way.
    pub fn new(
        fb: DoubleBufferedFramebuffer,
        font_data: &[u8],
        px_row: usize,
        px_col: usize,
        fg: Color,
        bg: Color,
    ) -> (r: Self)
        requires
            fb.wf(),
            psf_valid(font_data@),
            px_col <= fb.device().info().width,
            px_row <= fb.device().info().height,
            fb.device().info().width - px_col >= psf_width(font_data@),
            fb.device().info().height - px_row >= psf_height(font_data@),
        ensures
            r.wf(),
            r.buffered() == fb,
            r.glyph_source().glyph_width() == psf_width(font_data@),
            r.glyph_source().glyph_height() == psf_height(font_data@),
            r.glyph_source().glyph_count() == psf_kept(font_data@),
            forall|c: int, row: int, x: int|
                0 <= c < psf_kept(font_data@) && 0 <= row < psf_height(font_data@) && 0 <= x
                    < psf_width(font_data@) ==> #[trigger] r.glyph_source().glyph(c)[row][x] == psf_bit(
                    font_data@,
                    c,
                    row,
                    x,
                ),
            r.origin_row() == px_row,
            r.origin_col() == px_col,
            r.fg() == fg,
            r.bg() == bg,
            r.cols() == (fb.device().info().width - px_col) / psf_width(font_data@),
            r.rows() == (fb.device().info().height - px_row) / psf_height(font_data@),
            r.cursor_row() == 0,
            r.cursor_col() == 0,
    {
        let font = Font::from_psf(font_data).unwrap();
        let font_width = font.width();
        let font_height = font.height();
        let fb_width_glyphs = (fb.surface().width() - px_col) / font_width;
        let fb_height_glyphs = (fb.surface().height() - px_row) / font_height;
        proof {
            lemma_whole_cells(fb.device().info().width - px_col, font_width as int);
            lemma_whole_cells(fb.device().info().height - px_row, font_height as int);
        }
        FramebufferWriter {
            fb,
            font,
            font_width,
            font_height,
            px_row,
            px_col,
            fg,
            bg,
            fb_width_glyphs,
            fb_height_glyphs,
            current_glyph_row: 0,
            current_glyph_col: 0,
        }
    }

    /// Draws the glyph for `c` with its top-left pixel at (`px_row`,
    /// `px_col`), every pixel written through to the device.
    fn write_byte_at_pixel(&mut self, px_row: usize, px_col: usize, c: u8)
        requires
            old(self).wf(),
            px_row + old(self).cell_height() <= old(self).geometry().height,
            px_col + old(self).cell_width() <= old(self).geometry().width,
        ensures
            final(self).wf(),
            final(self).same_setup(*old(self)),
            final(self).cursor_row() == old(self).cursor_row(),
            final(self).cursor_col() == old(self).cursor_col(),
            final(self).pixels() == paint_glyph(
                old(self).geometry(),
                old(self).pixels(),
                old(self).glyph_for(c),
                px_row as int,
                px_col as int,
                old(self).fg(),
                old(self).bg(),
                old(self).cell_width() as nat,
                old(self).cell_height() as nat,
            ),
    {
        let ghost g = self.geometry();
        let ghost st0 = self.pixels();
        let ghost glyph = self.glyph_for(c);
        let fg = self.fg;
        let bg = self.bg;
        let w = self.font_width;
        let h = self.font_height;
        let bits = match self.font.get_ascii(c) {
            Some(bits) => bits,
            None => self.font.get_ascii(SPACE).unwrap(),
        };
        let mut r: usize = 0;
        while r < h
            invariant
                self.wf(),
                self.same_setup(*old(self)),
                self.cursor_row() == old(self).cursor_row(),
                self.cursor_col() == old(self).cursor_col(),
                g == old(self).geometry(),
                g.valid(),
                glyph == old(self).glyph_for(c),
                fg == self.fg(),
                bg == self.bg(),
                w == self.cell_width(),
                h == self.cell_height(),
                bits@.map_values(|row: Vec<bool>| row@) == glyph,
                bits@.len() == h,
                forall|k: int| 0 <= k < h ==> #[trigger] bits@[k]@.len() == w,
                px_row + h <= g.height,
                px_col + w <= g.width,
                r <= h,
                self.pixels() == paint_glyph(g, st0, glyph, px_row as int, px_col as int, fg, bg, w as nat, r as nat),
            decreases h - r,
        {
            let row_bits = &bits[r];
            let ghost before = self.pixels();
            let mut col: usize = 0;
            while col < w
                invariant
                    self.wf(),
                    self.same_setup(*old(self)),
                    self.cursor_row() == old(self).cursor_row(),
                    self.cursor_col() == old(self).cursor_col(),
                    g == old(self).geometry(),
                    g.valid(),
                g.valid(),
                    fg == self.fg(),
                    bg == self.bg(),
                    w == self.cell_width(),
                    h == self.cell_height(),
                    *row_bits == bits@[r as int],
                    row_bits@ == glyph[r as int],
                    row_bits@.len() == w,
                    px_row + h <= g.height,
                    px_col + w <= g.width,
                    r < h,
                    col <= w,
                    self.pixels() == paint_row(g, before, glyph, px_row as int, px_col as int, r as int, fg, bg, col as nat),
                decreases w - col,
            {
                proof {
                    lemma_inside_fits(g, px_row + r, px_col + col);
                }
                let color = if row_bits[col] {
                    fg
                } else {
                    bg
                };
                self.fb.write_pixel(px_row + r, px_col + col, color);
                col = col + 1;
            }
            r = r + 1;
        }
    }

    /// Draws the glyph for `c` in the cell at glyph row `row`, column `col`.
    pub fn write_byte_at(&mut self, row: usize, col: usize, c: u8)
        requires
            old(self).wf(),
            row < old(self).rows(),
            col < old(self).cols(),
        ensures
            final(self).wf(),
            final(self).same_setup(*old(self)),
            final(self).cursor_row() == old(self).cursor_row(),
            final(self).cursor_col() == old(self).cursor_col(),
            final(self).pixels() == old(self).render(old(self).pixels(), row as int, col as int, c),
    {
        proof {
            lemma_cell_inside(row as int, self.rows(), self.cell_height());
            lemma_cell_inside(col as int, self.cols(), self.cell_width());
        }
        self.write_byte_at_pixel(self.px_row + row * self.font_height, self.px_col + col * self.font_width, c);
    }

    /// Scrolls the area at and below the origin up by `by` pixel rows: the
    /// rows are moved in the shadow first, then shown on the device in one
    /// pass.
    pub fn scroll_down_px(&mut self, by: usize)
        requires
            old(self).wf(),
            by <= old(self).geometry().height,
        ensures
            final(self).wf(),
            final(self).same_setup(*old(self)),
            final(self).cursor_row() == old(self).cursor_row(),
            final(self).cursor_col() == old(self).cursor_col(),
            final(self).pixels() == scrolled(
                old(self).geometry(),
                old(self).pixels(),
                old(self).origin_row(),
                old(self).origin_col(),
                by as int,
            ),
    {
        let ghost g = self.geometry();
        let ghost st0 = self.pixels();
        let height = self.fb.surface().height();
        let width = self.fb.surface().width();
        let left = self.px_col;
        let top = self.px_row;
        let start = if by <= height - top {
            top + by
        } else {
            height
        };
        let ghost w = (width - left) as nat;
        let mut row = start;
        while row < height
            invariant
                self.wf(),
                self.same_setup(*old(self)),
                self.cursor_row() == old(self).cursor_row(),
                self.cursor_col() == old(self).cursor_col(),
                g == old(self).geometry(),
                g.valid(),
                height == g.height,
                width == g.width,
                left == self.origin_col(),
                top == self.origin_row(),
                left <= width,
                w == width - left,
                start == scroll_start(g, top as int, by as int),
                start <= row <= height,
                start >= by,
                self.pixels().1 == st0.1,
                self.pixels().0 == copy_rows(g, st0.0, start as int, by as int, left as int, w, (row - start) as nat),
            decreases height - row,
        {
            let ghost before = self.pixels().0;
            let mut col = left;
            while col < width
                invariant
                    self.wf(),
                    self.same_setup(*old(self)),
                    self.cursor_row() == old(self).cursor_row(),
                    self.cursor_col() == old(self).cursor_col(),
                    g == old(self).geometry(),
                    g.valid(),
                    height == g.height,
                    width == g.width,
                    left <= col <= width,
                    start <= row < height,
                    start >= by,
                    self.pixels().1 == st0.1,
                    self.pixels().0 == copy_row(g, before, row as int, by as int, left as int, (col - left) as nat),
                decreases width - col,
            {
                proof {
                    lemma_inside_fits(g, row as int, col as int);
                    lemma_inside_fits(g, row - by, col as int);
                }
                self.fb.copy_pixel(row, col, row - by, col);
                col = col + 1;
            }
            row = row + 1;
        }
        let ghost sh1 = self.pixels().0;
        let end = height - by;
        let mut row = top;
        while row < end
            invariant
                self.wf(),
                self.same_setup(*old(self)),
                self.cursor_row() == old(self).cursor_row(),
                self.cursor_col() == old(self).cursor_col(),
                g == old(self).geometry(),
                g.valid(),
                height == g.height,
                width == g.width,
                left == self.origin_col(),
                left <= width,
                w == width - left,
                end == height - by,
                top <= row,
                row <= end || row == top,
                self.pixels().0 == sh1,
                self.pixels().1 == blit_rows(g, st0.1, sh1, top as int, left as int, w, (row - top) as nat),
            decreases end - row,
        {
            let ghost before = self.pixels().1;
            let mut col = left;
            while col < width
                invariant
                    self.wf(),
                    self.same_setup(*old(self)),
                    self.cursor_row() == old(self).cursor_row(),
                    self.cursor_col() == old(self).cursor_col(),
                    g == old(self).geometry(),
                    g.valid(),
                    height == g.height,
                    width == g.width,
                    left <= col <= width,
                    row < end,
                    end == height - by,
                    self.pixels().0 == sh1,
                    self.pixels().1 == blit_row(g, before, sh1, row as int, left as int, (col - left) as nat),
                decreases width - col,
            {
                proof {
                    lemma_inside_fits(g, row as int, col as int);
                }
                self.fb.blit_px(row, col);
                col = col + 1;
            }
            row = row + 1;
        }
    }

    /// Starts a new line: on the last row the grid scrolls up by one cell
    /// height, elsewhere the cursor moves down one row; the column becomes 0.
    pub fn newline(&mut self)
        requires
            old(self).wf(),
        ensures
            final(self).wf(),
            final(self).same_setup(*old(self)),
            final(self).state() == old(self).newline_from(old(self).state()),
    {
        if self.current_glyph_row == self.fb_height_glyphs - 1 {
            proof {
                lemma_cell_inside(0, self.rows(), self.cell_height());
            }
            self.scroll_down_px(self.font_height);
        } else {
            self.current_glyph_row = self.current_glyph_row + 1;
        }
        self.current_glyph_col = 0;
    }

    /// Moves the cursor one cell right, or to a new line past the last
    /// column.
    pub fn advance(&mut self)
        requires
            old(self).wf(),
        ensures
            final(self).wf(),
            final(self).same_setup(*old(self)),
            final(self).state() == old(self).advance_from(old(self).state()),
    {
        if self.current_glyph_col + 1 == self.fb_width_glyphs {
            self.newline();
        } else {
            self.current_glyph_col = self.current_glyph_col + 1;
        }
    }

    /// Renders one byte: a newline byte starts a new line; any other byte
    /// is drawn at the cursor, which then advances.
    pub fn write_byte(&mut self, c: u8)
        requires
            old(self).wf(),
        ensures
            final(self).wf(),
            final(self).same_setup(*old(self)),
            final(self).state() == old(self).byte_step(old(self).state(), c),
    {
        if c == 10u8 {
            self.newline();
        } else {
            self.write_byte_at(self.current_glyph_row, self.current_glyph_col, c);
            self.advance();
        }
    }

    /// Renders the bytes of `s` one by one.
    pub fn write_str_lossy(&mut self, s: &str)
        requires
            old(self).wf(),
        ensures
            final(self).wf(),
            final(self).same_setup(*old(self)),
            final(self).state() == old(self).bytes_step(old(self).state(), s.spec_bytes()),
    {
        let bytes = s.as_bytes();
        let mut i: usize = 0;
        while i < bytes.len()
            invariant
                self.wf(),
                self.same_setup(*old(self)),
                i <= bytes@.len(),
                bytes@ == s.spec_bytes(),
                self.state() == old(self).bytes_step(old(self).state(), bytes@.subrange(0, i as int)),
            decreases bytes@.len() - i,
        {
            let ghost prev = *self;
            self.write_byte(bytes[i]);
            proof {
                lemma_same_step(prev, *old(self), prev.state(), bytes@[i as int]);
                assert(bytes@.subrange(0, i + 1).drop_last() =~= bytes@.subrange(0, i as int));
            }
            i = i + 1;
        }
        assert(bytes@.subrange(0, bytes@.len() as int) =~= bytes@);
    }

    /// The cursor: glyph row, then glyph column.
    pub fn cursor(&self) -> (r: (usize, usize))
        ensures
            r.0 == self.cursor_row(),
            r.1 == self.cursor_col(),
    {
        (self.current_glyph_row, self.current_glyph_col)
    }

    /// Glyph cells in a row of the grid.
    pub fn glyphs_per_row(&self) -> (r: usize)
        ensures
            r == self.cols(),
    {
        self.fb_width_glyphs
    }

    /// Rows of glyph cells in the grid.
    pub fn glyph_rows_visible(&self) -> (r: usize)
        ensures
            r == self.rows(),
    {
        self.fb_height_glyphs
    }

    /// The double-buffered surface the console draws on.
    pub fn framebuffer(&self) -> (r: &DoubleBufferedFramebuffer)
        ensures
            *r == self.buffered(),
    {
        &self.fb
    }
}

/// Two consoles set up alike take the same step on the same state.
proof fn lemma_same_step(a: FramebufferWriter, b: FramebufferWriter, s: ConsoleState, c: u8)
    requires
        a.same_setup(b),
    ensures
        a.byte_step(s, c) == b.byte_step(s, c),
{
}

/// Law: a byte that the font does not map renders exactly as the space
/// character does, pixels and cursor alike.
pub proof fn lemma_fallback_glyph(w: FramebufferWriter, s: ConsoleState, c: u8)
    requires
        w.wf(),
        !w.glyph_source().mapped(c),
    ensures
        w.byte_step(s, c) == w.byte_step(s, SPACE),
{
}

/// From the first column, the first `k` of fewer than a row's worth of
/// bytes without a newline move the cursor `k` cells right on its row.
proof fn lemma_prefix_cursor(w: FramebufferWriter, s: ConsoleState, bs: Seq<u8>, k: int)
    requires
        w.wf(),
        s.1 == 0,
        0 <= k < w.cols(),
        k <= bs.len(),
        forall|i: int| 0 <= i < bs.len() ==> bs[i] != 10,
    ensures
        w.bytes_step(s, bs.subrange(0, k)).0 == s.0,
        w.bytes_step(s, bs.subrange(0, k)).1 == k,
    decreases k,
{
    if k > 0 {
        lemma_prefix_cursor(w, s, bs, k - 1);
        assert(bs.subrange(0, k).drop_last() =~= bs.subrange(0, k - 1));
    }
}

/// Law: from the first column, exactly a row's worth of bytes without a
/// newline leaves the cursor in the first column of the next row; on the
/// last row, which scrolls, in the first column of that row.
pub proof fn lemma_cursor_wrap(w: FramebufferWriter, s: ConsoleState, bs: Seq<u8>)
    requires
        w.wf(),
        0 <= s.0 < w.rows(),
        s.1 == 0,
        bs.len() == w.cols(),
        forall|i: int| 0 <= i < bs.len() ==> bs[i] != 10,
    ensures
        w.bytes_step(s, bs).0 == if s.0 == w.rows() - 1 {
            s.0
        } else {
            s.0 + 1
        },
        w.bytes_step(s, bs).1 == 0,
{
    let k = w.cols() - 1;
    lemma_prefix_cursor(w, s, bs, k);
    assert(bs.drop_last() =~= bs.subrange(0, k));
}

/// A positive number `x` of pixels holds `x / d` whole cells of `d`
/// pixels, at least one where `x >= d`.
proof fn lemma_whole_cells(x: int, d: int)
    requires
        d >= 1,
        x >= d,
    ensures
        x / d >= 1,
        (x / d) * d <= x,
{
    vstd::arithmetic::div_mod::lemma_fundamental_div_mod(x, d);
    assert(x / d >= 1 && (x / d) * d <= x) by (nonlinear_arith)
        requires
            x == d * (x / d) + (x % d),
            0 <= x % d < d,
            x >= d,
    ;
}

/// Cell `i` of `n` cells of `d` pixels ends within the `n * d` pixels.
proof fn lemma_cell_inside(i: int, n: int, d: int)
    requires
        0 <= i < n,
        d >= 0,
    ensures
        i * d + d <= n * d,
        0 <= i * d,
{
    assert(i * d + d <= n * d && 0 <= i * d) by (nonlinear_arith)
        requires
            0 <= i < n,
            d >= 0,
    ;
}

/// Byte `i` of pixel (`r`, `c`) of `s`.
pub open spec fn byte_at(g: FramebufferInfo, s: Seq<u8>, r: int, c: int, i: int) -> u8 {
    s[g.addr(r, c) + i]
}

/// The bytes of a pixel inside the width lie within its row's stride.
proof fn lemma_pixel_in_row(g: FramebufferInfo, r: int, c: int, i: int)
    requires
        g.valid(),
        0 <= r,
        0 <= c < g.width,
        0 <= i < g.bytes_per_pixel(),
    ensures
        r * g.pitch <= g.addr(r, c) + i < r * g.pitch + g.pitch,
{
    let n = g.bytes_per_pixel();
    assert(c * n + i < g.width * n && 0 <= c * n) by (nonlinear_arith)
        requires
            0 <= c < g.width,
            0 <= i < n,
    ;
}

/// Rows in order start at offsets in order.
proof fn lemma_rows_ordered(a: int, b: int, p: int)
    requires
        a <= b,
        0 <= p,
    ensures
        a * p <= b * p,
        a * p + p == (a + 1) * p,
        b * p + p == (b + 1) * p,
{
    assert(a * p <= b * p) by (nonlinear_arith)
        requires
            a <= b,
            0 <= p,
    ;
    assert(a * p + p == (a + 1) * p && b * p + p == (b + 1) * p) by (nonlinear_arith);
}

/// Pixels of one row in order have footprints in order.
proof fn lemma_cols_ordered(g: FramebufferInfo, r: int, c: int, d: int, i: int)
    requires
        g.valid(),
        0 <= c < d,
        0 <= i < g.bytes_per_pixel(),
    ensures
        g.addr(r, c) + i < g.addr(r, d),
{
    let n = g.bytes_per_pixel();
    assert(c * n + n <= d * n) by (nonlinear_arith)
        requires
            0 <= c < d,
            0 <= n,
    ;
}

/// Moving one row's pixels up by `by >= 1` rows changes only the bytes of
/// the destination row, and each destination pixel then holds the bytes
/// its source pixel had.
proof fn lemma_copy_row(g: FramebufferInfo, sh: Seq<u8>, row: int, by: int, left: int, n: nat)
    requires
        g.valid(),
        by >= 1,
        row - by >= 0,
        row < g.height,
        0 <= left,
        left + n <= g.width,
        sh.len() >= g.size(),
    ensures
        copy_row(g, sh, row, by, left, n).len() == sh.len(),
        forall|k: int|
            0 <= k < sh.len() && (k < (row - by) * g.pitch || k >= (row - by) * g.pitch + g.pitch)
                ==> #[trigger] copy_row(g, sh, row, by, left, n)[k] == sh[k],
        forall|c: int, i: int|
            left <= c < left + n && 0 <= i < g.bytes_per_pixel() ==> byte_at(
                g,
                copy_row(g, sh, row, by, left, n),
                row - by,
                c,
                i,
            ) == #[trigger] byte_at(g, sh, row, c, i),
    decreases n,
{
    if n > 0 {
        let cc = left + n - 1;
        let prev = copy_row(g, sh, row, by, left, (n - 1) as nat);
        lemma_copy_row(g, sh, row, by, left, (n - 1) as nat);
        let res = copy_row(g, sh, row, by, left, n);
        let nb = g.bytes_per_pixel();
        assert forall|k: int|
            0 <= k < sh.len() && (k < (row - by) * g.pitch || k >= (row - by) * g.pitch + g.pitch)
                implies #[trigger] res[k] == sh[k] by {
            if g.addr(row - by, cc) <= k < g.addr(row - by, cc) + nb {
                lemma_pixel_in_row(g, row - by, cc, k - g.addr(row - by, cc));
            }
        }
        assert forall|c: int, i: int| left <= c < left + n && 0 <= i < nb implies byte_at(
            g,
            res,
            row - by,
            c,
            i,
        ) == #[trigger] byte_at(g, sh, row, c, i) by {
            lemma_inside_fits(g, row - by, c);
            lemma_inside_fits(g, row, c);
            lemma_pixel_in_row(g, row - by, c, i);
            lemma_pixel_in_row(g, row, c, i);
            lemma_rows_ordered(row - by + 1, row, g.pitch as int);
            lemma_rows_ordered(row - by, row, g.pitch as int);
            if c < cc {
                lemma_cols_ordered(g, row - by, c, cc, i);
                assert(res[g.addr(row - by, c) + i] == prev[g.addr(row - by, c) + i]);
                assert(byte_at(g, prev, row - by, c, i) == byte_at(g, sh, row, c, i));
            } else {
                assert(res[g.addr(row - by, c) + i] == prev[g.addr(row, c) + i]);
                assert(prev[g.addr(row, c) + i] == sh[g.addr(row, c) + i]);
            }
        }
    }
}

/// Moving rows `start..start + m` up by `by >= 1` rows, in order, changes
/// only the bytes of the destination rows, and each destination pixel then
/// holds the bytes its source pixel had before.
proof fn lemma_copy_rows(
    g: FramebufferInfo,
    sh: Seq<u8>,
    start: int,
    by: int,
    left: int,
    w: nat,
    m: nat,
)
    requires
        g.valid(),
        by >= 1,
        start - by >= 0,
        start + m <= g.height,
        0 <= left,
        left + w <= g.width,
        sh.len() >= g.size(),
    ensures
        copy_rows(g, sh, start, by, left, w, m).len() == sh.len(),
        forall|k: int|
            0 <= k < sh.len() && (k < (start - by) * g.pitch || k >= (start - by + m) * g.pitch)
                ==> #[trigger] copy_rows(g, sh, start, by, left, w, m)[k] == sh[k],
        forall|r: int, c: int, i: int|
            start <= r < start + m && left <= c < left + w && 0 <= i < g.bytes_per_pixel()
                ==> byte_at(g, copy_rows(g, sh, start, by, left, w, m), r - by, c, i)
                == #[trigger] byte_at(g, sh, r, c, i),
    decreases m,
{
    if m > 0 {
        let r0 = start + m - 1;
        let prev = copy_rows(g, sh, start, by, left, w, (m - 1) as nat);
        lemma_copy_rows(g, sh, start, by, left, w, (m - 1) as nat);
        lemma_copy_row(g, prev, r0, by, left, w);
        let res = copy_rows(g, sh, start, by, left, w, m);
        assert(res == copy_row(g, prev, r0, by, left, w));
        let nb = g.bytes_per_pixel();
        let p = g.pitch as int;
        lemma_rows_ordered(start - by, r0 - by, p);
        lemma_rows_ordered(start - by + m - 1, r0 - by + 1, p);
        lemma_rows_ordered(r0 - by + 1, start - by + m, p);
        assert forall|k: int|
            0 <= k < sh.len() && (k < (start - by) * p || k >= (start - by + m) * p) implies #[trigger] res[k]
            == sh[k] by {
            assert(res[k] == prev[k]);
        }
        assert forall|r: int, c: int, i: int|
            start <= r < start + m && left <= c < left + w && 0 <= i < nb implies byte_at(
            g,
            res,
            r - by,
            c,
            i,
        ) == #[trigger] byte_at(g, sh, r, c, i) by {
            lemma_pixel_in_row(g, r - by, c, i);
            lemma_pixel_in_row(g, r, c, i);
            lemma_inside_fits(g, r - by, c);
            lemma_inside_fits(g, r, c);
            if r < r0 {
                lemma_rows_ordered(r - by + 1, r0 - by, p);
                lemma_rows_ordered(r - by, r0 - by, p);
                assert(byte_at(g, res, r - by, c, i) == byte_at(g, prev, r - by, c, i));
            } else {
                lemma_rows_ordered(start - by + (m - 1) as nat, r0, p);
                assert(byte_at(g, res, r - by, c, i) == byte_at(g, prev, r0, c, i));
                assert(byte_at(g, prev, r0, c, i) == byte_at(g, sh, r0, c, i));
            }
        }
    }
}

/// Showing one row's pixels copies each of them from the shadow; every
/// byte either keeps its value or takes the shadow's.
proof fn lemma_blit_row(g: FramebufferInfo, dev: Seq<u8>, sh: Seq<u8>, row: int, left: int, n: nat)
    requires
        g.valid(),
        0 <= row < g.height,
        0 <= left,
        left + n <= g.width,
        dev.len() >= g.size(),
    ensures
        blit_row(g, dev, sh, row, left, n).len() == dev.len(),
        forall|k: int|
            0 <= k < dev.len() ==> #[trigger] blit_row(g, dev, sh, row, left, n)[k] == dev[k]
                || blit_row(g, dev, sh, row, left, n)[k] == sh[k],
        forall|c: int, i: int|
            left <= c < left + n && 0 <= i < g.bytes_per_pixel() ==> #[trigger] byte_at(
                g,
                blit_row(g, dev, sh, row, left, n),
                row,
                c,
                i,
            ) == byte_at(g, sh, row, c, i),
    decreases n,
{
    if n > 0 {
        let prev = blit_row(g, dev, sh, row, left, (n - 1) as nat);
        lemma_blit_row(g, dev, sh, row, left, (n - 1) as nat);
        let res = blit_row(g, dev, sh, row, left, n);
        assert forall|c: int, i: int| left <= c < left + n && 0 <= i < g.bytes_per_pixel() implies #[trigger] byte_at(
            g,
            res,
            row,
            c,
            i,
        ) == byte_at(g, sh, row, c, i) by {
            lemma_inside_fits(g, row, c);
            if c < left + n - 1 {
                assert(byte_at(g, prev, row, c, i) == byte_at(g, sh, row, c, i));
            }
        }
    }
}

/// Showing rows `top..top + m` copies each of their pixels from the
/// shadow; every byte either keeps its value or takes the shadow's.
proof fn lemma_blit_rows(
    g: FramebufferInfo,
    dev: Seq<u8>,
    sh: Seq<u8>,
    top: int,
    left: int,
    w: nat,
    m: nat,
)
    requires
        g.valid(),
        0 <= top,
        top + m <= g.height,
        0 <= left,
        left + w <= g.width,
        dev.len() >= g.size(),
    ensures
        blit_rows(g, dev, sh, top, left, w, m).len() == dev.len(),
        forall|k: int|
            0 <= k < dev.len() ==> #[trigger] blit_rows(g, dev, sh, top, left, w, m)[k] == dev[k]
                || blit_rows(g, dev, sh, top, left, w, m)[k] == sh[k],
        forall|r: int, c: int, i: int|
            top <= r < top + m && left <= c < left + w && 0 <= i < g.bytes_per_pixel()
                ==> #[trigger] byte_at(g, blit_rows(g, dev, sh, top, left, w, m), r, c, i) == byte_at(
                g,
                sh,
                r,
                c,
                i,
            ),
    decreases m,
{
    if m > 0 {
        let prev = blit_rows(g, dev, sh, top, left, w, (m - 1) as nat);
        lemma_blit_rows(g, dev, sh, top, left, w, (m - 1) as nat);
        lemma_blit_row(g, prev, sh, top + m - 1, left, w);
        let res = blit_rows(g, dev, sh, top, left, w, m);
        assert forall|r: int, c: int, i: int|
            top <= r < top + m && left <= c < left + w && 0 <= i < g.bytes_per_pixel() implies #[trigger] byte_at(
            g,
            res,
            r,
            c,
            i,
        ) == byte_at(g, sh, r, c, i) by {
            lemma_inside_fits(g, r, c);
            if r < top + m - 1 {
                assert(byte_at(g, prev, r, c, i) == byte_at(g, sh, r, c, i));
            }
        }
    }
}

/// Law: a scroll by `by >= 1` pixel rows leaves on every pixel from row
/// `top` to row `height - by` and from column `left` to the width, in the
/// shadow and on the device alike, the bytes that the pixel `by` rows
/// below it held in the shadow before.
pub proof fn lemma_scroll_moves_rows_up(g: FramebufferInfo, st: Pixels, top: int, left: int, by: int)
    requires
        g.valid(),
        by >= 1,
        0 <= top,
        top + by <= g.height,
        0 <= left <= g.width,
        st.0.len() >= g.size(),
        st.1.len() >= g.size(),
    ensures
        forall|r: int, c: int, i: int|
            top <= r < g.height - by && left <= c < g.width && 0 <= i < g.bytes_per_pixel() ==> {
                &&& #[trigger] byte_at(g, scrolled(g, st, top, left, by).0, r, c, i) == byte_at(
                    g,
                    st.0,
                    r + by,
                    c,
                    i,
                )
                &&& byte_at(g, scrolled(g, st, top, left, by).1, r, c, i) == byte_at(
                    g,
                    st.0,
                    r + by,
                    c,
                    i,
                )
            },
{
    let height = g.height as int;
    let w = (g.width - left) as nat;
    let start = top + by;
    assert(scroll_start(g, top, by) == start);
    let sh1 = copy_rows(g, st.0, start, by, left, w, (height - start) as nat);
    lemma_copy_rows(g, st.0, start, by, left, w, (height - start) as nat);
    lemma_blit_rows(g, st.1, sh1, top, left, w, (height - by - top) as nat);
    assert(scrolled(g, st, top, left, by).0 == sh1);
    assert forall|r: int, c: int, i: int|
        top <= r < g.height - by && left <= c < g.width && 0 <= i < g.bytes_per_pixel() implies {
        &&& #[trigger] byte_at(g, scrolled(g, st, top, left, by).0, r, c, i) == byte_at(g, st.0, r + by, c, i)
        &&& byte_at(g, scrolled(g, st, top, left, by).1, r, c, i) == byte_at(g, st.0, r + by, c, i)
    } by {
        assert(byte_at(g, sh1, (r + by) - by, c, i) == byte_at(g, st.0, r + by, c, i));
        assert((r + by) - by == r);
        assert(byte_at(g, sh1, r, c, i) == byte_at(g, st.0, r + by, c, i));
    }
}

} // verus!
