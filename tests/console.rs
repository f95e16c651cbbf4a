use fbconsole::font::Font;
use fbconsole::framebuffer::{Color, DoubleBufferedFramebuffer, Framebuffer, FramebufferInfo};
use fbconsole::writer::FramebufferWriter;

const GW: usize = 8;
const GH: usize = 16;

/// A distinct pattern for every code below 128: row `r` shows bit `r % 8`
/// of the code on even columns.
fn glyph_bits(c: usize) -> Vec<Vec<bool>> {
    (0..GH)
        .map(|r| (0..GW).map(|x| (c >> (r % 8)) & 1 == 1 && x % 2 == 0).collect())
        .collect()
}

fn test_font() -> Font {
    Font::new(GW, GH, (0..128).map(glyph_bits).collect()).unwrap()
}

/// The same 128 glyphs as a PSF2 blob: one byte per row, high bit first.
fn test_psf() -> Vec<u8> {
    let mut v = vec![0x72, 0xb5, 0x4a, 0x86];
    for f in [0u32, 32, 0, 128, GH as u32, GH as u32, GW as u32] {
        v.extend_from_slice(&f.to_le_bytes());
    }
    for c in 0..128 {
        for row in glyph_bits(c) {
            v.push(row.iter().fold(0u8, |acc, b| (acc << 1) | *b as u8));
        }
    }
    v
}

fn info(width: usize, height: usize) -> FramebufferInfo {
    FramebufferInfo {
        width,
        height,
        pitch: width * 4,
        bpp: 32,
        red_mask_shift: 16,
        green_mask_shift: 8,
        blue_mask_shift: 0,
    }
}

fn console(width: usize, height: usize, px_row: usize, px_col: usize) -> FramebufferWriter {
    let dbf = DoubleBufferedFramebuffer::new(Framebuffer::new(info(width, height)));
    FramebufferWriter::new(dbf, &test_psf(), px_row, px_col, Color::white(), Color::black())
}

/// Whether the device shows the glyph for `code` in cell (`row`, `col`).
fn cell_shows(w: &FramebufferWriter, row: usize, col: usize, code: usize) -> bool {
    let bits = glyph_bits(code);
    let fb = w.framebuffer().surface();
    (0..GH).all(|r| {
        (0..GW).all(|x| {
            let want = if bits[r][x] { Color::white() } else { Color::black() };
            fb.read_pixel(row * GH + r, col * GW + x) == want
        })
    })
}

fn write_n(w: &mut FramebufferWriter, c: u8, n: usize) {
    for _ in 0..n {
        w.write_byte(c);
    }
}

#[test]
fn console_grid_from_geometry() {
    let w = console(640, 400, 100, 0);
    assert_eq!(w.glyphs_per_row(), 80);
    assert_eq!(w.glyph_rows_visible(), 18);
    assert_eq!(w.cursor(), (0, 0));
}

#[test]
fn console_grid_leaves_remainder_as_margin() {
    let w = console(645, 415, 0, 3);
    assert_eq!(w.glyphs_per_row(), 80);
    assert_eq!(w.glyph_rows_visible(), 25);
}

#[test]
fn console_draws_glyph_at_cursor() {
    let mut w = console(640, 400, 0, 0);
    w.write_byte(b'A');
    assert!(cell_shows(&w, 0, 0, b'A' as usize));
    assert!(!cell_shows(&w, 0, 0, b'B' as usize));
    assert_eq!(w.cursor(), (0, 1));
    w.write_byte_at(3, 5, b'Z');
    assert!(cell_shows(&w, 3, 5, b'Z' as usize));
    assert_eq!(w.cursor(), (0, 1));
}

#[test]
fn console_glyph_uses_origin_offset() {
    let mut w = console(640, 400, 100, 8);
    w.write_byte(b'C');
    let fb = w.framebuffer().surface();
    let bits = glyph_bits(b'C' as usize);
    for r in 0..GH {
        for x in 0..GW {
            let want = if bits[r][x] { Color::white() } else { Color::black() };
            assert_eq!(fb.read_pixel(100 + r, 8 + x), want);
        }
    }
}

#[test]
fn cursor_wraps_after_full_row() {
    let mut w = console(640, 400, 0, 0);
    write_n(&mut w, b'x', 79);
    assert_eq!(w.cursor(), (0, 79));
    w.write_byte(b'x');
    assert_eq!(w.cursor(), (1, 0));
}

#[test]
fn newline_byte_moves_down() {
    let mut w = console(640, 400, 0, 0);
    w.write_str_lossy("ab\ncd");
    assert_eq!(w.cursor(), (1, 2));
    assert!(cell_shows(&w, 0, 1, b'b' as usize));
    assert!(cell_shows(&w, 1, 1, b'd' as usize));
    w.newline();
    assert_eq!(w.cursor(), (2, 0));
    w.advance();
    assert_eq!(w.cursor(), (2, 1));
}

#[test]
fn scroll_evicts_first_line_and_shifts_the_rest() {
    let mut w = console(640, 400, 0, 0);
    assert_eq!((w.glyphs_per_row(), w.glyph_rows_visible()), (80, 25));
    // Line i shows letter i; the wrap after the last full line scrolls.
    for i in 0..25u8 {
        write_n(&mut w, b'a' + i, 80);
    }
    assert_eq!(w.cursor(), (24, 0));
    for row in 0..24 {
        assert!(cell_shows(&w, row, 0, (b'a' + row as u8 + 1) as usize));
        assert!(cell_shows(&w, row, 79, (b'a' + row as u8 + 1) as usize));
    }
    write_n(&mut w, b'B', 79);
    assert_eq!(w.cursor(), (24, 79));
    for col in 0..79 {
        assert!(cell_shows(&w, 24, col, b'B' as usize));
    }
    assert!(cell_shows(&w, 23, 0, b'y' as usize));
}

#[test]
fn scroll_with_full_lines_of_a_then_b() {
    let mut w = console(640, 400, 0, 0);
    write_n(&mut w, b'A', 25 * 80);
    assert_eq!(w.cursor(), (24, 0));
    for row in 0..24 {
        assert!(cell_shows(&w, row, 40, b'A' as usize));
    }
    write_n(&mut w, b'B', 80);
    assert_eq!(w.cursor(), (24, 0));
    assert!(cell_shows(&w, 22, 0, b'A' as usize));
    assert!(cell_shows(&w, 23, 0, b'B' as usize));
    assert!(cell_shows(&w, 24, 79, b'B' as usize));
}

#[test]
fn scroll_down_px_moves_shadow_rows_up() {
    let mut w = console(64, 64, 0, 0);
    w.write_byte_at(1, 0, b'Q');
    w.scroll_down_px(16);
    assert!(cell_shows(&w, 0, 0, b'Q' as usize));
    assert_eq!(w.cursor(), (0, 0));
}

#[test]
fn unmapped_code_renders_as_space() {
    let mut a = console(640, 400, 0, 0);
    let mut b = console(640, 400, 0, 0);
    a.write_byte(200);
    b.write_byte(b' ');
    assert_eq!(a.cursor(), b.cursor());
    assert_eq!(
        a.framebuffer().surface().as_bytes(),
        b.framebuffer().surface().as_bytes()
    );
    assert!(cell_shows(&a, 0, 0, b' ' as usize));
}

#[test]
fn write_str_lossy_equals_bytes_one_by_one() {
    let mut a = console(640, 400, 0, 0);
    let mut b = console(640, 400, 0, 0);
    a.write_str_lossy("hi\nthere");
    for c in "hi\nthere".bytes() {
        b.write_byte(c);
    }
    assert_eq!(a.cursor(), b.cursor());
    assert_eq!(a.cursor(), (1, 5));
    assert_eq!(
        a.framebuffer().surface().as_bytes(),
        b.framebuffer().surface().as_bytes()
    );
}

#[test]
fn font_rejects_bad_input() {
    assert!(Font::new(0, GH, (0..128).map(glyph_bits).collect()).is_none());
    assert!(Font::new(GW, 0, Vec::new()).is_none());
    assert!(Font::new(GW, GH, (0..32).map(glyph_bits).collect()).is_none());
    let mut glyphs: Vec<Vec<Vec<bool>>> = (0..128).map(glyph_bits).collect();
    glyphs[70].pop();
    assert!(Font::new(GW, GH, glyphs).is_none());
    let mut glyphs: Vec<Vec<Vec<bool>>> = (0..128).map(glyph_bits).collect();
    glyphs[3][2].push(true);
    assert!(Font::new(GW, GH, glyphs).is_none());
}

#[test]
fn psf_blob_decodes_to_the_same_font() {
    let from_blob = Font::from_psf(&test_psf()).unwrap();
    let direct = test_font();
    for c in 0..128u8 {
        assert_eq!(from_blob.get_ascii(c), direct.get_ascii(c));
    }
}

#[test]
fn font_lookup() {
    let f = test_font();
    assert_eq!(f.width(), GW);
    assert_eq!(f.height(), GH);
    assert_eq!(f.get_ascii(b'A'), Some(&glyph_bits(65)));
    assert_eq!(f.get_ascii(128), None);
}

#[test]
fn single_cell_console_scrolls_in_place() {
    let mut w = console(8, 16, 0, 0);
    assert_eq!((w.glyphs_per_row(), w.glyph_rows_visible()), (1, 1));
    w.write_byte(b'K');
    assert_eq!(w.cursor(), (0, 0));
    assert!(cell_shows(&w, 0, 0, b'K' as usize));
    w.write_byte(b'\n');
    assert_eq!(w.cursor(), (0, 0));
}

#[test]
fn scroll_by_whole_height_changes_nothing() {
    let mut w = console(64, 64, 0, 0);
    w.write_byte_at(2, 3, b'R');
    let before = w.framebuffer().surface().as_bytes().to_vec();
    w.scroll_down_px(64);
    assert_eq!(w.framebuffer().surface().as_bytes().to_vec(), before);
}

#[test]
fn last_row_wrap_keeps_cursor_on_last_row() {
    let mut w = console(32, 32, 0, 0);
    assert_eq!((w.glyphs_per_row(), w.glyph_rows_visible()), (4, 2));
    w.write_str_lossy("abcd");
    assert_eq!(w.cursor(), (1, 0));
    w.write_str_lossy("efgh");
    assert_eq!(w.cursor(), (1, 0));
    assert!(cell_shows(&w, 0, 0, b'e' as usize));
    assert!(cell_shows(&w, 0, 3, b'h' as usize));
}
