use vstd::prelude::*;

verus! {

/// The character code whose glyph stands in for codes the font lacks.
pub const SPACE: u8 = 32;

/// Each glyph of `glyphs` has `height` rows of `width` bits.
pub open spec fn well_shaped(glyphs: Seq<Vec<Vec<bool>>>, width: int, height: int) -> bool {
    forall|i: int|
        #![trigger glyphs[i]]
        0 <= i < glyphs.len() ==> glyphs[i]@.len() == height && forall|r: int|
            #![trigger glyphs[i]@[r]]
            0 <= r < height ==> glyphs[i]@[r]@.len() == width
}

/// Little-endian 32-bit number at offset `off` of `data`.
pub open spec fn le_u32(data: Seq<u8>, off: int) -> int {
    data[off] + data[off + 1] * 256 + data[off + 2] * 65536 + data[off + 3] * 16777216
}

pub open spec fn psf_header_size(data: Seq<u8>) -> int {
    le_u32(data, 8)
}

pub open spec fn psf_glyph_count(data: Seq<u8>) -> int {
    le_u32(data, 16)
}

pub open spec fn psf_bytes_per_glyph(data: Seq<u8>) -> int {
    le_u32(data, 20)
}

pub open spec fn psf_height(data: Seq<u8>) -> int {
    le_u32(data, 24)
}

pub open spec fn psf_width(data: Seq<u8>) -> int {
    le_u32(data, 28)
}

/// Bytes in one glyph row: a bit per pixel, rows padded to whole bytes.
pub open spec fn psf_row_bytes(data: Seq<u8>) -> int {
    (psf_width(data) + 7) / 8
}

/// A PSF2 font: the magic number, a header of eight little-endian 32-bit
/// fields, glyphs that hold their rows and all lie inside `data`, at
/// least one pixel each way and the space character among the glyphs.
pub open spec fn psf_valid(data: Seq<u8>) -> bool {
    &&& data.len() >= 32
    &&& data[0] == 0x72u8
    &&& data[1] == 0xb5u8
    &&& data[2] == 0x4au8
    &&& data[3] == 0x86u8
    &&& psf_width(data) >= 1
    &&& psf_height(data) >= 1
    &&& psf_glyph_count(data) > SPACE
    &&& psf_height(data) * psf_row_bytes(data) <= psf_bytes_per_glyph(data)
    &&& psf_header_size(data) + psf_glyph_count(data) * psf_bytes_per_glyph(data) <= data.len()
}

/// Glyphs kept from a PSF2 font: those a byte can name.
pub open spec fn psf_kept(data: Seq<u8>) -> int {
    if psf_glyph_count(data) < 256 {
        psf_glyph_count(data)
    } else {
        256
    }
}

/// Bit `x` of row `r` of glyph `c`: rows start on a byte, the leftmost
/// pixel is the high bit.
pub open spec fn psf_bit(data: Seq<u8>, c: int, r: int, x: int) -> bool {
    let byte = data[psf_header_size(data) + c * psf_bytes_per_glyph(data) + r * psf_row_bytes(data)
        + x / 8];
    (byte >> ((7 - x % 8) as u8)) & 1u8 == 1u8
}

/// Little-endian 32-bit number at offset `off` of `data`.
fn read_le_u32(data: &[u8], off: usize) -> (r: usize)
    requires
        off + 4 <= data@.len(),
    ensures
        r == le_u32(data@, off as int),
{
    data[off] as usize + (data[off + 1] as usize) * 256 + (data[off + 2] as usize) * 65536 + (data[off
        + 3] as usize) * 16777216
}

/// Where bit `x` of row `r` of glyph `c` lies, for a glyph inside the data.
proof fn lemma_psf_index(
    hs: int,
    c: int,
    n: int,
    bpg: int,
    r: int,
    h: int,
    rb: int,
    x: int,
    w: int,
    len: int,
)
    requires
        0 <= c < n,
        0 <= r < h,
        0 <= x < w,
        rb == (w + 7) / 8,
        h * rb <= bpg,
        0 <= hs,
        hs + n * bpg <= len,
    ensures
        0 <= c * bpg,
        0 <= r * rb,
        0 <= hs + c * bpg + r * rb + x / 8 < len,
{
    assert(x / 8 < rb) by (nonlinear_arith)
        requires
            0 <= x < w,
            rb == (w + 7) / 8,
    ;
    assert(r * rb + x / 8 < h * rb) by (nonlinear_arith)
        requires
            0 <= r < h,
            0 <= x / 8 < rb,
    ;
    assert(c * bpg + bpg <= n * bpg && 0 <= c * bpg) by (nonlinear_arith)
        requires
            0 <= c < n,
            0 <= bpg,
    ;
    assert(0 <= r * rb) by (nonlinear_arith)
        requires
            0 <= r,
            0 <= rb,
    ;
}

/// A bitmap font: glyphs of a fixed size, addressed by character code.
/// Codes below the number of glyphs are mapped; a set bit is foreground.
pub struct Font {
    width: usize,
    height: usize,
    glyphs: Vec<Vec<Vec<bool>>>,
}

impl Font {
    pub closed spec fn glyph_width(&self) -> nat {
        self.width as nat
    }

    pub closed spec fn glyph_height(&self) -> nat {
        self.height as nat
    }

    pub closed spec fn glyph_count(&self) -> nat {
        self.glyphs@.len()
    }

    /// The rows of bits of the glyph for `code`.
    pub closed spec fn glyph(&self, code: int) -> Seq<Seq<bool>> {
        self.glyphs@[code]@.map_values(|row: Vec<bool>| row@)
    }

    pub open spec fn mapped(&self, code: u8) -> bool {
        code < self.glyph_count()
    }

    /// Every glyph has the font's size.
    pub closed spec fn shaped(&self) -> bool {
        well_shaped(self.glyphs@, self.width as int, self.height as int)
    }

    pub open spec fn wf(&self) -> bool {
        &&& self.glyph_width() >= 1
        &&& self.glyph_height() >= 1
        &&& self.mapped(SPACE)
        &&& self.shaped()
    }

    /// A font of `width` by `height` glyphs; `None` unless both sizes are
    /// positive, the space character is mapped and every glyph has that
    /// size.
    pub fn new(width: usize, height: usize, glyphs: Vec<Vec<Vec<bool>>>) -> (r: Option<Font>)
        ensures
            r.is_some() == (width >= 1 && height >= 1 && glyphs@.len() > SPACE && well_shaped(
                glyphs@,
                width as int,
                height as int,
            )),
            r.is_some() ==> r.unwrap().wf(),
            r.is_some() ==> r.unwrap().glyph_width() == width,
            r.is_some() ==> r.unwrap().glyph_height() == height,
            r.is_some() ==> r.unwrap().glyph_count() == glyphs@.len(),
            r.is_some() ==> forall|i: int|
                0 <= i < glyphs@.len() ==> #[trigger] r.unwrap().glyph(i) == glyphs@[i]@.map_values(
                    |row: Vec<bool>| row@,
                ),
    {
        if width == 0 || height == 0 || glyphs.len() <= SPACE as usize {
            return None;
        }
        let mut i: usize = 0;
        while i < glyphs.len()
            invariant
                i <= glyphs@.len(),
                well_shaped(glyphs@.subrange(0, i as int), width as int, height as int),
            decreases glyphs@.len() - i,
        {
            let g = &glyphs[i];
            if g.len() != height {
                proof {
                    assert(glyphs@[i as int]@.len() != height);
                }
                return None;
            }
            let mut r: usize = 0;
            while r < height
                invariant
                    i < glyphs@.len(),
                    g == glyphs@[i as int],
                    g@.len() == height,
                    r <= height,
                    forall|k: int| 0 <= k < r ==> #[trigger] g@[k]@.len() == width,
                decreases height - r,
            {
                if g[r].len() != width {
                    return None;
                }
                r = r + 1;
            }
            proof {
                let prefix = glyphs@.subrange(0, i as int + 1);
                assert forall|j: int| #![trigger prefix[j]] 0 <= j < prefix.len() implies prefix[j]@.len()
                    == height && forall|k: int|
                    #![trigger prefix[j]@[k]]
                    0 <= k < height ==> prefix[j]@[k]@.len() == width by {
                    if j < i {
                        assert(prefix[j] == glyphs@.subrange(0, i as int)[j]);
                    }
                }
            }
            i = i + 1;
        }
        assert(glyphs@.subrange(0, glyphs@.len() as int) =~= glyphs@);
        Some(Font { width, height, glyphs })
    }

    /// Decodes a PSF2 font blob; `None` unless the blob is a valid PSF2
    /// font. Glyphs past the 256 that a byte can name are not kept.
    pub fn from_psf(data: &[u8]) -> (r: Option<Font>)
        ensures
            r.is_some() == psf_valid(data@),
            r.is_some() ==> r.unwrap().wf(),
            r.is_some() ==> r.unwrap().glyph_width() == psf_width(data@),
            r.is_some() ==> r.unwrap().glyph_height() == psf_height(data@),
            r.is_some() ==> r.unwrap().glyph_count() == psf_kept(data@),
            r.is_some() ==> forall|c: int, row: int, x: int|
                0 <= c < psf_kept(data@) && 0 <= row < psf_height(data@) && 0 <= x < psf_width(data@)
                    ==> #[trigger] r.unwrap().glyph(c)[row][x] == psf_bit(data@, c, row, x),
    {
        if data.len() < 32 || data[0] != 0x72u8 || data[1] != 0xb5u8 || data[2] != 0x4au8 || data[3]
            != 0x86u8 {
            return None;
        }
        let hs = read_le_u32(data, 8);
        let n = read_le_u32(data, 16);
        let bpg = read_le_u32(data, 20);
        let h = read_le_u32(data, 24);
        let w = read_le_u32(data, 28);
        if w == 0 || h == 0 || n <= SPACE as usize {
            return None;
        }
        let rb = (w / 8) + if w % 8 == 0 {
            0
        } else {
            1
        };
        assert(rb == (w + 7) / 8);
        let glyph_bytes = match h.checked_mul(rb) {
            Some(v) => v,
            None => return None,
        };
        if glyph_bytes > bpg {
            return None;
        }
        let all = match n.checked_mul(bpg) {
            Some(v) => v,
            None => return None,
        };
        if all > data.len() || hs > data.len() - all {
            return None;
        }
        let kept: usize = if n < 256 {
            n
        } else {
            256
        };
        let ghost d = data@;
        let dlen = data.len();
        let mut glyphs: Vec<Vec<Vec<bool>>> = Vec::new();
        let mut c: usize = 0;
        while c < kept
            invariant
                psf_valid(d),
                d == data@,
                hs == psf_header_size(d),
                n == psf_glyph_count(d),
                bpg == psf_bytes_per_glyph(d),
                h == psf_height(d),
                w == psf_width(d),
                rb == psf_row_bytes(d),
                kept == psf_kept(d),
                c <= kept,
                dlen == d.len(),
                glyphs@.len() == c,
                well_shaped(glyphs@, w as int, h as int),
                forall|i: int, row: int, x: int|
                    0 <= i < c && 0 <= row < h && 0 <= x < w ==> #[trigger] glyphs@[i]@[row]@[x]
                        == psf_bit(d, i, row, x),
            decreases kept - c,
        {
            let mut rows: Vec<Vec<bool>> = Vec::new();
            let mut r: usize = 0;
            while r < h
                invariant
                    psf_valid(d),
                    d == data@,
                    hs == psf_header_size(d),
                    n == psf_glyph_count(d),
                    bpg == psf_bytes_per_glyph(d),
                    h == psf_height(d),
                    w == psf_width(d),
                    rb == psf_row_bytes(d),
                    c < kept,
                    kept <= n,
                    dlen == d.len(),
                    r <= h,
                    rows@.len() == r,
                    forall|k: int| 0 <= k < r ==> #[trigger] rows@[k]@.len() == w,
                    forall|row: int, x: int|
                        0 <= row < r && 0 <= x < w ==> #[trigger] rows@[row]@[x] == psf_bit(d, c as int, row, x),
                decreases h - r,
            {
                let mut bits: Vec<bool> = Vec::new();
                let mut x: usize = 0;
                while x < w
                    invariant
                        psf_valid(d),
                        d == data@,
                        hs == psf_header_size(d),
                        n == psf_glyph_count(d),
                        bpg == psf_bytes_per_glyph(d),
                        h == psf_height(d),
                        w == psf_width(d),
                        rb == psf_row_bytes(d),
                        c < kept,
                        kept <= n,
                        dlen == d.len(),
                        r < h,
                        x <= w,
                        bits@.len() == x,
                        forall|k: int| 0 <= k < x ==> #[trigger] bits@[k] == psf_bit(d, c as int, r as int, k),
                    decreases w - x,
                {
                    proof {
                        lemma_psf_index(hs as int, c as int, n as int, bpg as int, r as int, h as int, rb as int, x as int, w as int, dlen as int);
                    }
                    let byte = data[hs + c * bpg + r * rb + x / 8];
                    bits.push((byte >> ((7 - x % 8) as u8)) & 1u8 == 1u8);
                    x = x + 1;
                }
                rows.push(bits);
                r = r + 1;
            }
            glyphs.push(rows);
            c = c + 1;
        }
        let font = Font { width: w, height: h, glyphs };
        assert forall|cc: int, row: int, x: int|
            0 <= cc < psf_kept(d) && 0 <= row < psf_height(d) && 0 <= x < psf_width(d) implies #[trigger] font.glyph(cc)[row][x] == psf_bit(d, cc, row, x) by {
            assert(font.glyph(cc)[row] == font.glyphs@[cc]@[row]@);
        }
        Some(font)
    }

    /// Glyph width in pixels.
    pub fn width(&self) -> (r: usize)
        ensures
            r == self.glyph_width(),
    {
        self.width
    }

    /// Glyph height in pixels.
    pub fn height(&self) -> (r: usize)
        ensures
            r == self.glyph_height(),
    {
        self.height
    }

    /// The glyph for `code`, or `None` where the font does not map it.
    pub fn get_ascii(&self, code: u8) -> (r: Option<&Vec<Vec<bool>>>)
        requires
            self.wf(),
        ensures
            r.is_some() == self.mapped(code),
            r.is_some() ==> r.unwrap()@.map_values(|row: Vec<bool>| row@) == self.glyph(code as int),
            r.is_some() ==> r.unwrap()@.len() == self.glyph_height(),
            r.is_some() ==> forall|k: int|
                0 <= k < self.glyph_height() ==> #[trigger] r.unwrap()@[k]@.len() == self.glyph_width(),
    {
        if (code as usize) < self.glyphs.len() {
            let g = &self.glyphs[code as usize];
            proof {
                assert(self.glyphs@[code as int] == *g);
            }
            Some(g)
        } else {
            None
        }
    }
}

} // verus!
