use vstd::prelude::*;

verus! {

/// Bytes in the shadow region: room for the largest geometry supported,
/// 4000 by 4000 pixels of four bytes each.
pub const SHADOW_CAPACITY: usize = 64000000;

/// An RGB color: three independent 8-bit channels, no alpha.
#[derive(Clone, Copy, Debug, PartialEq, Eq, Structural)]
pub struct Color {
    pub r: u8,
    pub g: u8,
    pub b: u8,
}

impl Color {
    pub open spec fn spec_white() -> Color {
        Color { r: 0xFF, g: 0xFF, b: 0xFF }
    }

    pub open spec fn spec_black() -> Color {
        Color { r: 0x00, g: 0x00, b: 0x00 }
    }

    /// All channels full: the console's default foreground.
    pub fn white() -> (c: Color)
        ensures
            c == Color::spec_white(),
    {
        Color { r: 0xFF, g: 0xFF, b: 0xFF }
    }

    /// All channels zero: the console's default background.
    pub fn black() -> (c: Color)
        ensures
            c == Color::spec_black(),
    {
        Color { r: 0x00, g: 0x00, b: 0x00 }
    }
}

/// Geometry of a linear framebuffer, as the boot loader reports it.
#[derive(Clone, Copy, Debug, PartialEq, Eq, Structural)]
pub struct FramebufferInfo {
    pub width: usize,
    pub height: usize,
    /// Bytes from the start of one pixel row to the start of the next.
    pub pitch: usize,
    /// Bits per pixel.
    pub bpp: usize,
    pub red_mask_shift: usize,
    pub green_mask_shift: usize,
    pub blue_mask_shift: usize,
}

impl FramebufferInfo {
    pub open spec fn bytes_per_pixel(&self) -> int {
        self.bpp as int / 8
    }

    pub open spec fn red_offset(&self) -> int {
        self.red_mask_shift as int / 8
    }

    pub open spec fn green_offset(&self) -> int {
        self.green_mask_shift as int / 8
    }

    pub open spec fn blue_offset(&self) -> int {
        self.blue_mask_shift as int / 8
    }

    /// Size of the backing region: every row, padding included.
    pub open spec fn size(&self) -> int {
        self.height * self.pitch
    }

    /// Channel bytes lie inside a pixel, a row of pixels fits in the
    /// stride, and the region can be addressed.
    pub open spec fn valid(&self) -> bool {
        &&& self.red_offset() < self.bytes_per_pixel()
        &&& self.green_offset() < self.bytes_per_pixel()
        &&& self.blue_offset() < self.bytes_per_pixel()
        &&& self.width * self.bytes_per_pixel() <= self.pitch
        &&& self.size() <= usize::MAX
    }

    /// Byte offset of pixel (`row`, `col`).
    pub open spec fn addr(&self, row: int, col: int) -> int {
        row * self.pitch + col * self.bytes_per_pixel()
    }

    /// The whole pixel at (`row`, `col`) lies inside the region.
    pub open spec fn fits(&self, row: int, col: int) -> bool {
        self.addr(row, col) + self.bytes_per_pixel() <= self.size()
    }

    pub open spec fn channels_distinct(&self) -> bool {
        &&& self.red_offset() != self.green_offset()
        &&& self.red_offset() != self.blue_offset()
        &&& self.green_offset() != self.blue_offset()
    }

    /// `s` with the three channel bytes of pixel (`row`, `col`) set to `c`.
    pub open spec fn put_color(&self, s: Seq<u8>, row: int, col: int, c: Color) -> Seq<u8> {
        let a = self.addr(row, col);
        s.update(a + self.red_offset(), c.r).update(
            a + self.green_offset(),
            c.g,
        ).update(a + self.blue_offset(), c.b)
    }

    /// The color that the channel bytes of pixel (`row`, `col`) of `s` hold.
    pub open spec fn color_in(&self, s: Seq<u8>, row: int, col: int) -> Color {
        let a = self.addr(row, col);
        Color {
            r: s[a + self.red_offset()],
            g: s[a + self.green_offset()],
            b: s[a + self.blue_offset()],
        }
    }

    /// `dev` with the bytes of pixel (`row`, `col`) taken from `src`.
    pub open spec fn blitted(&self, dev: Seq<u8>, src: Seq<u8>, row: int, col: int) -> Seq<u8> {
        let a = self.addr(row, col);
        Seq::new(
            dev.len(),
            |k: int| if a <= k < a + self.bytes_per_pixel() { src[k] } else { dev[k] },
        )
    }

    /// Shadow and device bytes after a pixel write that is blitted at once.
    pub open spec fn write_step(&self, st: (Seq<u8>, Seq<u8>), row: int, col: int, c: Color) -> (
        Seq<u8>,
        Seq<u8>,
    ) {
        let sh = self.put_color(st.0, row, col, c);
        (sh, self.blitted(st.1, sh, row, col))
    }
}

/// The region byte `k` of `s` is replaced by byte `from + (k - to)` for
/// `to <= k < to + n`: `n` bytes moved from `from` to `to`.
pub open spec fn moved(s: Seq<u8>, from: int, to: int, n: int) -> Seq<u8> {
    Seq::new(s.len(), |k: int| if to <= k < to + n { s[from + (k - to)] } else { s[k] })
}

/// Moves `n` bytes of `v` from offset `from` to offset `to`; the two
/// ranges may overlap.
fn move_bytes(v: &mut Vec<u8>, from: usize, to: usize, n: usize)
    requires
        from + n <= old(v).len(),
        to + n <= old(v).len(),
    ensures
        final(v)@ == moved(old(v)@, from as int, to as int, n as int),
{
    let ghost s0 = v@;
    let len = v.len();
    if from >= to {
        let mut i: usize = 0;
        while i < n
            invariant
                i <= n,
                from >= to,
                from + n <= len,
                to + n <= len,
                s0.len() == len,
                v@.len() == s0.len(),
                forall|k: int|
                    0 <= k < s0.len() ==> #[trigger] v@[k] == if to <= k < to + i {
                        s0[from + (k - to)]
                    } else {
                        s0[k]
                    },
            decreases n - i,
        {
            let b = v[from + i];
            v.set(to + i, b);
            i = i + 1;
        }
    } else {
        let mut i: usize = n;
        while i > 0
            invariant
                i <= n,
                from < to,
                from + n <= len,
                to + n <= len,
                s0.len() == len,
                v@.len() == s0.len(),
                forall|k: int|
                    0 <= k < s0.len() ==> #[trigger] v@[k] == if to + i <= k < to + n {
                        s0[from + (k - to)]
                    } else {
                        s0[k]
                    },
            decreases i,
        {
            i = i - 1;
            let b = v[from + i];
            v.set(to + i, b);
        }
    }
    assert(v@ =~= moved(s0, from as int, to as int, n as int));
}

/// The device-visible pixel region and its geometry.
pub struct Framebuffer {
    mem: Vec<u8>,
    width: usize,
    height: usize,
    pitch: usize,
    red_mask_shift: usize,
    green_mask_shift: usize,
    blue_mask_shift: usize,
    bpp: usize,
}

impl Framebuffer {
    /// The bytes of the region.
    pub closed spec fn bytes(&self) -> Seq<u8> {
        self.mem@
    }

    /// The geometry the region was created with.
    pub closed spec fn info(&self) -> FramebufferInfo {
        FramebufferInfo {
            width: self.width,
            height: self.height,
            pitch: self.pitch,
            bpp: self.bpp,
            red_mask_shift: self.red_mask_shift,
            green_mask_shift: self.green_mask_shift,
            blue_mask_shift: self.blue_mask_shift,
        }
    }

    pub open spec fn wf(&self) -> bool {
        &&& self.info().valid()
        &&& self.bytes().len() == self.size()
    }

    pub open spec fn size(&self) -> int {
        self.info().size()
    }

    pub open spec fn bytes_per_pixel(&self) -> int {
        self.info().bytes_per_pixel()
    }

    pub open spec fn same_geometry(&self, other: Framebuffer) -> bool {
        self.info() == other.info()
    }

    /// Byte offset of pixel (`row`, `col`).
    pub open spec fn addr(&self, row: int, col: int) -> int {
        self.info().addr(row, col)
    }

    /// The whole pixel at (`row`, `col`) lies inside the region.
    pub open spec fn fits(&self, row: int, col: int) -> bool {
        self.info().fits(row, col)
    }

    pub open spec fn channels_distinct(&self) -> bool {
        self.info().channels_distinct()
    }

    pub open spec fn put_color(&self, s: Seq<u8>, row: int, col: int, c: Color) -> Seq<u8> {
        self.info().put_color(s, row, col, c)
    }

    pub open spec fn color_in(&self, s: Seq<u8>, row: int, col: int) -> Color {
        self.info().color_in(s, row, col)
    }

    pub open spec fn blitted(&self, dev: Seq<u8>, src: Seq<u8>, row: int, col: int) -> Seq<u8> {
        self.info().blitted(dev, src, row, col)
    }

    pub open spec fn write_step(&self, st: (Seq<u8>, Seq<u8>), row: int, col: int, c: Color) -> (
        Seq<u8>,
        Seq<u8>,
    ) {
        self.info().write_step(st, row, col, c)
    }

    /// The region after a clipped write of `c` at (`row`, `col`).
    pub open spec fn written(&self, row: int, col: int, c: Color) -> Seq<u8> {
        if self.fits(row, col) {
            self.put_color(self.bytes(), row, col, c)
        } else {
            self.bytes()
        }
    }

    /// What a clipped read at (`row`, `col`) returns.
    pub open spec fn color_at(&self, row: int, col: int) -> Color {
        if self.fits(row, col) {
            self.color_in(self.bytes(), row, col)
        } else {
            Color::spec_black()
        }
    }

    /// A region of `info.height * info.pitch` bytes, all zero.
    pub fn new(info: FramebufferInfo) -> (r: Self)
        requires
            info.valid(),
        ensures
            r.wf(),
            r.info() == info,
            r.bytes() == Seq::new(info.size() as nat, |k: int| 0u8),
    {
        let size = info.height * info.pitch;
        let mut mem: Vec<u8> = Vec::new();
        let mut i: usize = 0;
        while i < size
            invariant
                i <= size,
                mem@ == Seq::new(i as nat, |k: int| 0u8),
            decreases size - i,
        {
            mem.push(0u8);
            i = i + 1;
            assert(mem@ =~= Seq::new(i as nat, |k: int| 0u8));
        }
        Framebuffer {
            mem,
            width: info.width,
            height: info.height,
            pitch: info.pitch,
            red_mask_shift: info.red_mask_shift,
            green_mask_shift: info.green_mask_shift,
            blue_mask_shift: info.blue_mask_shift,
            bpp: info.bpp,
        }
    }

    /// Width in pixels.
    pub fn width(&self) -> (r: usize)
        ensures
            r == self.info().width,
    {
        self.width
    }

    /// Height in pixels.
    pub fn height(&self) -> (r: usize)
        ensures
            r == self.info().height,
    {
        self.height
    }

    /// The bytes of the region, for presenting them on a device.
    pub fn as_bytes(&self) -> (r: &[u8])
        ensures
            r@ == self.bytes(),
    {
        self.mem.as_slice()
    }

    /// Start of pixel (`row`, `col`) if the whole pixel fits in the region.
    fn offset_of(&self, row: usize, col: usize) -> (r: Option<usize>)
        requires
            self.wf(),
        ensures
            r.is_some() == self.fits(row as int, col as int),
            r.is_some() ==> r.unwrap() == self.addr(row as int, col as int),
    {
        let by_pp = self.bpp / 8;
        match row.checked_mul(self.pitch) {
            None => None,
            Some(a) => match col.checked_mul(by_pp) {
                None => None,
                Some(b) => match a.checked_add(b) {
                    None => None,
                    Some(p) => match p.checked_add(by_pp) {
                        None => None,
                        Some(e) => {
                            if e <= self.mem.len() {
                                Some(p)
                            } else {
                                None
                            }
                        },
                    },
                },
            },
        }
    }

    /// Writes `color` at (`row`, `col`); a pixel that does not fit in the
    /// region is clipped and nothing is written.
    pub fn write_pixel(&mut self, row: usize, col: usize, color: Color)
        requires
            old(self).wf(),
        ensures
            final(self).wf(),
            final(self).same_geometry(*old(self)),
            final(self).bytes() == old(self).written(row as int, col as int, color),
    {
        match self.offset_of(row, col) {
            None => {},
            Some(a) => {
                let r_offset = self.red_mask_shift / 8;
                let g_offset = self.green_mask_shift / 8;
                let b_offset = self.blue_mask_shift / 8;
                self.mem.set(a + r_offset, color.r);
                self.mem.set(a + g_offset, color.g);
                self.mem.set(a + b_offset, color.b);
            },
        }
    }

    /// The color at (`row`, `col`), or black where the pixel does not fit.
    pub fn read_pixel(&self, row: usize, col: usize) -> (r: Color)
        requires
            self.wf(),
        ensures
            r == self.color_at(row as int, col as int),
    {
        match self.offset_of(row, col) {
            None => Color::black(),
            Some(a) => {
                let r_offset = self.red_mask_shift / 8;
                let g_offset = self.green_mask_shift / 8;
                let b_offset = self.blue_mask_shift / 8;
                Color { r: self.mem[a + r_offset], g: self.mem[a + g_offset], b: self.mem[a + b_offset] }
            },
        }
    }

    /// Copies the bytes of pixel (`row`, `col`) to pixel (`to_row`,
    /// `to_col`); nothing happens unless both pixels fit.
    pub fn copy_pixel(&mut self, row: usize, col: usize, to_row: usize, to_col: usize)
        requires
            old(self).wf(),
        ensures
            final(self).wf(),
            final(self).same_geometry(*old(self)),
            final(self).bytes() == if old(self).fits(row as int, col as int) && old(self).fits(
                to_row as int,
                to_col as int,
            ) {
                moved(
                    old(self).bytes(),
                    old(self).addr(row as int, col as int),
                    old(self).addr(to_row as int, to_col as int),
                    old(self).bytes_per_pixel(),
                )
            } else {
                old(self).bytes()
            },
    {
        let from = self.offset_of(row, col);
        let to = self.offset_of(to_row, to_col);
        match (from, to) {
            (Some(a), Some(b)) => {
                let by_pp = self.bpp / 8;
                move_bytes(&mut self.mem, a, b, by_pp);
            },
            _ => {},
        }
    }
}

/// A device surface paired with a shadow region that holds the
/// authoritative content; the device is updated from the shadow.
pub struct DoubleBufferedFramebuffer {
    fb: Framebuffer,
    buffer: Vec<u8>,
}

impl DoubleBufferedFramebuffer {
    /// The bytes of the shadow region, addressed like the device's.
    pub closed spec fn shadow(&self) -> Seq<u8> {
        self.buffer@
    }

    /// The device surface.
    pub closed spec fn device(&self) -> Framebuffer {
        self.fb
    }

    pub open spec fn wf(&self) -> bool {
        &&& self.device().wf()
        &&& self.shadow().len() == SHADOW_CAPACITY
        &&& self.device().size() <= SHADOW_CAPACITY
    }

    /// Shadow bytes, then device bytes.
    pub open spec fn pixels(&self) -> (Seq<u8>, Seq<u8>) {
        (self.shadow(), self.device().bytes())
    }

    /// The device surface, for reads that bypass the shadow.
    pub fn surface(&self) -> (r: &Framebuffer)
        ensures
            *r == self.device(),
    {
        &self.fb
    }

    /// Pairs `fb` with a zeroed shadow region; the device region must not
    /// be larger than the shadow's capacity.
    pub fn new(fb: Framebuffer) -> (r: Self)
        requires
            fb.wf(),
            fb.size() <= SHADOW_CAPACITY,
        ensures
            r.wf(),
            r.device() == fb,
    {
        let buffer: Vec<u8> = vec![0u8; SHADOW_CAPACITY];
        DoubleBufferedFramebuffer { fb, buffer }
    }

    /// Writes `color` at (`row`, `col`) in the shadow and shows it on the
    /// device.
    pub fn write_pixel(&mut self, row: usize, col: usize, color: Color)
        requires
            old(self).wf(),
            old(self).device().fits(row as int, col as int),
        ensures
            final(self).wf(),
            final(self).device().same_geometry(old(self).device()),
            final(self).pixels() == old(self).device().write_step(
                old(self).pixels(),
                row as int,
                col as int,
                color,
            ),
    {
        self.write_px_lazy(row, col, color);
        self.blit_px(row, col);
    }

    /// Writes `color` at (`row`, `col`) in the shadow only.
    pub fn write_px_lazy(&mut self, row: usize, col: usize, color: Color)
        requires
            old(self).wf(),
            old(self).device().fits(row as int, col as int),
        ensures
            final(self).wf(),
            final(self).device() == old(self).device(),
            final(self).shadow() == old(self).device().put_color(
                old(self).shadow(),
                row as int,
                col as int,
                color,
            ),
    {
        let px_begin = self.pixel_start(row, col);
        let r_offset = self.fb.red_mask_shift / 8;
        let g_offset = self.fb.green_mask_shift / 8;
        let b_offset = self.fb.blue_mask_shift / 8;
        self.buffer.set(px_begin + r_offset, color.r);
        self.buffer.set(px_begin + g_offset, color.g);
        self.buffer.set(px_begin + b_offset, color.b);
    }

    /// Copies the shadow's bytes of pixel (`row`, `col`) to the device.
    pub fn blit_px(&mut self, row: usize, col: usize)
        requires
            old(self).wf(),
            old(self).device().fits(row as int, col as int),
        ensures
            final(self).wf(),
            final(self).device().same_geometry(old(self).device()),
            final(self).shadow() == old(self).shadow(),
            final(self).device().bytes() == old(self).device().blitted(
                old(self).device().bytes(),
                old(self).shadow(),
                row as int,
                col as int,
            ),
    {
        let px_begin = self.pixel_start(row, col);
        let by_pp = self.fb.bpp / 8;
        let ghost dev0 = self.fb.mem@;
        let ghost sh = self.buffer@;
        let mut i: usize = 0;
        while i < by_pp
            invariant
                i <= by_pp,
                by_pp == self.device().bytes_per_pixel(),
                px_begin == self.device().addr(row as int, col as int),
                px_begin + by_pp <= self.device().size(),
                self.device().same_geometry(old(self).device()),
                self.wf(),
                self.buffer@ == sh,
                self.fb.mem@.len() == dev0.len(),
                forall|k: int|
                    0 <= k < dev0.len() ==> #[trigger] self.fb.mem@[k] == if px_begin <= k
                        < px_begin + i {
                        sh[k]
                    } else {
                        dev0[k]
                    },
            decreases by_pp - i,
        {
            let b = self.buffer[px_begin + i];
            self.fb.mem.set(px_begin + i, b);
            i = i + 1;
        }
        assert(self.fb.mem@ =~= old(self).device().blitted(dev0, sh, row as int, col as int));
    }

    /// The color at (`row`, `col`) in the shadow.
    pub fn read_pixel(&self, row: usize, col: usize) -> (r: Color)
        requires
            self.wf(),
            self.device().fits(row as int, col as int),
        ensures
            r == self.device().color_in(self.shadow(), row as int, col as int),
    {
        let px_begin = self.pixel_start(row, col);
        let r_offset = self.fb.red_mask_shift / 8;
        let g_offset = self.fb.green_mask_shift / 8;
        let b_offset = self.fb.blue_mask_shift / 8;
        Color {
            r: self.buffer[px_begin + r_offset],
            g: self.buffer[px_begin + g_offset],
            b: self.buffer[px_begin + b_offset],
        }
    }

    /// Copies the shadow's bytes of pixel (`row`, `col`) to pixel
    /// (`to_row`, `to_col`) of the shadow; the device is left as it is.
    pub fn copy_pixel(&mut self, row: usize, col: usize, to_row: usize, to_col: usize)
        requires
            old(self).wf(),
            old(self).device().fits(row as int, col as int),
            old(self).device().fits(to_row as int, to_col as int),
        ensures
            final(self).wf(),
            final(self).device() == old(self).device(),
            final(self).shadow() == moved(
                old(self).shadow(),
                old(self).device().addr(row as int, col as int),
                old(self).device().addr(to_row as int, to_col as int),
                old(self).device().bytes_per_pixel(),
            ),
    {
        let px_begin = self.pixel_start(row, col);
        let px_to_begin = self.pixel_start(to_row, to_col);
        let by_pp = self.fb.bpp / 8;
        move_bytes(&mut self.buffer, px_begin, px_to_begin, by_pp);
    }

    /// Start of pixel (`row`, `col`), which must fit.
    fn pixel_start(&self, row: usize, col: usize) -> (r: usize)
        requires
            self.wf(),
            self.device().fits(row as int, col as int),
        ensures
            r == self.device().addr(row as int, col as int),
            r + self.device().bytes_per_pixel() <= self.device().size(),
    {
        let by_pp = self.fb.bpp / 8;
        proof {
            lemma_mul_le_size(row as int, self.fb.pitch as int, col as int * by_pp, by_pp as int, self.device().size());
        }
        row * self.fb.pitch + col * by_pp
    }
}

proof fn lemma_mul_le_size(row: int, pitch: int, rest: int, n: int, size: int)
    requires
        0 <= row,
        0 <= pitch,
        0 <= rest,
        0 <= n,
        row * pitch + rest + n <= size,
    ensures
        row * pitch <= size,
        rest <= size,
{
    assert(row * pitch >= 0) by (nonlinear_arith)
        requires
            0 <= row,
            0 <= pitch,
    ;
}

/// Every pixel inside the width and height of a valid geometry lies wholly
/// inside its region.
pub proof fn lemma_inside_fits(info: FramebufferInfo, row: int, col: int)
    requires
        info.valid(),
        0 <= row < info.height,
        0 <= col < info.width,
    ensures
        info.fits(row, col),
{
    let n = info.bytes_per_pixel();
    let p = info.pitch as int;
    let h = info.height as int;
    let w = info.width as int;
    assert(col * n + n <= w * n) by (nonlinear_arith)
        requires
            0 <= col < w,
            0 <= n,
    ;
    assert(row * p + p <= h * p) by (nonlinear_arith)
        requires
            0 <= row < h,
            0 <= p,
    ;
}

/// Law: after a write that fits, a read of the same pixel of the surface
/// returns the color written, provided the channels have distinct bytes.
pub proof fn lemma_read_after_write(before: Framebuffer, after: Framebuffer, row: int, col: int, c: Color)
    requires
        0 <= row,
        0 <= col,
        before.wf(),
        before.fits(row, col),
        before.channels_distinct(),
        after.same_geometry(before),
        after.bytes() == before.written(row, col, c),
    ensures
        after.color_at(row, col) == c,
{
}

/// Law: a write outside the region changes no byte, and a read there
/// gives black.
pub proof fn lemma_clipping(before: Framebuffer, after: Framebuffer, row: int, col: int, c: Color)
    requires
        before.wf(),
        !before.fits(row, col),
        after.same_geometry(before),
        after.bytes() == before.written(row, col, c),
    ensures
        after.bytes() == before.bytes(),
        after.color_at(row, col) == Color::spec_black(),
{
}

/// Law: after a buffered write, the shadow read of that pixel returns the
/// color written, and so does a read of the device surface.
pub proof fn lemma_shadow_device_agree(
    before: DoubleBufferedFramebuffer,
    after: DoubleBufferedFramebuffer,
    row: int,
    col: int,
    c: Color,
)
    requires
        0 <= row,
        0 <= col,
        before.wf(),
        before.device().fits(row, col),
        before.device().channels_distinct(),
        after.device().same_geometry(before.device()),
        after.pixels() == before.device().write_step(before.pixels(), row, col, c),
    ensures
        after.device().color_in(after.shadow(), row, col) == c,
        after.device().color_at(row, col) == c,
{
    let a = before.device().addr(row, col);
    let info = before.device().info();
    assert(after.device().bytes()[a + info.red_offset()] == after.shadow()[a + info.red_offset()]);
    assert(after.device().bytes()[a + info.green_offset()] == after.shadow()[a + info.green_offset()]);
    assert(after.device().bytes()[a + info.blue_offset()] == after.shadow()[a + info.blue_offset()]);
}

} // verus!
