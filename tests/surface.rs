use fbconsole::framebuffer::{Color, DoubleBufferedFramebuffer, Framebuffer, FramebufferInfo};

fn info(width: usize, height: usize, pitch: usize) -> FramebufferInfo {
    FramebufferInfo {
        width,
        height,
        pitch,
        bpp: 32,
        red_mask_shift: 16,
        green_mask_shift: 8,
        blue_mask_shift: 0,
    }
}

fn color(r: u8, g: u8, b: u8) -> Color {
    Color { r, g, b }
}

#[test]
fn surface_read_after_write() {
    let mut fb = Framebuffer::new(info(10, 5, 40));
    let c = color(1, 2, 3);
    fb.write_pixel(4, 9, c);
    assert_eq!(fb.read_pixel(4, 9), c);
    fb.write_pixel(0, 0, Color::white());
    assert_eq!(fb.read_pixel(0, 0), Color::white());
    assert_eq!(fb.read_pixel(4, 9), c);
}

#[test]
fn surface_channel_bytes_follow_mask_shifts() {
    let mut fb = Framebuffer::new(info(10, 5, 48));
    fb.write_pixel(1, 2, color(0xAA, 0xBB, 0xCC));
    let a = 48 + 2 * 4;
    let bytes = fb.as_bytes();
    assert_eq!(bytes[a], 0xCC);
    assert_eq!(bytes[a + 1], 0xBB);
    assert_eq!(bytes[a + 2], 0xAA);
    assert_eq!(bytes[a + 3], 0);
    assert_eq!(bytes.iter().filter(|b| **b != 0).count(), 3);
    assert_eq!(bytes.len(), 5 * 48);
}

#[test]
fn surface_write_outside_is_clipped() {
    let mut fb = Framebuffer::new(info(10, 5, 40));
    let before = fb.as_bytes().to_vec();
    fb.write_pixel(5, 0, color(9, 9, 9));
    fb.write_pixel(4, 10, color(9, 9, 9));
    fb.write_pixel(usize::MAX, usize::MAX, color(9, 9, 9));
    assert_eq!(fb.as_bytes().to_vec(), before);
}

#[test]
fn surface_read_outside_is_black() {
    let mut fb = Framebuffer::new(info(10, 5, 40));
    fb.write_pixel(4, 9, Color::white());
    assert_eq!(fb.read_pixel(5, 0), Color::black());
    assert_eq!(fb.read_pixel(4, 10), Color::black());
    assert_eq!(fb.read_pixel(usize::MAX, 3), Color::black());
}

#[test]
fn surface_padding_columns_are_outside_when_past_region() {
    // With a stride wider than a row, column 10 of row 0 still lies in the
    // region, but column 12 of the last row does not.
    let mut fb = Framebuffer::new(info(10, 2, 48));
    fb.write_pixel(0, 10, color(5, 6, 7));
    assert_eq!(fb.read_pixel(0, 10), color(5, 6, 7));
    fb.write_pixel(1, 12, color(5, 6, 7));
    assert_eq!(fb.read_pixel(1, 12), Color::black());
}

#[test]
fn surface_copy_pixel_moves_bytes() {
    let mut fb = Framebuffer::new(info(10, 5, 40));
    fb.write_pixel(3, 3, color(10, 20, 30));
    fb.copy_pixel(3, 3, 0, 1);
    assert_eq!(fb.read_pixel(0, 1), color(10, 20, 30));
    assert_eq!(fb.read_pixel(3, 3), color(10, 20, 30));
}

#[test]
fn surface_copy_pixel_outside_does_nothing() {
    let mut fb = Framebuffer::new(info(10, 5, 40));
    fb.write_pixel(3, 3, color(10, 20, 30));
    let before = fb.as_bytes().to_vec();
    fb.copy_pixel(3, 3, 5, 0);
    fb.copy_pixel(5, 0, 3, 3);
    assert_eq!(fb.as_bytes().to_vec(), before);
}

#[test]
fn surface_geometry_getters() {
    let fb = Framebuffer::new(info(10, 5, 40));
    assert_eq!(fb.width(), 10);
    assert_eq!(fb.height(), 5);
}

#[test]
fn buffered_write_reaches_shadow_and_device() {
    let mut dbf = DoubleBufferedFramebuffer::new(Framebuffer::new(info(10, 5, 40)));
    let c = color(7, 8, 9);
    dbf.write_pixel(2, 6, c);
    assert_eq!(dbf.read_pixel(2, 6), c);
    assert_eq!(dbf.surface().read_pixel(2, 6), c);
}

#[test]
fn buffered_lazy_write_leaves_device() {
    let mut dbf = DoubleBufferedFramebuffer::new(Framebuffer::new(info(10, 5, 40)));
    dbf.write_px_lazy(1, 1, color(4, 5, 6));
    assert_eq!(dbf.read_pixel(1, 1), color(4, 5, 6));
    assert_eq!(dbf.surface().read_pixel(1, 1), Color::black());
    dbf.blit_px(1, 1);
    assert_eq!(dbf.surface().read_pixel(1, 1), color(4, 5, 6));
}

#[test]
fn buffered_copy_pixel_touches_shadow_only() {
    let mut dbf = DoubleBufferedFramebuffer::new(Framebuffer::new(info(10, 5, 40)));
    dbf.write_pixel(4, 2, color(1, 1, 1));
    dbf.copy_pixel(4, 2, 0, 0);
    assert_eq!(dbf.read_pixel(0, 0), color(1, 1, 1));
    assert_eq!(dbf.surface().read_pixel(0, 0), Color::black());
    dbf.blit_px(0, 0);
    assert_eq!(dbf.surface().read_pixel(0, 0), color(1, 1, 1));
}

#[test]
fn color_constants() {
    assert_eq!(Color::white(), color(0xFF, 0xFF, 0xFF));
    assert_eq!(Color::black(), color(0, 0, 0));
}
