use fbconsole::font::Font;

fn le(v: u32) -> [u8; 4] {
    v.to_le_bytes()
}

/// A PSF2 blob of `n` glyphs, `width` by `height`; byte `i` of glyph `c`
/// is `c ^ i`.
fn psf(n: u32, width: u32, height: u32) -> Vec<u8> {
    let row_bytes = (width + 7) / 8;
    let bpg = row_bytes * height;
    let mut v = vec![0x72, 0xb5, 0x4a, 0x86];
    for f in [0, 32, 0, n, bpg, height, width] {
        v.extend_from_slice(&le(f));
    }
    for c in 0..n {
        for i in 0..bpg {
            v.push((c ^ i) as u8);
        }
    }
    v
}

#[test]
fn psf_decodes_bits_high_bit_first() {
    let data = psf(128, 8, 16);
    let f = Font::from_psf(&data).unwrap();
    assert_eq!((f.width(), f.height()), (8, 16));
    let g = f.get_ascii(b'A').unwrap();
    for r in 0..16usize {
        let byte = 65u8 ^ r as u8;
        for x in 0..8usize {
            assert_eq!(g[r][x], (byte >> (7 - x)) & 1 == 1);
        }
    }
    assert!(f.get_ascii(127).is_some());
    assert!(f.get_ascii(128).is_none());
}

#[test]
fn psf_wide_glyph_rows_span_two_bytes() {
    let data = psf(40, 10, 2);
    let f = Font::from_psf(&data).unwrap();
    let g = f.get_ascii(33).unwrap();
    // Glyph 33, row 1 starts at byte 2 of the glyph: 33 ^ 2 = 35.
    assert_eq!(g[1][..8], [false, false, true, false, false, false, true, true]);
    // Its last two pixels are the high bits of byte 3: 33 ^ 3 = 34.
    assert_eq!(g[1][8..], [false, false]);
    assert_eq!(g[0][8..], [false, false]);
}

#[test]
fn psf_keeps_at_most_256_glyphs() {
    let data = psf(300, 8, 1);
    let f = Font::from_psf(&data).unwrap();
    assert!(f.get_ascii(255).is_some());
}

#[test]
fn psf_rejects_bad_blobs() {
    let good = psf(64, 8, 16);
    let mut bad_magic = good.clone();
    bad_magic[0] = 0x36;
    assert!(Font::from_psf(&bad_magic).is_none());
    assert!(Font::from_psf(&good[..good.len() - 1]).is_none());
    assert!(Font::from_psf(&good[..20]).is_none());
    assert!(Font::from_psf(&psf(32, 8, 16)).is_none());
    assert!(Font::from_psf(&psf(64, 0, 16)).is_none());
    assert!(Font::from_psf(&psf(64, 8, 0)).is_none());
    let mut short_glyphs = good.clone();
    short_glyphs[20..24].copy_from_slice(&le(15));
    assert!(Font::from_psf(&short_glyphs).is_none());
    assert!(Font::from_psf(&good).is_some());
}
