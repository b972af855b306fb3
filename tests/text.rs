use font8x8::UnicodeFonts;
use ui2d::color::RGBA8;
use ui2d::surface::{AlphaBlend, SurfaceEx};

const W: u32 = 40;
const H: u32 = 40;

fn canvas() -> SurfaceEx {
    let mut s = SurfaceEx::from(W, H, 192, 1).unwrap();
    s.clear(RGBA8::new_rgb(0, 0, 0));
    s
}

/// Whether glyph `c` placed at (`ox`, `oy`) with squares of `s` covers (`x`, `y`).
fn covers(c: char, ox: i64, oy: i64, s: i64, x: i64, y: i64) -> bool {
    let g = font8x8::BASIC_FONTS.get(c).unwrap();
    if x < ox || y < oy || x >= ox + 8 * s || y >= oy + 8 * s {
        return false;
    }
    let bit = (x - ox) / s;
    let row = (y - oy) / s;
    g[row as usize] & (1 << bit) != 0
}

fn check(s: &SurfaceEx, lit: impl Fn(i64, i64) -> bool, color: RGBA8) {
    for y in 0..H {
        for x in 0..W {
            let want = if lit(x as i64, y as i64) { color } else { RGBA8::new_rgb(0, 0, 0) };
            assert_eq!(s.get_pixel(x, y), want.encode_abgr(), "pixel {} {}", x, y);
        }
    }
}

#[test]
fn newline_starts_next_line_at_x() {
    let mut s = canvas();
    let c = RGBA8::new_rgb(255, 255, 255);
    s.draw_bitmap_text("A\nB", c, 2, 3, 2, AlphaBlend::Replace);
    check(&s, |x, y| covers('A', 3, 2, 2, x, y) || covers('B', 3, 18, 2, x, y), c);
    // The top row of 'B' starts at its origin (3, 2 + 8 * 2).
    assert_eq!(s.get_pixel(3, 18), c.encode_abgr());
    assert_eq!(s.get_pixel(3, 2), RGBA8::new_rgb(0, 0, 0).encode_abgr());
}

#[test]
fn carriage_return_is_a_line_break() {
    let mut s = canvas();
    let c = RGBA8::new_rgb(0, 255, 0);
    s.draw_bitmap_text("A\rB", c, 1, 0, 0, AlphaBlend::Replace);
    check(&s, |x, y| covers('A', 0, 0, 1, x, y) || covers('B', 0, 8, 1, x, y), c);
}

#[test]
fn glyphs_advance_eight_squares() {
    let mut s = canvas();
    let c = RGBA8::new_rgb(0, 0, 255);
    s.draw_bitmap_text("AB", c, 1, 1, 1, AlphaBlend::Replace);
    check(&s, |x, y| covers('A', 1, 1, 1, x, y) || covers('B', 9, 1, 1, x, y), c);
}

#[test]
fn characters_without_glyph_are_skipped() {
    let mut s = canvas();
    let c = RGBA8::new_rgb(255, 0, 0);
    s.draw_bitmap_text("\u{e9}A", c, 1, 4, 4, AlphaBlend::Replace);
    check(&s, |x, y| covers('A', 4, 4, 1, x, y), c);
}

#[test]
fn text_is_clipped_at_the_edge() {
    let mut s = canvas();
    let c = RGBA8::new_rgb(255, 255, 0);
    s.draw_bitmap_text("BB", c, 3, 30, 35, AlphaBlend::Replace);
    check(&s, |x, y| covers('B', 30, 35, 3, x, y), c);
}

#[test]
fn huge_scale_and_origin_do_not_overflow() {
    let mut s = canvas();
    let c = RGBA8::new_rgb(255, 255, 255);
    s.draw_bitmap_text("AAA\nAA", c, u32::MAX, u32::MAX - 3, u32::MAX, AlphaBlend::Source);
    check(&s, |_, _| false, c);
    s.draw_bitmap_text("A", c, u32::MAX, 0, 0, AlphaBlend::Replace);
    // Row 0 of 'A' is 0x0C: the first set bit is at column 2 * scale, off
    // the canvas; row 1 (0x1E) starts at column scale, off too.
    check(&s, |_, _| false, c);
}

#[test]
fn empty_text_draws_nothing() {
    let mut s = canvas();
    s.draw_bitmap_text("", RGBA8::new_rgb(1, 1, 1), 4, 0, 0, AlphaBlend::Replace);
    check(&s, |_, _| false, RGBA8::new_rgb(1, 1, 1));
}

#[test]
fn space_draws_nothing_but_advances() {
    let mut s = canvas();
    let c = RGBA8::new_rgb(200, 100, 50);
    s.draw_bitmap_text(" A", c, 1, 0, 0, AlphaBlend::Replace);
    check(&s, |x, y| covers('A', 8, 0, 1, x, y), c);
}
