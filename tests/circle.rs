use ui2d::color::RGBA8;
use ui2d::surface::{AlphaBlend, SurfaceEx};

fn check(s: &SurfaceEx, lit: impl Fn(i64, i64) -> bool, c: RGBA8) {
    for y in 0..s.get_height() {
        for x in 0..s.get_width() {
            let want = if lit(x as i64, y as i64) { c.encode_abgr() } else { 0 };
            assert_eq!(s.get_pixel(x, y), want, "pixel {} {}", x, y);
        }
    }
}

fn d2(x: i64, y: i64, cx: i64, cy: i64) -> i64 {
    (x - cx) * (x - cx) + (y - cy) * (y - cy)
}

#[test]
fn filled_circle_covers_the_disc() {
    let mut s = SurfaceEx::from(32, 32, 128, 1).unwrap();
    let c = RGBA8::new_rgb(0, 0, 255);
    s.draw_circle_filled(10, 12, 3, c, AlphaBlend::Replace);
    check(&s, |x, y| d2(x, y, 10, 12) <= 9, c);
}

#[test]
fn outline_circle_covers_the_ring() {
    let mut s = SurfaceEx::from(32, 32, 128, 1).unwrap();
    let c = RGBA8::new_rgb(255, 0, 0);
    s.draw_circle(16, 16, 5, 1, c, AlphaBlend::Replace);
    check(&s, |x, y| d2(x, y, 16, 16) > 16 && d2(x, y, 16, 16) <= 25, c);
}

#[test]
fn circle_off_the_edge_is_clipped() {
    let mut s = SurfaceEx::from(16, 16, 64, 0).unwrap();
    let c = RGBA8::new_rgb(0, 255, 0);
    s.draw_circle_filled(-2, -3, 6, c, AlphaBlend::Replace);
    check(&s, |x, y| d2(x, y, -2, -3) <= 36, c);
    let mut t = SurfaceEx::from(16, 16, 64, 0).unwrap();
    t.draw_circle_filled(i32::MIN, i32::MIN, 0x7FFF_FFFF, c, AlphaBlend::Replace);
    check(&t, |_, _| false, c);
    // A far centre with the largest radius still reaches the whole surface.
    t.draw_circle_filled(i32::MIN, i32::MAX, u32::MAX, c, AlphaBlend::Replace);
    check(&t, |_, _| true, c);
}

#[test]
fn thick_outline_fills_and_zero_thickness_draws_nothing() {
    let c = RGBA8::new_rgb(7, 7, 7);
    let mut s = SurfaceEx::from(16, 16, 64, 0).unwrap();
    s.draw_circle(8, 8, 4, 10, c, AlphaBlend::Replace);
    check(&s, |x, y| d2(x, y, 8, 8) <= 16, c);
    let mut t = SurfaceEx::from(16, 16, 64, 0).unwrap();
    t.draw_circle(8, 8, 4, 0, c, AlphaBlend::Replace);
    check(&t, |_, _| false, c);
}

#[test]
fn radius_zero_is_the_centre() {
    let c = RGBA8::new_rgb(1, 2, 3);
    let mut s = SurfaceEx::from(16, 16, 64, 0).unwrap();
    s.draw_circle_filled(3, 4, 0, c, AlphaBlend::Replace);
    check(&s, |x, y| x == 3 && y == 4, c);
}

#[test]
fn thickness_equal_to_radius_fills_the_centre() {
    let c = RGBA8::new_rgb(4, 5, 6);
    let mut s = SurfaceEx::from(16, 16, 64, 0).unwrap();
    s.draw_circle(8, 8, 3, 3, c, AlphaBlend::Replace);
    check(&s, |x, y| d2(x, y, 8, 8) <= 9, c);
    assert_eq!(s.get_pixel(8, 8), c.encode_abgr());
}
