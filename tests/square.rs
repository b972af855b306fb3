use ui2d::color::RGBA8;
use ui2d::square::Square;
use ui2d::surface::SurfaceEx;

fn state(s: &Square) -> (u32, u32, i32, i32, i32, i32) {
    (s.x, s.y, s.x_incr, s.y_incr, s.x_mult, s.y_mult)
}

#[test]
fn new_square_moves_down_right() {
    let s = Square::new(10, 20, 50, RGBA8::new_rgb(1, 2, 3));
    assert_eq!(state(&s), (10, 20, 1, 1, 1, 1));
    assert_eq!(s.size, 50);
}

#[test]
fn tick_moves_one_step() {
    let mut s = Square::new(10, 10, 50, RGBA8::new_rgb(1, 2, 3));
    s.tick(100, 100);
    assert_eq!(state(&s), (11, 11, 1, 1, 1, 1));
}

#[test]
fn tick_bounces_off_far_edge() {
    let mut s = Square::new(49, 10, 50, RGBA8::new_rgb(1, 2, 3));
    s.tick(100, 100);
    assert_eq!(state(&s), (50, 11, -1, 1, 2, 1));
    s.tick(100, 100);
    assert_eq!(state(&s), (48, 12, -1, 1, 2, 1));
}

#[test]
fn tick_bounces_off_near_edge() {
    let mut s = Square::new(1, 10, 5, RGBA8::new_rgb(1, 2, 3));
    s.x_incr = -1;
    s.x_mult = 2;
    s.tick(100, 100);
    assert_eq!(state(&s), (0, 11, 1, 1, 3, 1));
}

#[test]
fn tick_square_larger_than_surface() {
    let mut s = Square::new(5, 5, 200, RGBA8::new_rgb(1, 2, 3));
    s.tick(100, 300);
    assert_eq!(state(&s), (0, 6, -1, 1, 2, 1));
}

#[test]
fn render_draws_the_square() {
    let mut surface = SurfaceEx::from(16, 16, 64, 0).unwrap();
    let c = RGBA8::new_rgb(9, 8, 7);
    let s = Square::new(14, 2, 4, c);
    s.render(&mut surface);
    for y in 0..16 {
        for x in 0..16 {
            let inside = x >= 14 && (2..6).contains(&y);
            let want = if inside { c.encode_abgr() } else { 0 };
            assert_eq!(surface.get_pixel(x, y), want);
        }
    }
}
