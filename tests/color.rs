use ui2d::color::RGBA8;

#[test]
fn new_rgb_is_opaque() {
    let c = RGBA8::new_rgb(1, 2, 3);
    assert_eq!((c.r, c.g, c.b, c.a), (1, 2, 3, 255));
}

#[test]
fn encode_orders() {
    let c = RGBA8::new_rgba(0x11, 0x22, 0x33, 0x44);
    assert_eq!(c.encode_abgr(), 0x4433_2211);
    assert_eq!(c.encode_rgba(), 0x1122_3344);
}

#[test]
fn decode_orders() {
    let c = RGBA8::from_abgr(0x4433_2211);
    assert_eq!((c.r, c.g, c.b, c.a), (0x11, 0x22, 0x33, 0x44));
    let d = RGBA8::from_rgba(0x1122_3344);
    assert_eq!((d.r, d.g, d.b, d.a), (0x11, 0x22, 0x33, 0x44));
}

#[test]
fn pack_round_trips() {
    for raw in [0u32, 1, 0xFF, 0x1234_5678, 0xFFFF_FFFF, 0x8000_0001] {
        assert_eq!(RGBA8::from_abgr(raw).encode_abgr(), raw);
        assert_eq!(RGBA8::from_rgba(raw).encode_rgba(), raw);
    }
    let c = RGBA8::new_rgba(9, 8, 7, 6);
    assert_eq!(RGBA8::from_abgr(c.encode_abgr()), c);
    assert_eq!(RGBA8::from_rgba(c.encode_rgba()), c);
}

#[test]
fn blend_opaque_over_itself() {
    for c in [RGBA8::new_rgb(0, 0, 0), RGBA8::new_rgb(200, 17, 255), RGBA8::new_rgb(1, 254, 128)] {
        assert_eq!(c.blend_with(c), c);
    }
}

#[test]
fn blend_transparent_leaves_background() {
    let fg = RGBA8::new_rgba(250, 10, 20, 0);
    let bg = RGBA8::new_rgb(3, 4, 5);
    assert_eq!(fg.blend_with(bg), bg);
    let bg_translucent = RGBA8::new_rgba(3, 4, 5, 9);
    assert_eq!(fg.blend_with(bg_translucent), RGBA8::new_rgba(3, 4, 5, 255));
}

#[test]
fn blend_half_alpha_exact_values() {
    let fg = RGBA8::new_rgba(255, 0, 100, 128);
    let bg = RGBA8::new_rgb(0, 200, 255);
    // (fg * 128 + bg * 127) / 255, truncated
    let out = fg.blend_with(bg);
    assert_eq!(out, RGBA8::new_rgba(128, 99, 177, 255));
}

#[test]
fn blend_is_not_commutative() {
    let a = RGBA8::new_rgba(255, 0, 0, 64);
    let b = RGBA8::new_rgba(0, 0, 255, 192);
    assert_ne!(a.blend_with(b), b.blend_with(a));
}
