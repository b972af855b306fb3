use ui2d::color::RGBA8;
use ui2d::surface::{AlphaBlend, FrameError, Submission, SurfaceEx, SurfaceError};
use ui2d::tiling::untile;

fn surface(width: u32, height: u32) -> SurfaceEx {
    let pitch = (width * 4 + 63) / 64 * 64;
    SurfaceEx::from(width, height, pitch, 1).unwrap()
}

fn snapshot(s: &SurfaceEx) -> Vec<u32> {
    let mut v = Vec::new();
    for y in 0..s.get_height() {
        for x in 0..s.get_stride() {
            v.push(s.get_pixel(x, y));
        }
    }
    v
}

#[test]
fn construction_errors() {
    assert_eq!(SurfaceEx::from(10, 10, 100, 1).err(), Some(SurfaceError::UnalignedPitch));
    assert_eq!(SurfaceEx::from(100, 10, 64, 1).err(), Some(SurfaceError::PitchTooNarrow));
    assert_eq!(SurfaceEx::from(16, 10, 64, 6).err(), Some(SurfaceError::UnsupportedBlockHeight));
    assert_eq!(
        SurfaceEx::from(16, u32::MAX, 0xFFFF_FFC0, 0).err(),
        Some(SurfaceError::TooLarge)
    );
    let s = SurfaceEx::from(20, 10, 128, 2).unwrap();
    assert_eq!((s.get_width(), s.get_height(), s.get_stride()), (20, 10, 32));
    assert_eq!(s.get_pixel(31, 9), 0);
}

#[test]
fn clear_fills_every_pixel() {
    let mut s = surface(20, 10);
    let c = RGBA8::new_rgba(1, 2, 3, 4);
    s.clear(c);
    assert!(snapshot(&s).iter().all(|&p| p == 0x0403_0201));
}

#[test]
fn draw_single_blend_modes() {
    let mut s = surface(16, 8);
    let bg = RGBA8::new_rgb(0, 0, 255);
    let fg = RGBA8::new_rgba(255, 0, 0, 128);
    s.clear(bg);
    s.draw_single(1, 1, fg, AlphaBlend::Replace);
    assert_eq!(s.get_pixel(1, 1), fg.encode_abgr());
    s.draw_single(2, 1, fg, AlphaBlend::Source);
    assert_eq!(s.get_pixel(2, 1), fg.blend_with(bg).encode_abgr());
    assert_eq!(s.get_pixel(2, 1), RGBA8::new_rgba(128, 0, 127, 255).encode_abgr());
    s.draw_single(3, 1, fg, AlphaBlend::Destination);
    assert_eq!(s.get_pixel(3, 1), bg.blend_with(fg).encode_abgr());
    assert_eq!(s.get_pixel(3, 1), RGBA8::new_rgba(0, 0, 255, 255).encode_abgr());
}

#[test]
fn rect_wholly_outside_changes_nothing() {
    let mut s = surface(20, 10);
    s.clear(RGBA8::new_rgb(9, 9, 9));
    let before = snapshot(&s);
    let red = RGBA8::new_rgb(255, 0, 0);
    s.draw_rect(20, 0, 5, 5, red, AlphaBlend::Replace);
    s.draw_rect(0, 10, 5, 5, red, AlphaBlend::Replace);
    s.draw_rect(u32::MAX, u32::MAX, u32::MAX, u32::MAX, red, AlphaBlend::Replace);
    s.draw_rect(3, 3, 0, 4, red, AlphaBlend::Replace);
    s.draw(-10, 2, 10, 3, red, AlphaBlend::Replace);
    s.draw(2, 2, -3, 3, red, AlphaBlend::Replace);
    s.draw(i32::MIN, i32::MIN, i32::MAX, i32::MAX, red, AlphaBlend::Replace);
    assert_eq!(snapshot(&s), before);
}

#[test]
fn rect_partly_outside_changes_only_the_overlap() {
    let mut s = surface(20, 10);
    let grey = RGBA8::new_rgb(9, 9, 9);
    let red = RGBA8::new_rgb(255, 0, 0);
    s.clear(grey);
    s.draw_rect(15, 7, 100, 100, red, AlphaBlend::Replace);
    s.draw(-3, -2, 5, 4, red, AlphaBlend::Replace);
    for y in 0..10 {
        for x in 0..32 {
            let inside = (x >= 15 && x < 20 && y >= 7) || (x < 2 && y < 2);
            let want = if inside { red } else { grey };
            assert_eq!(s.get_pixel(x, y), want.encode_abgr(), "pixel {} {}", x, y);
        }
    }
}

#[test]
fn end_without_start_fails() {
    let mut s = surface(16, 8);
    let mut out = vec![7u32; 256];
    assert_eq!(s.end(&mut out), Err(FrameError::NotStarted));
    assert!(out.iter().all(|&p| p == 7));
    assert_eq!(s.start(3), Ok(()));
    assert_eq!(s.start(4), Err(FrameError::AlreadyStarted));
    let mut small = vec![0u32; 10];
    assert_eq!(s.end(&mut small), Err(FrameError::BufferTooSmall));
    // A failed end gives the frame up: a second end needs a new start.
    assert_eq!(s.end(&mut out), Err(FrameError::NotStarted));
    assert!(out.iter().all(|&p| p == 7));
    assert_eq!(s.start(4), Ok(()));
    assert_eq!(s.end(&mut out), Ok(Submission { slot: 4, written_pixels: 256 }));
    assert_eq!(s.end(&mut out), Err(FrameError::NotStarted));
}

#[test]
fn end_to_end_first_gob() {
    let mut s = SurfaceEx::from(256, 256, 1024, 1).unwrap();
    let white = RGBA8::new_rgb(255, 255, 255);
    let red = RGBA8::new_rgb(255, 0, 0);
    s.clear(white);
    s.draw_rect(0, 0, 10, 10, red, AlphaBlend::Replace);
    let linear = snapshot(&s);
    let mut out = vec![0u32; 256 * 256];
    s.start(0).unwrap();
    let sub = s.end(&mut out).unwrap();
    assert_eq!(sub, Submission { slot: 0, written_pixels: 256 * 256 });
    // Un-swizzle the first GOB with the documented permutation.
    let mut gob = vec![0u32; 128];
    for i in 0..32u32 {
        let y = ((i >> 1) & 0x6) | (i & 0x1);
        let x = ((i << 3) & 0x10) | ((i << 1) & 0x20);
        for e in 0..4 {
            gob[y as usize * 16 + (x / 4) as usize + e] = out[i as usize * 4 + e];
        }
    }
    for y in 0..8 {
        for x in 0..16 {
            assert_eq!(gob[y * 16 + x], linear[y * 256 + x]);
            let want = if x < 10 { red } else { white };
            assert_eq!(gob[y * 16 + x], want.encode_abgr());
        }
    }
    let back = untile(&out, 256, 256, 1);
    assert_eq!(back, linear);
}
