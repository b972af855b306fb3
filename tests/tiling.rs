use ui2d::tiling::{tile, untile};

fn pattern(len: usize) -> Vec<u32> {
    (0..len as u32).map(|i| i.wrapping_mul(2_654_435_761) ^ 0x5A5A_0000).collect()
}

/// Pixel offsets of the 32 cells of a GOB, in tiled order, using the
/// documented swizzle (row and byte column of each 16-byte cell).
fn cell_origin(i: u32, stride_px: usize) -> usize {
    let y = ((i >> 1) & 0x6) | (i & 0x1);
    let x = ((i << 3) & 0x10) | ((i << 1) & 0x20);
    y as usize * stride_px + (x / 4) as usize
}

#[test]
fn first_gob_follows_swizzle() {
    let stride = 32;
    let height = 16;
    let linear = pattern(stride * height);
    let mut out = vec![0u32; 2 * 2 * 128];
    tile(&mut out, &linear, stride, height, 1);
    for i in 0..32u32 {
        for e in 0..4 {
            assert_eq!(out[i as usize * 4 + e], linear[cell_origin(i, stride) + e]);
        }
    }
    // Cell 1 is row 1, cell 2 is the second 16-byte column of row 0.
    assert_eq!(out[4], linear[stride]);
    assert_eq!(out[8], linear[4]);
}

#[test]
fn round_trip_reproduces_image() {
    for (stride, height, log2) in [(32usize, 20usize, 1u32), (16, 8, 0), (48, 37, 2), (64, 5, 5)] {
        let aligned = (height + 7) / 8 * 8;
        let linear = pattern(stride * aligned);
        let rows = 8usize << log2;
        let blocks_high = (height + rows - 1) / rows;
        let len = blocks_high * (stride / 16) * (1 << log2) * 128;
        let mut out = vec![0xDEAD_BEEFu32; len];
        tile(&mut out, &linear, stride, height, log2);
        let back = untile(&out, stride, height, log2);
        assert_eq!(back.len(), stride * height);
        assert_eq!(&back[..], &linear[..stride * height]);
    }
}

#[test]
fn tiling_is_repeatable() {
    let stride = 32;
    let height = 20;
    let linear = pattern(stride * 24);
    let mut a = vec![0u32; 1024];
    let mut b = vec![0u32; 1024];
    tile(&mut a, &linear, stride, height, 1);
    tile(&mut b, &linear, stride, height, 1);
    assert_eq!(a, b);
    let once = a.clone();
    tile(&mut a, &linear, stride, height, 1);
    assert_eq!(a, once);
}

#[test]
fn gobs_below_image_keep_contents() {
    // One block of two GOBs; the image is 8 rows, so only the first GOB of
    // each block is written.
    let stride = 16;
    let height = 8;
    let linear = pattern(stride * 8);
    let mut out = vec![0xCAFE_F00Du32; 256];
    tile(&mut out, &linear, stride, height, 1);
    assert!(out[128..].iter().all(|&p| p == 0xCAFE_F00D));
    assert_eq!(out[0], linear[0]);
}

#[test]
fn written_gobs_do_not_depend_on_previous_contents() {
    let stride = 32;
    let height = 16;
    let linear = pattern(stride * height);
    let mut a = vec![0u32; 512];
    let mut b = vec![u32::MAX; 512];
    tile(&mut a, &linear, stride, height, 1);
    tile(&mut b, &linear, stride, height, 1);
    assert_eq!(a, b);
}

#[test]
fn untile_reads_swizzled_positions() {
    let stride = 16;
    let height = 8;
    let tiled = pattern(128);
    let linear = untile(&tiled, stride, height, 0);
    for i in 0..32u32 {
        for e in 0..4 {
            assert_eq!(linear[cell_origin(i, stride) + e], tiled[i as usize * 4 + e]);
        }
    }
}
