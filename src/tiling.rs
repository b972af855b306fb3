//! Conversion of a linear, row-major pixel buffer into the block-linear layout
//! read by the display hardware, and back.
//!
//! Pixels are 32-bit values (four bytes). The tiled buffer is made of GOBs
//! (groups of bytes): 64 bytes (16 pixels) wide and 8 rows high, 512 bytes
//! (128 pixels) each. Inside a GOB the 32 cells of 16 bytes (4 pixels) follow
//! a fixed swizzle. `2^block_height_log2` GOBs stacked vertically form a
//! block; blocks are laid out row by row, and within a block the GOBs go top
//! to bottom.

use vstd::arithmetic::div_mod::lemma_fundamental_div_mod_converse;
use vstd::arithmetic::power2::{lemma2_to64, pow2};
use vstd::prelude::*;

verus! {

/// The largest block height exponent the hardware supports (32 GOBs).
pub const MAX_BLOCK_HEIGHT_LOG2: u32 = 5;

/// The row, within its GOB, of the `i`-th 16-byte cell in tiled order.
pub open spec fn gob_cell_row(i: u32) -> u32 {
    ((i >> 1u32) & 0x6u32) | (i & 0x1u32)
}

/// The byte column, within its GOB, of the `i`-th 16-byte cell in tiled order.
pub open spec fn gob_cell_col_bytes(i: u32) -> u32 {
    ((i << 3u32) & 0x10u32) | ((i << 1u32) & 0x20u32)
}

/// The linear offset, relative to a GOB's top-left pixel, of the `k`-th pixel
/// of that GOB in tiled order.
pub open spec fn gob_source_offset(k: int, stride: int) -> int {
    let i = (k / 4) as u32;
    gob_cell_row(i) as int * stride + (gob_cell_col_bytes(i) >> 2u32) as int + k % 4
}

/// GOBs stacked in one block.
pub open spec fn gobs_per_block(log2: nat) -> int {
    pow2(log2) as int
}

/// Pixel rows covered by one block.
pub open spec fn block_rows(log2: nat) -> int {
    8 * gobs_per_block(log2)
}

/// Blocks across a row of `stride` pixels.
pub open spec fn width_blocks(stride: int) -> int {
    stride / 16
}

/// Block rows needed to cover `height` pixel rows (the quotient rounded up).
pub open spec fn height_blocks(height: int, log2: nat) -> int {
    height / block_rows(log2) + if height % block_rows(log2) == 0 {
        0int
    } else {
        1int
    }
}

/// Pixels of the tiled buffer for an image of `height` rows of `stride` pixels.
pub open spec fn tiled_len(stride: int, height: int, log2: nat) -> int {
    height_blocks(height, log2) * width_blocks(stride) * gobs_per_block(log2) * 128
}

/// `height` rounded up to a whole number of GOB rows.
pub open spec fn gob_aligned_rows(height: int) -> int {
    (height + 7) / 8 * 8
}

/// The first pixel row of the `g`-th GOB in tiled order.
pub open spec fn gob_first_row(g: int, stride: int, log2: nat) -> int {
    (g / gobs_per_block(log2)) / width_blocks(stride) * block_rows(log2)
        + (g % gobs_per_block(log2)) * 8
}

/// The first pixel column of the `g`-th GOB in tiled order.
pub open spec fn gob_first_col(g: int, stride: int, log2: nat) -> int {
    ((g / gobs_per_block(log2)) % width_blocks(stride)) * 16
}

/// The linear index of the pixel stored at index `j` of the tiled buffer.
pub open spec fn tiled_source(j: int, stride: int, log2: nat) -> int {
    let g = j / 128;
    gob_first_row(g, stride, log2) * stride + gob_first_col(g, stride, log2)
        + gob_source_offset(j % 128, stride)
}

/// Whether index `j` of the tiled buffer belongs to a GOB that starts inside
/// the image (and so is written by a conversion).
pub open spec fn tiled_written(j: int, stride: int, height: int, log2: nat) -> bool {
    0 <= j < tiled_len(stride, height, log2) && gob_first_row(j / 128, stride, log2) < height
}

/// The tiled buffer after converting `linear` into `dst`: GOBs that start
/// inside the image take their pixels from `linear`; every other pixel keeps
/// its previous value.
pub open spec fn tiled(dst: Seq<u32>, linear: Seq<u32>, stride: int, height: int, log2: nat) -> Seq<
    u32,
> {
    Seq::new(
        dst.len(),
        |j: int|
            if tiled_written(j, stride, height, log2) {
                linear[tiled_source(j, stride, log2)]
            } else {
                dst[j]
            },
    )
}

/// The tiled-order index of the cell at `row` (0 to 7) and 16-byte column
/// `col` (0 to 3) of a GOB: the inverse of the swizzle.
pub open spec fn gob_cell_index(row: u32, col: u32) -> u32 {
    (row & 1u32) | ((col & 1u32) << 1u32) | ((row & 6u32) << 1u32) | ((col & 2u32) << 3u32)
}

/// The index in the tiled buffer of the linear pixel at column `x`, row `y`.
pub open spec fn tiled_index(x: int, y: int, stride: int, log2: nat) -> int {
    let rows = block_rows(log2);
    let g = ((y / rows) * width_blocks(stride) + x / 16) * gobs_per_block(log2) + (y % rows) / 8;
    g * 128 + gob_cell_index((y % 8) as u32, ((x % 16) / 4) as u32) as int * 4 + x % 4
}

/// The linear image of `height` rows of `stride` pixels read back from the
/// tiled buffer `t`.
pub open spec fn untiled(t: Seq<u32>, stride: int, height: int, log2: nat) -> Seq<u32> {
    Seq::new(
        (stride * height) as nat,
        |p: int| t[tiled_index(p % stride, p / stride, stride, log2)],
    )
}

proof fn lemma_cell_index(row: u32, col: u32)
    requires
        row < 8,
        col < 4,
    ensures
        gob_cell_index(row, col) < 32,
        gob_cell_row(gob_cell_index(row, col)) == row,
        gob_cell_col_bytes(gob_cell_index(row, col)) >> 2u32 == 4 * col,
{
    let i = gob_cell_index(row, col);
    assert((row & 1u32) | ((col & 1u32) << 1u32) | ((row & 6u32) << 1u32) | ((col & 2u32) << 3u32)
        < 32) by (bit_vector)
        requires
            row < 8,
            col < 4,
    ;
    assert(((((row & 1u32) | ((col & 1u32) << 1u32) | ((row & 6u32) << 1u32) | ((col & 2u32)
        << 3u32)) >> 1u32) & 0x6u32) | (((row & 1u32) | ((col & 1u32) << 1u32) | ((row & 6u32)
        << 1u32) | ((col & 2u32) << 3u32)) & 0x1u32) == row) by (bit_vector)
        requires
            row < 8,
            col < 4,
    ;
    assert((((((row & 1u32) | ((col & 1u32) << 1u32) | ((row & 6u32) << 1u32) | ((col & 2u32)
        << 3u32)) << 3u32) & 0x10u32) | ((((row & 1u32) | ((col & 1u32) << 1u32) | ((row & 6u32)
        << 1u32) | ((col & 2u32) << 3u32)) << 1u32) & 0x20u32)) >> 2u32 == 4 * col) by (bit_vector)
        requires
            row < 8,
            col < 4,
    ;
}

proof fn lemma_cell_bounds(i: u32)
    requires
        i < 32,
    ensures
        gob_cell_row(i) < 8,
        (gob_cell_col_bytes(i) >> 2u32) <= 12,
{
    assert(((i >> 1u32) & 0x6u32) | (i & 0x1u32) < 8) by (bit_vector);
    assert((((i << 3u32) & 0x10u32) | ((i << 1u32) & 0x20u32)) >> 2u32 <= 12) by (bit_vector);
}

/// Copies one GOB: the 32 cells of 4 pixels starting at `in_off` in the
/// linear buffer, in swizzled order, to the 128 pixels starting at `out_off`.
fn convert_gob(out: &mut Vec<u32>, out_off: usize, linear: &Vec<u32>, in_off: usize, stride: usize)
    requires
        out_off + 128 <= old(out).len(),
        in_off + 7 * stride + 16 <= linear.len(),
    ensures
        final(out)@.len() == old(out)@.len(),
        forall|k: int|
            0 <= k < 128 ==> #[trigger] final(out)@[out_off + k] == linear@[in_off
                + gob_source_offset(k, stride as int)],
        forall|j: int|
            0 <= j < old(out)@.len() && !(out_off <= j < out_off + 128)
                ==> #[trigger] final(out)@[j] == old(out)@[j],
{
    let ghost old_out = out@;
    let mut i: u32 = 0;
    while i < 32
        invariant
            i <= 32,
            out_off + 128 <= old_out.len(),
            in_off + 7 * stride + 16 <= linear.len(),
            out.len() == old_out.len(),
            forall|k: int|
                0 <= k < 4 * i ==> #[trigger] out@[out_off + k] == linear@[in_off
                    + gob_source_offset(k, stride as int)],
            forall|j: int|
                0 <= j < old_out.len() && !(out_off <= j < out_off + 4 * i) ==> #[trigger] out@[j]
                    == old_out[j],
        decreases 32 - i,
    {
        let y = ((i >> 1) & 0x6) | (i & 0x1);
        let x = ((i << 3) & 0x10) | ((i << 1) & 0x20);
        proof {
            assert(y == gob_cell_row(i));
            assert(x == gob_cell_col_bytes(i));
            lemma_cell_bounds(i);
            assert(y * stride <= 7 * stride) by (nonlinear_arith)
                requires
                    y < 8,
            ;
        }
        let src = in_off + y as usize * stride + (x >> 2) as usize;
        let dst = out_off + 4 * i as usize;
        let mut e: usize = 0;
        while e < 4
            invariant
                i < 32,
                e <= 4,
                dst == out_off + 4 * i,
                src == in_off + gob_cell_row(i) * stride + (gob_cell_col_bytes(i) >> 2u32),
                src + 4 <= linear.len(),
                out_off + 128 <= old_out.len(),
                out.len() == old_out.len(),
                forall|k: int|
                    0 <= k < 4 * i + e ==> #[trigger] out@[out_off + k] == linear@[in_off
                        + gob_source_offset(k, stride as int)],
                forall|j: int|
                    0 <= j < old_out.len() && !(out_off <= j < out_off + 4 * i + e)
                        ==> #[trigger] out@[j] == old_out[j],
            decreases 4 - e,
        {
            out.set(dst + e, linear[src + e]);
            proof {
                let k = 4 * i + e;
                assert(k / 4 == i as int);
                assert(k % 4 == e as int);
                assert(out@[out_off + k] == linear@[in_off + gob_source_offset(k, stride as int)]);
            }
            e = e + 1;
        }
        i = i + 1;
    }
}

/// The first `n` pixels of `out` are those of the converted buffer; the rest
/// still hold what `dst` held.
spec fn converted_up_to(
    out: Seq<u32>,
    dst: Seq<u32>,
    linear: Seq<u32>,
    stride: int,
    height: int,
    log2: nat,
    n: int,
) -> bool {
    &&& out.len() == dst.len()
    &&& forall|j: int|
        0 <= j < n && j < out.len() ==> #[trigger] out[j] == tiled(dst, linear, stride, height, log2)[j]
    &&& forall|j: int| n <= j < out.len() ==> #[trigger] out[j] == dst[j]
}

/// Where the `gob_y`-th GOB of block (`block_x`, `block_y`) stands in tiled order.
proof fn lemma_gob_index(block_y: int, block_x: int, gob_y: int, wb: int, hb: int, gpb: int)
    requires
        0 <= block_y < hb,
        0 <= block_x < wb,
        0 <= gob_y < gpb,
    ensures
        ((block_y * wb + block_x) * gpb + gob_y) / gpb == block_y * wb + block_x,
        ((block_y * wb + block_x) * gpb + gob_y) % gpb == gob_y,
        (block_y * wb + block_x) / wb == block_y,
        (block_y * wb + block_x) % wb == block_x,
        ((block_y * wb + block_x) * gpb + gob_y) + 1 <= hb * wb * gpb,
{
    let q = block_y * wb + block_x;
    lemma_fundamental_div_mod_converse(q * gpb + gob_y, gpb, q, gob_y);
    lemma_fundamental_div_mod_converse(q, wb, block_y, block_x);
    assert((block_y + 1) * wb == block_y * wb + wb) by (nonlinear_arith);
    assert((block_y + 1) * wb <= hb * wb) by (nonlinear_arith)
        requires
            block_y + 1 <= hb,
            wb >= 0,
    ;
    assert((q + 1) * gpb == q * gpb + gpb) by (nonlinear_arith);
    assert((q + 1) * gpb <= (hb * wb) * gpb) by (nonlinear_arith)
        requires
            q + 1 <= hb * wb,
            gpb >= 0,
    ;
}

/// The first row of a GOB, and the tiled pixels up to the end of that GOB,
/// stay within the tiled buffer.
proof fn lemma_tile_bounds(block_y: int, gob_y: int, hb: int, wb: int, gpb: int, len: int)
    requires
        0 <= block_y < hb,
        0 <= gob_y < gpb,
        1 <= wb,
        hb * wb * gpb * 128 <= len,
    ensures
        block_y * (gpb * 8) + gob_y * 8 + 8 <= len,
        (block_y * (gpb * 8) + gob_y * 8) % 8 == 0,
{
    assert(block_y * (gpb * 8) + gob_y * 8 + 8 <= hb * gpb * 8) by (nonlinear_arith)
        requires
            0 <= block_y < hb,
            0 <= gob_y < gpb,
    ;
    assert(hb * gpb * 8 <= hb * wb * gpb * 128) by (nonlinear_arith)
        requires
            1 <= wb,
            0 <= hb,
            0 <= gpb,
    ;
    assert(block_y * (gpb * 8) + gob_y * 8 == 8 * (block_y * gpb + gob_y)) by (nonlinear_arith);
}

/// The eight rows of a GOB that starts inside the image lie within the linear
/// buffer.
proof fn lemma_gob_source_bounds(y: int, block_x: int, stride: int, height: int, linear_len: int)
    requires
        0 <= y < height,
        y % 8 == 0,
        0 <= block_x < stride / 16,
        stride % 16 == 0,
        stride * gob_aligned_rows(height) <= linear_len,
    ensures
        y * stride + block_x * 16 + 7 * stride + 16 <= linear_len,
{
    assert(y + 8 <= gob_aligned_rows(height));
    assert((y + 8) * stride <= stride * gob_aligned_rows(height)) by (nonlinear_arith)
        requires
            y + 8 <= gob_aligned_rows(height),
            0 <= stride,
    ;
    assert(16 * (stride / 16) == stride);
    assert(block_x + 1 <= stride / 16);
    assert(block_x * 16 + 16 <= stride);
    assert((y + 8) * stride == y * stride + 8 * stride) by (nonlinear_arith);
    assert(y * stride + block_x * 16 + 7 * stride + 16 <= (y + 8) * stride);
}

/// The pixel index `g * 128 + k` lies in GOB `g`, at position `k`.
proof fn lemma_gob_pixel(g: int, k: int)
    requires
        0 <= k < 128,
    ensures
        (g * 128 + k) / 128 == g,
        (g * 128 + k) % 128 == k,
{
    lemma_fundamental_div_mod_converse(g * 128 + k, 128, g, k);
}

/// Converts the linear buffer `linear` (rows of `stride` pixels, `height` rows
/// of image) into the block-linear buffer `out`.
///
/// Every GOB whose first row lies inside the image is written; a GOB of a
/// partly covered block that starts below the image keeps its previous
/// contents, and the write position still advances past it.
pub fn tile(
    out: &mut Vec<u32>,
    linear: &Vec<u32>,
    stride: usize,
    height: usize,
    block_height_log2: u32,
)
    requires
        stride % 16 == 0,
        block_height_log2 <= MAX_BLOCK_HEIGHT_LOG2,
        stride * gob_aligned_rows(height as int) <= linear.len(),
        tiled_len(stride as int, height as int, block_height_log2 as nat) <= old(out).len(),
    ensures
        final(out)@ == tiled(
            old(out)@,
            linear@,
            stride as int,
            height as int,
            block_height_log2 as nat,
        ),
{
    let ghost log2 = block_height_log2 as nat;
    let ghost dst = out@;
    assert(dst.len() == out.len());
    proof {
        lemma2_to64();
        vstd::bits::lemma_usize_shl_is_mul(1, block_height_log2 as usize);
    }
    let gpb: usize = 1usize << (block_height_log2 as usize);
    let block_height_px: usize = gpb * 8;
    let blocks_wide: usize = stride / 16;
    proof {
        vstd::arithmetic::div_mod::lemma_div_is_ordered_by_denominator(
            height as int,
            2,
            block_height_px as int,
        );
    }
    let blocks_high: usize = height / block_height_px + if height % block_height_px == 0 {
        0
    } else {
        1
    };
    assert(gpb == gobs_per_block(log2));
    let ghost total = blocks_high * blocks_wide * gpb;
    let mut g: usize = 0;
    let mut block_y: usize = 0;
    assert(block_y * blocks_wide * gpb == 0) by (nonlinear_arith)
        requires
            block_y == 0,
    ;
    while block_y < blocks_high
        invariant
            block_y <= blocks_high,
            gpb == gobs_per_block(log2),
            block_height_px == block_rows(log2),
            blocks_wide == width_blocks(stride as int),
            blocks_high == height_blocks(height as int, log2),
            stride % 16 == 0,
            stride * gob_aligned_rows(height as int) <= linear.len(),
            total * 128 <= dst.len(),
            out.len() == dst.len(),
            total == blocks_high * blocks_wide * gpb,
            g == block_y * blocks_wide * gpb,
            converted_up_to(out@, dst, linear@, stride as int, height as int, log2, g * 128),
        decreases blocks_high - block_y,
    {
        let mut block_x: usize = 0;
        while block_x < blocks_wide
            invariant
                block_y < blocks_high,
                block_x <= blocks_wide,
                gpb == gobs_per_block(log2),
                block_height_px == block_rows(log2),
                blocks_wide == width_blocks(stride as int),
                blocks_high == height_blocks(height as int, log2),
                stride % 16 == 0,
                stride * gob_aligned_rows(height as int) <= linear.len(),
                total * 128 <= dst.len(),
                out.len() == dst.len(),
                total == blocks_high * blocks_wide * gpb,
                g == (block_y * blocks_wide + block_x) * gpb,
                converted_up_to(out@, dst, linear@, stride as int, height as int, log2, g * 128),
            decreases blocks_wide - block_x,
        {
            let mut gob_y: usize = 0;
            while gob_y < gpb
                invariant
                    block_y < blocks_high,
                    block_x < blocks_wide,
                    gob_y <= gpb,
                    gpb == gobs_per_block(log2),
                    block_height_px == block_rows(log2),
                    blocks_wide == width_blocks(stride as int),
                    blocks_high == height_blocks(height as int, log2),
                    stride % 16 == 0,
                    stride * gob_aligned_rows(height as int) <= linear.len(),
                    total * 128 <= dst.len(),
                    out.len() == dst.len(),
                    total == blocks_high * blocks_wide * gpb,
                    g == (block_y * blocks_wide + block_x) * gpb + gob_y,
                    converted_up_to(
                        out@,
                        dst,
                        linear@,
                        stride as int,
                        height as int,
                        log2,
                        g * 128,
                    ),
                decreases gpb - gob_y,
            {
                proof {
                    lemma_gob_index(
                        block_y as int,
                        block_x as int,
                        gob_y as int,
                        blocks_wide as int,
                        blocks_high as int,
                        gpb as int,
                    );
                    lemma_tile_bounds(
                        block_y as int,
                        gob_y as int,
                        blocks_high as int,
                        blocks_wide as int,
                        gpb as int,
                        dst.len() as int,
                    );
                }
                let y = block_y * block_height_px + gob_y * 8;
                if y < height {
                    proof {
                        lemma_gob_source_bounds(
                            y as int,
                            block_x as int,
                            stride as int,
                            height as int,
                            linear.len() as int,
                        );
                    }
                    convert_gob(out, g * 128, linear, y * stride + block_x * 16, stride);
                }
                proof {
                    assert forall|j: int| 0 <= j < (g + 1) * 128 && j < out@.len() implies #[trigger] out@[j]
                        == tiled(dst, linear@, stride as int, height as int, log2)[j] by {
                        if j >= g * 128 {
                            let k = j - g * 128;
                            lemma_gob_pixel(g as int, k);
                            assert(gob_first_row(g as int, stride as int, log2) == y);
                            assert(j < total * 128);
                            if y < height {
                                assert(out@[g * 128 + k] == linear@[(y * stride + block_x * 16)
                                    + gob_source_offset(k, stride as int)]);
                            }
                        }
                    }
                }
                g = g + 1;
                gob_y = gob_y + 1;
            }
            proof {
                assert((block_y * blocks_wide + block_x) * gpb + gpb == (block_y * blocks_wide
                    + block_x + 1) * gpb) by (nonlinear_arith);
            }
            block_x = block_x + 1;
        }
        proof {
            assert((block_y * blocks_wide + blocks_wide) * gpb == (block_y + 1) * blocks_wide * gpb)
                by (nonlinear_arith);
        }
        block_y = block_y + 1;
    }
    proof {
        assert(g == total);
        assert(out@ =~= tiled(dst, linear@, stride as int, height as int, log2));
    }
}

/// Everything about where the linear pixel (`x`, `y`) lands in the tiled
/// buffer: inside it, in a GOB that is written, read back from itself.
proof fn lemma_tiled_index(x: int, y: int, stride: int, height: int, log2: nat)
    requires
        stride % 16 == 0,
        0 <= x < stride,
        0 <= y < height,
    ensures
        0 <= tiled_index(x, y, stride, log2) < tiled_len(stride, height, log2),
        tiled_written(tiled_index(x, y, stride, log2), stride, height, log2),
        tiled_source(tiled_index(x, y, stride, log2), stride, log2) == y * stride + x,
{
    vstd::arithmetic::power2::lemma_pow2_pos(log2);
    let gpb = gobs_per_block(log2);
    let rows = block_rows(log2);
    let wb = width_blocks(stride);
    let hb = height_blocks(height, log2);
    let block_y = y / rows;
    let block_x = x / 16;
    let gob_y = (y % rows) / 8;
    let g = (block_y * wb + block_x) * gpb + gob_y;
    let r = (y % 8) as u32;
    let c = ((x % 16) / 4) as u32;
    lemma_cell_index(r, c);
    let i = gob_cell_index(r, c);
    let k = i as int * 4 + x % 4;
    let j = tiled_index(x, y, stride, log2);
    assert(j == g * 128 + k);
    // The block row lies within the image's block rows.
    vstd::arithmetic::div_mod::lemma_fundamental_div_mod(y, rows);
    vstd::arithmetic::div_mod::lemma_mod_pos_bound(y, rows);
    vstd::arithmetic::div_mod::lemma_fundamental_div_mod(height, rows);
    vstd::arithmetic::div_mod::lemma_mod_pos_bound(height, rows);
    assert(block_y < hb) by {
        assert(hb * rows >= height) by (nonlinear_arith)
            requires
                height == rows * (height / rows) + height % rows,
                0 <= height % rows < rows,
                hb == height / rows + if height % rows == 0 {
                    0int
                } else {
                    1int
                },
        ;
        assert(block_y * rows <= y) by (nonlinear_arith)
            requires
                y == rows * block_y + y % rows,
                y % rows >= 0,
        ;
        if block_y >= hb {
            assert(block_y * rows >= hb * rows) by (nonlinear_arith)
                requires
                    block_y >= hb,
                    rows > 0,
            ;
        }
    }
    assert(block_x < wb);
    assert(gob_y < gpb);
    lemma_gob_index(block_y, block_x, gob_y, wb, hb, gpb);
    lemma_gob_pixel(g, k);
    assert(g * 128 + 128 <= hb * wb * gpb * 128);
    // The GOB's first row and the cell's row add up to y.
    assert(y % rows == gob_y * 8 + y % 8) by {
        assert(rows == 8 * gpb);
        vstd::arithmetic::div_mod::lemma_mod_mod(y, 8, gpb);
        assert((y % (8 * gpb)) % 8 == y % 8);
    }
    assert(gob_first_row(g, stride, log2) == block_y * rows + gob_y * 8);
    assert(gob_first_row(g, stride, log2) <= y);
    assert(gob_first_col(g, stride, log2) == block_x * 16);
    assert(k / 4 == i as int);
    assert(k % 4 == x % 4);
    assert(gob_source_offset(k, stride) == (y % 8) * stride + 4 * ((x % 16) / 4) + x % 4);
    assert(tiled_source(j, stride, log2) == (block_y * rows + gob_y * 8) * stride + block_x * 16
        + (y % 8) * stride + 4 * ((x % 16) / 4) + x % 4);
    assert((block_y * rows + gob_y * 8) * stride + (y % 8) * stride == (block_y * rows + gob_y * 8
        + y % 8) * stride) by (nonlinear_arith);
}

/// Reads the linear image (`height` rows of `stride` pixels) back out of the
/// block-linear buffer `tiled`: the inverse of [`tile`] on the image's rows.
pub fn untile(tiled: &Vec<u32>, stride: usize, height: usize, block_height_log2: u32) -> (linear:
    Vec<u32>)
    requires
        stride % 16 == 0,
        block_height_log2 <= MAX_BLOCK_HEIGHT_LOG2,
        tiled_len(stride as int, height as int, block_height_log2 as nat) <= tiled.len(),
        stride * height <= usize::MAX,
    ensures
        linear@ == untiled(tiled@, stride as int, height as int, block_height_log2 as nat),
{
    let ghost log2 = block_height_log2 as nat;
    proof {
        lemma2_to64();
        vstd::bits::lemma_usize_shl_is_mul(1, block_height_log2 as usize);
    }
    let gpb: usize = 1usize << (block_height_log2 as usize);
    let block_height_px: usize = gpb * 8;
    let blocks_wide: usize = stride / 16;
    let mut linear: Vec<u32> = Vec::new();
    let mut y: usize = 0;
    while y < height
        invariant
            y <= height,
            gpb == gobs_per_block(log2),
            block_height_px == block_rows(log2),
            blocks_wide == width_blocks(stride as int),
            stride % 16 == 0,
            stride * height <= usize::MAX,
            tiled_len(stride as int, height as int, log2) <= tiled.len(),
            linear@.len() == y * stride,
            forall|p: int|
                0 <= p < linear@.len() ==> #[trigger] linear@[p] == tiled@[tiled_index(
                    p % stride as int,
                    p / stride as int,
                    stride as int,
                    log2,
                )],
        decreases height - y,
    {
        let mut x: usize = 0;
        while x < stride
            invariant
                y < height,
                x <= stride,
                gpb == gobs_per_block(log2),
                block_height_px == block_rows(log2),
                blocks_wide == width_blocks(stride as int),
                stride % 16 == 0,
                stride * height <= usize::MAX,
                tiled_len(stride as int, height as int, log2) <= tiled.len(),
                linear@.len() == y * stride + x,
                forall|p: int|
                    0 <= p < linear@.len() ==> #[trigger] linear@[p] == tiled@[tiled_index(
                        p % stride as int,
                        p / stride as int,
                        stride as int,
                        log2,
                    )],
            decreases stride - x,
        {
            let ghost j_spec = tiled_index(x as int, y as int, stride as int, log2);
            proof {
                lemma_tiled_index(x as int, y as int, stride as int, height as int, log2);
                lemma_cell_index((y % 8) as u32, ((x % 16) / 4) as u32);
            }
            let block_y = y / block_height_px;
            let gob_y = (y % block_height_px) / 8;
            let block_x = x / 16;
            proof {
                let q = block_y * blocks_wide + block_x;
                assert(block_y * blocks_wide <= q);
                assert(q <= q * gpb) by (nonlinear_arith)
                    requires
                        gpb >= 1,
                        q >= 0,
                ;
                assert(j_spec == (q * gpb + gob_y) * 128 + gob_cell_index(
                    (y % 8) as u32,
                    ((x % 16) / 4) as u32,
                ) as int * 4 + x % 4);
                assert(q * gpb + gob_y <= (q * gpb + gob_y) * 128);
            }
            let g = (block_y * blocks_wide + block_x) * gpb + gob_y;
            let r = (y % 8) as u32;
            let c = ((x % 16) / 4) as u32;
            let i = (r & 1) | ((c & 1) << 1) | ((r & 6) << 1) | ((c & 2) << 3);
            let j = g * 128 + i as usize * 4 + x % 4;
            assert(j == j_spec);
            linear.push(tiled[j]);
            proof {
                let p = y * stride + x;
                lemma_fundamental_div_mod_converse(p as int, stride as int, y as int, x as int);
            }
            x = x + 1;
        }
        proof {
            assert(y * stride + stride == (y + 1) * stride) by (nonlinear_arith);
            assert((y + 1) * stride <= height * stride) by (nonlinear_arith)
                requires
                    y + 1 <= height,
            ;
        }
        y = y + 1;
    }
    assert(height * stride == stride * height) by (nonlinear_arith);
    assert(linear@ =~= untiled(tiled@, stride as int, height as int, log2));
    linear
}

/// Converting a linear image into any tiled buffer and reading the image back
/// gives every pixel of the image, padding columns of each row included.
pub proof fn lemma_untile_tile_round_trip(
    dst: Seq<u32>,
    linear: Seq<u32>,
    stride: int,
    height: int,
    log2: nat,
)
    requires
        stride % 16 == 0,
        0 <= stride,
        0 <= height,
        stride * height <= linear.len(),
        tiled_len(stride, height, log2) <= dst.len(),
    ensures
        untiled(tiled(dst, linear, stride, height, log2), stride, height, log2) == linear.subrange(
            0,
            stride * height,
        ),
{
    let t = tiled(dst, linear, stride, height, log2);
    let u = untiled(t, stride, height, log2);
    assert forall|p: int| 0 <= p < stride * height implies #[trigger] u[p] == linear[p] by {
        let x = p % stride;
        let y = p / stride;
        assert(stride > 0) by {
            if stride == 0 {
                assert(stride * height == 0);
            }
        }
        vstd::arithmetic::div_mod::lemma_fundamental_div_mod(p, stride);
        vstd::arithmetic::div_mod::lemma_mod_pos_bound(p, stride);
        assert(y < height) by {
            if y >= height {
                assert(y * stride >= height * stride) by (nonlinear_arith)
                    requires
                        y >= height,
                        stride > 0,
                ;
                assert(p >= y * stride) by (nonlinear_arith)
                    requires
                        p == stride * y + x,
                        x >= 0,
                ;
                assert(height * stride == stride * height) by (nonlinear_arith);
            }
        }
        lemma_tiled_index(x, y, stride, height, log2);
        assert(p == y * stride + x);
    }
    assert(u =~= linear.subrange(0, stride * height));
}

/// Converting the same linear image into the same tiled buffer twice gives
/// the same buffer as converting once; and the GOBs that a conversion writes
/// do not depend on what the tiled buffer held before.
pub proof fn lemma_tile_repeatable(
    dst1: Seq<u32>,
    dst2: Seq<u32>,
    linear: Seq<u32>,
    stride: int,
    height: int,
    log2: nat,
)
    requires
        dst1.len() == dst2.len(),
    ensures
        tiled(tiled(dst1, linear, stride, height, log2), linear, stride, height, log2) == tiled(
            dst1,
            linear,
            stride,
            height,
            log2,
        ),
        forall|j: int|
            0 <= j < dst1.len() && tiled_written(j, stride, height, log2) ==> #[trigger] tiled(
                dst1,
                linear,
                stride,
                height,
                log2,
            )[j] == tiled(dst2, linear, stride, height, log2)[j],
{
    let once = tiled(dst1, linear, stride, height, log2);
    assert(tiled(once, linear, stride, height, log2) =~= once);
}

} // verus!
