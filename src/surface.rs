//! A presentation surface: the linear scratch buffer that drawing operations
//! write to, the drawing operations themselves, and the frame cycle that
//! acquires a hardware buffer, converts the scratch buffer into it and hands
//! it back for display.
//!
//! The swap chain itself (acquiring a slot, waiting on its fences, queueing
//! it, flushing caches, waiting for vertical sync) is driven by the caller:
//! [`SurfaceEx::start`] records a slot that the caller acquired, and
//! [`SurfaceEx::end`] converts the frame into the caller's buffer and tells
//! the caller which slot to queue and how much of the buffer was written.

use crate::color::{pack, RGBA8};
use crate::tiling::{
    block_rows, gob_aligned_rows, gobs_per_block, height_blocks, tile, tiled, tiled_len,
    width_blocks, MAX_BLOCK_HEIGHT_LOG2,
};
use vstd::arithmetic::div_mod::{
    lemma_fundamental_div_mod, lemma_fundamental_div_mod_converse, lemma_mod_pos_bound,
};
use vstd::arithmetic::power2::lemma2_to64;
use vstd::prelude::*;

verus! {

/// How a drawn colour combines with the pixel already in the buffer.
#[derive(Clone, Copy, Debug, PartialEq, Eq, Structural)]
pub enum AlphaBlend {
    /// The drawn colour replaces the pixel.
    Replace,
    /// The drawn colour is blended over the existing pixel.
    Source,
    /// The existing pixel is blended over the drawn colour.
    Destination,
}

/// Why a surface could not be created.
#[derive(Clone, Copy, Debug, PartialEq, Eq, Structural)]
pub enum SurfaceError {
    /// The row pitch is not a multiple of 64 bytes, the width of a GOB.
    UnalignedPitch,
    /// A row of the pitch holds fewer pixels than the surface is wide.
    PitchTooNarrow,
    /// The block height exponent is above the hardware's largest (32 GOBs).
    UnsupportedBlockHeight,
    /// The scratch or tiled buffer would span more bytes than an allocation
    /// can.
    TooLarge,
}

/// Why a frame-cycle step was refused.
#[derive(Clone, Copy, Debug, PartialEq, Eq, Structural)]
pub enum FrameError {
    /// `start` was called while a frame was already acquired.
    AlreadyStarted,
    /// `end` was called without an acquired frame.
    NotStarted,
    /// The acquired buffer is smaller than the tiled image; the frame is
    /// given up.
    BufferTooSmall,
}

/// Where the surface stands in its frame cycle.
#[derive(Clone, Copy, Debug, PartialEq, Eq, Structural)]
pub enum FrameState {
    /// No hardware buffer is held.
    Idle,
    /// The hardware buffer of swap slot `slot` is held for drawing.
    Acquired { slot: i32 },
}

/// What the caller must do with a converted frame: flush the first
/// `written_pixels` pixels of the buffer and queue swap slot `slot`.
#[derive(Clone, Copy, Debug, PartialEq, Eq, Structural)]
pub struct Submission {
    pub slot: i32,
    pub written_pixels: usize,
}

/// The pixel value that drawing `color` with `mode` over the packed pixel
/// `raw` leaves, packed in hardware order.
pub open spec fn blend_pixel(color: RGBA8, raw: u32, mode: AlphaBlend) -> u32 {
    let c = match mode {
        AlphaBlend::Replace => color,
        AlphaBlend::Source => color.blend_spec(RGBA8::abgr_spec(raw)),
        AlphaBlend::Destination => RGBA8::abgr_spec(raw).blend_spec(color),
    };
    pack(c.r, c.g, c.b, c.a)
}

/// `v` clamped to `[0, max]`.
pub open spec fn clamp_to(v: int, max: int) -> int {
    if v < 0 {
        0
    } else if v > max {
        max
    } else {
        v
    }
}

/// Whether column `px`, row `py` lies in `[x0, x1) × [y0, y1)`.
pub open spec fn in_box(px: int, py: int, x0: int, x1: int, y0: int, y1: int) -> bool {
    x0 <= px < x1 && y0 <= py < y1
}

/// The buffer `pix` (rows of `stride` pixels) after drawing `color` with
/// `mode` on every pixel of the box `[x0, x1) × [y0, y1)`.
pub open spec fn paint_box(
    pix: Seq<u32>,
    stride: int,
    x0: int,
    x1: int,
    y0: int,
    y1: int,
    color: RGBA8,
    mode: AlphaBlend,
) -> Seq<u32> {
    Seq::new(
        pix.len(),
        |i: int|
            if in_box(i % stride, i / stride, x0, x1, y0, y1) {
                blend_pixel(color, pix[i], mode)
            } else {
                pix[i]
            },
    )
}

/// The buffer `pix` after drawing the rectangle at (`x`, `y`) of `w` × `h`
/// pixels, clipped to a canvas of `width` × `height` pixels.
pub open spec fn paint_rect(
    pix: Seq<u32>,
    stride: int,
    width: int,
    height: int,
    x: int,
    y: int,
    w: int,
    h: int,
    color: RGBA8,
    mode: AlphaBlend,
) -> Seq<u32> {
    paint_box(
        pix,
        stride,
        clamp_to(x, width),
        clamp_to(x + w, width),
        clamp_to(y, height),
        clamp_to(y + h, height),
        color,
        mode,
    )
}

/// Whether a circle of radius `r` around (`cx`, `cy`) covers pixel
/// (`px`, `py`): its distance is at most `r`, and above `inner` when
/// `inner` is not negative (an outline), at any distance otherwise (a
/// filled disc).
pub open spec fn in_circle(px: int, py: int, cx: int, cy: int, r: int, inner: int) -> bool {
    let d2 = (px - cx) * (px - cx) + (py - cy) * (py - cy);
    d2 <= r * r && (inner < 0 || inner * inner < d2)
}

/// The buffer `pix` after drawing the circle of [`in_circle`] on the
/// `width` × `height` canvas; pixels off the canvas are skipped.
pub open spec fn paint_circle(
    pix: Seq<u32>,
    stride: int,
    width: int,
    height: int,
    cx: int,
    cy: int,
    r: int,
    inner: int,
    color: RGBA8,
    mode: AlphaBlend,
) -> Seq<u32> {
    Seq::new(
        pix.len(),
        |i: int|
            if i % stride < width && i / stride < height && in_circle(
                i % stride,
                i / stride,
                cx,
                cy,
                r,
                inner,
            ) {
                blend_pixel(color, pix[i], mode)
            } else {
                pix[i]
            },
    )
}

/// A point within distance `r` lies within `r` of the centre along each axis.
proof fn lemma_circle_extent(dx: int, dy: int, r: int)
    requires
        r >= 0,
        dx * dx + dy * dy <= r * r,
    ensures
        -r <= dx <= r,
        -r <= dy <= r,
{
    assert(dy * dy >= 0 && dx * dx >= 0) by (nonlinear_arith);
    if dx > r {
        assert(dx * dx > r * r) by (nonlinear_arith)
            requires
                dx > r,
                r >= 0,
        ;
    }
    if dx < -r {
        assert(dx * dx > r * r) by (nonlinear_arith)
            requires
                dx < -r,
                r >= 0,
        ;
    }
    if dy > r {
        assert(dy * dy > r * r) by (nonlinear_arith)
            requires
                dy > r,
                r >= 0,
        ;
    }
    if dy < -r {
        assert(dy * dy > r * r) by (nonlinear_arith)
            requires
                dy < -r,
                r >= 0,
        ;
    }
}

/// Whether pixel (`px`, `py`) lies in the ring of squared distances
/// `(inner, outer]` from (`cx`, `cy`).
#[derive(Clone, Copy)]
struct Disc {
    cx: i32,
    cy: i32,
    outer: i128,
    inner: i128,
}

spec fn disc_contains(d: Disc, px: int, py: int) -> bool {
    let d2 = (px - d.cx) * (px - d.cx) + (py - d.cy) * (py - d.cy);
    d.inner < d2 <= d.outer
}

/// Every pixel when there is no disc; else the pixels of the disc.
spec fn shape_allows(shape: Option<Disc>, px: int, py: int) -> bool {
    match shape {
        None => true,
        Some(d) => disc_contains(d, px, py),
    }
}

/// The buffer `pix` after drawing on the pixels of the box
/// `[x0, x1) × [y0, y1)` that `shape` allows.
spec fn paint_shape(
    pix: Seq<u32>,
    stride: int,
    x0: int,
    x1: int,
    y0: int,
    y1: int,
    shape: Option<Disc>,
    color: RGBA8,
    mode: AlphaBlend,
) -> Seq<u32> {
    Seq::new(
        pix.len(),
        |i: int|
            if in_box(i % stride, i / stride, x0, x1, y0, y1) && shape_allows(
                shape,
                i % stride,
                i / stride,
            ) {
                blend_pixel(color, pix[i], mode)
            } else {
                pix[i]
            },
    )
}

/// The buffer `pix` while a box is being drawn row by row: rows `y0` to
/// `row - 1` of the box are drawn, and row `row` up to column `col - 1`.
spec fn paint_partial(
    pix: Seq<u32>,
    stride: int,
    x0: int,
    x1: int,
    y0: int,
    row: int,
    col: int,
    shape: Option<Disc>,
    color: RGBA8,
    mode: AlphaBlend,
) -> Seq<u32> {
    Seq::new(
        pix.len(),
        |i: int|
            if (in_box(i % stride, i / stride, x0, x1, y0, row) || (i / stride == row && x0 <= i
                % stride < col)) && shape_allows(shape, i % stride, i / stride) {
                blend_pixel(color, pix[i], mode)
            } else {
                pix[i]
            },
    )
}

/// Why a surface of `width` × `height` pixels, rows of `pitch` bytes and
/// blocks of `2^block_height_log2` GOBs cannot be created, if it cannot.
pub open spec fn config_error(width: u32, height: u32, pitch: u32, block_height_log2: u32) -> Option<
    SurfaceError,
> {
    let stride = pitch as int / 4;
    if pitch % 64 != 0 {
        Some(SurfaceError::UnalignedPitch)
    } else if stride < width {
        Some(SurfaceError::PitchTooNarrow)
    } else if block_height_log2 > MAX_BLOCK_HEIGHT_LOG2 {
        Some(SurfaceError::UnsupportedBlockHeight)
    } else if 4 * (stride * gob_aligned_rows(height as int)) > isize::MAX || 4 * tiled_len(
        stride,
        height as int,
        block_height_log2 as nat,
    ) > isize::MAX {
        Some(SurfaceError::TooLarge)
    } else {
        None
    }
}

/// Drawing a rectangle changes only the pixels where it overlaps the
/// `width` × `height` canvas; a rectangle with no such overlap (wholly to
/// one side of the canvas, or of a size that is not positive) changes
/// nothing.
pub proof fn lemma_rect_clipping(
    pix: Seq<u32>,
    stride: int,
    width: int,
    height: int,
    x: int,
    y: int,
    w: int,
    h: int,
    color: RGBA8,
    mode: AlphaBlend,
)
    requires
        0 <= width <= stride,
        0 < stride || pix.len() == 0,
        0 <= height,
    ensures
        forall|i: int|
            0 <= i < pix.len() && !(x <= i % stride < x + w && y <= i / stride < y + h && i % stride
                < width && i / stride < height) ==> #[trigger] paint_rect(
                pix,
                stride,
                width,
                height,
                x,
                y,
                w,
                h,
                color,
                mode,
            )[i] == pix[i],
        (x >= width || y >= height || x + w <= 0 || y + h <= 0 || w <= 0 || h <= 0) ==> paint_rect(
            pix,
            stride,
            width,
            height,
            x,
            y,
            w,
            h,
            color,
            mode,
        ) == pix,
{
    let r = paint_rect(pix, stride, width, height, x, y, w, h, color, mode);
    assert forall|i: int|
        0 <= i < pix.len() && !(x <= i % stride < x + w && y <= i / stride < y + h && i % stride
            < width && i / stride < height) implies #[trigger] r[i] == pix[i] by {
        lemma_mod_pos_bound(i, stride);
        vstd::arithmetic::div_mod::lemma_div_pos_is_pos(i, stride);
    }
    if x >= width || y >= height || x + w <= 0 || y + h <= 0 || w <= 0 || h <= 0 {
        assert forall|i: int| 0 <= i < pix.len() implies #[trigger] r[i] == pix[i] by {
            lemma_mod_pos_bound(i, stride);
            vstd::arithmetic::div_mod::lemma_div_pos_is_pos(i, stride);
        }
        assert(r =~= pix);
    }
}

/// A surface: its geometry, its linear scratch buffer of packed pixels
/// (rows of `stride` pixels, the height rounded up to whole GOB rows) and its
/// place in the frame cycle.
pub struct SurfaceEx {
    linear_buf: Vec<u32>,
    width: u32,
    height: u32,
    stride: u32,
    block_height_log2: u32,
    tiled_pixels: usize,
    state: FrameState,
}

impl SurfaceEx {
    /// The scratch buffer's pixels, packed in hardware order.
    pub closed spec fn pixels(&self) -> Seq<u32> {
        self.linear_buf@
    }

    pub closed spec fn width_spec(&self) -> int {
        self.width as int
    }

    pub closed spec fn height_spec(&self) -> int {
        self.height as int
    }

    /// Pixels per row of the scratch buffer.
    pub closed spec fn stride_spec(&self) -> int {
        self.stride as int
    }

    pub closed spec fn block_height_log2_spec(&self) -> nat {
        self.block_height_log2 as nat
    }

    pub closed spec fn state(&self) -> FrameState {
        self.state
    }

    /// The index in the scratch buffer of the pixel at column `x`, row `y`.
    pub open spec fn index_of(&self, x: int, y: int) -> int {
        y * self.stride_spec() + x
    }

    /// The scratch buffer covers whole GOB rows of whole-GOB-wide rows, and
    /// the tiled image fits in memory.
    pub closed spec fn wf(&self) -> bool {
        &&& self.stride % 16 == 0
        &&& self.width <= self.stride
        &&& self.block_height_log2 <= MAX_BLOCK_HEIGHT_LOG2
        &&& self.linear_buf.len() == self.stride * gob_aligned_rows(self.height as int)
        &&& self.tiled_pixels == tiled_len(
            self.stride as int,
            self.height as int,
            self.block_height_log2 as nat,
        )
    }

    /// `self` and `other` have the same geometry.
    pub open spec fn same_geometry(&self, other: &Self) -> bool {
        &&& self.width_spec() == other.width_spec()
        &&& self.height_spec() == other.height_spec()
        &&& self.stride_spec() == other.stride_spec()
        &&& self.block_height_log2_spec() == other.block_height_log2_spec()
    }

    pub fn get_width(&self) -> (w: u32)
        ensures
            w == self.width_spec(),
    {
        self.width
    }

    pub fn get_height(&self) -> (h: u32)
        ensures
            h == self.height_spec(),
    {
        self.height
    }

    /// Pixels per row of the scratch buffer.
    pub fn get_stride(&self) -> (s: u32)
        ensures
            s == self.stride_spec(),
    {
        self.stride
    }

    /// Reads the packed pixel at column `x`, row `y` of the scratch buffer.
    pub fn get_pixel(&self, x: u32, y: u32) -> (raw: u32)
        requires
            self.wf(),
            x < self.stride_spec(),
            y < self.height_spec(),
        ensures
            raw == self.pixels()[self.index_of(x as int, y as int)],
    {
        proof {
            self.lemma_index_bounds(x as int, y as int);
        }
        self.linear_buf[(y as usize) * (self.stride as usize) + x as usize]
    }

    /// Creates a surface of `width` × `height` pixels whose rows are `pitch`
    /// bytes apart and whose tiled form uses blocks of `2^block_height_log2`
    /// GOBs. The scratch buffer starts zeroed and no frame is acquired.
    pub fn from(width: u32, height: u32, pitch: u32, block_height_log2: u32) -> (r: Result<
        SurfaceEx,
        SurfaceError,
    >)
        ensures
            config_error(width, height, pitch, block_height_log2) is None <==> r is Ok,
            r matches Err(e) ==> config_error(width, height, pitch, block_height_log2) == Some(e),
            r matches Ok(s) ==> {
                &&& s.wf()
                &&& s.width_spec() == width
                &&& s.height_spec() == height
                &&& s.stride_spec() == pitch / 4
                &&& s.block_height_log2_spec() == block_height_log2
                &&& s.pixels().len() == s.stride_spec() * gob_aligned_rows(s.height_spec())
                &&& s.state() == FrameState::Idle
                &&& forall|i: int| 0 <= i < s.pixels().len() ==> #[trigger] s.pixels()[i] == 0
            },
    {
        if pitch % 64 != 0 {
            return Err(SurfaceError::UnalignedPitch);
        }
        let stride = pitch / 4;
        if stride < width {
            return Err(SurfaceError::PitchTooNarrow);
        }
        if block_height_log2 > MAX_BLOCK_HEIGHT_LOG2 {
            return Err(SurfaceError::UnsupportedBlockHeight);
        }
        let aligned: u64 = (height as u64 + 7) / 8 * 8;
        assert(stride as u64 * aligned <= 0x4000_0000 * 0x1_0000_0000) by (nonlinear_arith)
            requires
                stride <= 0x4000_0000,
                aligned <= 0x1_0000_0000,
        ;
        let n: u64 = stride as u64 * aligned;
        if n > (isize::MAX as u64) / 4 {
            return Err(SurfaceError::TooLarge);
        }
        proof {
            lemma2_to64();
            vstd::bits::lemma_u64_shl_is_mul(1, block_height_log2 as u64);
        }
        let gpb: u64 = 1u64 << (block_height_log2 as u64);
        let block_height_px: u64 = gpb * 8;
        let blocks_high: u64 = height as u64 / block_height_px + if height as u64
            % block_height_px == 0 {
            0
        } else {
            1
        };
        let ghost log2 = block_height_log2 as nat;
        assert(gpb == gobs_per_block(log2));
        assert(blocks_high == height_blocks(height as int, log2));
        assert(blocks_high <= 0x1_0000_0000);
        let wb: u128 = (stride / 16) as u128;
        assert(wb == width_blocks(stride as int));
        assert(blocks_high as u128 * wb * gpb as u128 * 128 <= 0x1_0000_0000 * 0x1000_0000 * 32
            * 128) by (nonlinear_arith)
            requires
                blocks_high <= 0x1_0000_0000,
                wb <= 0x1000_0000,
                gpb <= 32,
        ;
        assert(blocks_high as u128 * wb <= 0x1_0000_0000 * 0x1000_0000) by (nonlinear_arith)
            requires
                blocks_high <= 0x1_0000_0000,
                wb <= 0x1000_0000,
        ;
        assert(blocks_high as u128 * wb * gpb as u128 <= 0x1_0000_0000 * 0x1000_0000 * 32)
            by (nonlinear_arith)
            requires
                blocks_high as u128 * wb <= 0x1_0000_0000 * 0x1000_0000,
                gpb <= 32,
        ;
        let t: u128 = blocks_high as u128 * wb * gpb as u128 * 128;
        if t > (isize::MAX as u128) / 4 {
            return Err(SurfaceError::TooLarge);
        }
        let linear_buf: Vec<u32> = vec![0u32; n as usize];
        let s = SurfaceEx {
            linear_buf,
            width,
            height,
            stride,
            block_height_log2,
            tiled_pixels: t as usize,
            state: FrameState::Idle,
        };
        assert forall|i: int| 0 <= i < s.pixels().len() implies #[trigger] s.pixels()[i] == 0 by {
            assert(vstd::pervasive::cloned(0u32, s.linear_buf@[i]));
        }
        Ok(s)
    }

    /// Fills the whole scratch buffer, padding included, with `color`.
    pub fn clear(&mut self, color: RGBA8)
        requires
            old(self).wf(),
        ensures
            final(self).wf(),
            final(self).same_geometry(old(self)),
            final(self).state() == old(self).state(),
            final(self).pixels() == Seq::new(
                old(self).pixels().len(),
                |i: int| pack(color.r, color.g, color.b, color.a),
            ),
    {
        let raw = color.encode_abgr();
        let n = self.linear_buf.len();
        let mut i: usize = 0;
        while i < n
            invariant
                self.wf(),
                self.same_geometry(old(self)),
                self.state == old(self).state,
                n == self.linear_buf.len(),
                n == old(self).linear_buf.len(),
                i <= n,
                raw == pack(color.r, color.g, color.b, color.a),
                forall|j: int| 0 <= j < i ==> #[trigger] self.linear_buf@[j] == raw,
            decreases n - i,
        {
            self.linear_buf.set(i, raw);
            i = i + 1;
        }
        assert(self.pixels() =~= Seq::new(
            old(self).pixels().len(),
            |i: int| pack(color.r, color.g, color.b, color.a),
        ));
    }

    /// Draws `color` with `blend` on the pixel at column `x`, row `y`, which
    /// must lie on the surface.
    pub fn draw_single(&mut self, x: u32, y: u32, color: RGBA8, blend: AlphaBlend)
        requires
            old(self).wf(),
            x < old(self).width_spec(),
            y < old(self).height_spec(),
        ensures
            final(self).wf(),
            final(self).same_geometry(old(self)),
            final(self).state() == old(self).state(),
            final(self).pixels() == old(self).pixels().update(
                old(self).index_of(x as int, y as int),
                blend_pixel(
                    color,
                    old(self).pixels()[old(self).index_of(x as int, y as int)],
                    blend,
                ),
            ),
    {
        proof {
            self.lemma_index_bounds(x as int, y as int);
        }
        let idx = (y as usize) * (self.stride as usize) + x as usize;
        let old_color = RGBA8::from_abgr(self.linear_buf[idx]);
        let new_color = match blend {
            AlphaBlend::Replace => color,
            AlphaBlend::Source => color.blend_with(old_color),
            AlphaBlend::Destination => old_color.blend_with(color),
        };
        let raw = new_color.encode_abgr();
        self.linear_buf.set(idx, raw);
    }

    /// Whether `shape` allows pixel (`x`, `y`).
    fn allows(shape: Option<Disc>, x: u32, y: u32) -> (r: bool)
        ensures
            r == shape_allows(shape, x as int, y as int),
    {
        match shape {
            None => true,
            Some(d) => {
                let dx: i128 = x as i128 - d.cx as i128;
                let dy: i128 = y as i128 - d.cy as i128;
                assert(dx * dx <= 0x4_0000_0000 * 0x4_0000_0000) by (nonlinear_arith)
                    requires
                        -0x4_0000_0000 <= dx <= 0x4_0000_0000,
                ;
                assert(dy * dy <= 0x4_0000_0000 * 0x4_0000_0000) by (nonlinear_arith)
                    requires
                        -0x4_0000_0000 <= dy <= 0x4_0000_0000,
                ;
                assert(0 <= dx * dx && 0 <= dy * dy) by (nonlinear_arith);
                let d2 = dx * dx + dy * dy;
                d.inner < d2 && d2 <= d.outer
            },
        }
    }

    /// Draws `color` with `blend` on the pixels of the box
    /// `[x0, x1) × [y0, y1)`, which must lie on the surface, that `shape`
    /// allows.
    fn fill_box(
        &mut self,
        x0: u32,
        x1: u32,
        y0: u32,
        y1: u32,
        shape: Option<Disc>,
        color: RGBA8,
        blend: AlphaBlend,
    )
        requires
            old(self).wf(),
            x0 <= x1 <= old(self).width_spec(),
            y0 <= y1 <= old(self).height_spec(),
        ensures
            final(self).wf(),
            final(self).same_geometry(old(self)),
            final(self).state() == old(self).state(),
            final(self).pixels() == paint_shape(
                old(self).pixels(),
                old(self).stride_spec(),
                x0 as int,
                x1 as int,
                y0 as int,
                y1 as int,
                shape,
                color,
                blend,
            ),
    {
        let ghost pix = self.pixels();
        let ghost s = self.stride as int;
        let mut y: u32 = y0;
        assert(self.pixels() =~= paint_partial(
            pix,
            s,
            x0 as int,
            x1 as int,
            y0 as int,
            y0 as int,
            x0 as int,
            shape,
            color,
            blend,
        ));
        while y < y1
            invariant
                self.wf(),
                self.same_geometry(old(self)),
                self.state == old(self).state,
                s == self.stride,
                pix == old(self).pixels(),
                x0 <= x1 <= self.width,
                y0 <= y <= y1 <= self.height,
                self.pixels() == paint_partial(
                    pix,
                    s,
                    x0 as int,
                    x1 as int,
                    y0 as int,
                    y as int,
                    x0 as int,
                    shape,
                    color,
                    blend,
                ),
            decreases y1 - y,
        {
            let mut x: u32 = x0;
            while x < x1
                invariant
                    self.wf(),
                    self.same_geometry(old(self)),
                    self.state == old(self).state,
                    s == self.stride,
                    pix == old(self).pixels(),
                    x0 <= x <= x1 <= self.width,
                    y0 <= y < y1 <= self.height,
                    self.pixels() == paint_partial(
                        pix,
                        s,
                        x0 as int,
                        x1 as int,
                        y0 as int,
                        y as int,
                        x as int,
                        shape,
                        color,
                        blend,
                    ),
                decreases x1 - x,
            {
                let ghost idx = self.index_of(x as int, y as int);
                proof {
                    self.lemma_index_bounds(x as int, y as int);
                }
                if Self::allows(shape, x, y) {
                    self.draw_single(x, y, color, blend);
                }
                proof {
                    let next = paint_partial(
                        pix,
                        s,
                        x0 as int,
                        x1 as int,
                        y0 as int,
                        y as int,
                        x + 1,
                        shape,
                        color,
                        blend,
                    );
                    assert forall|i: int| 0 <= i < pix.len() implies #[trigger] self.pixels()[i] == next[i] by {
                        lemma_fundamental_div_mod(i, s);
                        if i != idx {
                            assert(!(i / s == y && i % s == x)) by {
                                if i / s == y && i % s == x {
                                    assert(s * (i / s) == y * s) by (nonlinear_arith)
                                        requires
                                            i / s == y,
                                    ;
                                }
                            }
                        }
                    }
                    assert(self.pixels() =~= next);
                }
                x = x + 1;
            }
            proof {
                assert(self.pixels() =~= paint_partial(
                    pix,
                    s,
                    x0 as int,
                    x1 as int,
                    y0 as int,
                    y + 1,
                    x0 as int,
                    shape,
                    color,
                    blend,
                ));
            }
            y = y + 1;
        }
        assert(self.pixels() =~= paint_shape(
            pix,
            s,
            x0 as int,
            x1 as int,
            y0 as int,
            y1 as int,
            shape,
            color,
            blend,
        ));
    }

    /// `value` clamped to `[0, max]`.
    fn clamp(max: i64, value: i64) -> (r: i64)
        requires
            max >= 0,
        ensures
            r == clamp_to(value as int, max as int),
    {
        if value < 0 {
            return 0;
        }
        if value > max {
            return max;
        }
        value
    }

    /// Draws the rectangle from (`x`, `y`) spanning `width` × `height`
    /// pixels (empty when either is not positive), clipped to the surface.
    fn fill_rect(
        &mut self,
        x: i64,
        y: i64,
        width: i64,
        height: i64,
        color: RGBA8,
        blend: AlphaBlend,
    )
        requires
            old(self).wf(),
            i32::MIN <= x <= u32::MAX,
            i32::MIN <= y <= u32::MAX,
            i32::MIN <= width <= u32::MAX,
            i32::MIN <= height <= u32::MAX,
        ensures
            final(self).wf(),
            final(self).same_geometry(old(self)),
            final(self).state() == old(self).state(),
            final(self).pixels() == paint_rect(
                old(self).pixels(),
                old(self).stride_spec(),
                old(self).width_spec(),
                old(self).height_spec(),
                x as int,
                y as int,
                width as int,
                height as int,
                color,
                blend,
            ),
    {
        let s_width = self.width as i64;
        let s_height = self.height as i64;
        let x0 = Self::clamp(s_width, x);
        let x1 = Self::clamp(s_width, x + width);
        let y0 = Self::clamp(s_height, y);
        let y1 = Self::clamp(s_height, y + height);
        if x0 < x1 && y0 < y1 {
            self.fill_box(x0 as u32, x1 as u32, y0 as u32, y1 as u32, None, color, blend);
            assert(self.pixels() =~= paint_box(
                old(self).pixels(),
                self.stride as int,
                x0 as int,
                x1 as int,
                y0 as int,
                y1 as int,
                color,
                blend,
            ));
        } else {
            assert(self.pixels() =~= paint_box(
                self.pixels(),
                self.stride as int,
                x0 as int,
                x1 as int,
                y0 as int,
                y1 as int,
                color,
                blend,
            ));
        }
    }

    /// Draws the rectangle from (`x`, `y`) spanning `width` × `height`
    /// pixels, clipped to the surface: only the part on the surface changes,
    /// and a rectangle wholly off the surface changes nothing.
    pub fn draw_rect(
        &mut self,
        x: u32,
        y: u32,
        width: u32,
        height: u32,
        color: RGBA8,
        blend: AlphaBlend,
    )
        requires
            old(self).wf(),
        ensures
            final(self).wf(),
            final(self).same_geometry(old(self)),
            final(self).state() == old(self).state(),
            final(self).pixels() == paint_rect(
                old(self).pixels(),
                old(self).stride_spec(),
                old(self).width_spec(),
                old(self).height_spec(),
                x as int,
                y as int,
                width as int,
                height as int,
                color,
                blend,
            ),
    {
        self.fill_rect(x as i64, y as i64, width as i64, height as i64, color, blend);
    }

    /// Draws the rectangle from (`x`, `y`) spanning `width` × `height`
    /// pixels, in signed coordinates, clipped to the surface. A rectangle
    /// with a size that is not positive draws nothing.
    pub fn draw(&mut self, x: i32, y: i32, width: i32, height: i32, color: RGBA8, blend: AlphaBlend)
        requires
            old(self).wf(),
        ensures
            final(self).wf(),
            final(self).same_geometry(old(self)),
            final(self).state() == old(self).state(),
            final(self).pixels() == paint_rect(
                old(self).pixels(),
                old(self).stride_spec(),
                old(self).width_spec(),
                old(self).height_spec(),
                x as int,
                y as int,
                width as int,
                height as int,
                color,
                blend,
            ),
    {
        self.fill_rect(x as i64, y as i64, width as i64, height as i64, color, blend);
    }

    /// Draws the circle of radius `radius` around (`cx`, `cy`) of
    /// [`in_circle`] with the given `inner` bound.
    fn fill_circle(
        &mut self,
        cx: i32,
        cy: i32,
        radius: u32,
        inner: i64,
        color: RGBA8,
        blend: AlphaBlend,
    )
        requires
            old(self).wf(),
            -0x1_0000_0000 <= inner <= radius,
        ensures
            final(self).wf(),
            final(self).same_geometry(old(self)),
            final(self).state() == old(self).state(),
            final(self).pixels() == paint_circle(
                old(self).pixels(),
                old(self).stride_spec(),
                old(self).width_spec(),
                old(self).height_spec(),
                cx as int,
                cy as int,
                radius as int,
                inner as int,
                color,
                blend,
            ),
    {
        let ghost pix = self.pixels();
        let ghost st = self.stride as int;
        proof {
            self.lemma_geometry();
        }
        let s_width = self.width as i64;
        let s_height = self.height as i64;
        let r = radius as i64;
        let x0 = Self::clamp(s_width, cx as i64 - r);
        let x1 = Self::clamp(s_width, cx as i64 + r + 1);
        let y0 = Self::clamp(s_height, cy as i64 - r);
        let y1 = Self::clamp(s_height, cy as i64 + r + 1);
        assert(r * r <= 0x1_0000_0000 * 0x1_0000_0000) by (nonlinear_arith)
            requires
                0 <= r <= 0x1_0000_0000,
        ;
        let outer: i128 = r as i128 * r as i128;
        let inner_sq: i128 = if inner < 0 {
            -1
        } else {
            assert(inner * inner <= 0x1_0000_0000 * 0x1_0000_0000) by (nonlinear_arith)
                requires
                    0 <= inner <= 0x1_0000_0000,
            ;
            inner as i128 * inner as i128
        };
        let disc = Disc { cx, cy, outer, inner: inner_sq };
        let ghost target = paint_circle(
            pix,
            st,
            self.width as int,
            self.height as int,
            cx as int,
            cy as int,
            radius as int,
            inner as int,
            color,
            blend,
        );
        // A pixel of the circle on the canvas lies in the clamped bounding box.
        assert forall|px: int, py: int|
            #![trigger in_circle(px, py, cx as int, cy as int, radius as int, inner as int)]
            0 <= px < s_width && 0 <= py < s_height && in_circle(
                px,
                py,
                cx as int,
                cy as int,
                radius as int,
                inner as int,
            ) implies in_box(px, py, x0 as int, x1 as int, y0 as int, y1 as int) && disc_contains(
            disc,
            px,
            py,
        ) by {
            lemma_circle_extent(px - cx, py - cy, radius as int);
            assert(0 <= (px - cx) * (px - cx) + (py - cy) * (py - cy)) by (nonlinear_arith);
        }
        if x0 < x1 && y0 < y1 {
            self.fill_box(x0 as u32, x1 as u32, y0 as u32, y1 as u32, Some(disc), color, blend);
            assert forall|i: int| 0 <= i < pix.len() implies #[trigger] self.pixels()[i] == target[i] by {
                lemma_mod_pos_bound(i, st);
                vstd::arithmetic::div_mod::lemma_div_pos_is_pos(i, st);
                let px = i % st;
                let py = i / st;
                assert(0 <= (px - cx) * (px - cx) + (py - cy) * (py - cy)) by (nonlinear_arith);
                let d2 = (px - cx) * (px - cx) + (py - cy) * (py - cy);
                assert(outer == radius * radius);
                assert(inner >= 0 ==> inner_sq == inner * inner);
                assert(disc_contains(disc, px, py) == (inner_sq < d2 && d2 <= outer));
                assert(in_circle(px, py, cx as int, cy as int, radius as int, inner as int) == (d2
                    <= radius * radius && (inner < 0 || inner * inner < d2)));
                if px < s_width && py < s_height && in_circle(
                    px,
                    py,
                    cx as int,
                    cy as int,
                    radius as int,
                    inner as int,
                ) {
                    assert(in_box(px, py, x0 as int, x1 as int, y0 as int, y1 as int));
                }
            }
            assert(self.pixels() =~= target);
        } else {
            assert forall|i: int| 0 <= i < pix.len() implies #[trigger] self.pixels()[i] == target[i] by {
                lemma_mod_pos_bound(i, st);
                vstd::arithmetic::div_mod::lemma_div_pos_is_pos(i, st);
                let px = i % st;
                let py = i / st;
                if px < s_width && py < s_height && in_circle(
                    px,
                    py,
                    cx as int,
                    cy as int,
                    radius as int,
                    inner as int,
                ) {
                    assert(in_box(px, py, x0 as int, x1 as int, y0 as int, y1 as int));
                }
            }
            assert(self.pixels() =~= target);
        }
    }

    /// Fills the disc of radius `radius` around (`cx`, `cy`): every pixel
    /// of the surface within that distance of the centre.
    pub fn draw_circle_filled(
        &mut self,
        cx: i32,
        cy: i32,
        radius: u32,
        color: RGBA8,
        blend: AlphaBlend,
    )
        requires
            old(self).wf(),
        ensures
            final(self).wf(),
            final(self).same_geometry(old(self)),
            final(self).state() == old(self).state(),
            final(self).pixels() == paint_circle(
                old(self).pixels(),
                old(self).stride_spec(),
                old(self).width_spec(),
                old(self).height_spec(),
                cx as int,
                cy as int,
                radius as int,
                -1,
                color,
                blend,
            ),
    {
        self.fill_circle(cx, cy, radius, -1, color, blend);
    }

    /// Draws the outline of the circle of radius `radius` around
    /// (`cx`, `cy`), `thickness` pixels wide inwards: every pixel of the
    /// surface farther than `radius - thickness` from the centre and no
    /// farther than `radius`. A thickness of at least the radius fills the
    /// disc, centre included.
    pub fn draw_circle(
        &mut self,
        cx: i32,
        cy: i32,
        radius: u32,
        thickness: u32,
        color: RGBA8,
        blend: AlphaBlend,
    )
        requires
            old(self).wf(),
        ensures
            final(self).wf(),
            final(self).same_geometry(old(self)),
            final(self).state() == old(self).state(),
            final(self).pixels() == paint_circle(
                old(self).pixels(),
                old(self).stride_spec(),
                old(self).width_spec(),
                old(self).height_spec(),
                cx as int,
                cy as int,
                radius as int,
                if thickness >= radius {
                    -1
                } else {
                    radius - thickness
                },
                color,
                blend,
            ),
    {
        let inner: i64 = if thickness >= radius {
            -1
        } else {
            radius as i64 - thickness as i64
        };
        self.fill_circle(cx, cy, radius, inner, color, blend);
    }

    /// Records that the caller acquired the buffer of swap slot `slot` (and
    /// waited on its fences). Refused while a frame is already acquired.
    pub fn start(&mut self, slot: i32) -> (r: Result<(), FrameError>)
        requires
            old(self).wf(),
        ensures
            final(self).wf(),
            final(self).same_geometry(old(self)),
            final(self).pixels() == old(self).pixels(),
            old(self).state() == FrameState::Idle ==> r is Ok && final(self).state()
                == (FrameState::Acquired { slot }),
            old(self).state() is Acquired ==> r == Err::<(), FrameError>(
                FrameError::AlreadyStarted,
            ) && final(self).state() == old(self).state(),
    {
        match self.state {
            FrameState::Idle => {
                self.state = FrameState::Acquired { slot };
                Ok(())
            },
            FrameState::Acquired { .. } => Err(FrameError::AlreadyStarted),
        }
    }

    /// Ends the acquired frame: converts the scratch buffer into `out`, the
    /// acquired hardware buffer, in block-linear layout, and returns the slot
    /// to queue and how many pixels of `out` were written (the range to
    /// flush). Without an acquired frame, or with a buffer too small for the
    /// tiled image, nothing changes and an error is returned.
    pub fn end(&mut self, out: &mut Vec<u32>) -> (r: Result<Submission, FrameError>)
        requires
            old(self).wf(),
        ensures
            final(self).wf(),
            final(self).same_geometry(old(self)),
            final(self).pixels() == old(self).pixels(),
            old(self).state() == FrameState::Idle ==> r == Err::<Submission, FrameError>(
                FrameError::NotStarted,
            ) && final(self).state() == FrameState::Idle && final(out)@ == old(out)@,
            old(self).state() matches FrameState::Acquired { slot } ==> {
                let needed = tiled_len(
                    old(self).stride_spec(),
                    old(self).height_spec(),
                    old(self).block_height_log2_spec(),
                );
                if old(out)@.len() < needed {
                    &&& r == Err::<Submission, FrameError>(FrameError::BufferTooSmall)
                    &&& final(self).state() == FrameState::Idle
                    &&& final(out)@ == old(out)@
                } else {
                    &&& r == Ok::<Submission, FrameError>(
                        Submission { slot, written_pixels: needed as usize },
                    )
                    &&& final(self).state() == FrameState::Idle
                    &&& final(out)@ == tiled(
                        old(out)@,
                        old(self).pixels(),
                        old(self).stride_spec(),
                        old(self).height_spec(),
                        old(self).block_height_log2_spec(),
                    )
                }
            },
    {
        match self.state {
            FrameState::Idle => Err(FrameError::NotStarted),
            FrameState::Acquired { slot } => {
                if out.len() < self.tiled_pixels {
                    self.state = FrameState::Idle;
                    return Err(FrameError::BufferTooSmall);
                }
                tile(
                    out,
                    &self.linear_buf,
                    self.stride as usize,
                    self.height as usize,
                    self.block_height_log2,
                );
                self.state = FrameState::Idle;
                Ok(Submission { slot, written_pixels: self.tiled_pixels })
            },
        }
    }

    /// The geometry that a well-formed surface guarantees.
    pub proof fn lemma_geometry(&self)
        requires
            self.wf(),
        ensures
            0 <= self.width_spec() <= self.stride_spec(),
            self.width_spec() <= u32::MAX,
            0 <= self.height_spec() <= u32::MAX,
            0 < self.stride_spec() || self.pixels().len() == 0,
            self.pixels().len() == self.stride_spec() * gob_aligned_rows(self.height_spec()),
            self.block_height_log2_spec() <= MAX_BLOCK_HEIGHT_LOG2,
            self.stride_spec() % 16 == 0,
    {
        if self.stride == 0 {
            assert(self.pixels().len() == 0 * gob_aligned_rows(self.height as int));
        }
    }

    /// The pixel at column `x` (padding columns included) and row `y` of the
    /// image lies in the scratch buffer, at the index that gives back `x`
    /// and `y`.
    pub proof fn lemma_index_bounds(&self, x: int, y: int)
        requires
            self.wf(),
            0 <= x < self.stride_spec(),
            0 <= y < self.height_spec(),
        ensures
            0 <= self.index_of(x, y) < self.pixels().len(),
            self.index_of(x, y) % self.stride_spec() == x,
            self.index_of(x, y) / self.stride_spec() == y,
    {
        let s = self.stride as int;
        assert(y + 1 <= gob_aligned_rows(self.height as int));
        assert((y + 1) * s <= s * gob_aligned_rows(self.height as int)) by (nonlinear_arith)
            requires
                y + 1 <= gob_aligned_rows(self.height as int),
                s >= 0,
        ;
        assert((y + 1) * s == y * s + s) by (nonlinear_arith);
        assert(0 <= y * s) by (nonlinear_arith)
            requires
                y >= 0,
                s >= 0,
        ;
        lemma_fundamental_div_mod_converse(y * s + x, s, y, x);
    }
}

} // verus!
