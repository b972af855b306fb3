//! A square that moves across a surface and bounces off its edges, speeding
//! up at each bounce.

use crate::color::RGBA8;
use crate::surface::{paint_rect, AlphaBlend, SurfaceEx};
use vstd::prelude::*;

verus! {

/// A moving square: its top-left corner, side, direction (`1` or `-1` per
/// axis), speed multiplier per axis and colour.
#[derive(Clone, Copy, Debug)]
pub struct Square {
    pub x: u32,
    pub y: u32,
    pub size: u32,
    pub x_incr: i32,
    pub y_incr: i32,
    pub x_mult: i32,
    pub y_mult: i32,
    pub color: RGBA8,
}

/// One axis of one step: the position after moving `incr * mult` (held at
/// `0` and `u32::MAX`), then a bounce at either edge of `[0, limit)` that
/// turns the direction inwards, puts the square against the edge and
/// raises the multiplier (held at `i32::MAX`).
pub open spec fn bounce(pos: u32, size: u32, incr: i32, mult: i32, limit: u32) -> (u32, i32, i32) {
    let moved = pos as int + incr as int * mult as int;
    let p: int = if moved < 0 {
        0
    } else if moved > u32::MAX {
        u32::MAX as int
    } else {
        moved
    };
    let faster: i32 = if mult == i32::MAX {
        mult
    } else {
        (mult + 1) as i32
    };
    if p == 0 {
        (0, if incr < 0 {
            (-incr) as i32
        } else {
            incr
        }, faster)
    } else if p + size >= limit {
        (if size <= limit {
            (limit - size) as u32
        } else {
            0u32
        }, if incr > 0 {
            (-incr) as i32
        } else {
            incr
        }, faster)
    } else {
        (p as u32, incr, mult)
    }
}

impl Square {
    /// The square's fields may move it: each direction is `1` or `-1` and
    /// each multiplier is positive.
    pub open spec fn wf(&self) -> bool {
        &&& (self.x_incr == 1 || self.x_incr == -1)
        &&& (self.y_incr == 1 || self.y_incr == -1)
        &&& self.x_mult >= 1
        &&& self.y_mult >= 1
    }

    /// A square at (`x`, `y`) moving down and right at unit speed.
    pub fn new(x: u32, y: u32, size: u32, color: RGBA8) -> (s: Self)
        ensures
            s == (Square { x, y, size, x_incr: 1, y_incr: 1, x_mult: 1, y_mult: 1, color }),
            s.wf(),
    {
        Self { x, y, size, x_incr: 1, y_incr: 1, x_mult: 1, y_mult: 1, color }
    }

    fn bounce_axis(pos: u32, size: u32, incr: i32, mult: i32, limit: u32) -> (r: (u32, i32, i32))
        requires
            incr == 1 || incr == -1,
            mult >= 1,
        ensures
            r == bounce(pos, size, incr, mult, limit),
    {
        let step: i64 = if incr < 0 {
            -(mult as i64)
        } else {
            mult as i64
        };
        let moved: i64 = pos as i64 + step;
        let p: u32 = if moved < 0 {
            0
        } else if moved > u32::MAX as i64 {
            u32::MAX
        } else {
            moved as u32
        };
        let faster: i32 = if mult == i32::MAX {
            mult
        } else {
            mult + 1
        };
        if p == 0 {
            (0, if incr < 0 {
                -incr
            } else {
                incr
            }, faster)
        } else if p as u64 + size as u64 >= limit as u64 {
            (if size <= limit {
                limit - size
            } else {
                0
            }, if incr > 0 {
                -incr
            } else {
                incr
            }, faster)
        } else {
            (p, incr, mult)
        }
    }

    /// Moves the square one step on a `width` × `height` surface,
    /// bouncing off its edges.
    pub fn tick(&mut self, width: u32, height: u32)
        requires
            old(self).wf(),
        ensures
            final(self).wf(),
            (final(self).x, final(self).x_incr, final(self).x_mult) == bounce(
                old(self).x,
                old(self).size,
                old(self).x_incr,
                old(self).x_mult,
                width,
            ),
            (final(self).y, final(self).y_incr, final(self).y_mult) == bounce(
                old(self).y,
                old(self).size,
                old(self).y_incr,
                old(self).y_mult,
                height,
            ),
            final(self).size == old(self).size,
            final(self).color == old(self).color,
    {
        let (x, x_incr, x_mult) = Self::bounce_axis(
            self.x,
            self.size,
            self.x_incr,
            self.x_mult,
            width,
        );
        let (y, y_incr, y_mult) = Self::bounce_axis(
            self.y,
            self.size,
            self.y_incr,
            self.y_mult,
            height,
        );
        self.x = x;
        self.x_incr = x_incr;
        self.x_mult = x_mult;
        self.y = y;
        self.y_incr = y_incr;
        self.y_mult = y_mult;
    }

    /// Draws the square, opaque, on `surface`.
    pub fn render(&self, surface: &mut SurfaceEx)
        requires
            old(surface).wf(),
        ensures
            final(surface).wf(),
            final(surface).same_geometry(old(surface)),
            final(surface).state() == old(surface).state(),
            final(surface).pixels() == paint_rect(
                old(surface).pixels(),
                old(surface).stride_spec(),
                old(surface).width_spec(),
                old(surface).height_spec(),
                self.x as int,
                self.y as int,
                self.size as int,
                self.size as int,
                self.color,
                AlphaBlend::Replace,
            ),
    {
        surface.draw_rect(self.x, self.y, self.size, self.size, self.color, AlphaBlend::Replace);
    }
}

} // verus!
