//! Text drawn with the fixed 8×8 bitmap font: each set bit of a glyph
//! becomes a filled `scale` × `scale` square.

use crate::color::RGBA8;
use crate::surface::{lemma_rect_clipping, paint_rect, AlphaBlend, SurfaceEx};
use vstd::prelude::*;

verus! {

broadcast use vstd::string::axiom_spec_iter;

/// The 8×8 bitmap glyph of a character in the basic font: eight row bytes,
/// top row first, the least significant bit of each the leftmost pixel.
pub uninterp spec fn basic_glyph(c: char) -> Option<Seq<u8>>;

/// Relies on `font8x8::BASIC_FONTS.get`: the glyph table covers exactly the
/// Basic Latin characters U+0000 to U+007F, gives the control characters and
/// the space (U+0000 to U+0020) a blank glyph, and returns the same glyph for
/// the same character.
#[verifier::external_body]
fn basic_font_glyph(c: char) -> (r: Option<[u8; 8]>)
    ensures
        r is Some <==> (c as u32) < 128,
        r matches Some(g) ==> basic_glyph(c) == Some(g@),
        (c as u32) <= 0x20 ==> (r matches Some(g) ==> g@ == seq![0u8; 8]),
        r is None ==> basic_glyph(c) is None,
{
    font8x8::UnicodeFonts::get(&font8x8::BASIC_FONTS, c)
}

/// Whether bit `bit` of a glyph row byte is set.
pub open spec fn glyph_bit(row: u8, bit: u8) -> bool {
    (row >> bit) & 1u8 != 0u8
}

/// Whether `c` starts a new line.
pub open spec fn is_line_break(c: char) -> bool {
    c == '\n' || c == '\r'
}

/// The origins of the squares drawn for the first `n` of the 64 pixels of
/// glyph `g` (row by row, left to right) placed at (`ox`, `oy`) with squares
/// of `s` pixels.
pub open spec fn glyph_cells(g: Seq<u8>, ox: int, oy: int, s: int, n: nat) -> Seq<(int, int)>
    decreases n,
{
    if n == 0 {
        Seq::empty()
    } else {
        let k = n - 1;
        let row = k / 8;
        let bit = k % 8;
        let before = glyph_cells(g, ox, oy, s, (n - 1) as nat);
        if glyph_bit(g[row], bit as u8) {
            before.push((ox + bit * s, oy + row * s))
        } else {
            before
        }
    }
}

/// Lays out `text` from (`x`, `y`) with squares of `s` pixels: the cursor
/// after the text and the origins of all squares drawn, in drawing order.
/// A line break returns the cursor to column `x`, `8 * s` rows down; a
/// character with a glyph draws it at the cursor and moves the cursor `8 * s`
/// columns right; any other character is skipped.
pub open spec fn text_layout(text: Seq<char>, x: int, y: int, s: int) -> (int, int, Seq<(int, int)>)
    decreases text.len(),
{
    if text.len() == 0 {
        (x, y, Seq::empty())
    } else {
        let (cx, cy, cells) = text_layout(text.drop_last(), x, y, s);
        let c = text.last();
        if is_line_break(c) {
            (x, cy + 8 * s, cells)
        } else {
            match basic_glyph(c) {
                Some(g) => (cx + 8 * s, cy, cells + glyph_cells(g, cx, cy, s, 64)),
                None => (cx, cy, cells),
            }
        }
    }
}

/// The buffer `pix` after drawing, in order, an `s` × `s` square at each of
/// `cells`, clipped to a `width` × `height` canvas.
pub open spec fn paint_cells(
    pix: Seq<u32>,
    stride: int,
    width: int,
    height: int,
    cells: Seq<(int, int)>,
    s: int,
    color: RGBA8,
    mode: AlphaBlend,
) -> Seq<u32>
    decreases cells.len(),
{
    if cells.len() == 0 {
        pix
    } else {
        let (cx, cy) = cells.last();
        paint_rect(
            paint_cells(pix, stride, width, height, cells.drop_last(), s, color, mode),
            stride,
            width,
            height,
            cx,
            cy,
            s,
            s,
            color,
            mode,
        )
    }
}

/// A line break moves the cursor to column `x`, `8 * s` rows below the
/// line it ends, so the glyph that follows it is drawn there; a glyph
/// keeps the cursor on its line.
pub proof fn lemma_line_break_layout(
    t: Seq<char>,
    brk: char,
    c: char,
    g: Seq<u8>,
    x: int,
    y: int,
    s: int,
)
    requires
        is_line_break(brk),
        !is_line_break(c),
        basic_glyph(c) == Some(g),
    ensures
        text_layout(t.push(c), x, y, s).1 == text_layout(t, x, y, s).1,
        text_layout(t.push(brk), x, y, s).0 == x,
        text_layout(t.push(brk), x, y, s).1 == text_layout(t, x, y, s).1 + 8 * s,
        text_layout(t.push(brk).push(c), x, y, s).2 == text_layout(t, x, y, s).2 + glyph_cells(
            g,
            x,
            text_layout(t, x, y, s).1 + 8 * s,
            s,
            64,
        ),
{
    assert(t.push(c).drop_last() =~= t);
    assert(t.push(brk).drop_last() =~= t);
    assert(t.push(brk).push(c).drop_last() =~= t.push(brk));
}

/// Drawing `"A\nB"` from (`x`, `y`) draws `A` at (`x`, `y`) and `B` at
/// (`x`, `y + 8 * s`).
pub proof fn lemma_two_line_text(ga: Seq<u8>, gb: Seq<u8>, x: int, y: int, s: int)
    requires
        basic_glyph('A') == Some(ga),
        basic_glyph('B') == Some(gb),
    ensures
        text_layout(seq!['A', '\n', 'B'], x, y, s).2 == glyph_cells(ga, x, y, s, 64) + glyph_cells(
            gb,
            x,
            y + 8 * s,
            s,
            64,
        ),
{
    let e = Seq::<char>::empty();
    assert(e.push('A') =~= seq!['A']);
    assert(seq!['A'].push('\n').push('B') =~= seq!['A', '\n', 'B']);
    assert(text_layout(e, x, y, s) == (x, y, Seq::<(int, int)>::empty()));
    assert(e.push('A').drop_last() =~= e);
    assert(text_layout(seq!['A'], x, y, s).2 =~= glyph_cells(ga, x, y, s, 64));
    lemma_line_break_layout(seq!['A'], '\n', 'B', gb, x, y, s);
}

/// Drawing two lists of squares one after the other is drawing their
/// concatenation.
pub proof fn lemma_paint_cells_append(
    pix: Seq<u32>,
    stride: int,
    width: int,
    height: int,
    a: Seq<(int, int)>,
    b: Seq<(int, int)>,
    s: int,
    color: RGBA8,
    mode: AlphaBlend,
)
    ensures
        paint_cells(pix, stride, width, height, a + b, s, color, mode) == paint_cells(
            paint_cells(pix, stride, width, height, a, s, color, mode),
            stride,
            width,
            height,
            b,
            s,
            color,
            mode,
        ),
    decreases b.len(),
{
    if b.len() == 0 {
        assert(a + b =~= a);
    } else {
        lemma_paint_cells_append(pix, stride, width, height, a, b.drop_last(), s, color, mode);
        assert((a + b).drop_last() =~= a + b.drop_last());
        assert((a + b).last() == b.last());
    }
}

/// A cursor coordinate of the layout, held in 64 bits: exact below
/// `2^32`, and `2^32` at or beyond it (everything there is off any canvas).
pub open spec fn saturated(v: int) -> int {
    if v < 0x1_0000_0000 {
        v
    } else {
        0x1_0000_0000
    }
}

impl SurfaceEx {
    /// Draws the square of one set glyph bit at the layout position
    /// (`sx`, `sy`), held saturated in (`ex`, `ey`).
    fn draw_glyph_cell(
        &mut self,
        ex: u64,
        ey: u64,
        sx: Ghost<int>,
        sy: Ghost<int>,
        scale: u32,
        color: RGBA8,
        blend: AlphaBlend,
    )
        requires
            old(self).wf(),
            0 <= sx@,
            0 <= sy@,
            ex <= 0x1_0000_0000 + 7 * 0xFFFF_FFFFu64,
            ey <= 0x1_0000_0000 + 7 * 0xFFFF_FFFFu64,
            ex < 0x1_0000_0000 ==> ex == sx@,
            ex >= 0x1_0000_0000 ==> sx@ >= 0x1_0000_0000,
            ey < 0x1_0000_0000 ==> ey == sy@,
            ey >= 0x1_0000_0000 ==> sy@ >= 0x1_0000_0000,
        ensures
            final(self).wf(),
            final(self).same_geometry(old(self)),
            final(self).state() == old(self).state(),
            final(self).pixels() == paint_rect(
                old(self).pixels(),
                old(self).stride_spec(),
                old(self).width_spec(),
                old(self).height_spec(),
                sx@,
                sy@,
                scale as int,
                scale as int,
                color,
                blend,
            ),
    {
        if ex <= 0xFFFF_FFFF && ey <= 0xFFFF_FFFF {
            self.draw_rect(ex as u32, ey as u32, scale, scale, color, blend);
        } else {
            proof {
                self.lemma_geometry();
                lemma_rect_clipping(
                    self.pixels(),
                    self.stride_spec(),
                    self.width_spec(),
                    self.height_spec(),
                    sx@,
                    sy@,
                    scale as int,
                    scale as int,
                    color,
                    blend,
                );
            }
        }
    }

    /// Draws glyph `glyph` with its top-left corner at the layout position
    /// (`sx`, `sy`), held saturated in (`cx`, `cy`).
    fn draw_glyph(
        &mut self,
        glyph: &[u8; 8],
        cx: u64,
        cy: u64,
        sx: Ghost<int>,
        sy: Ghost<int>,
        scale: u32,
        color: RGBA8,
        blend: AlphaBlend,
    )
        requires
            old(self).wf(),
            0 <= sx@,
            0 <= sy@,
            cx == saturated(sx@),
            cy == saturated(sy@),
        ensures
            final(self).wf(),
            final(self).same_geometry(old(self)),
            final(self).state() == old(self).state(),
            final(self).pixels() == paint_cells(
                old(self).pixels(),
                old(self).stride_spec(),
                old(self).width_spec(),
                old(self).height_spec(),
                glyph_cells(glyph@, sx@, sy@, scale as int, 64),
                scale as int,
                color,
                blend,
            ),
    {
        let ghost start = self.pixels();
        let ghost g = glyph@;
        let ghost s = scale as int;
        let mut row: u8 = 0;
        while row < 8
            invariant
                row <= 8,
                self.wf(),
                self.same_geometry(old(self)),
                self.state() == old(self).state(),
                start == old(self).pixels(),
                g == glyph@,
                s == scale,
                0 <= sx@,
                0 <= sy@,
                cx == saturated(sx@),
                cy == saturated(sy@),
                self.pixels() == paint_cells(
                    start,
                    self.stride_spec(),
                    self.width_spec(),
                    self.height_spec(),
                    glyph_cells(g, sx@, sy@, s, (row * 8) as nat),
                    s,
                    color,
                    blend,
                ),
            decreases 8 - row,
        {
            let line = glyph[row as usize];
            let mut bit: u8 = 0;
            while bit < 8
                invariant
                    row < 8,
                    bit <= 8,
                    line == g[row as int],
                    self.wf(),
                    self.same_geometry(old(self)),
                    self.state() == old(self).state(),
                    start == old(self).pixels(),
                    g == glyph@,
                    s == scale,
                    0 <= sx@,
                    0 <= sy@,
                    cx == saturated(sx@),
                    cy == saturated(sy@),
                    self.pixels() == paint_cells(
                        start,
                        self.stride_spec(),
                        self.width_spec(),
                        self.height_spec(),
                        glyph_cells(g, sx@, sy@, s, (row * 8 + bit) as nat),
                        s,
                        color,
                        blend,
                    ),
                decreases 8 - bit,
            {
                let ghost k = row * 8 + bit;
                let ghost before = glyph_cells(g, sx@, sy@, s, k as nat);
                assert(k / 8 == row as int && k % 8 == bit as int);
                if (line >> bit) & 1 != 0 {
                    assert(bit * scale <= 7 * 0xFFFF_FFFFu64) by (nonlinear_arith)
                        requires
                            bit < 8,
                            scale <= 0xFFFF_FFFFu32,
                    ;
                    assert(row * scale <= 7 * 0xFFFF_FFFFu64) by (nonlinear_arith)
                        requires
                            row < 8,
                            scale <= 0xFFFF_FFFFu32,
                    ;
                    let ex = cx + bit as u64 * scale as u64;
                    let ey = cy + row as u64 * scale as u64;
                    let ghost cell = (sx@ + bit * s, sy@ + row * s);
                    assert(0 <= bit * s && 0 <= row * s) by (nonlinear_arith)
                        requires
                            0 <= bit,
                            0 <= row,
                            0 <= s,
                    ;
                    self.draw_glyph_cell(ex, ey, Ghost(cell.0), Ghost(cell.1), scale, color, blend);
                    proof {
                        assert(glyph_cells(g, sx@, sy@, s, (k + 1) as nat) == before.push(cell));
                        assert(before.push(cell).drop_last() =~= before);
                    }
                } else {
                    assert(glyph_cells(g, sx@, sy@, s, (k + 1) as nat) == before);
                }
                bit = bit + 1;
            }
            row = row + 1;
        }
    }

    /// Draws `text` in the 8×8 bitmap font from (`x`, `y`), each glyph pixel
    /// a `scale` × `scale` square, clipped to the surface. `'\n'` and
    /// `'\r'` start a new line at column `x`, `8 * scale` rows down;
    /// characters without a glyph are skipped.
    pub fn draw_bitmap_text(
        &mut self,
        text: &str,
        color: RGBA8,
        scale: u32,
        x: u32,
        y: u32,
        blend: AlphaBlend,
    )
        requires
            old(self).wf(),
        ensures
            final(self).wf(),
            final(self).same_geometry(old(self)),
            final(self).state() == old(self).state(),
            final(self).pixels() == paint_cells(
                old(self).pixels(),
                old(self).stride_spec(),
                old(self).width_spec(),
                old(self).height_spec(),
                text_layout(text@, x as int, y as int, scale as int).2,
                scale as int,
                color,
                blend,
            ),
    {
        let ghost pix = self.pixels();
        let ghost s = scale as int;
        let limit: u64 = 0x1_0000_0000;
        let step: u64 = 8 * scale as u64;
        let mut cx: u64 = x as u64;
        let mut cy: u64 = y as u64;
        for c in it: text.chars()
            invariant
                self.wf(),
                self.same_geometry(old(self)),
                self.state() == old(self).state(),
                pix == old(self).pixels(),
                s == scale,
                step == 8 * s,
                limit == 0x1_0000_0000,
                it.seq() == text@,
                text_layout(text@.take(it.index() as int), x as int, y as int, s).0 >= 0,
                text_layout(text@.take(it.index() as int), x as int, y as int, s).1 >= 0,
                cx == saturated(text_layout(text@.take(it.index() as int), x as int, y as int, s).0),
                cy == saturated(text_layout(text@.take(it.index() as int), x as int, y as int, s).1),
                self.pixels() == paint_cells(
                    pix,
                    self.stride_spec(),
                    self.width_spec(),
                    self.height_spec(),
                    text_layout(text@.take(it.index() as int), x as int, y as int, s).2,
                    s,
                    color,
                    blend,
                ),
        {
            let ghost i = it.index() as int;
            let ghost prefix = text@.take(i);
            let ghost next = text@.take(i + 1);
            let ghost (sx, sy, cells) = text_layout(prefix, x as int, y as int, s);
            proof {
                assert(next.drop_last() =~= prefix);
                assert(next.last() == c);
            }
            if c == '\n' || c == '\r' {
                cx = x as u64;
                cy = if cy + step < limit {
                    cy + step
                } else {
                    limit
                };
            } else {
                match basic_font_glyph(c) {
                    Some(glyph) => {
                        self.draw_glyph(&glyph, cx, cy, Ghost(sx), Ghost(sy), scale, color, blend);
                        proof {
                            lemma_paint_cells_append(
                                pix,
                                self.stride_spec(),
                                self.width_spec(),
                                self.height_spec(),
                                cells,
                                glyph_cells(glyph@, sx, sy, s, 64),
                                s,
                                color,
                                blend,
                            );
                        }
                        cx = if cx + step < limit {
                            cx + step
                        } else {
                            limit
                        };
                    },
                    None => {},
                }
            }
        }
        proof {
            assert(text@.take(text@.len() as int) =~= text@);
        }
    }
}

} // verus!
