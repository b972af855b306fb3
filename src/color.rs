//! Fixed-point RGBA colours: packing into the two channel orders and the
//! integer alpha-blend-over operator.

use vstd::prelude::*;

verus! {

/// A colour with four 8-bit channels.
#[derive(Clone, Copy, Debug, PartialEq, Eq, Structural)]
pub struct RGBA8 {
    pub r: u8,
    pub g: u8,
    pub b: u8,
    pub a: u8,
}

/// The `k`-th byte (least significant first) of a packed 32-bit value.
pub open spec fn byte_at(raw: u32, k: int) -> u8 {
    ((raw as int / pow256(k)) % 256) as u8
}

/// `256^k` for `k` in `0..4`.
pub open spec fn pow256(k: int) -> int {
    if k <= 0 {
        1
    } else if k == 1 {
        0x100
    } else if k == 2 {
        0x1_0000
    } else {
        0x100_0000
    }
}

/// Four bytes packed least significant first.
pub open spec fn pack(c0: u8, c1: u8, c2: u8, c3: u8) -> u32 {
    (c0 as int + c1 as int * 0x100 + c2 as int * 0x1_0000 + c3 as int * 0x100_0000) as u32
}

/// One blended channel: the foreground weighted by `alpha`, the background by
/// `255 - alpha`, divided by 255 and truncated.
pub open spec fn blend_channel(fg: u8, bg: u8, alpha: u8) -> u8 {
    ((fg as int * alpha as int + bg as int * (255 - alpha as int)) / 255) as u8
}

impl RGBA8 {
    /// The colour `self` blended over the background `bg`; always opaque.
    pub open spec fn blend_spec(self, bg: RGBA8) -> RGBA8 {
        RGBA8 {
            r: blend_channel(self.r, bg.r, self.a),
            g: blend_channel(self.g, bg.g, self.a),
            b: blend_channel(self.b, bg.b, self.a),
            a: 255,
        }
    }

    /// The colour whose channels, least significant byte first, are `r, g, b, a`.
    pub open spec fn abgr_spec(raw: u32) -> RGBA8 {
        RGBA8 { r: byte_at(raw, 0), g: byte_at(raw, 1), b: byte_at(raw, 2), a: byte_at(raw, 3) }
    }

    /// The colour whose channels, least significant byte first, are `a, b, g, r`.
    pub open spec fn rgba_spec(raw: u32) -> RGBA8 {
        RGBA8 { r: byte_at(raw, 3), g: byte_at(raw, 2), b: byte_at(raw, 1), a: byte_at(raw, 0) }
    }

    pub fn new_rgba(r: u8, g: u8, b: u8, a: u8) -> (c: Self)
        ensures
            c == (RGBA8 { r, g, b, a }),
    {
        Self { r, g, b, a }
    }

    pub fn new_rgb(r: u8, g: u8, b: u8) -> (c: Self)
        ensures
            c == (RGBA8 { r, g, b, a: 255 }),
    {
        Self { r, g, b, a: 0xFF }
    }

    fn decode(raw: u32) -> (t: (u8, u8, u8, u8))
        ensures
            t == (byte_at(raw, 0), byte_at(raw, 1), byte_at(raw, 2), byte_at(raw, 3)),
    {
        let a = (raw & 0xFF) as u8;
        let b = ((raw >> 8) & 0xFF) as u8;
        let c = ((raw >> 16) & 0xFF) as u8;
        let d = ((raw >> 24) & 0xFF) as u8;
        assert(raw & 0xFF == raw % 0x100) by (bit_vector);
        assert((raw >> 8) & 0xFF == (raw / 0x100) % 0x100) by (bit_vector);
        assert((raw >> 16) & 0xFF == (raw / 0x1_0000) % 0x100) by (bit_vector);
        assert((raw >> 24) & 0xFF == (raw / 0x100_0000) % 0x100) by (bit_vector);
        (a, b, c, d)
    }

    /// Reads a colour packed with `a` in the low byte and `r` in the high byte.
    pub fn from_rgba(raw: u32) -> (c: Self)
        ensures
            c == Self::rgba_spec(raw),
    {
        let (a, b, g, r) = Self::decode(raw);
        Self::new_rgba(r, g, b, a)
    }

    /// Reads a colour packed with `r` in the low byte and `a` in the high byte.
    pub fn from_abgr(raw: u32) -> (c: Self)
        ensures
            c == Self::abgr_spec(raw),
    {
        let (r, g, b, a) = Self::decode(raw);
        Self::new_rgba(r, g, b, a)
    }

    fn encode(c0: u8, c1: u8, c2: u8, c3: u8) -> (raw: u32)
        ensures
            raw == pack(c0, c1, c2, c3),
    {
        let (w0, w1, w2, w3) = (c0 as u32, c1 as u32, c2 as u32, c3 as u32);
        assert((w0 & 0xFF) | ((w1 & 0xFF) << 8) | ((w2 & 0xFF) << 16) | ((w3 & 0xFF) << 24)
            == w0 + w1 * 0x100 + w2 * 0x1_0000 + w3 * 0x100_0000) by (bit_vector)
            requires
                w0 < 0x100,
                w1 < 0x100,
                w2 < 0x100,
                w3 < 0x100,
        ;
        (w0 & 0xFF) | ((w1 & 0xFF) << 8) | ((w2 & 0xFF) << 16) | ((w3 & 0xFF) << 24)
    }

    /// Packs the colour with `a` in the low byte and `r` in the high byte.
    pub fn encode_rgba(&self) -> (raw: u32)
        ensures
            raw == pack(self.a, self.b, self.g, self.r),
    {
        Self::encode(self.a, self.b, self.g, self.r)
    }

    /// Packs the colour with `r` in the low byte and `a` in the high byte: the
    /// order in which the display hardware reads a pixel.
    pub fn encode_abgr(&self) -> (raw: u32)
        ensures
            raw == pack(self.r, self.g, self.b, self.a),
    {
        Self::encode(self.r, self.g, self.b, self.a)
    }

    fn blend_color_impl(src: u32, dst: u32, alpha: u32) -> (v: u8)
        requires
            src < 256,
            dst < 256,
            alpha < 256,
        ensures
            v == blend_channel(dst as u8, src as u8, alpha as u8),
    {
        let one_minus_a = 0xFF - alpha;
        assert(dst * alpha <= 255 * 255) by (nonlinear_arith)
            requires
                dst < 256,
                alpha < 256,
        ;
        assert(src * one_minus_a <= 255 * (255 - alpha)) by (nonlinear_arith)
            requires
                src < 256,
                one_minus_a == 255 - alpha,
        ;
        assert(dst * alpha + src * one_minus_a <= 255 * 255) by (nonlinear_arith)
            requires
                dst < 256,
                src < 256,
                alpha < 256,
                one_minus_a == 255 - alpha,
        ;
        ((dst * alpha + src * one_minus_a) / 0xFF) as u8
    }

    /// Blends `self` (the foreground, weighted by its own alpha) over `other`
    /// (the background). The result is opaque.
    pub fn blend_with(&self, other: Self) -> (c: Self)
        ensures
            c == self.blend_spec(other),
    {
        let r = Self::blend_color_impl(other.r as u32, self.r as u32, self.a as u32);
        let g = Self::blend_color_impl(other.g as u32, self.g as u32, self.a as u32);
        let b = Self::blend_color_impl(other.b as u32, self.b as u32, self.a as u32);
        Self::new_rgb(r, g, b)
    }
}

/// Packing a colour in hardware order and reading it back gives the colour.
pub proof fn lemma_abgr_round_trip(c: RGBA8)
    ensures
        RGBA8::abgr_spec(pack(c.r, c.g, c.b, c.a)) == c,
{
    lemma_pack_bytes(c.r, c.g, c.b, c.a);
}

/// Packing a colour in `RGBA` order and reading it back gives the colour.
pub proof fn lemma_rgba_round_trip(c: RGBA8)
    ensures
        RGBA8::rgba_spec(pack(c.a, c.b, c.g, c.r)) == c,
{
    lemma_pack_bytes(c.a, c.b, c.g, c.r);
}

/// Each byte of a packed value is the byte that was packed there.
pub proof fn lemma_pack_bytes(c0: u8, c1: u8, c2: u8, c3: u8)
    ensures
        byte_at(pack(c0, c1, c2, c3), 0) == c0,
        byte_at(pack(c0, c1, c2, c3), 1) == c1,
        byte_at(pack(c0, c1, c2, c3), 2) == c2,
        byte_at(pack(c0, c1, c2, c3), 3) == c3,
{
    let v: int = c0 as int + c1 as int * 0x100 + c2 as int * 0x1_0000 + c3 as int * 0x100_0000;
    assert(0 <= v < 0x1_0000_0000);
    assert(v % 0x100 == c0 as int);
    assert((v / 0x100) % 0x100 == c1 as int);
    assert((v / 0x1_0000) % 0x100 == c2 as int);
    assert(v / 0x100_0000 < 0x100);
    assert((v / 0x100_0000) % 0x100 == c3 as int);
}

/// An opaque colour blended over itself is unchanged.
pub proof fn lemma_blend_opaque_over_itself(c: RGBA8)
    requires
        c.a == 255,
    ensures
        c.blend_spec(c) == c,
{
    assert(c.r as int * 255 / 255 == c.r as int);
    assert(c.g as int * 255 / 255 == c.g as int);
    assert(c.b as int * 255 / 255 == c.b as int);
}

/// A fully transparent colour blended over a background leaves the
/// background's channels; the result is opaque, so it is the background
/// itself when the background is opaque.
pub proof fn lemma_blend_transparent(fg: RGBA8, bg: RGBA8)
    requires
        fg.a == 0,
    ensures
        fg.blend_spec(bg).r == bg.r,
        fg.blend_spec(bg).g == bg.g,
        fg.blend_spec(bg).b == bg.b,
        fg.blend_spec(bg).a == 255,
        bg.a == 255 ==> fg.blend_spec(bg) == bg,
{
    assert(bg.r as int * 255 / 255 == bg.r as int);
    assert(bg.g as int * 255 / 255 == bg.g as int);
    assert(bg.b as int * 255 / 255 == bg.b as int);
}

/// A blended channel never exceeds 255, so it needs no clamping.
pub proof fn lemma_blend_channel_bounded(fg: u8, bg: u8, alpha: u8)
    ensures
        (fg as int * alpha as int + bg as int * (255 - alpha as int)) / 255 <= 255,
{
    assert(fg as int * alpha as int + bg as int * (255 - alpha as int) <= 255 * 255)
        by (nonlinear_arith)
        requires
            fg <= 255,
            bg <= 255,
            alpha <= 255,
    ;
}

} // verus!
