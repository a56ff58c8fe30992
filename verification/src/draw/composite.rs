//! The "over" operator on straight-alpha RGBA pixels.
//!
//! A colour has four channels of eight bits: red, green, blue and alpha, the
//! colour channels not multiplied by alpha. To blend, both colours are
//! multiplied by their alphas, the source is laid over the destination, and
//! the result is divided by its alpha again.

use vstd::prelude::*;
use crate::draw::util::{scale, unscale, scale_u8, unscale_u8};

verus! {

/// A colour with straight alpha.
#[derive(Clone, Copy, Debug, PartialEq, Eq, Structural)]
pub struct Rgba {
    pub r: u8,
    pub g: u8,
    pub b: u8,
    pub a: u8,
}

/// The colour that four bytes in the order red, green, blue, alpha stand for.
pub open spec fn rgba(c: [u8; 4]) -> Rgba {
    Rgba { r: c[0], g: c[1], b: c[2], a: c[3] }
}

/// Channel `k` of a colour in the order red, green, blue, alpha.
pub open spec fn channel(p: Rgba, k: int) -> u8 {
    if k == 0 {
        p.r
    } else if k == 1 {
        p.g
    } else if k == 2 {
        p.b
    } else {
        p.a
    }
}

/// The alpha of a source with alpha `sa` laid over a destination with alpha
/// `da`.
pub open spec fn over_alpha(sa: int, da: int) -> int {
    sa + scale(da, 255 - sa)
}

/// One colour channel, multiplied by the resulting alpha, of a source channel
/// `s` with alpha `sa` laid over a destination channel `d` with alpha `da`.
pub open spec fn over_channel(s: int, sa: int, d: int, da: int) -> int {
    scale(s, sa) + scale(scale(d, da), 255 - sa)
}

/// The source laid over the destination. Where the resulting alpha is zero
/// all four channels are zero.
pub open spec fn over_pixel(src: Rgba, dst: Rgba) -> Rgba {
    let a = over_alpha(src.a as int, dst.a as int);
    Rgba {
        r: unscale(over_channel(src.r as int, src.a as int, dst.r as int, dst.a as int), a) as u8,
        g: unscale(over_channel(src.g as int, src.a as int, dst.g as int, dst.a as int), a) as u8,
        b: unscale(over_channel(src.b as int, src.a as int, dst.b as int, dst.a as int), a) as u8,
        a: a as u8,
    }
}

/// The source with its alpha scaled by a coverage.
pub open spec fn covered(src: Rgba, coverage: int) -> Rgba {
    Rgba { r: src.r, g: src.g, b: src.b, a: scale(src.a as int, coverage) as u8 }
}

/// The source, covering the fraction `coverage / 255` of the pixel, laid over
/// the destination.
pub open spec fn composite_pixel(coverage: int, src: Rgba, dst: Rgba) -> Rgba {
    over_pixel(covered(src, coverage), dst)
}

/// A destination that multiplying by its alpha and dividing again gives back.
pub open spec fn keeps(dst: Rgba) -> bool {
    &&& unscale(scale(dst.r as int, dst.a as int), dst.a as int) == dst.r
    &&& unscale(scale(dst.g as int, dst.a as int), dst.a as int) == dst.g
    &&& unscale(scale(dst.b as int, dst.a as int), dst.a as int) == dst.b
}

/// A product of two fractions of 255 is at most either of them.
pub proof fn lemma_scale_bound(a: int, b: int)
    requires
        0 <= a <= 255,
        0 <= b <= 255,
    ensures
        0 <= scale(a, b) <= a,
        0 <= scale(a, b) <= b,
        scale(a, 255) == a,
        scale(a, 0) == 0,
        scale(0, b) == 0,
        scale(255, b) == b,
{
    assert(0 <= a * b <= 255 * a && a * b <= 255 * b && a * 0 == 0 && 0 * b == 0) by (nonlinear_arith)
        requires
            0 <= a <= 255,
            0 <= b <= 255,
    ;
}

/// One channel of `over`.
fn over_u8(s: u8, sa: u8, d: u8, da: u8, a: u8) -> (r: u8)
    requires
        a as int == over_alpha(sa as int, da as int),
    ensures
        r as int == unscale(over_channel(s as int, sa as int, d as int, da as int), a as int),
{
    proof {
        lemma_scale_bound(s as int, sa as int);
        lemma_scale_bound(d as int, da as int);
        lemma_scale_bound(scale(d as int, da as int), 255 - sa);
    }
    let top: u8 = scale_u8(s, sa);
    let bottom: u8 = scale_u8(scale_u8(d, da), 255 - sa);
    unscale_u8(top + bottom, a)
}

/// Lays the source colour over the destination colour: both are multiplied by
/// their alphas, each channel of the result is the source's plus the part of
/// the destination's that the source lets through, and the result is divided
/// by its alpha.
pub fn over(src: [u8; 4], dst: [u8; 4]) -> (out: [u8; 4])
    ensures
        rgba(out) == over_pixel(rgba(src), rgba(dst)),
{
    proof {
        lemma_scale_bound(dst[3] as int, 255 - src[3]);
    }
    let a: u8 = src[3] + scale_u8(dst[3], 255 - src[3]);
    if a == 0 {
        [0, 0, 0, 0]
    } else {
        [
            over_u8(src[0], src[3], dst[0], dst[3], a),
            over_u8(src[1], src[3], dst[1], dst[3], a),
            over_u8(src[2], src[3], dst[2], dst[3], a),
            a,
        ]
    }
}

/// Lays the source colour, covering the fraction `coverage / 255` of the
/// pixel, over the destination colour: the coverage scales the source's
/// alpha.
pub fn composite(coverage: u8, src: [u8; 4], dst: [u8; 4]) -> (out: [u8; 4])
    ensures
        rgba(out) == composite_pixel(coverage as int, rgba(src), rgba(dst)),
{
    over([src[0], src[1], src[2], scale_u8(src[3], coverage)], dst)
}

/// Laying a fully transparent source over a destination multiplies the
/// destination by its alpha and divides it again, and does nothing else.
pub proof fn lemma_transparent_source(coverage: int, src: Rgba, dst: Rgba)
    requires
        src.a == 0,
        0 <= coverage <= 255,
    ensures
        composite_pixel(coverage, src, dst) == (Rgba {
            r: unscale(scale(dst.r as int, dst.a as int), dst.a as int) as u8,
            g: unscale(scale(dst.g as int, dst.a as int), dst.a as int) as u8,
            b: unscale(scale(dst.b as int, dst.a as int), dst.a as int) as u8,
            a: dst.a,
        }),
{
    lemma_scale_bound(0, coverage);
    lemma_scale_bound(dst.a as int, 255);
    lemma_scale_bound(src.r as int, 0);
    lemma_scale_bound(src.g as int, 0);
    lemma_scale_bound(src.b as int, 0);
    lemma_scale_bound(dst.r as int, dst.a as int);
    lemma_scale_bound(dst.g as int, dst.a as int);
    lemma_scale_bound(dst.b as int, dst.a as int);
    lemma_scale_bound(scale(dst.r as int, dst.a as int), 255);
    lemma_scale_bound(scale(dst.g as int, dst.a as int), 255);
    lemma_scale_bound(scale(dst.b as int, dst.a as int), 255);
}

/// Laying a fully transparent source over a destination leaves the
/// destination as it is, where the destination is one that multiplying by its
/// alpha and dividing again gives back.
pub proof fn lemma_transparent_source_keeps(coverage: int, src: Rgba, dst: Rgba)
    requires
        src.a == 0,
        0 <= coverage <= 255,
        keeps(dst),
    ensures
        composite_pixel(coverage, src, dst) == dst,
{
    lemma_transparent_source(coverage, src, dst);
}

/// An opaque destination, and one whose four channels are zero, are kept.
pub proof fn lemma_keeps_opaque_and_clear(dst: Rgba)
    requires
        dst.a == 255 || (dst.r == 0 && dst.g == 0 && dst.b == 0),
    ensures
        keeps(dst),
{
    lemma_scale_bound(dst.r as int, dst.a as int);
    lemma_scale_bound(dst.g as int, dst.a as int);
    lemma_scale_bound(dst.b as int, dst.a as int);
}

/// Laying an opaque source with full coverage over any destination gives
/// exactly the source.
pub proof fn lemma_opaque_source(src: Rgba, dst: Rgba)
    requires
        src.a == 255,
    ensures
        composite_pixel(255, src, dst) == src,
{
    lemma_scale_bound(255, 255);
    lemma_scale_bound(dst.a as int, 0);
    lemma_scale_bound(src.r as int, 255);
    lemma_scale_bound(src.g as int, 255);
    lemma_scale_bound(src.b as int, 255);
    lemma_scale_bound(dst.r as int, dst.a as int);
    lemma_scale_bound(dst.g as int, dst.a as int);
    lemma_scale_bound(dst.b as int, dst.a as int);
    lemma_scale_bound(scale(dst.r as int, dst.a as int), 0);
    lemma_scale_bound(scale(dst.g as int, dst.a as int), 0);
    lemma_scale_bound(scale(dst.b as int, dst.a as int), 0);
}

} // verus!
