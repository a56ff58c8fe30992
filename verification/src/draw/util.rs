//! Fixed-point scaling of 8-bit channel values.
//!
//! A channel value or an alpha value `v` in `0..=255` stands for the fraction
//! `v / 255`. Multiplying and dividing by such a fraction is done here with
//! shifts and one integer division, without floating point.

use vstd::prelude::*;

verus! {

/// The product of two fractions of 255, rounded down: `a * b / 255`.
pub open spec fn scale(a: int, b: int) -> int {
    (a * b) / 255
}

/// The quotient `a / b` of two fractions of 255 as a fraction of 256, rounded
/// down and limited to 255; zero where `b` is zero.
pub open spec fn unscale(a: int, b: int) -> int {
    if b <= 0 {
        0
    } else if (a * 256) / b > 255 {
        255
    } else {
        (a * 256) / b
    }
}

/// Scales one channel value by another: the result is `a * b / 255` rounded
/// down, computed with two shifts in place of the division.
pub fn scale_u8(a: u8, b: u8) -> (r: u8)
    ensures
        r as int == scale(a as int, b as int),
{
    assert(a as u32 * b as u32 <= 65025) by (nonlinear_arith);
    let c: u32 = a as u32 * b as u32;
    assert(c >> 8 <= 255 && ((c + 1) as u32 + (c >> 8)) as u32 >> 8 == c / 255 && c / 255 <= 255)
        by (bit_vector)
        requires
            c <= 65025,
    ;
    let d: u32 = ((c + 1) + (c >> 8)) >> 8;
    d as u8
}

/// Divides one channel value by another: the result is `a * 256 / b` rounded
/// down and limited to 255, and zero where `b` is zero.
pub fn unscale_u8(a: u8, b: u8) -> (r: u8)
    ensures
        r as int == unscale(a as int, b as int),
{
    if b > 0 {
        let aa: u32 = (a as u32) << 8;
        assert(aa == a as u32 * 256) by (bit_vector)
            requires
                aa == (a as u32) << 8,
                a <= 255,
        ;
        let bb: u32 = b as u32;
        let q: u32 = aa / bb;
        if q > 255 {
            255
        } else {
            q as u8
        }
    } else {
        0
    }
}

/// The product of two fractions of 255 rounded to the nearest, halves up.
pub open spec fn rounded_product(a: int, b: int) -> int {
    (2 * a * b + 255) / 510
}

/// `scale` is the rounded product or one less.
pub proof fn lemma_scale_near_rounded(a: int, b: int)
    requires
        0 <= a <= 255,
        0 <= b <= 255,
    ensures
        rounded_product(a, b) - 1 <= scale(a, b) <= rounded_product(a, b),
{
    let p = a * b;
    assert(0 <= p) by (nonlinear_arith)
        requires
            p == a * b,
            0 <= a,
            0 <= b,
    ;
    assert(2 * a * b == 2 * p) by (nonlinear_arith)
        requires
            p == a * b,
    ;
}

/// The quotient of two fractions of 255 as a fraction of 255, rounded to the
/// nearest, halves up, and limited to 255.
pub open spec fn rounded_quotient(a: int, b: int) -> int {
    if (510 * a + b) / (2 * b) > 255 {
        255
    } else {
        (510 * a + b) / (2 * b)
    }
}

/// `unscale` is within one of the rounded quotient.
pub proof fn lemma_unscale_near_rounded(a: int, b: int)
    requires
        0 <= a <= 255,
        1 <= b <= 255,
    ensures
        rounded_quotient(a, b) - 1 <= unscale(a, b) <= rounded_quotient(a, b) + 1,
{
    let t = (a * 256) / b;
    let r = (510 * a + b) / (2 * b);
    assert(t * b <= a * 256 < (t + 1) * b) by (nonlinear_arith)
        requires
            t == (a * 256) / b,
            b > 0,
    ;
    assert(r * (2 * b) <= 510 * a + b < (r + 1) * (2 * b)) by (nonlinear_arith)
        requires
            r == (510 * a + b) / (2 * b),
            b > 0,
    ;
    if a >= b {
        assert(t >= 256) by (nonlinear_arith)
            requires
                a * 256 < (t + 1) * b,
                a >= b,
                b > 0,
        ;
        assert(r >= 255) by (nonlinear_arith)
            requires
                510 * a + b < (r + 1) * (2 * b),
                a >= b,
                b > 0,
        ;
    } else {
        // 2 * b * t <= 512 * a < 510 * a + b + 2 * b <= 2 * b * (r + 2)
        assert(t <= r + 1) by (nonlinear_arith)
            requires
                t * b <= a * 256,
                510 * a + b < (r + 1) * (2 * b),
                a < b,
                b > 0,
        ;
        // 2 * b * r <= 510 * a + b <= 512 * a + b < 2 * b * (t + 1) + b
        assert(r <= t + 1) by (nonlinear_arith)
            requires
                a * 256 < (t + 1) * b,
                r * (2 * b) <= 510 * a + b,
                0 <= a,
                b > 0,
        ;
        assert(t <= 255) by (nonlinear_arith)
            requires
                t * b <= a * 256,
                a < b,
                b > 0,
        ;
    }
}

/// Scaling a value by `b` and dividing by `b` again never gives more than
/// the value, and gives less by at most one exactly where the remainder that
/// scaling drops is small against `b`.
pub proof fn lemma_round_trip(a: int, b: int)
    requires
        1 <= a <= 255,
        1 <= b <= 255,
    ensures
        unscale(scale(a, b), b) <= a,
        a - 1 <= unscale(scale(a, b), b) <==> 256 * ((a * b) % 255) <= (a + 255) * b,
{
    let p = a * b;
    let q = p / 255;
    let r = p % 255;
    let t = (q * 256) / b;
    assert(1 <= p <= 255 * a && p <= 255 * b) by (nonlinear_arith)
        requires
            p == a * b,
            1 <= a <= 255,
            1 <= b <= 255,
    ;
    assert((a + 255) * b == p + 255 * b && (a + 1) * b == p + b && (a - 1) * b == p - b)
        by (nonlinear_arith)
        requires
            p == a * b,
    ;
    assert(t * b <= q * 256 < (t + 1) * b) by (nonlinear_arith)
        requires
            t == (q * 256) / b,
            b > 0,
    ;
    // 255 * t * b <= 255 * 256 * q <= 256 * a * b.
    assert(255 * t <= 256 * a) by (nonlinear_arith)
        requires
            t * b <= q * 256,
            255 * q <= p,
            p == a * b,
            b >= 1,
    ;
    if 256 * r <= p + 255 * b {
        // 256 * q >= (a - 1) * b, so t >= a - 1.
        assert(t >= a - 1) by (nonlinear_arith)
            requires
                q * 256 < (t + 1) * b,
                256 * (p - 255 * q) <= p + 255 * b,
                (a - 1) * b == p - b,
                b >= 1,
        ;
    } else {
        assert(t < a - 1) by (nonlinear_arith)
            requires
                t * b <= q * 256,
                256 * (p - 255 * q) > p + 255 * b,
                (a - 1) * b == p - b,
                b >= 1,
        ;
    }
}

/// Scaling a value by `b` and dividing by `b` again gives the value back to
/// within one, where the remainder that scaling drops is small against `b`.
pub proof fn lemma_round_trip_within_one(a: int, b: int)
    requires
        1 <= a <= 255,
        1 <= b <= 255,
        256 * ((a * b) % 255) <= (a + 255) * b,
    ensures
        a - 1 <= unscale(scale(a, b), b) <= a + 1,
{
    lemma_round_trip(a, b);
}

/// Scaling by full alpha and dividing by it again gives every value back.
pub proof fn lemma_round_trip_opaque(a: int)
    requires
        0 <= a <= 255,
    ensures
        unscale(scale(a, 255), 255) == a,
{
}

} // verus!
