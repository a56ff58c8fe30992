//! Points, lines and curves in fixed-point pixel space.
//!
//! A coordinate is a signed integer that counts units of 1/65536 of a pixel:
//! the pixel in column `x` covers the coordinates from `x * ONE` up to, but
//! not including, `(x + 1) * ONE`. The origin is the top-left corner of the
//! canvas and `y` grows downwards.

use vstd::prelude::*;

verus! {

/// The number of coordinate units in one pixel.
pub const ONE: i64 = 65536;

/// A position in pixel space.
#[derive(Clone, Copy, Debug, PartialEq, Eq, Structural)]
pub struct Point {
    pub x: i64,
    pub y: i64,
}

/// A directed straight segment from `p0` to `p1`.
#[derive(Clone, Copy, Debug, PartialEq, Eq, Structural)]
pub struct Line {
    pub p0: Point,
    pub p1: Point,
}

/// A quadratic Bezier segment from `start` to `end`, bent towards `control`.
#[derive(Clone, Copy, Debug, PartialEq, Eq, Structural)]
pub struct Curve {
    pub start: Point,
    pub control: Point,
    pub end: Point,
}

/// The largest magnitude of a coordinate that the rasterizer takes: 2^47 units,
/// which is 2^31 pixels.
pub const LIMIT: i64 = 0x8000_0000_0000;

impl Point {
    /// Both coordinates are within the limit.
    pub open spec fn wf(self) -> bool {
        -LIMIT <= self.x <= LIMIT && -LIMIT <= self.y <= LIMIT
    }
}

impl Line {
    /// Both end points are within the limit.
    pub open spec fn wf(self) -> bool {
        self.p0.wf() && self.p1.wf()
    }
}

impl Curve {
    /// All three points are within the limit.
    pub open spec fn wf(self) -> bool {
        self.start.wf() && self.control.wf() && self.end.wf()
    }
}

/// Every line of the list is within the limit.
pub open spec fn lines_wf(lines: Seq<Line>) -> bool {
    forall|i: int| 0 <= i < lines.len() ==> (#[trigger] lines[i]).wf()
}

/// Every curve of the list is within the limit.
pub open spec fn curves_wf(curves: Seq<Curve>) -> bool {
    forall|i: int| 0 <= i < curves.len() ==> (#[trigger] curves[i]).wf()
}

/// Makes a point from its two coordinates.
pub fn point(x: i64, y: i64) -> (p: Point)
    ensures
        p == (Point { x, y }),
{
    Point { x, y }
}

/// The product of a path coordinate and a scale factor, both with sixteen
/// fractional bits, rounded down to a coordinate with sixteen fractional bits
/// and held within the limit of coordinates.
pub open spec fn scaled(v: int, s: int) -> int {
    let p = (v * s) / 65536;
    if p < -LIMIT {
        -LIMIT as int
    } else if p > LIMIT {
        LIMIT as int
    } else {
        p
    }
}

/// The quotient `a / b` rounded down, for a positive divisor.
pub fn floor_div(a: i128, b: i128) -> (q: i128)
    requires
        b > 0,
    ensures
        q as int == (a as int) / (b as int),
{
    if a >= 0 {
        a / b
    } else {
        let p: i128 = -(a + 1);
        let q: i128 = -(p / b) - 1;
        assert(q as int == (a as int) / (b as int)) by (nonlinear_arith)
            requires
                b > 0,
                a < 0,
                p == -(a + 1),
                q == -(p / b) - 1,
        ;
        q
    }
}

/// Multiplies a path coordinate by a scale factor, rounds down, and holds the
/// result within the limit of coordinates.
pub fn scale_coord(v: i64, s: i64) -> (r: i64)
    ensures
        r as int == scaled(v as int, s as int),
        -LIMIT <= r <= LIMIT,
{
    assert(-0x4000_0000_0000_0000_0000_0000_0000_0000 <= v as int * s as int
        <= 0x4000_0000_0000_0000_0000_0000_0000_0000) by (nonlinear_arith)
        requires
            -0x8000_0000_0000_0000 <= v as int <= 0x7fff_ffff_ffff_ffff,
            -0x8000_0000_0000_0000 <= s as int <= 0x7fff_ffff_ffff_ffff,
    ;
    let p: i128 = floor_div((v as i128) * (s as i128), 65536);
    if p < -(LIMIT as i128) {
        -LIMIT
    } else if p > LIMIT as i128 {
        LIMIT
    } else {
        p as i64
    }
}

} // verus!
