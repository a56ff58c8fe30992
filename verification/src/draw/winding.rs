//! What the winding rule gives for polygons, rectangles and rings.
//!
//! The outline of a polygon winds around every point that all its lines have
//! on their positive side, and the outline of a convex polygon winds around no
//! point that one of its lines has on its negative side: the pixels within a
//! convex polygon are covered in full and those outside it not at all. Two
//! outlines wind as often as both together, and an outline taken the other
//! way round winds the other way: so a polygon within a polygon, the two
//! taken opposite ways round, leaves a hole. All of this is stated down to
//! the bytes of a buffer that the path around a convex polygon is drawn on,
//! with its corners taken either way round, and pixel by pixel for rectangles
//! whose sides lie between pixels.

use vstd::prelude::*;
use crate::Size;
use crate::draw::{Paint, fits, filled, row_of, column_of, pixel_at};
use crate::draw::composite::{rgba, lemma_opaque_source};
use crate::draw::curves::{edges_of, flatten_all};
use crate::draw::geometry::{Point, Line, Curve};
use crate::draw::path::{
    PathError, Outline, Pen, segments, trace, step, rectangle_path, polygon_path,
};
use crate::draw::rasterizer::{
    sample, side, direction, crossing, winding, inside, row_hits, hits, coverage,
    lemma_pixel_full, lemma_pixel_empty,
};

verus! {

/// The outline of the rectangle from `(x0, y0)` to `(x1, y1)`: along the top
/// to the right, down, back along the bottom, and up.
pub open spec fn rectangle(x0: i64, y0: i64, x1: i64, y1: i64) -> Seq<Line> {
    seq![
        Line { p0: Point { x: x0, y: y0 }, p1: Point { x: x1, y: y0 } },
        Line { p0: Point { x: x1, y: y0 }, p1: Point { x: x1, y: y1 } },
        Line { p0: Point { x: x1, y: y1 }, p1: Point { x: x0, y: y1 } },
        Line { p0: Point { x: x0, y: y1 }, p1: Point { x: x0, y: y0 } },
    ]
}

/// The same lines, each from its end to its start.
pub open spec fn reversed(edges: Seq<Line>) -> Seq<Line> {
    Seq::new(edges.len(), |i: int| Line { p0: edges[i].p1, p1: edges[i].p0 })
}

/// Whether the point `(x, y)` is within the rectangle: its left and upper
/// sides belong to it, its right and lower sides do not.
pub open spec fn within(x0: int, y0: int, x1: int, y1: int, x: int, y: int) -> bool {
    x0 <= x < x1 && y0 <= y < y1
}

/// Two lists of edges wind around a point as often as both together.
pub proof fn lemma_winding_concat(a: Seq<Line>, b: Seq<Line>, x: int, y: int)
    ensures
        winding(a + b, x, y) == winding(a, x, y) + winding(b, x, y),
    decreases b.len(),
{
    if b.len() == 0 {
        assert(a + b == a);
    } else {
        assert((a + b).drop_last() == a + b.drop_last());
        assert((a + b).last() == b.last());
        lemma_winding_concat(a, b.drop_last(), x, y);
    }
}

/// A line taken the other way crosses the other way.
pub proof fn lemma_crossing_reversed(l: Line, x: int, y: int)
    ensures
        crossing(Line { p0: l.p1, p1: l.p0 }, x, y) == -crossing(l, x, y),
{
    let r = Line { p0: l.p1, p1: l.p0 };
    assert(direction(r, y) == -direction(l, y));
    assert(side(r, x, y) == -side(l, x, y)) by (nonlinear_arith)
        requires
            r.p0 == l.p1,
            r.p1 == l.p0,
            side(r, x, y) == (r.p1.x - r.p0.x) * (y - r.p0.y) - (x - r.p0.x) * (r.p1.y - r.p0.y),
            side(l, x, y) == (l.p1.x - l.p0.x) * (y - l.p0.y) - (x - l.p0.x) * (l.p1.y - l.p0.y),
    ;
}

/// An outline taken the other way round winds the other way.
pub proof fn lemma_winding_reversed(edges: Seq<Line>, x: int, y: int)
    ensures
        winding(reversed(edges), x, y) == -winding(edges, x, y),
    decreases edges.len(),
{
    if edges.len() > 0 {
        assert(reversed(edges).drop_last() == reversed(edges.drop_last()));
        lemma_winding_reversed(edges.drop_last(), x, y);
        lemma_crossing_reversed(edges.last(), x, y);
    }
}

/// Whether a point is inside does not depend on which way round the outline
/// is taken, and so neither does the coverage of a pixel.
pub proof fn lemma_coverage_reversed(edges: Seq<Line>, px: int, py: int)
    ensures
        coverage(reversed(edges), px, py) == coverage(edges, px, py),
{
    lemma_hits_reversed(edges, px, py, 16);
}

proof fn lemma_row_hits_reversed(edges: Seq<Line>, px: int, y: int, n: int)
    ensures
        row_hits(reversed(edges), px, y, n) == row_hits(edges, px, y, n),
    decreases n,
{
    if n > 0 {
        lemma_row_hits_reversed(edges, px, y, n - 1);
        lemma_winding_reversed(edges, sample(px, n - 1), y);
    }
}

proof fn lemma_hits_reversed(edges: Seq<Line>, px: int, py: int, m: int)
    ensures
        hits(reversed(edges), px, py, m) == hits(edges, px, py, m),
    decreases m,
{
    if m > 0 {
        lemma_hits_reversed(edges, px, py, m - 1);
        lemma_row_hits_reversed(edges, px, sample(py, m - 1), 16);
    }
}

/// The outline of a rectangle winds once around every point within it and
/// not at all around any other point.
pub proof fn lemma_rectangle_winding(x0: i64, y0: i64, x1: i64, y1: i64, x: int, y: int)
    requires
        x0 < x1,
        y0 < y1,
    ensures
        winding(rectangle(x0, y0, x1, y1), x, y) == if within(
            x0 as int,
            y0 as int,
            x1 as int,
            y1 as int,
            x,
            y,
        ) {
            1int
        } else {
            0int
        },
{
    let r = rectangle(x0, y0, x1, y1);
    let r3 = r.drop_last();
    let r2 = r3.drop_last();
    let r1 = r2.drop_last();
    assert(r1.drop_last().len() == 0);
    assert(winding(r1.drop_last(), x, y) == 0);
    assert(winding(r1, x, y) == crossing(r[0], x, y));
    assert(winding(r2, x, y) == winding(r1, x, y) + crossing(r[1], x, y));
    assert(winding(r3, x, y) == winding(r2, x, y) + crossing(r[2], x, y));
    assert(winding(r, x, y) == winding(r3, x, y) + crossing(r[3], x, y));
    assert(crossing(r[0], x, y) == 0);
    assert(crossing(r[2], x, y) == 0);
    let h = y1 - y0;
    assert(side(r[1], x, y) == (x1 - x) * h) by (nonlinear_arith)
        requires
            side(r[1], x, y) == (x1 - x1) * (y - y0) - (x - x1) * (y1 - y0),
            h == y1 - y0,
    ;
    assert(side(r[3], x, y) == (x - x0) * h) by (nonlinear_arith)
        requires
            side(r[3], x, y) == (x0 - x0) * (y - y1) - (x - x0) * (y0 - y1),
            h == y1 - y0,
    ;
    assert(((x1 - x) * h > 0) == (x < x1) && ((x - x0) * h < 0) == (x < x0)) by (nonlinear_arith)
        requires
            h > 0,
    ;
}

/// A rectangle whose sides lie between pixels covers the pixels within it in
/// full and no other pixel at all. The corners are given in whole pixels.
pub proof fn lemma_rectangle_coverage(x0: int, y0: int, x1: int, y1: int, px: int, py: int)
    requires
        -0x8000_0000 <= x0 < x1 <= 0x8000_0000,
        -0x8000_0000 <= y0 < y1 <= 0x8000_0000,
    ensures
        coverage(
            rectangle((x0 * 65536) as i64, (y0 * 65536) as i64, (x1 * 65536) as i64, (y1 * 65536) as i64),
            px,
            py,
        ) == if within(x0, y0, x1, y1, px, py) {
            255int
        } else {
            0int
        },
{
    let left = (x0 * 65536) as i64;
    let top = (y0 * 65536) as i64;
    let right = (x1 * 65536) as i64;
    let bottom = (y1 * 65536) as i64;
    let r = rectangle(left, top, right, bottom);
    if within(x0, y0, x1, y1, px, py) {
        assert forall|i: int, j: int| 0 <= i < 16 && 0 <= j < 16 implies inside(
            r,
            #[trigger] sample(px, i),
            #[trigger] sample(py, j),
        ) by {
            lemma_rectangle_winding(left, top, right, bottom, sample(px, i), sample(py, j));
        }
        lemma_pixel_full(r, px, py);
    } else {
        assert forall|i: int, j: int| 0 <= i < 16 && 0 <= j < 16 implies !inside(
            r,
            #[trigger] sample(px, i),
            #[trigger] sample(py, j),
        ) by {
            lemma_rectangle_winding(left, top, right, bottom, sample(px, i), sample(py, j));
        }
        lemma_pixel_empty(r, px, py);
    }
}

/// A rectangle within a rectangle, the inner one taken the other way round,
/// bounds a ring: the pixels within the outer and not within the inner
/// rectangle are covered in full, the pixels of the hole and those outside
/// not at all. The corners are given in whole pixels.
pub proof fn lemma_ring_coverage(
    x0: int,
    y0: int,
    x1: int,
    y1: int,
    u0: int,
    v0: int,
    u1: int,
    v1: int,
    px: int,
    py: int,
)
    requires
        -0x8000_0000 <= x0 <= u0 < u1 <= x1 <= 0x8000_0000,
        -0x8000_0000 <= y0 <= v0 < v1 <= y1 <= 0x8000_0000,
    ensures
        coverage(
            rectangle(
                (x0 * 65536) as i64,
                (y0 * 65536) as i64,
                (x1 * 65536) as i64,
                (y1 * 65536) as i64,
            ) + reversed(
                rectangle(
                    (u0 * 65536) as i64,
                    (v0 * 65536) as i64,
                    (u1 * 65536) as i64,
                    (v1 * 65536) as i64,
                ),
            ),
            px,
            py,
        ) == if within(x0, y0, x1, y1, px, py) && !within(u0, v0, u1, v1, px, py) {
            255int
        } else {
            0int
        },
{
    let outer = rectangle(
        (x0 * 65536) as i64,
        (y0 * 65536) as i64,
        (x1 * 65536) as i64,
        (y1 * 65536) as i64,
    );
    let inner = rectangle(
        (u0 * 65536) as i64,
        (v0 * 65536) as i64,
        (u1 * 65536) as i64,
        (v1 * 65536) as i64,
    );
    let ring = outer + reversed(inner);
    assert forall|i: int, j: int| 0 <= i < 16 && 0 <= j < 16 implies (inside(
        ring,
        #[trigger] sample(px, i),
        #[trigger] sample(py, j),
    ) <==> within(x0, y0, x1, y1, px, py) && !within(u0, v0, u1, v1, px, py)) by {
        let x = sample(px, i);
        let y = sample(py, j);
        lemma_winding_concat(outer, reversed(inner), x, y);
        lemma_winding_reversed(inner, x, y);
        lemma_rectangle_winding(
            (x0 * 65536) as i64,
            (y0 * 65536) as i64,
            (x1 * 65536) as i64,
            (y1 * 65536) as i64,
            x,
            y,
        );
        lemma_rectangle_winding(
            (u0 * 65536) as i64,
            (v0 * 65536) as i64,
            (u1 * 65536) as i64,
            (v1 * 65536) as i64,
            x,
            y,
        );
    }
    if within(x0, y0, x1, y1, px, py) && !within(u0, v0, u1, v1, px, py) {
        lemma_pixel_full(ring, px, py);
    } else {
        lemma_pixel_empty(ring, px, py);
    }
}

/// Tracing the path around a rectangle, not scaled, gives the outline of the
/// rectangle: its three lines and the line that closes it.
pub proof fn lemma_rectangle_segments(x0: int, y0: int, x1: int, y1: int)
    requires
        -0x8000_0000 <= x0 < x1 <= 0x8000_0000,
        -0x8000_0000 <= y0 < y1 <= 0x8000_0000,
    ensures
        segments(rectangle_path(x0, y0, x1, y1), 65536, 65536, Seq::empty(), Seq::empty()) == Ok::<
            (Seq<Line>, Seq<Curve>),
            PathError,
        >(
            (
                rectangle(
                    (x0 * 65536) as i64,
                    (y0 * 65536) as i64,
                    (x1 * 65536) as i64,
                    (y1 * 65536) as i64,
                ),
                Seq::empty(),
            ),
        ),
{
    let ops = rectangle_path(x0, y0, x1, y1);
    let init = Outline { lines: Seq::<Line>::empty(), curves: Seq::<Curve>::empty(), pen: None };
    let o0 = ops.take(0);
    let o1 = ops.take(1);
    let o2 = ops.take(2);
    let o3 = ops.take(3);
    assert(o1.drop_last() == o0);
    assert(o2.drop_last() == o1);
    assert(o3.drop_last() == o2);
    assert(ops.drop_last() == o3);
    let a = Point { x: (x0 * 65536) as i64, y: (y0 * 65536) as i64 };
    let b = Point { x: (x1 * 65536) as i64, y: (y0 * 65536) as i64 };
    let c = Point { x: (x1 * 65536) as i64, y: (y1 * 65536) as i64 };
    let d = Point { x: (x0 * 65536) as i64, y: (y1 * 65536) as i64 };
    let t0 = trace(o0, 65536, 65536, init);
    assert(t0 == Ok::<Outline, PathError>(init));
    let t1 = trace(o1, 65536, 65536, init);
    assert(t1 == step(init, ops[0], 65536, 65536));
    let s1 = Outline { lines: Seq::<Line>::empty(), curves: init.curves, pen: Some(Pen { start: a, last: a }) };
    assert(t1 == Ok::<Outline, PathError>(s1));
    let t2 = trace(o2, 65536, 65536, init);
    assert(t2 == step(s1, ops[1], 65536, 65536));
    let s2 = Outline {
        lines: s1.lines.push(Line { p0: a, p1: b }),
        curves: init.curves,
        pen: Some(Pen { start: a, last: b }),
    };
    assert(t2 == Ok::<Outline, PathError>(s2));
    let t3 = trace(o3, 65536, 65536, init);
    assert(t3 == step(s2, ops[2], 65536, 65536));
    let s3 = Outline {
        lines: s2.lines.push(Line { p0: b, p1: c }),
        curves: init.curves,
        pen: Some(Pen { start: a, last: c }),
    };
    assert(t3 == Ok::<Outline, PathError>(s3));
    let t4 = trace(ops, 65536, 65536, init);
    assert(t4 == step(s3, ops[3], 65536, 65536));
    let s4 = Outline {
        lines: s3.lines.push(Line { p0: c, p1: d }),
        curves: init.curves,
        pen: Some(Pen { start: a, last: d }),
    };
    assert(t4 == Ok::<Outline, PathError>(s4));
    assert(a != d);
    assert(s4.lines.push(Line { p0: d, p1: a }) =~= rectangle(a.x, a.y, c.x, c.y));
}

/// Drawing the path around a rectangle whose sides lie between pixels, not
/// scaled and with nothing else in the two lists, in an opaque colour: the
/// path is traced, every pixel of the canvas within the rectangle gets
/// exactly that colour, and every other byte of the buffer stays as it was.
pub proof fn lemma_fill_rectangle(
    buf: Seq<u8>,
    wh: Size,
    pitch: int,
    x0: int,
    y0: int,
    x1: int,
    y1: int,
    color: [u8; 4],
    i: int,
)
    requires
        fits(wh, pitch, buf.len() as int),
        -0x8000_0000 <= x0 < x1 <= 0x8000_0000,
        -0x8000_0000 <= y0 < y1 <= 0x8000_0000,
        color[3] == 255,
        0 <= i < buf.len(),
    ensures
        segments(rectangle_path(x0, y0, x1, y1), 65536, 65536, Seq::empty(), Seq::empty()) is Ok,
        ({
            let traced = segments(
                rectangle_path(x0, y0, x1, y1),
                65536,
                65536,
                Seq::empty(),
                Seq::empty(),
            )->Ok_0;
            filled(buf, wh, pitch, edges_of(traced.0, traced.1), Paint::Solid(color))[i]
        }) == if pitch > 0 && row_of(i, pitch) < wh.1 && column_of(i, pitch) < wh.0 && within(
            x0,
            y0,
            x1,
            y1,
            column_of(i, pitch),
            row_of(i, pitch),
        ) {
            color[(i % pitch) % 4]
        } else {
            buf[i]
        },
{
    lemma_rectangle_segments(x0, y0, x1, y1);
    let r = rectangle(
        (x0 * 65536) as i64,
        (y0 * 65536) as i64,
        (x1 * 65536) as i64,
        (y1 * 65536) as i64,
    );
    assert(flatten_all(Seq::<Curve>::empty()) =~= Seq::<Line>::empty());
    assert(edges_of(r, Seq::<Curve>::empty()) =~= r);
    if pitch > 0 {
        let x = column_of(i, pitch);
        let y = row_of(i, pitch);
        lemma_rectangle_coverage(x0, y0, x1, y1, x, y);
        if y < wh.1 && x < wh.0 && within(x0, y0, x1, y1, x, y) {
            lemma_opaque_source(rgba(color), pixel_at(buf, y * pitch + 4 * x));
        }
    }
}


/// The outline of the polygon with these corners: a line from each corner to
/// the next, and one from the last back to the first.
pub open spec fn polygon(corners: Seq<Point>) -> Seq<Line> {
    Seq::new(
        corners.len(),
        |i: int|
            Line {
                p0: corners[i],
                p1: if i + 1 < corners.len() {
                    corners[i + 1]
                } else {
                    corners[0]
                },
            },
    )
}

/// The corners turn one way round and the polygon is convex: no corner lies
/// on the negative side of any line of the outline.
pub open spec fn convex(corners: Seq<Point>) -> bool {
    forall|i: int, j: int|
        0 <= i < corners.len() && 0 <= j < corners.len() ==> side(
            #[trigger] polygon(corners)[i],
            (#[trigger] corners[j]).x as int,
            corners[j].y as int,
        ) >= 0
}

/// The point lies on the positive side of every line of the outline.
pub open spec fn strictly_inside(corners: Seq<Point>, x: int, y: int) -> bool {
    forall|i: int| 0 <= i < corners.len() ==> side(#[trigger] polygon(corners)[i], x, y) > 0
}

/// The point lies on the negative side of some line of the outline.
pub open spec fn strictly_outside(corners: Seq<Point>, x: int, y: int) -> bool {
    exists|i: int| 0 <= i < corners.len() && side(#[trigger] polygon(corners)[i], x, y) < 0
}

/// How often the edges pass the height `y` with growing `y`, less how often
/// they pass it the other way.
pub open spec fn turns(edges: Seq<Line>, y: int) -> int
    decreases edges.len(),
{
    if edges.len() == 0 {
        0
    } else {
        turns(edges.drop_last(), y) + direction(edges.last(), y)
    }
}

/// How many of the edges pass the height `y` with growing `y`.
pub open spec fn ups(edges: Seq<Line>, y: int) -> int
    decreases edges.len(),
{
    if edges.len() == 0 {
        0
    } else {
        ups(edges.drop_last(), y) + if direction(edges.last(), y) == 1 {
            1int
        } else {
            0int
        }
    }
}

/// 1 for a point below the height `y`, where `y` grows downwards; else 0.
pub open spec fn below(p: Point, y: int) -> int {
    if p.y > y {
        1
    } else {
        0
    }
}

/// Edges that do not cross the ray wind around nothing.
proof fn lemma_winding_none(edges: Seq<Line>, x: int, y: int)
    requires
        forall|k: int| 0 <= k < edges.len() ==> crossing(#[trigger] edges[k], x, y) == 0,
    ensures
        winding(edges, x, y) == 0,
    decreases edges.len(),
{
    if edges.len() > 0 {
        assert(edges.last() == edges[edges.len() - 1]);
        assert forall|k: int| 0 <= k < edges.drop_last().len() implies crossing(
            #[trigger] edges.drop_last()[k],
            x,
            y,
        ) == 0 by {
            assert(edges.drop_last()[k] == edges[k]);
        }
        lemma_winding_none(edges.drop_last(), x, y);
    }
}

/// Where every edge that passes the height of a point crosses the ray from
/// it, the winding number is the number of turns.
proof fn lemma_winding_turns(edges: Seq<Line>, x: int, y: int)
    requires
        forall|k: int|
            0 <= k < edges.len() ==> crossing(#[trigger] edges[k], x, y) == direction(edges[k], y),
    ensures
        winding(edges, x, y) == turns(edges, y),
    decreases edges.len(),
{
    if edges.len() > 0 {
        assert(edges.last() == edges[edges.len() - 1]);
        assert forall|k: int| 0 <= k < edges.drop_last().len() implies crossing(
            #[trigger] edges.drop_last()[k],
            x,
            y,
        ) == direction(edges.drop_last()[k], y) by {
            assert(edges.drop_last()[k] == edges[k]);
        }
        lemma_winding_turns(edges.drop_last(), x, y);
    }
}

/// Where exactly the edges that pass the height of a point with growing `y`
/// cross the ray from it, the winding number is their number.
proof fn lemma_winding_ups(edges: Seq<Line>, x: int, y: int)
    requires
        forall|k: int|
            0 <= k < edges.len() ==> crossing(#[trigger] edges[k], x, y) == if direction(
                edges[k],
                y,
            ) == 1 {
                1int
            } else {
                0int
            },
    ensures
        winding(edges, x, y) == ups(edges, y),
    decreases edges.len(),
{
    if edges.len() > 0 {
        assert(edges.last() == edges[edges.len() - 1]);
        assert forall|k: int| 0 <= k < edges.drop_last().len() implies crossing(
            #[trigger] edges.drop_last()[k],
            x,
            y,
        ) == if direction(edges.drop_last()[k], y) == 1 {
            1int
        } else {
            0int
        } by {
            assert(edges.drop_last()[k] == edges[k]);
        }
        lemma_winding_ups(edges.drop_last(), x, y);
    }
}

/// Along a chain of lines, each beginning where the one before it ends, the
/// turns add up to the difference between the two ends; and if the chain has
/// no more turns than lines that pass the height with growing `y`, it has at
/// least one of those where a line passes the height at all.
proof fn lemma_chain(edges: Seq<Line>, y: int, m: int)
    requires
        0 <= m <= edges.len(),
        forall|k: int| 0 <= k < edges.len() - 1 ==> (#[trigger] edges[k]).p1 == edges[k + 1].p0,
    ensures
        m > 0 ==> turns(edges.take(m), y) == below(edges[m - 1].p1, y) - below(edges[0].p0, y),
        m == 0 ==> turns(edges.take(m), y) == 0,
        ups(edges.take(m), y) >= 0,
        ups(edges.take(m), y) >= turns(edges.take(m), y),
        (exists|k: int| 0 <= k < m && direction(#[trigger] edges[k], y) != 0) ==> 2 * ups(
            edges.take(m),
            y,
        ) - turns(edges.take(m), y) >= 1,
    decreases m,
{
    if m > 0 {
        lemma_chain(edges, y, m - 1);
        assert(edges.take(m).drop_last() == edges.take(m - 1));
        assert(edges.take(m).last() == edges[m - 1]);
        if m > 1 {
            assert(edges[m - 2].p1 == edges[m - 1].p0);
        }
        if exists|k: int| 0 <= k < m && direction(#[trigger] edges[k], y) != 0 {
            let k = choose|k: int| 0 <= k < m && direction(#[trigger] edges[k], y) != 0;
            if k < m - 1 {
                assert(exists|j: int| 0 <= j < m - 1 && direction(#[trigger] edges[j], y) != 0);
            }
        }
    }
}

/// The outline of a polygon is a chain that ends where it begins.
proof fn lemma_polygon_closed(corners: Seq<Point>, y: int)
    requires
        corners.len() > 0,
    ensures
        turns(polygon(corners), y) == 0,
        ups(polygon(corners), y) >= 0,
        (exists|k: int| 0 <= k < corners.len() && direction(#[trigger] polygon(corners)[k], y) != 0)
            ==> ups(polygon(corners), y) >= 1,
{
    let edges = polygon(corners);
    lemma_chain(edges, y, edges.len() as int);
    assert(edges.take(edges.len() as int) == edges);
}

/// The part of `side` that depends on the point: for two points, the
/// difference of their sides is the cross product of the line's direction
/// with the step from one point to the other.
proof fn lemma_side_difference(l: Line, ax: int, ay: int, bx: int, by: int)
    by (nonlinear_arith)
    ensures
        side(l, ax, ay) - side(l, bx, by) == (l.p1.x - l.p0.x) * (ay - by) - (ax - bx) * (l.p1.y
            - l.p0.y),
{
}

/// An edge whose two ends lie on one side of a line through neither of them,
/// seen from a point on the other side: if the line runs with growing `y` or
/// level, the edge does not cross the ray from the point; if it runs with
/// shrinking `y`, the edge crosses the ray wherever it passes the height of
/// the point. `dx`, `dy` is the direction of the line, and `ca`, `cb` are the
/// cross products of it with the steps from the point to the two ends.
proof fn lemma_edge_beyond(e: Line, x: int, y: int, dx: int, dy: int)
    requires
        dx * (e.p0.y - y) - (e.p0.x - x) * dy > 0,
        dx * (e.p1.y - y) - (e.p1.x - x) * dy > 0,
    ensures
        dy >= 0 ==> crossing(e, x, y) == 0,
        dy < 0 ==> crossing(e, x, y) == direction(e, y),
{
    let ax = e.p0.x - x;
    let ay = e.p0.y - y;
    let bx = e.p1.x - x;
    let by = e.p1.y - y;
    let ca = dx * ay - ax * dy;
    let cb = dx * by - bx * dy;
    let s = side(e, x, y);
    assert(s == ax * by - ay * bx) by (nonlinear_arith)
        requires
            s == (e.p1.x - e.p0.x) * (y - e.p0.y) - (x - e.p0.x) * (e.p1.y - e.p0.y),
            ax == e.p0.x - x,
            ay == e.p0.y - y,
            bx == e.p1.x - x,
            by == e.p1.y - y,
    ;
    // by * ca - ay * cb == -dy * s
    assert(by * ca - ay * cb == -(dy * s)) by (nonlinear_arith)
        requires
            ca == dx * ay - ax * dy,
            cb == dx * by - bx * dy,
            s == ax * by - ay * bx,
    ;
    if direction(e, y) == 1 {
        // ay <= 0 < by
        assert(by * ca - ay * cb > 0) by (nonlinear_arith)
            requires
                ay <= 0 < by,
                ca > 0,
                cb > 0,
        ;
        assert(dy >= 0 ==> s <= 0) by (nonlinear_arith)
            requires
                dy * s < 0,
        ;
        assert(dy < 0 ==> s > 0) by (nonlinear_arith)
            requires
                dy * s < 0,
        ;
    } else if direction(e, y) == -1 {
        // by <= 0 < ay
        assert(ay * cb - by * ca > 0) by (nonlinear_arith)
            requires
                by <= 0 < ay,
                ca > 0,
                cb > 0,
        ;
        assert(dy >= 0 ==> s >= 0) by (nonlinear_arith)
            requires
                dy * s > 0,
        ;
        assert(dy < 0 ==> s < 0) by (nonlinear_arith)
            requires
                dy * s > 0,
        ;
    }
}

/// The outline of a polygon does not wind around a point that one of its
/// lines has on its negative side while it has no corner there.
pub proof fn lemma_polygon_outside(corners: Seq<Point>, k: int, x: int, y: int)
    requires
        0 <= k < corners.len(),
        forall|j: int|
            0 <= j < corners.len() ==> side(
                polygon(corners)[k],
                (#[trigger] corners[j]).x as int,
                corners[j].y as int,
            ) >= 0,
        side(polygon(corners)[k], x, y) < 0,
    ensures
        winding(polygon(corners), x, y) == 0,
{
    let edges = polygon(corners);
    let l = edges[k];
    let dx = l.p1.x - l.p0.x;
    let dy = l.p1.y - l.p0.y;
    assert forall|i: int| 0 <= i < edges.len() implies (dy >= 0 ==> crossing(
        #[trigger] edges[i],
        x,
        y,
    ) == 0) && (dy < 0 ==> crossing(edges[i], x, y) == direction(edges[i], y)) by {
        let e = edges[i];
        let j = if i + 1 < corners.len() {
            i + 1
        } else {
            0
        };
        assert(e.p0 == corners[i] && e.p1 == corners[j]);
        lemma_side_difference(l, e.p0.x as int, e.p0.y as int, x, y);
        lemma_side_difference(l, e.p1.x as int, e.p1.y as int, x, y);
        lemma_edge_beyond(e, x, y, dx, dy);
    }
    if dy >= 0 {
        lemma_winding_none(edges, x, y);
    } else {
        lemma_winding_turns(edges, x, y);
        lemma_polygon_closed(corners, y);
    }
}

/// The place of a direction of the upper half of the plane in the order in
/// which a turn through that half passes them: first the directions along the
/// positive `x` axis, then those with positive `y`, last those along the
/// negative `x` axis.
spec fn rank(ax: int, ay: int) -> int {
    if ay > 0 {
        1
    } else if ax > 0 {
        0
    } else {
        2
    }
}

/// Whether a turn through the upper half of the plane passes the direction
/// `a` before the direction `b`.
spec fn before(ax: int, ay: int, bx: int, by: int) -> bool {
    rank(ax, ay) < rank(bx, by) || (rank(ax, ay) == 1 && rank(bx, by) == 1 && ax * by > bx * ay)
}

/// In the upper half of the plane, a direction comes before every direction
/// that it has a positive cross product with.
proof fn lemma_turn_orders(ax: int, ay: int, bx: int, by: int)
    requires
        ay >= 0,
        by >= 0,
        ax * by - ay * bx > 0,
    ensures
        before(ax, ay, bx, by),
{
    assert(ay == 0 ==> ay * bx == 0) by (nonlinear_arith);
    assert(by == 0 ==> ax * by == 0) by (nonlinear_arith);
    assert(ay == 0 && ax <= 0 ==> ax * by <= 0) by (nonlinear_arith)
        requires
            by >= 0,
    ;
    assert(by == 0 && bx > 0 ==> ay * bx >= 0) by (nonlinear_arith)
        requires
            ay >= 0,
    ;
    assert(ay * bx == bx * ay) by (nonlinear_arith);
}

/// The order of directions is transitive.
proof fn lemma_before_trans(ax: int, ay: int, bx: int, by: int, cx: int, cy: int)
    requires
        before(ax, ay, bx, by),
        before(bx, by, cx, cy),
    ensures
        before(ax, ay, cx, cy),
{
    if rank(ax, ay) == 1 && rank(bx, by) == 1 && rank(cx, cy) == 1 {
        assert(ax * cy > cx * ay) by (nonlinear_arith)
            requires
                ax * by > bx * ay,
                bx * cy > cx * by,
                ay > 0,
                by > 0,
                cy > 0,
        ;
    }
}

/// The step from the point `(x, y)` to corner `i`, or back, as `sign` is 1
/// or -1.
spec fn spoke(corners: Seq<Point>, i: int, x: int, y: int, sign: int) -> (int, int) {
    (sign * (corners[i].x - x), sign * (corners[i].y - y))
}

/// Seen from a point that every line of the outline has on its positive
/// side, with all corners on one side of the height of the point, the first
/// corner comes before every other in the order of directions.
proof fn lemma_fan(corners: Seq<Point>, x: int, y: int, sign: int, m: int)
    requires
        strictly_inside(corners, x, y),
        sign == 1 || sign == -1,
        forall|i: int| 0 <= i < corners.len() ==> sign * ((#[trigger] corners[i]).y - y) >= 0,
        1 <= m < corners.len(),
    ensures
        before(
            spoke(corners, 0, x, y, sign).0,
            spoke(corners, 0, x, y, sign).1,
            spoke(corners, m, x, y, sign).0,
            spoke(corners, m, x, y, sign).1,
        ),
    decreases m,
{
    lemma_spokes_turn(corners, x, y, sign, m - 1);
    if m > 1 {
        lemma_fan(corners, x, y, sign, m - 1);
        let a = spoke(corners, 0, x, y, sign);
        let b = spoke(corners, m - 1, x, y, sign);
        let c = spoke(corners, m, x, y, sign);
        lemma_before_trans(a.0, a.1, b.0, b.1, c.0, c.1);
    }
}

/// Seen from a point that every line of the outline has on its positive
/// side, with all corners on one side of the height of the point, each corner
/// comes before the next one round in the order of directions.
proof fn lemma_spokes_turn(corners: Seq<Point>, x: int, y: int, sign: int, i: int)
    requires
        strictly_inside(corners, x, y),
        sign == 1 || sign == -1,
        forall|k: int| 0 <= k < corners.len() ==> sign * ((#[trigger] corners[k]).y - y) >= 0,
        0 <= i < corners.len(),
    ensures
        ({
            let j = if i + 1 < corners.len() {
                i + 1
            } else {
                0
            };
            before(
                spoke(corners, i, x, y, sign).0,
                spoke(corners, i, x, y, sign).1,
                spoke(corners, j, x, y, sign).0,
                spoke(corners, j, x, y, sign).1,
            )
        }),
{
    let j = if i + 1 < corners.len() {
        i + 1
    } else {
        0
    };
    let e = polygon(corners)[i];
    assert(e.p0 == corners[i] && e.p1 == corners[j]);
    assert(side(e, x, y) > 0);
    let a = spoke(corners, i, x, y, sign);
    let b = spoke(corners, j, x, y, sign);
    assert(sign * (corners[i].y - y) >= 0);
    assert(sign * (corners[j].y - y) >= 0);
    assert(a.0 * b.1 - a.1 * b.0 == side(e, x, y)) by (nonlinear_arith)
        requires
            sign == 1 || sign == -1,
            a.0 == sign * (e.p0.x - x),
            a.1 == sign * (e.p0.y - y),
            b.0 == sign * (e.p1.x - x),
            b.1 == sign * (e.p1.y - y),
            side(e, x, y) == (e.p1.x - e.p0.x) * (y - e.p0.y) - (x - e.p0.x) * (e.p1.y - e.p0.y),
    ;
    lemma_turn_orders(a.0, a.1, b.0, b.1);
}

/// Where no line of the outline passes the height `y`, all corners are on
/// the same side of it.
proof fn lemma_level(corners: Seq<Point>, y: int, m: int)
    requires
        forall|k: int| 0 <= k < corners.len() ==> direction(#[trigger] polygon(corners)[k], y) == 0,
        0 <= m < corners.len(),
    ensures
        below(corners[m], y) == below(corners[0], y),
    decreases m,
{
    if m > 0 {
        lemma_level(corners, y, m - 1);
        let e = polygon(corners)[m - 1];
        assert(e.p0 == corners[m - 1] && e.p1 == corners[m]);
        assert(direction(e, y) == 0);
    }
}

/// The outline of a polygon winds around every point that each of its lines
/// has on its positive side.
pub proof fn lemma_polygon_inside(corners: Seq<Point>, x: int, y: int)
    requires
        corners.len() > 0,
        strictly_inside(corners, x, y),
    ensures
        winding(polygon(corners), x, y) >= 1,
{
    let edges = polygon(corners);
    let n = corners.len() as int;
    assert forall|k: int| 0 <= k < edges.len() implies crossing(#[trigger] edges[k], x, y)
        == if direction(edges[k], y) == 1 {
        1int
    } else {
        0int
    } by {
        assert(side(polygon(corners)[k], x, y) > 0);
    }
    lemma_winding_ups(edges, x, y);
    lemma_polygon_closed(corners, y);
    if !(exists|k: int| 0 <= k < n && direction(#[trigger] polygon(corners)[k], y) != 0) {
        // All corners are on one side of the height of the point, and the
        // directions to them turn one way all the way round: that cannot be.
        let sign: int = if below(corners[0], y) == 1 {
            1
        } else {
            -1
        };
        assert forall|i: int| 0 <= i < n implies sign * ((#[trigger] corners[i]).y - y) >= 0 by {
            lemma_level(corners, y, i);
            let t = corners[i].y - y;
            assert(sign * t >= 0) by (nonlinear_arith)
                requires
                    (sign == 1 && t > 0) || (sign == -1 && t <= 0),
            ;
        }
        let a = spoke(corners, 0, x, y, sign);
        if n == 1 {
            lemma_spokes_turn(corners, x, y, sign, 0);
        } else {
            lemma_fan(corners, x, y, sign, n - 1);
            lemma_spokes_turn(corners, x, y, sign, n - 1);
            let b = spoke(corners, n - 1, x, y, sign);
            lemma_before_trans(a.0, a.1, b.0, b.1, a.0, a.1);
        }
        assert(before(a.0, a.1, a.0, a.1));
        assert(false);
    }
}

/// The outline of a polygon winds exactly once around a point that each of
/// its lines has on its positive side, where it passes the height of the
/// point only once with growing `y`.
pub proof fn lemma_polygon_once(corners: Seq<Point>, x: int, y: int)
    requires
        corners.len() > 0,
        strictly_inside(corners, x, y),
        ups(polygon(corners), y) <= 1,
    ensures
        winding(polygon(corners), x, y) == 1,
{
    let edges = polygon(corners);
    assert forall|k: int| 0 <= k < edges.len() implies crossing(#[trigger] edges[k], x, y)
        == if direction(edges[k], y) == 1 {
        1int
    } else {
        0int
    } by {
        assert(side(polygon(corners)[k], x, y) > 0);
    }
    lemma_winding_ups(edges, x, y);
    lemma_polygon_inside(corners, x, y);
}

/// A polygon within a polygon, the inner one taken the other way round,
/// leaves a hole: a pixel is not covered where every line of both outlines
/// has all its samples on its positive side and each outline passes the
/// height of every sample only once with growing `y`.
pub proof fn lemma_polygon_hole(outer: Seq<Point>, inner: Seq<Point>, px: int, py: int)
    requires
        outer.len() > 0,
        inner.len() > 0,
        forall|i: int, j: int|
            0 <= i < 16 && 0 <= j < 16 ==> strictly_inside(
                outer,
                #[trigger] sample(px, i),
                #[trigger] sample(py, j),
            ) && strictly_inside(inner, sample(px, i), sample(py, j)),
        forall|j: int|
            0 <= j < 16 ==> ups(polygon(outer), #[trigger] sample(py, j)) <= 1 && ups(
                polygon(inner),
                sample(py, j),
            ) <= 1,
    ensures
        coverage(polygon(outer) + reversed(polygon(inner)), px, py) == 0,
{
    let edges = polygon(outer) + reversed(polygon(inner));
    assert forall|i: int, j: int| 0 <= i < 16 && 0 <= j < 16 implies !inside(
        edges,
        #[trigger] sample(px, i),
        #[trigger] sample(py, j),
    ) by {
        let x = sample(px, i);
        let y = sample(py, j);
        assert(strictly_inside(outer, x, y) && strictly_inside(inner, x, y));
        assert(ups(polygon(outer), y) <= 1 && ups(polygon(inner), y) <= 1);
        lemma_polygon_once(outer, x, y);
        lemma_polygon_once(inner, x, y);
        lemma_winding_reversed(polygon(inner), x, y);
        lemma_winding_concat(polygon(outer), reversed(polygon(inner)), x, y);
    }
    lemma_pixel_empty(edges, px, py);
}

/// The corners turn the other way round and the polygon is convex: no
/// corner lies on the positive side of any line of the outline.
pub open spec fn convex_back(corners: Seq<Point>) -> bool {
    forall|i: int, j: int|
        0 <= i < corners.len() && 0 <= j < corners.len() ==> side(
            #[trigger] polygon(corners)[i],
            (#[trigger] corners[j]).x as int,
            corners[j].y as int,
        ) <= 0
}

/// The point lies on the negative side of every line of the outline.
pub open spec fn strictly_inside_back(corners: Seq<Point>, x: int, y: int) -> bool {
    forall|i: int| 0 <= i < corners.len() ==> side(#[trigger] polygon(corners)[i], x, y) < 0
}

/// The point lies on the positive side of some line of the outline.
pub open spec fn strictly_outside_back(corners: Seq<Point>, x: int, y: int) -> bool {
    exists|i: int| 0 <= i < corners.len() && side(#[trigger] polygon(corners)[i], x, y) > 0
}

/// The point is within the polygon and not on its outline, whichever way
/// round the corners are taken: every line of the outline has it on the same
/// side.
pub open spec fn surrounds(corners: Seq<Point>, x: int, y: int) -> bool {
    strictly_inside(corners, x, y) || strictly_inside_back(corners, x, y)
}

/// The polygon is convex, whichever way round its corners are taken, and the
/// point is outside it and not on its outline: some line of the outline has
/// the point on the side on which it has no corner.
pub open spec fn excludes(corners: Seq<Point>, x: int, y: int) -> bool {
    (convex(corners) && strictly_outside(corners, x, y)) || (convex_back(corners)
        && strictly_outside_back(corners, x, y))
}

/// Where exactly the edges that pass the height of a point with shrinking
/// `y` cross the ray from it, the winding number is less than zero by their
/// number: the number of turns less the number of edges that pass the height
/// with growing `y`.
proof fn lemma_winding_downs(edges: Seq<Line>, x: int, y: int)
    requires
        forall|k: int|
            0 <= k < edges.len() ==> crossing(#[trigger] edges[k], x, y) == if direction(
                edges[k],
                y,
            ) == -1 {
                -1int
            } else {
                0int
            },
    ensures
        winding(edges, x, y) == turns(edges, y) - ups(edges, y),
    decreases edges.len(),
{
    if edges.len() > 0 {
        assert(edges.last() == edges[edges.len() - 1]);
        assert forall|k: int| 0 <= k < edges.drop_last().len() implies crossing(
            #[trigger] edges.drop_last()[k],
            x,
            y,
        ) == if direction(edges.drop_last()[k], y) == -1 {
            -1int
        } else {
            0int
        } by {
            assert(edges.drop_last()[k] == edges[k]);
        }
        lemma_winding_downs(edges.drop_last(), x, y);
    }
}

/// Seen from a point that every line of the outline has on its negative
/// side, with all corners on one side of the height of the point, each corner
/// comes after the next one round in the order of directions.
proof fn lemma_spokes_turn_back(corners: Seq<Point>, x: int, y: int, sign: int, i: int)
    requires
        strictly_inside_back(corners, x, y),
        sign == 1 || sign == -1,
        forall|k: int| 0 <= k < corners.len() ==> sign * ((#[trigger] corners[k]).y - y) >= 0,
        0 <= i < corners.len(),
    ensures
        ({
            let j = if i + 1 < corners.len() {
                i + 1
            } else {
                0
            };
            before(
                spoke(corners, j, x, y, sign).0,
                spoke(corners, j, x, y, sign).1,
                spoke(corners, i, x, y, sign).0,
                spoke(corners, i, x, y, sign).1,
            )
        }),
{
    let j = if i + 1 < corners.len() {
        i + 1
    } else {
        0
    };
    let e = polygon(corners)[i];
    assert(e.p0 == corners[i] && e.p1 == corners[j]);
    assert(side(e, x, y) < 0);
    let a = spoke(corners, i, x, y, sign);
    let b = spoke(corners, j, x, y, sign);
    assert(sign * (corners[i].y - y) >= 0);
    assert(sign * (corners[j].y - y) >= 0);
    assert(b.0 * a.1 - b.1 * a.0 == -side(e, x, y)) by (nonlinear_arith)
        requires
            sign == 1 || sign == -1,
            a.0 == sign * (e.p0.x - x),
            a.1 == sign * (e.p0.y - y),
            b.0 == sign * (e.p1.x - x),
            b.1 == sign * (e.p1.y - y),
            side(e, x, y) == (e.p1.x - e.p0.x) * (y - e.p0.y) - (x - e.p0.x) * (e.p1.y - e.p0.y),
    ;
    lemma_turn_orders(b.0, b.1, a.0, a.1);
}

/// Seen from a point that every line of the outline has on its negative
/// side, with all corners on one side of the height of the point, the first
/// corner comes after every other in the order of directions.
proof fn lemma_fan_back(corners: Seq<Point>, x: int, y: int, sign: int, m: int)
    requires
        strictly_inside_back(corners, x, y),
        sign == 1 || sign == -1,
        forall|i: int| 0 <= i < corners.len() ==> sign * ((#[trigger] corners[i]).y - y) >= 0,
        1 <= m < corners.len(),
    ensures
        before(
            spoke(corners, m, x, y, sign).0,
            spoke(corners, m, x, y, sign).1,
            spoke(corners, 0, x, y, sign).0,
            spoke(corners, 0, x, y, sign).1,
        ),
    decreases m,
{
    lemma_spokes_turn_back(corners, x, y, sign, m - 1);
    if m > 1 {
        lemma_fan_back(corners, x, y, sign, m - 1);
        let a = spoke(corners, m, x, y, sign);
        let b = spoke(corners, m - 1, x, y, sign);
        let c = spoke(corners, 0, x, y, sign);
        lemma_before_trans(a.0, a.1, b.0, b.1, c.0, c.1);
    }
}

/// The outline of a polygon winds, the other way, around every point that
/// each of its lines has on its negative side.
pub proof fn lemma_polygon_inside_back(corners: Seq<Point>, x: int, y: int)
    requires
        corners.len() > 0,
        strictly_inside_back(corners, x, y),
    ensures
        winding(polygon(corners), x, y) <= -1,
{
    let edges = polygon(corners);
    let n = corners.len() as int;
    assert forall|k: int| 0 <= k < edges.len() implies crossing(#[trigger] edges[k], x, y)
        == if direction(edges[k], y) == -1 {
        -1int
    } else {
        0int
    } by {
        assert(side(polygon(corners)[k], x, y) < 0);
    }
    lemma_winding_downs(edges, x, y);
    lemma_polygon_closed(corners, y);
    if !(exists|k: int| 0 <= k < n && direction(#[trigger] polygon(corners)[k], y) != 0) {
        let sign: int = if below(corners[0], y) == 1 {
            1
        } else {
            -1
        };
        assert forall|i: int| 0 <= i < n implies sign * ((#[trigger] corners[i]).y - y) >= 0 by {
            lemma_level(corners, y, i);
            let t = corners[i].y - y;
            assert(sign * t >= 0) by (nonlinear_arith)
                requires
                    (sign == 1 && t > 0) || (sign == -1 && t <= 0),
            ;
        }
        let a = spoke(corners, 0, x, y, sign);
        if n == 1 {
            lemma_spokes_turn_back(corners, x, y, sign, 0);
        } else {
            lemma_fan_back(corners, x, y, sign, n - 1);
            lemma_spokes_turn_back(corners, x, y, sign, n - 1);
            let b = spoke(corners, n - 1, x, y, sign);
            lemma_before_trans(a.0, a.1, b.0, b.1, a.0, a.1);
        }
        assert(before(a.0, a.1, a.0, a.1));
        assert(false);
    }
}

/// The outline of a polygon does not wind around a point that one of its
/// lines has on its positive side while it has no corner there.
pub proof fn lemma_polygon_outside_back(corners: Seq<Point>, k: int, x: int, y: int)
    requires
        0 <= k < corners.len(),
        forall|j: int|
            0 <= j < corners.len() ==> side(
                polygon(corners)[k],
                (#[trigger] corners[j]).x as int,
                corners[j].y as int,
            ) <= 0,
        side(polygon(corners)[k], x, y) > 0,
    ensures
        winding(polygon(corners), x, y) == 0,
{
    let edges = polygon(corners);
    let l = edges[k];
    let dx = -(l.p1.x - l.p0.x);
    let dy = -(l.p1.y - l.p0.y);
    assert forall|i: int| 0 <= i < edges.len() implies (dy >= 0 ==> crossing(
        #[trigger] edges[i],
        x,
        y,
    ) == 0) && (dy < 0 ==> crossing(edges[i], x, y) == direction(edges[i], y)) by {
        let e = edges[i];
        let j = if i + 1 < corners.len() {
            i + 1
        } else {
            0
        };
        assert(e.p0 == corners[i] && e.p1 == corners[j]);
        lemma_side_difference(l, e.p0.x as int, e.p0.y as int, x, y);
        lemma_side_difference(l, e.p1.x as int, e.p1.y as int, x, y);
        assert(dx * (e.p0.y - y) - (e.p0.x - x) * dy == -((l.p1.x - l.p0.x) * (e.p0.y - y) - (e.p0.x
            - x) * (l.p1.y - l.p0.y))) by (nonlinear_arith)
            requires
                dx == -(l.p1.x - l.p0.x),
                dy == -(l.p1.y - l.p0.y),
        ;
        assert(dx * (e.p1.y - y) - (e.p1.x - x) * dy == -((l.p1.x - l.p0.x) * (e.p1.y - y) - (e.p1.x
            - x) * (l.p1.y - l.p0.y))) by (nonlinear_arith)
            requires
                dx == -(l.p1.x - l.p0.x),
                dy == -(l.p1.y - l.p0.y),
        ;
        lemma_edge_beyond(e, x, y, dx, dy);
    }
    if dy >= 0 {
        lemma_winding_none(edges, x, y);
    } else {
        lemma_winding_turns(edges, x, y);
        lemma_polygon_closed(corners, y);
    }
}

/// The outline of a polygon winds around every point within it, whichever
/// way round its corners are taken.
pub proof fn lemma_polygon_surrounds(corners: Seq<Point>, x: int, y: int)
    requires
        corners.len() > 0,
        surrounds(corners, x, y),
    ensures
        inside(polygon(corners), x, y),
{
    if strictly_inside(corners, x, y) {
        lemma_polygon_inside(corners, x, y);
    } else {
        lemma_polygon_inside_back(corners, x, y);
    }
}

/// The outline of a convex polygon winds around no point outside it,
/// whichever way round its corners are taken.
pub proof fn lemma_polygon_excludes(corners: Seq<Point>, x: int, y: int)
    requires
        excludes(corners, x, y),
    ensures
        !inside(polygon(corners), x, y),
{
    if convex(corners) && strictly_outside(corners, x, y) {
        let k = choose|k: int|
            0 <= k < corners.len() && side(#[trigger] polygon(corners)[k], x, y) < 0;
        assert forall|c: int| 0 <= c < corners.len() implies side(
            polygon(corners)[k],
            (#[trigger] corners[c]).x as int,
            corners[c].y as int,
        ) >= 0 by {}
        lemma_polygon_outside(corners, k, x, y);
    } else {
        let k = choose|k: int|
            0 <= k < corners.len() && side(#[trigger] polygon(corners)[k], x, y) > 0;
        assert forall|c: int| 0 <= c < corners.len() implies side(
            polygon(corners)[k],
            (#[trigger] corners[c]).x as int,
            corners[c].y as int,
        ) <= 0 by {}
        lemma_polygon_outside_back(corners, k, x, y);
    }
}

/// The first part of the winding rule for convex polygons: a pixel all of
/// whose samples are within the polygon is covered in full, whichever way
/// round the corners are taken.
pub proof fn lemma_polygon_covers(corners: Seq<Point>, px: int, py: int)
    requires
        corners.len() > 0,
        forall|i: int, j: int|
            0 <= i < 16 && 0 <= j < 16 ==> surrounds(
                corners,
                #[trigger] sample(px, i),
                #[trigger] sample(py, j),
            ),
    ensures
        coverage(polygon(corners), px, py) == 255,
{
    assert forall|i: int, j: int| 0 <= i < 16 && 0 <= j < 16 implies inside(
        polygon(corners),
        #[trigger] sample(px, i),
        #[trigger] sample(py, j),
    ) by {
        lemma_polygon_surrounds(corners, sample(px, i), sample(py, j));
    }
    lemma_pixel_full(polygon(corners), px, py);
}

/// The second part of the winding rule for convex polygons: a pixel all of
/// whose samples are outside the polygon is not covered, whichever way round
/// the corners are taken.
pub proof fn lemma_polygon_spares(corners: Seq<Point>, px: int, py: int)
    requires
        forall|i: int, j: int|
            0 <= i < 16 && 0 <= j < 16 ==> excludes(
                corners,
                #[trigger] sample(px, i),
                #[trigger] sample(py, j),
            ),
    ensures
        coverage(polygon(corners), px, py) == 0,
{
    assert forall|i: int, j: int| 0 <= i < 16 && 0 <= j < 16 implies !inside(
        polygon(corners),
        #[trigger] sample(px, i),
        #[trigger] sample(py, j),
    ) by {
        lemma_polygon_excludes(corners, sample(px, i), sample(py, j));
    }
    lemma_pixel_empty(polygon(corners), px, py);
}

/// Tracing the first `m` operations of the path around a polygon, not
/// scaled, gives the lines between the first `m` corners, with the pen at the
/// last of them.
proof fn lemma_polygon_traced(corners: Seq<Point>, m: int)
    requires
        forall|i: int| 0 <= i < corners.len() ==> (#[trigger] corners[i]).wf(),
        1 <= m <= corners.len(),
    ensures
        trace(
            polygon_path(corners).take(m),
            65536,
            65536,
            Outline { lines: Seq::empty(), curves: Seq::empty(), pen: None },
        ) == Ok::<Outline, PathError>(
            Outline {
                lines: polygon(corners).take(m - 1),
                curves: Seq::empty(),
                pen: Some(Pen { start: corners[0], last: corners[m - 1] }),
            },
        ),
    decreases m,
{
    let ops = polygon_path(corners);
    let init = Outline { lines: Seq::<Line>::empty(), curves: Seq::<Curve>::empty(), pen: None };
    assert(ops.take(m).drop_last() == ops.take(m - 1));
    assert(ops.take(m).last() == ops[m - 1]);
    assert(corners[m - 1].wf());
    let p = corners[m - 1];
    assert(crate::draw::path::scaled_point(p.x, p.y, 65536, 65536) == p);
    if m == 1 {
        assert(trace(ops.take(0), 65536, 65536, init) == Ok::<Outline, PathError>(init));
        assert(polygon(corners).take(0) =~= Seq::<Line>::empty());
    } else {
        lemma_polygon_traced(corners, m - 1);
        assert(polygon(corners).take(m - 2).push(polygon(corners)[m - 2]) =~= polygon(
            corners,
        ).take(m - 1));
    }
}

/// Tracing the path around a polygon, not scaled and with nothing else in
/// the two lists, gives the outline of the polygon: the lines from corner to
/// corner and the line that closes it.
pub proof fn lemma_polygon_segments(corners: Seq<Point>)
    requires
        corners.len() >= 1,
        forall|i: int| 0 <= i < corners.len() ==> (#[trigger] corners[i]).wf(),
        corners[corners.len() - 1] != corners[0],
    ensures
        segments(polygon_path(corners), 65536, 65536, Seq::empty(), Seq::empty()) == Ok::<
            (Seq<Line>, Seq<Curve>),
            PathError,
        >((polygon(corners), Seq::empty())),
{
    let n = corners.len() as int;
    lemma_polygon_traced(corners, n);
    assert(polygon_path(corners).take(n) == polygon_path(corners));
    assert(polygon(corners).take(n - 1).push(polygon(corners)[n - 1]) =~= polygon(corners));
}

/// Drawing the path around a convex polygon, not scaled and with nothing
/// else in the two lists, whichever way round its corners are taken: the path
/// is traced; a pixel of the canvas all of whose samples are within the
/// polygon gets exactly the colour, where the colour is opaque; and a pixel
/// all of whose samples are outside the polygon stays as it was.
pub proof fn lemma_fill_polygon(
    buf: Seq<u8>,
    wh: Size,
    pitch: int,
    corners: Seq<Point>,
    color: [u8; 4],
    i: int,
)
    requires
        fits(wh, pitch, buf.len() as int),
        pitch > 0,
        corners.len() >= 1,
        forall|k: int| 0 <= k < corners.len() ==> (#[trigger] corners[k]).wf(),
        corners[corners.len() - 1] != corners[0],
        0 <= i < buf.len(),
    ensures
        segments(polygon_path(corners), 65536, 65536, Seq::empty(), Seq::empty()) is Ok,
        ({
            let traced = segments(
                polygon_path(corners),
                65536,
                65536,
                Seq::empty(),
                Seq::empty(),
            )->Ok_0;
            let after = filled(buf, wh, pitch, edges_of(traced.0, traced.1), Paint::Solid(color));
            let x = column_of(i, pitch);
            let y = row_of(i, pitch);
            &&& (color[3] == 255 && x < wh.0 && y < wh.1 && (forall|s: int, t: int|
                0 <= s < 16 && 0 <= t < 16 ==> surrounds(
                    corners,
                    #[trigger] sample(x, s),
                    #[trigger] sample(y, t),
                ))) ==> after[i] == color[(i % pitch) % 4]
            &&& (forall|s: int, t: int|
                0 <= s < 16 && 0 <= t < 16 ==> excludes(
                    corners,
                    #[trigger] sample(x, s),
                    #[trigger] sample(y, t),
                )) ==> after[i] == buf[i]
        }),
{
    lemma_polygon_segments(corners);
    let outline = polygon(corners);
    assert(flatten_all(Seq::<Curve>::empty()) =~= Seq::<Line>::empty());
    assert(edges_of(outline, Seq::<Curve>::empty()) =~= outline);
    let x = column_of(i, pitch);
    let y = row_of(i, pitch);
    if color[3] == 255 && x < wh.0 && y < wh.1 && (forall|s: int, t: int|
        0 <= s < 16 && 0 <= t < 16 ==> surrounds(
            corners,
            #[trigger] sample(x, s),
            #[trigger] sample(y, t),
        )) {
        lemma_polygon_covers(corners, x, y);
        lemma_opaque_source(rgba(color), pixel_at(buf, y * pitch + 4 * x));
    }
    if forall|s: int, t: int|
        0 <= s < 16 && 0 <= t < 16 ==> excludes(
            corners,
            #[trigger] sample(x, s),
            #[trigger] sample(y, t),
        ) {
        lemma_polygon_spares(corners, x, y);
    }
}

/// No corner of the square of the pixel `(px, py)` lies on the negative side
/// of the line.
pub open spec fn square_not_below(l: Line, px: int, py: int) -> bool {
    &&& side(l, px * 65536, py * 65536) >= 0
    &&& side(l, px * 65536 + 65536, py * 65536) >= 0
    &&& side(l, px * 65536, py * 65536 + 65536) >= 0
    &&& side(l, px * 65536 + 65536, py * 65536 + 65536) >= 0
}

/// No corner of the square of the pixel `(px, py)` lies on the positive side
/// of the line.
pub open spec fn square_not_above(l: Line, px: int, py: int) -> bool {
    &&& side(l, px * 65536, py * 65536) <= 0
    &&& side(l, px * 65536 + 65536, py * 65536) <= 0
    &&& side(l, px * 65536, py * 65536 + 65536) <= 0
    &&& side(l, px * 65536 + 65536, py * 65536 + 65536) <= 0
}

/// The square of the pixel `(px, py)` lies within the polygon, whichever way
/// round the corners are taken: every line of the outline has a length and
/// has the four corners of the square on the same side or on itself.
pub open spec fn pixel_within(corners: Seq<Point>, px: int, py: int) -> bool {
    &&& forall|k: int|
        0 <= k < corners.len() ==> (#[trigger] polygon(corners)[k]).p0 != polygon(corners)[k].p1
    &&& {
        ||| forall|k: int|
            0 <= k < corners.len() ==> square_not_below(#[trigger] polygon(corners)[k], px, py)
        ||| forall|k: int|
            0 <= k < corners.len() ==> square_not_above(#[trigger] polygon(corners)[k], px, py)
    }
}

/// The polygon is convex, whichever way round its corners are taken, and
/// some line of its outline that has a length parts it from the square of the
/// pixel `(px, py)`: the line has the four corners of the square on the side
/// on which it has no corner of the polygon, or on itself.
pub open spec fn pixel_beyond(corners: Seq<Point>, px: int, py: int) -> bool {
    ||| convex(corners) && exists|k: int|
        0 <= k < corners.len() && (#[trigger] polygon(corners)[k]).p0 != polygon(corners)[k].p1
            && square_not_above(polygon(corners)[k], px, py)
    ||| convex_back(corners) && exists|k: int|
        0 <= k < corners.len() && (#[trigger] polygon(corners)[k]).p0 != polygon(corners)[k].p1
            && square_not_below(polygon(corners)[k], px, py)
}

/// A line with a length that has no corner of a square on its negative side
/// has every point within the square on its positive side; and the other way
/// round. The square begins at `(x, y)` and the point is `a` to the right and
/// `b` down from there.
proof fn lemma_side_in_square(l: Line, x: int, y: int, a: int, b: int)
    requires
        l.p0 != l.p1,
        0 < a < 65536,
        0 < b < 65536,
    ensures
        side(l, x, y) >= 0 && side(l, x + 65536, y) >= 0 && side(l, x, y + 65536) >= 0 && side(
            l,
            x + 65536,
            y + 65536,
        ) >= 0 ==> side(l, x + a, y + b) > 0,
        side(l, x, y) <= 0 && side(l, x + 65536, y) <= 0 && side(l, x, y + 65536) <= 0 && side(
            l,
            x + 65536,
            y + 65536,
        ) <= 0 ==> side(l, x + a, y + b) < 0,
{
    let dx = l.p1.x - l.p0.x;
    let dy = l.p1.y - l.p0.y;
    let s = side(l, x, y);
    assert(dx != 0 || dy != 0);
    lemma_side_difference(l, x + 65536, y, x, y);
    lemma_side_difference(l, x, y + 65536, x, y);
    lemma_side_difference(l, x + 65536, y + 65536, x, y);
    lemma_side_difference(l, x + a, y + b, x, y);
    let p = a * dy;
    let q = dx * b;
    assert(side(l, x + 65536, y) == s - 65536 * dy);
    assert(side(l, x, y + 65536) == s + dx * 65536);
    assert(side(l, x + 65536, y + 65536) == s + dx * 65536 - 65536 * dy);
    assert(side(l, x + a, y + b) == s + q - p);
    assert((dy > 0 ==> 0 < p < 65536 * dy) && (dy < 0 ==> 65536 * dy < p < 0) && (dy == 0 ==> p
        == 0)) by (nonlinear_arith)
        requires
            p == a * dy,
            0 < a < 65536,
    ;
    assert((dx > 0 ==> 0 < q < dx * 65536) && (dx < 0 ==> dx * 65536 < q < 0) && (dx == 0 ==> q
        == 0)) by (nonlinear_arith)
        requires
            q == dx * b,
            0 < b < 65536,
    ;
}

/// Every sample of a pixel lies within its square and not on its sides.
proof fn lemma_sample_in_square(pixel: int, k: int)
    requires
        0 <= k < 16,
    ensures
        0 < sample(pixel, k) - pixel * 65536 < 65536,
{
}

/// Every sample of a pixel whose square lies within a polygon is within the
/// polygon.
pub proof fn lemma_pixel_within(corners: Seq<Point>, px: int, py: int)
    requires
        pixel_within(corners, px, py),
    ensures
        forall|s: int, t: int|
            0 <= s < 16 && 0 <= t < 16 ==> surrounds(
                corners,
                #[trigger] sample(px, s),
                #[trigger] sample(py, t),
            ),
{
    assert forall|s: int, t: int| 0 <= s < 16 && 0 <= t < 16 implies surrounds(
        corners,
        #[trigger] sample(px, s),
        #[trigger] sample(py, t),
    ) by {
        let x = sample(px, s);
        let y = sample(py, t);
        lemma_sample_in_square(px, s);
        lemma_sample_in_square(py, t);
        if forall|k: int|
            0 <= k < corners.len() ==> square_not_below(#[trigger] polygon(corners)[k], px, py) {
            assert forall|k: int| 0 <= k < corners.len() implies side(
                #[trigger] polygon(corners)[k],
                x,
                y,
            ) > 0 by {
                let l = polygon(corners)[k];
                assert(square_not_below(l, px, py));
                assert(l.p0 != l.p1);
                lemma_side_in_square(l, px * 65536, py * 65536, x - px * 65536, y - py * 65536);
            }
            assert(strictly_inside(corners, x, y));
        } else {
            assert forall|k: int| 0 <= k < corners.len() implies side(
                #[trigger] polygon(corners)[k],
                x,
                y,
            ) < 0 by {
                let l = polygon(corners)[k];
                assert(square_not_above(l, px, py));
                assert(l.p0 != l.p1);
                lemma_side_in_square(l, px * 65536, py * 65536, x - px * 65536, y - py * 65536);
            }
            assert(strictly_inside_back(corners, x, y));
        }
    }
}

/// Every sample of a pixel whose square a line of the outline parts from a
/// convex polygon is outside the polygon.
pub proof fn lemma_pixel_beyond(corners: Seq<Point>, px: int, py: int)
    requires
        pixel_beyond(corners, px, py),
    ensures
        forall|s: int, t: int|
            0 <= s < 16 && 0 <= t < 16 ==> excludes(
                corners,
                #[trigger] sample(px, s),
                #[trigger] sample(py, t),
            ),
{
    assert forall|s: int, t: int| 0 <= s < 16 && 0 <= t < 16 implies excludes(
        corners,
        #[trigger] sample(px, s),
        #[trigger] sample(py, t),
    ) by {
        let x = sample(px, s);
        let y = sample(py, t);
        lemma_sample_in_square(px, s);
        lemma_sample_in_square(py, t);
        if convex(corners) && exists|k: int|
            0 <= k < corners.len() && (#[trigger] polygon(corners)[k]).p0 != polygon(
                corners,
            )[k].p1 && square_not_above(polygon(corners)[k], px, py) {
            let k = choose|k: int|
                0 <= k < corners.len() && (#[trigger] polygon(corners)[k]).p0 != polygon(
                    corners,
                )[k].p1 && square_not_above(polygon(corners)[k], px, py);
            let l = polygon(corners)[k];
            lemma_side_in_square(l, px * 65536, py * 65536, x - px * 65536, y - py * 65536);
            assert(side(polygon(corners)[k], x, y) < 0);
            assert(strictly_outside(corners, x, y));
        } else {
            let k = choose|k: int|
                0 <= k < corners.len() && (#[trigger] polygon(corners)[k]).p0 != polygon(
                    corners,
                )[k].p1 && square_not_below(polygon(corners)[k], px, py);
            let l = polygon(corners)[k];
            lemma_side_in_square(l, px * 65536, py * 65536, x - px * 65536, y - py * 65536);
            assert(side(polygon(corners)[k], x, y) > 0);
            assert(strictly_outside_back(corners, x, y));
        }
    }
}

/// The winding rule for drawing a convex polygon, pixel by pixel. The path
/// around the polygon is drawn not scaled and with nothing else in the two
/// lists, its corners taken either way round. A pixel of the canvas whose
/// square lies within the polygon gets exactly the colour, where the colour
/// is opaque; a pixel whose square a line of the outline parts from the
/// polygon stays as it was.
pub proof fn lemma_fill_polygon_pixels(
    buf: Seq<u8>,
    wh: Size,
    pitch: int,
    corners: Seq<Point>,
    color: [u8; 4],
    i: int,
)
    requires
        fits(wh, pitch, buf.len() as int),
        pitch > 0,
        corners.len() >= 1,
        forall|k: int| 0 <= k < corners.len() ==> (#[trigger] corners[k]).wf(),
        corners[corners.len() - 1] != corners[0],
        0 <= i < buf.len(),
    ensures
        segments(polygon_path(corners), 65536, 65536, Seq::empty(), Seq::empty()) is Ok,
        ({
            let traced = segments(
                polygon_path(corners),
                65536,
                65536,
                Seq::empty(),
                Seq::empty(),
            )->Ok_0;
            let after = filled(buf, wh, pitch, edges_of(traced.0, traced.1), Paint::Solid(color));
            let x = column_of(i, pitch);
            let y = row_of(i, pitch);
            &&& color[3] == 255 && x < wh.0 && y < wh.1 && pixel_within(corners, x, y)
                ==> after[i] == color[(i % pitch) % 4]
            &&& pixel_beyond(corners, x, y) ==> after[i] == buf[i]
        }),
{
    let x = column_of(i, pitch);
    let y = row_of(i, pitch);
    if pixel_within(corners, x, y) {
        lemma_pixel_within(corners, x, y);
    }
    if pixel_beyond(corners, x, y) {
        lemma_pixel_beyond(corners, x, y);
    }
    lemma_fill_polygon(buf, wh, pitch, corners, color, i);
}

} // verus!
