//! Path operations and the segments they describe.
//!
//! A path is a sequence of operations that move a pen. Tracing a path yields
//! two lists, the straight lines and the quadratic curves that the pen drew,
//! in the order in which it drew them. Every subpath is closed: where the pen
//! is moved away from a subpath, or where the path ends, and the pen is not at
//! the point where the subpath began, a line back to that point is added.

use vstd::prelude::*;
use crate::draw::geometry::{Point, Line, Curve, scaled, scale_coord, lines_wf, curves_wf};

verus! {

/// One operation of a path. Coordinates have sixteen fractional bits; the
/// third coordinate of each point is its depth, which drawing in the plane
/// does not use.
#[derive(Clone, Copy, Debug, PartialEq, Eq, Structural)]
pub enum PathOp {
    /// Lifts the pen and puts it down at `(x, y, z)`: a new subpath begins.
    Move(i64, i64, i64),
    /// Draws a straight line to `(x, y, z)`.
    Line(i64, i64, i64),
    /// Draws a quadratic curve with control point `(cx, cy, cz)` to
    /// `(x, y, z)`.
    Quad(i64, i64, i64, i64, i64, i64),
    /// A cubic curve with two control points. No drawing function takes it.
    Cubic(i64, i64, i64, i64, i64, i64, i64, i64, i64),
    /// Sets the width of the pen for stroking. Filling ignores it.
    Width(i64),
}

/// Why a path was refused.
#[derive(Clone, Copy, Debug, PartialEq, Eq, Structural)]
pub enum PathError {
    /// The path breaks a rule of structure: it draws before the pen was put
    /// down, or a facet does not have the shape of a move and three segments.
    MalformedPath,
    /// The path holds a cubic curve where a path is traced.
    UnsupportedOp,
    /// The path ends in the middle of a facet.
    IncompletePath,
}

/// Where the pen is: the point at which the current subpath began and the
/// point that the pen has reached.
pub struct Pen {
    pub start: Point,
    pub last: Point,
}

/// What tracing a path has produced so far. `pen` is `None` until the first
/// move.
pub struct Outline {
    pub lines: Seq<Line>,
    pub curves: Seq<Curve>,
    pub pen: Option<Pen>,
}

/// The point `(x, y)` of a path, scaled by `(sx, sy)` into pixel space.
pub open spec fn scaled_point(x: i64, y: i64, sx: i64, sy: i64) -> Point {
    Point { x: scaled(x as int, sx as int) as i64, y: scaled(y as int, sy as int) as i64 }
}

/// The lines of an outline with its current subpath closed.
pub open spec fn closed_lines(o: Outline) -> Seq<Line> {
    match o.pen {
        Some(pen) if pen.start != pen.last => o.lines.push(Line { p0: pen.last, p1: pen.start }),
        _ => o.lines,
    }
}

/// The effect of one path operation on an outline.
pub open spec fn step(o: Outline, op: PathOp, sx: i64, sy: i64) -> Result<Outline, PathError> {
    match op {
        PathOp::Move(x, y, _) => {
            let p = scaled_point(x, y, sx, sy);
            Ok(Outline {
                lines: closed_lines(o),
                curves: o.curves,
                pen: Some(Pen { start: p, last: p }),
            })
        },
        PathOp::Line(x, y, _) => match o.pen {
            None => Err(PathError::MalformedPath),
            Some(pen) => {
                let p = scaled_point(x, y, sx, sy);
                Ok(Outline {
                    lines: o.lines.push(Line { p0: pen.last, p1: p }),
                    curves: o.curves,
                    pen: Some(Pen { start: pen.start, last: p }),
                })
            },
        },
        PathOp::Quad(cx, cy, _, x, y, _) => match o.pen {
            None => Err(PathError::MalformedPath),
            Some(pen) => {
                let c = scaled_point(cx, cy, sx, sy);
                let p = scaled_point(x, y, sx, sy);
                Ok(Outline {
                    lines: o.lines,
                    curves: o.curves.push(Curve { start: pen.last, control: c, end: p }),
                    pen: Some(Pen { start: pen.start, last: p }),
                })
            },
        },
        PathOp::Cubic(_, _, _, _, _, _, _, _, _) => Err(PathError::UnsupportedOp),
        PathOp::Width(_) => Ok(o),
    }
}

/// The outline after all of `ops`, starting from `init`, or the error of the
/// first operation that cannot be applied.
pub open spec fn trace(ops: Seq<PathOp>, sx: i64, sy: i64, init: Outline) -> Result<
    Outline,
    PathError,
>
    decreases ops.len(),
{
    if ops.len() == 0 {
        Ok(init)
    } else {
        match trace(ops.drop_last(), sx, sy, init) {
            Err(e) => Err(e),
            Ok(o) => step(o, ops.last(), sx, sy),
        }
    }
}

/// The lines and curves that a whole path adds to the lists `lines` and
/// `curves`, with its last subpath closed.
pub open spec fn segments(
    ops: Seq<PathOp>,
    sx: i64,
    sy: i64,
    lines: Seq<Line>,
    curves: Seq<Curve>,
) -> Result<(Seq<Line>, Seq<Curve>), PathError> {
    match trace(ops, sx, sy, Outline { lines, curves, pen: None }) {
        Err(e) => Err(e),
        Ok(o) => Ok((closed_lines(o), o.curves)),
    }
}

/// The path around the rectangle from `(x0, y0)` to `(x1, y1)`, given in
/// whole pixels: a move to the first corner and a line to each of the others.
pub open spec fn rectangle_path(x0: int, y0: int, x1: int, y1: int) -> Seq<PathOp> {
    seq![
        PathOp::Move((x0 * 65536) as i64, (y0 * 65536) as i64, 0),
        PathOp::Line((x1 * 65536) as i64, (y0 * 65536) as i64, 0),
        PathOp::Line((x1 * 65536) as i64, (y1 * 65536) as i64, 0),
        PathOp::Line((x0 * 65536) as i64, (y1 * 65536) as i64, 0),
    ]
}

/// The path around the polygon with these corners: a move to the first
/// corner and a line to each of the others.
pub open spec fn polygon_path(corners: Seq<Point>) -> Seq<PathOp> {
    Seq::new(
        corners.len(),
        |i: int|
            if i == 0 {
                PathOp::Move(corners[i].x, corners[i].y, 0)
            } else {
                PathOp::Line(corners[i].x, corners[i].y, 0)
            },
    )
}

/// Scales the point `(x, y)` of a path by `(sx, sy)`.
pub fn scale_point(x: i64, y: i64, sx: i64, sy: i64) -> (p: Point)
    ensures
        p == scaled_point(x, y, sx, sy),
        p.wf(),
{
    Point { x: scale_coord(x, sx), y: scale_coord(y, sy) }
}

/// Traces `path`, scaled by `(sx, sy)`, and appends its lines and curves to
/// the two lists. A path that draws before its first move is refused as
/// malformed and one that holds a cubic curve as unsupported, whichever comes
/// first; the lists are then left as they were.
pub fn build_segments(
    path: &[PathOp],
    sx: i64,
    sy: i64,
    lines: &mut Vec<Line>,
    curves: &mut Vec<Curve>,
) -> (r: Result<(), PathError>)
    ensures
        match segments(path@, sx, sy, old(lines)@, old(curves)@) {
            Ok((l, c)) => r is Ok && final(lines)@ == l && final(curves)@ == c,
            Err(e) => r == Err::<(), PathError>(e) && final(lines)@ == old(lines)@ && final(curves)@
                == old(curves)@,
        },
        lines_wf(old(lines)@) ==> lines_wf(final(lines)@),
        curves_wf(old(curves)@) ==> curves_wf(final(curves)@),
{
    let lines_len = lines.len();
    let curves_len = curves.len();
    let mut start = Point { x: 0, y: 0 };
    let mut last = Point { x: 0, y: 0 };
    let mut down = false;
    let ghost init = Outline { lines: lines@, curves: curves@, pen: None };
    let mut i: usize = 0;
    while i < path.len()
        invariant
            0 <= i <= path.len(),
            lines_len == init.lines.len(),
            curves_len == init.curves.len(),
            init.pen is None,
            init.lines == old(lines)@,
            init.curves == old(curves)@,
            trace(path@.take(i as int), sx, sy, init) == Ok::<Outline, PathError>(
                Outline {
                    lines: lines@,
                    curves: curves@,
                    pen: if down {
                        Some(Pen { start, last })
                    } else {
                        None
                    },
                },
            ),
            lines@.len() >= lines_len,
            curves@.len() >= curves_len,
            lines@.take(lines_len as int) == init.lines,
            curves@.take(curves_len as int) == init.curves,
            lines_wf(init.lines) ==> lines_wf(lines@),
            curves_wf(init.curves) ==> curves_wf(curves@),
            down ==> start.wf() && last.wf(),
        decreases path.len() - i,
    {
        let ghost before = Outline {
            lines: lines@,
            curves: curves@,
            pen: if down {
                Some(Pen { start, last })
            } else {
                None
            },
        };
        proof {
            assert(path@.take(i + 1).drop_last() == path@.take(i as int));
            assert(path@.take(i + 1).last() == path@[i as int]);
        }
        let mut failed: Option<PathError> = None;
        match path[i] {
            PathOp::Move(x, y, _) => {
                if down && (start.x != last.x || start.y != last.y) {
                    lines.push(Line { p0: last, p1: start });
                }
                let p = scale_point(x, y, sx, sy);
                start = p;
                last = p;
                down = true;
            },
            PathOp::Line(x, y, _) => {
                if down {
                    let p = scale_point(x, y, sx, sy);
                    lines.push(Line { p0: last, p1: p });
                    last = p;
                } else {
                    failed = Some(PathError::MalformedPath);
                }
            },
            PathOp::Quad(cx, cy, _, x, y, _) => {
                if down {
                    let c = scale_point(cx, cy, sx, sy);
                    let p = scale_point(x, y, sx, sy);
                    curves.push(Curve { start: last, control: c, end: p });
                    last = p;
                } else {
                    failed = Some(PathError::MalformedPath);
                }
            },
            PathOp::Cubic(_, _, _, _, _, _, _, _, _) => {
                failed = Some(PathError::UnsupportedOp);
            },
            PathOp::Width(_) => {},
        }
        match failed {
            Some(e) => {
                proof {
                    assert(step(before, path@[i as int], sx, sy) == Err::<Outline, PathError>(e));
                    lemma_trace_error_stays(path@, i + 1, sx, sy, init);
                }
                lines.truncate(lines_len);
                curves.truncate(curves_len);
                return Err(e);
            },
            None => {},
        }
        i += 1;
    }
    assert(path@.take(i as int) == path@);
    if down && (start.x != last.x || start.y != last.y) {
        lines.push(Line { p0: last, p1: start });
    }
    Ok(())
}

/// Once a prefix of a path has an error, the whole path has that error.
pub proof fn lemma_trace_error_stays(ops: Seq<PathOp>, n: int, sx: i64, sy: i64, init: Outline)
    requires
        0 <= n <= ops.len(),
        trace(ops.take(n), sx, sy, init) is Err,
    ensures
        trace(ops, sx, sy, init) == trace(ops.take(n), sx, sy, init),
    decreases ops.len() - n,
{
    if n == ops.len() {
        assert(ops.take(n) == ops);
    } else {
        assert(ops.take(n + 1).drop_last() == ops.take(n));
        lemma_trace_error_stays(ops, n + 1, sx, sy, init);
    }
}

/// Why the operation at place `i` of a path of facets is refused, if it is. A
/// facet is a move and three segments, each a line or a quadratic curve: any
/// other operation in the place of one of them makes the path malformed.
pub open spec fn facet_fault(ops: Seq<PathOp>, i: int) -> Option<PathError> {
    let fine = match ops[i] {
        PathOp::Move(_, _, _) => i % 4 == 0,
        PathOp::Line(_, _, _) | PathOp::Quad(_, _, _, _, _, _) => i % 4 != 0,
        _ => false,
    };
    if fine {
        None
    } else {
        Some(PathError::MalformedPath)
    }
}

/// The first fault among the first `n` operations of a path of facets.
pub open spec fn first_fault(ops: Seq<PathOp>, n: int) -> Option<PathError>
    decreases n,
{
    if n <= 0 {
        None
    } else {
        match first_fault(ops, n - 1) {
            Some(e) => Some(e),
            None => facet_fault(ops, n - 1),
        }
    }
}

/// Whether a path is made of whole facets: the first fault of an operation,
/// or else that the path ends in the middle of a facet.
pub open spec fn facets(ops: Seq<PathOp>) -> Result<(), PathError> {
    match first_fault(ops, ops.len() as int) {
        Some(e) => Err(e),
        None => if ops.len() % 4 != 0 {
            Err(PathError::IncompletePath)
        } else {
            Ok(())
        },
    }
}

/// Checks that a path is made of whole facets.
pub fn check_facets(path: &[PathOp]) -> (r: Result<(), PathError>)
    ensures
        r == facets(path@),
{
    let mut i: usize = 0;
    while i < path.len()
        invariant
            i <= path.len(),
            first_fault(path@, i as int) is None,
        decreases path.len() - i,
    {
        let lead = i % 4 == 0;
        let fine = match path[i] {
            PathOp::Move(_, _, _) => lead,
            PathOp::Line(_, _, _) | PathOp::Quad(_, _, _, _, _, _) => !lead,
            _ => false,
        };
        let fault: Option<PathError> = if fine {
            None
        } else {
            Some(PathError::MalformedPath)
        };
        assert(fault == facet_fault(path@, i as int));
        match fault {
            Some(e) => {
                proof {
                    lemma_first_fault_stays(path@, i + 1, path@.len() as int);
                }
                return Err(e);
            },
            None => {},
        }
        i += 1;
    }
    if path.len() % 4 != 0 {
        Err(PathError::IncompletePath)
    } else {
        Ok(())
    }
}

/// A fault among the first operations is the first fault of any longer part.
pub proof fn lemma_first_fault_stays(ops: Seq<PathOp>, n: int, m: int)
    requires
        0 <= n <= m,
        first_fault(ops, n) is Some,
    ensures
        first_fault(ops, m) == first_fault(ops, n),
    decreases m - n,
{
    if n < m {
        lemma_first_fault_stays(ops, n, m - 1);
    }
}

/// Where the path has no fault among its first operations, none of them has
/// one.
pub proof fn lemma_no_fault(ops: Seq<PathOp>, n: int, i: int)
    requires
        0 <= i < n,
        first_fault(ops, n) is None,
    ensures
        facet_fault(ops, i) is None,
    decreases n,
{
    if i < n - 1 {
        lemma_no_fault(ops, n - 1, i);
    }
}

/// The point that an operation moves the pen to, scaled by `(sx, sy)`.
pub open spec fn op_point(op: PathOp, sx: i64, sy: i64) -> Point {
    match op {
        PathOp::Move(x, y, _) => scaled_point(x, y, sx, sy),
        PathOp::Line(x, y, _) => scaled_point(x, y, sx, sy),
        PathOp::Quad(_, _, _, x, y, _) => scaled_point(x, y, sx, sy),
        PathOp::Cubic(_, _, _, _, _, _, x, y, _) => scaled_point(x, y, sx, sy),
        PathOp::Width(_) => Point { x: 0, y: 0 },
    }
}

/// The point that an operation moves the pen to, scaled by `(sx, sy)`.
pub fn end_point(op: &PathOp, sx: i64, sy: i64) -> (p: Point)
    ensures
        p == op_point(*op, sx, sy),
        p.wf(),
{
    match op {
        PathOp::Move(x, y, _) => scale_point(*x, *y, sx, sy),
        PathOp::Line(x, y, _) => scale_point(*x, *y, sx, sy),
        PathOp::Quad(_, _, _, x, y, _) => scale_point(*x, *y, sx, sy),
        PathOp::Cubic(_, _, _, _, _, _, x, y, _) => scale_point(*x, *y, sx, sy),
        PathOp::Width(_) => Point { x: 0, y: 0 },
    }
}

/// A facet without a fault can be traced.
pub proof fn lemma_facet_traces(
    ops: Seq<PathOp>,
    sx: i64,
    sy: i64,
    lines: Seq<Line>,
    curves: Seq<Curve>,
)
    requires
        ops.len() == 4,
        first_fault(ops, 4) is None,
    ensures
        segments(ops, sx, sy, lines, curves) is Ok,
{
    lemma_no_fault(ops, 4, 0);
    lemma_no_fault(ops, 4, 1);
    lemma_no_fault(ops, 4, 2);
    lemma_no_fault(ops, 4, 3);
    let init = Outline { lines, curves, pen: None };
    let o0 = ops.take(0);
    let o1 = ops.take(1);
    let o2 = ops.take(2);
    let o3 = ops.take(3);
    assert(o1.drop_last() == o0);
    assert(o2.drop_last() == o1);
    assert(o3.drop_last() == o2);
    assert(ops.drop_last() == o3);
    assert(trace(o0, sx, sy, init) == Ok::<Outline, PathError>(init));
    assert(trace(o1, sx, sy, init) is Ok && trace(o1, sx, sy, init)->Ok_0.pen is Some);
    assert(trace(o2, sx, sy, init) is Ok && trace(o2, sx, sy, init)->Ok_0.pen is Some);
    assert(trace(o3, sx, sy, init) is Ok && trace(o3, sx, sy, init)->Ok_0.pen is Some);
}

/// A path whose first operation draws is malformed, for tracing and as a
/// path of facets alike, whatever follows.
pub proof fn lemma_draws_before_move(
    ops: Seq<PathOp>,
    sx: i64,
    sy: i64,
    lines: Seq<Line>,
    curves: Seq<Curve>,
)
    requires
        ops.len() > 0,
        ops[0] is Line || ops[0] is Quad,
    ensures
        segments(ops, sx, sy, lines, curves) == Err::<(Seq<Line>, Seq<Curve>), PathError>(
            PathError::MalformedPath,
        ),
        facets(ops) == Err::<(), PathError>(PathError::MalformedPath),
{
    let init = Outline { lines, curves, pen: None };
    assert(ops.take(1).drop_last() == ops.take(0));
    assert(trace(ops.take(0), sx, sy, init) == Ok::<Outline, PathError>(init));
    assert(trace(ops.take(1), sx, sy, init) == step(init, ops[0], sx, sy));
    lemma_trace_error_stays(ops, 1, sx, sy, init);
    assert(first_fault(ops, 0) is None);
    assert(first_fault(ops, 1) == facet_fault(ops, 0));
    lemma_first_fault_stays(ops, 1, ops.len() as int);
}

} // verus!
