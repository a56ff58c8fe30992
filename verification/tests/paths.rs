use barg::draw::geometry::{point, scale_coord, Curve, Line};
use barg::draw::path::{build_segments, check_facets, end_point, scale_point, PathError, PathOp};

const ONE: i64 = 65536;

fn px(n: i64) -> i64 {
    n * ONE
}

fn at(x: i64, y: i64) -> barg::draw::geometry::Point {
    point(x * 65536, y * 65536)
}

#[test]
fn square_is_traced_and_closed() {
    let path = [
        PathOp::Move(px(2), px(2), 0),
        PathOp::Line(px(8), px(2), 0),
        PathOp::Line(px(8), px(8), 0),
        PathOp::Line(px(2), px(8), 0),
    ];
    let mut lines = Vec::new();
    let mut curves = Vec::new();
    assert_eq!(build_segments(&path, ONE, ONE, &mut lines, &mut curves), Ok(()));
    assert_eq!(
        lines,
        vec![
            Line { p0: at(2, 2), p1: at(8, 2) },
            Line { p0: at(8, 2), p1: at(8, 8) },
            Line { p0: at(8, 8), p1: at(2, 8) },
            Line { p0: at(2, 8), p1: at(2, 2) },
        ]
    );
    assert!(curves.is_empty());
}

#[test]
fn closed_subpath_gets_no_extra_line() {
    let path = [
        PathOp::Move(px(0), px(0), 0),
        PathOp::Line(px(4), px(0), 0),
        PathOp::Line(px(0), px(4), 0),
        PathOp::Line(px(0), px(0), 0),
    ];
    let mut lines = Vec::new();
    let mut curves = Vec::new();
    assert_eq!(build_segments(&path, ONE, ONE, &mut lines, &mut curves), Ok(()));
    assert_eq!(lines.len(), 3);
}

#[test]
fn move_closes_the_subpath_before_it() {
    let path = [
        PathOp::Move(px(0), px(0), 0),
        PathOp::Line(px(4), px(0), 0),
        PathOp::Move(px(10), px(10), 0),
        PathOp::Quad(px(12), px(10), 0, px(12), px(12), 0),
    ];
    let mut lines = Vec::new();
    let mut curves = Vec::new();
    assert_eq!(build_segments(&path, ONE, ONE, &mut lines, &mut curves), Ok(()));
    assert_eq!(
        lines,
        vec![
            Line { p0: at(0, 0), p1: at(4, 0) },
            Line { p0: at(4, 0), p1: at(0, 0) },
            Line { p0: at(12, 12), p1: at(10, 10) },
        ]
    );
    assert_eq!(curves, vec![Curve { start: at(10, 10), control: at(12, 10), end: at(12, 12) }]);
}

#[test]
fn width_is_ignored_and_segments_are_appended() {
    let path = [
        PathOp::Width(px(3)),
        PathOp::Move(px(1), px(1), 7),
        PathOp::Width(px(5)),
        PathOp::Line(px(2), px(1), 9),
    ];
    let kept = Line { p0: at(5, 5), p1: at(6, 6) };
    let mut lines = vec![kept];
    let mut curves = Vec::new();
    assert_eq!(build_segments(&path, ONE, ONE, &mut lines, &mut curves), Ok(()));
    assert_eq!(
        lines,
        vec![kept, Line { p0: at(1, 1), p1: at(2, 1) }, Line { p0: at(2, 1), p1: at(1, 1) }]
    );
}

#[test]
fn coordinates_are_scaled() {
    // Half of the way across a canvas 640 wide and a quarter down one 360 high.
    let path = [PathOp::Move(ONE / 2, ONE / 4, 0), PathOp::Line(ONE, ONE, 0)];
    let mut lines = Vec::new();
    let mut curves = Vec::new();
    assert_eq!(build_segments(&path, px(640), px(360), &mut lines, &mut curves), Ok(()));
    assert_eq!(lines[0], Line { p0: at(320, 90), p1: at(640, 360) });
}

#[test]
fn scaling_rounds_down() {
    assert_eq!(scale_coord(3, ONE / 2), 1);
    assert_eq!(scale_coord(-3, ONE / 2), -2);
    assert_eq!(scale_coord(px(7), px(3)), 21 * 65536);
    assert_eq!(scale_coord(-7 * ONE, -ONE), 7 * ONE);
}

#[test]
fn scaling_stops_at_the_limit() {
    let limit = 1i64 << 47;
    assert_eq!(scale_coord(i64::MAX, i64::MAX), limit);
    assert_eq!(scale_coord(i64::MIN, i64::MAX), -limit);
    assert_eq!(scale_coord(limit, ONE), limit);
    assert_eq!(scale_coord(limit + 1, ONE), limit);
    assert_eq!(scale_coord(-limit - 1, ONE), -limit);
    assert_eq!(scale_coord(limit - 1, ONE), limit - 1);
    assert_eq!(scale_coord(1 << 40, 1 << 40), limit);
    assert_eq!(scale_point(px(2), px(-3), px(2), ONE), point(4 * 65536, -3 * 65536));
}

#[test]
fn line_before_move_is_malformed() {
    let path = [PathOp::Line(px(1), px(1), 0), PathOp::Move(px(2), px(2), 0)];
    let kept = Line { p0: at(5, 5), p1: at(6, 6) };
    let mut lines = vec![kept];
    let mut curves = Vec::new();
    assert_eq!(
        build_segments(&path, ONE, ONE, &mut lines, &mut curves),
        Err(PathError::MalformedPath)
    );
    assert_eq!(lines, vec![kept]);
    assert!(curves.is_empty());
}

#[test]
fn quad_before_move_is_malformed() {
    let path = [PathOp::Width(1), PathOp::Quad(1, 1, 0, 2, 2, 0)];
    let mut lines = Vec::new();
    let mut curves = Vec::new();
    assert_eq!(
        build_segments(&path, ONE, ONE, &mut lines, &mut curves),
        Err(PathError::MalformedPath)
    );
}

#[test]
fn cubic_is_unsupported() {
    let path = [
        PathOp::Move(px(1), px(1), 0),
        PathOp::Line(px(2), px(1), 0),
        PathOp::Cubic(0, 0, 0, 1, 1, 0, 2, 2, 0),
    ];
    let mut lines = Vec::new();
    let mut curves = Vec::new();
    assert_eq!(
        build_segments(&path, ONE, ONE, &mut lines, &mut curves),
        Err(PathError::UnsupportedOp)
    );
    assert!(lines.is_empty());
}

#[test]
fn the_first_error_is_reported() {
    let path = [PathOp::Cubic(0, 0, 0, 1, 1, 0, 2, 2, 0), PathOp::Line(px(2), px(1), 0)];
    let mut lines = Vec::new();
    let mut curves = Vec::new();
    assert_eq!(
        build_segments(&path, ONE, ONE, &mut lines, &mut curves),
        Err(PathError::UnsupportedOp)
    );
    let path = [PathOp::Line(px(2), px(1), 0), PathOp::Cubic(0, 0, 0, 1, 1, 0, 2, 2, 0)];
    assert_eq!(
        build_segments(&path, ONE, ONE, &mut lines, &mut curves),
        Err(PathError::MalformedPath)
    );
}

#[test]
fn empty_path_has_no_segments() {
    let mut lines = Vec::new();
    let mut curves = Vec::new();
    assert_eq!(build_segments(&[], ONE, ONE, &mut lines, &mut curves), Ok(()));
    assert!(lines.is_empty() && curves.is_empty());
}

fn facet(x: i64, y: i64) -> [PathOp; 4] {
    [
        PathOp::Move(px(x), px(y), 0),
        PathOp::Line(px(x + 1), px(y), 0),
        PathOp::Quad(px(x + 2), px(y), 0, px(x + 1), px(y + 1), 0),
        PathOp::Line(px(x), px(y + 1), 0),
    ]
}

#[test]
fn whole_facets_are_accepted() {
    assert_eq!(check_facets(&[]), Ok(()));
    assert_eq!(check_facets(&facet(0, 0)), Ok(()));
    let mut two = facet(0, 0).to_vec();
    two.extend_from_slice(&facet(3, 3));
    assert_eq!(check_facets(&two), Ok(()));
}

#[test]
fn seven_points_are_incomplete() {
    let mut path = facet(0, 0).to_vec();
    path.extend_from_slice(&facet(3, 3)[..3]);
    assert_eq!(path.len(), 7);
    assert_eq!(check_facets(&path), Err(PathError::IncompletePath));
}

#[test]
fn facet_path_that_begins_with_a_line_is_malformed() {
    let path = [
        PathOp::Line(px(0), px(0), 0),
        PathOp::Line(px(1), px(0), 0),
        PathOp::Line(px(1), px(1), 0),
        PathOp::Line(px(0), px(1), 0),
    ];
    assert_eq!(check_facets(&path), Err(PathError::MalformedPath));
}

#[test]
fn facet_faults() {
    let mut path = facet(0, 0).to_vec();
    path[2] = PathOp::Move(px(1), px(1), 0);
    assert_eq!(check_facets(&path), Err(PathError::MalformedPath));
    path[2] = PathOp::Width(px(1));
    assert_eq!(check_facets(&path), Err(PathError::MalformedPath));
    path[2] = PathOp::Cubic(0, 0, 0, 1, 1, 0, 2, 2, 0);
    assert_eq!(check_facets(&path), Err(PathError::MalformedPath));
    // A fault comes before the missing end.
    let path = [PathOp::Move(0, 0, 0), PathOp::Move(0, 0, 0)];
    assert_eq!(check_facets(&path), Err(PathError::MalformedPath));
    let path = [PathOp::Move(0, 0, 0), PathOp::Line(0, 0, 0)];
    assert_eq!(check_facets(&path), Err(PathError::IncompletePath));
}

#[test]
fn end_points() {
    assert_eq!(end_point(&PathOp::Move(px(1), px(2), 3), ONE, ONE), at(1, 2));
    assert_eq!(end_point(&PathOp::Line(px(1), px(2), 3), px(2), px(3)), at(2, 6));
    assert_eq!(end_point(&PathOp::Quad(9, 9, 9, px(4), px(5), 3), ONE, ONE), at(4, 5));
    assert_eq!(end_point(&PathOp::Width(9), ONE, ONE), at(0, 0));
}
