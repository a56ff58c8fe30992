use barg::draw::geometry::{point, Curve, Line, Point};
use barg::draw::curves::{curve_pieces, flatten_into, outline_edges};
use barg::draw::rasterizer::{coverage_row, rasterize};

fn at(x: i64, y: i64) -> Point {
    point(x * 65536, y * 65536)
}

fn polygon(corners: &[(i64, i64)]) -> Vec<Line> {
    let mut lines = Vec::new();
    for i in 0..corners.len() {
        let (x0, y0) = corners[i];
        let (x1, y1) = corners[(i + 1) % corners.len()];
        lines.push(Line { p0: at(x0, y0), p1: at(x1, y1) });
    }
    lines
}

fn mask(edges: &[Line], width: usize, height: usize) -> Vec<Vec<u8>> {
    (0..height).map(|y| coverage_row(edges, width, y)).collect()
}

#[test]
fn no_edges_no_coverage() {
    assert_eq!(coverage_row(&[], 5, 3), vec![0, 0, 0, 0, 0]);
    assert_eq!(coverage_row(&[], 0, 0), Vec::<u8>::new());
}

#[test]
fn square_covers_its_pixels_fully_and_no_others() {
    let edges = polygon(&[(2, 2), (8, 2), (8, 8), (2, 8)]);
    let m = mask(&edges, 10, 10);
    for y in 0..10 {
        for x in 0..10 {
            let inside = (2..8).contains(&x) && (2..8).contains(&y);
            assert_eq!(m[y][x], if inside { 255 } else { 0 }, "({}, {})", x, y);
        }
    }
}

#[test]
fn direction_of_the_outline_does_not_matter() {
    let one = polygon(&[(2, 2), (8, 2), (8, 8), (2, 8)]);
    let other = polygon(&[(2, 8), (8, 8), (8, 2), (2, 2)]);
    assert_eq!(mask(&one, 10, 10), mask(&other, 10, 10));
}

#[test]
fn triangle_is_full_inside_and_empty_outside() {
    // A convex polygon well inside a canvas of 16 by 16.
    let edges = polygon(&[(1, 1), (15, 1), (1, 15)]);
    let m = mask(&edges, 16, 16);
    assert_eq!(m[2][2], 255);
    assert_eq!(m[5][5], 255);
    assert_eq!(m[1][13], 255);
    assert_eq!(m[14][14], 0);
    assert_eq!(m[0][0], 0);
    assert_eq!(m[8][9], 0);
    // The pixel (7, 8) is cut by the long side along its diagonal: the 120
    // samples above the diagonal are inside, 120 * 255 / 256 rounds to 120.
    assert_eq!(m[8][7], 120);
}

#[test]
fn hole_of_a_donut_is_empty() {
    // Outer contour one way round, inner contour the other way.
    let mut edges = polygon(&[(1, 1), (11, 1), (11, 11), (1, 11)]);
    edges.extend(polygon(&[(4, 4), (4, 8), (8, 8), (8, 4)]));
    let m = mask(&edges, 12, 12);
    for y in 0..12 {
        for x in 0..12 {
            let outer = (1..11).contains(&x) && (1..11).contains(&y);
            let hole = (4..8).contains(&x) && (4..8).contains(&y);
            assert_eq!(m[y][x], if outer && !hole { 255 } else { 0 }, "({}, {})", x, y);
        }
    }
}

#[test]
fn contours_wound_the_same_way_fill_their_overlap() {
    let mut edges = polygon(&[(1, 1), (11, 1), (11, 11), (1, 11)]);
    edges.extend(polygon(&[(4, 4), (8, 4), (8, 8), (4, 8)]));
    let m = mask(&edges, 12, 12);
    assert_eq!(m[6][6], 255);
    assert_eq!(m[2][2], 255);
}

#[test]
fn half_covered_pixels() {
    // The left half of pixel (1, 0) and the upper quarter of pixel (0, 1).
    let half = Line { p0: point(65536, 0), p1: point(65536, 65536) };
    let back = Line { p0: point(98304, 65536), p1: point(98304, 0) };
    assert_eq!(coverage_row(&[half, back], 3, 0), vec![0, 128, 0]);
    let edges = vec![
        Line { p0: point(0, 65536), p1: point(0, 81920) },
        Line { p0: point(65536, 81920), p1: point(65536, 65536) },
    ];
    assert_eq!(coverage_row(&edges, 2, 1), vec![64, 0]);
    assert_eq!(coverage_row(&edges, 2, 0), vec![0, 0]);
}

#[test]
fn single_sample() {
    // A sliver around the first sample of pixel (0, 0) only.
    let edges = vec![
        Line { p0: point(0, 0), p1: point(0, 4096) },
        Line { p0: point(4096, 4096), p1: point(4096, 0) },
    ];
    assert_eq!(coverage_row(&edges, 1, 0), vec![1]);
}

#[test]
fn degenerate_lines_cover_nothing() {
    let dot = Line { p0: at(3, 3), p1: at(3, 3) };
    let flat = Line { p0: at(1, 2), p1: at(9, 2) };
    let there = Line { p0: at(2, 1), p1: at(2, 5) };
    let back = Line { p0: at(2, 5), p1: at(2, 1) };
    for y in 0..6 {
        assert_eq!(coverage_row(&[dot, flat, there, back], 10, y), vec![0; 10]);
    }
}

#[test]
fn shapes_outside_the_canvas_are_clipped() {
    let edges = polygon(&[(-5, -5), (3, -5), (3, 3), (-5, 3)]);
    let m = mask(&edges, 6, 6);
    for y in 0..6 {
        for x in 0..6 {
            assert_eq!(m[y][x], if x < 3 && y < 3 { 255 } else { 0 });
        }
    }
    let far = polygon(&[(100, 100), (200, 100), (200, 200), (100, 200)]);
    assert_eq!(mask(&far, 6, 6), vec![vec![0u8; 6]; 6]);
}

#[test]
fn curve_piece_counts() {
    let flat = Curve { start: at(0, 0), control: at(5, 0), end: at(10, 0) };
    assert_eq!(curve_pieces(&flat), 1);
    // Second difference 16384 units: one line is within the tolerance.
    let slight =
        Curve { start: point(0, 0), control: point(65536, 8192), end: point(131072, 0) };
    assert_eq!(curve_pieces(&slight), 1);
    // One unit more: two.
    let more = Curve { start: point(0, 0), control: point(65536, 8192), end: point(131072, -1) };
    assert_eq!(curve_pieces(&more), 2);
    // Second difference of 20 pixels: 16 * 16 * 16384 is the first to reach it.
    let bend = Curve { start: at(0, 0), control: at(10, 0), end: at(0, 0) };
    assert_eq!(curve_pieces(&bend), 16);
    let huge = Curve { start: at(0, 0), control: at(1_000_000, 0), end: at(0, 0) };
    assert_eq!(curve_pieces(&huge), 512);
}

#[test]
fn flattening_follows_the_curve() {
    let bend = Curve { start: at(0, 0), control: at(8, 16), end: at(16, 0) };
    let mut lines = vec![Line { p0: at(9, 9), p1: at(9, 9) }];
    flatten_into(&bend, &mut lines);
    let n = curve_pieces(&bend);
    assert_eq!(n, 16);
    assert_eq!(lines.len(), 1 + n);
    assert_eq!(lines[0], Line { p0: at(9, 9), p1: at(9, 9) });
    assert_eq!(lines[1].p0, at(0, 0));
    assert_eq!(lines[n].p1, at(16, 0));
    for i in 1..n {
        assert_eq!(lines[i].p1, lines[i + 1].p0);
    }
    // Half way: x = 8, y = 2 * (1/2) * (1/2) * 16 = 8.
    assert_eq!(lines[n / 2].p1, at(8, 8));
    // A quarter of the way: x = 4, y = 2 * (1/4) * (3/4) * 16 = 6.
    assert_eq!(lines[n / 4].p1, at(4, 6));
}

#[test]
fn edges_are_the_lines_and_then_the_curves_flattened() {
    let line = Line { p0: at(0, 0), p1: at(16, 0) };
    let flat = Curve { start: at(16, 0), control: at(8, 0), end: at(0, 0) };
    let edges = outline_edges(&[line], &[flat]);
    assert_eq!(edges, vec![line, Line { p0: at(16, 0), p1: at(0, 0) }]);
}

#[test]
fn half_disc_has_the_area_of_a_half_disc() {
    // A parabola arc over a chord of 16 pixels, 8 pixels high: the area
    // between arc and chord is two thirds of 16 * 8, about 85.3 pixels.
    let arc = Curve { start: at(2, 12), control: at(10, -4), end: at(18, 12) };
    let chord = Line { p0: at(18, 12), p1: at(2, 12) };
    let edges = outline_edges(&[chord], &[arc]);
    let m = mask(&edges, 20, 14);
    let total: u32 = m.iter().flatten().map(|&c| c as u32).sum();
    let area = total as i64 * 1000 / 255;
    assert!((area - 85_333).abs() < 600, "{}", area);
    assert_eq!(m[11][10], 255);
    assert_eq!(m[3][2], 0);
    assert_eq!(m[13][10], 0);
}

#[test]
fn rasterize_gives_the_rows_one_after_the_other() {
    let lines = polygon(&[(1, 0), (3, 0), (3, 2), (1, 2)]);
    assert_eq!(
        rasterize(&lines, &[], 4, 3),
        vec![0, 255, 255, 0, 0, 255, 255, 0, 0, 0, 0, 0]
    );
    assert_eq!(rasterize(&lines, &[], 0, 3), Vec::<u8>::new());
    assert_eq!(rasterize(&lines, &[], 4, 0), Vec::<u8>::new());
    assert_eq!(rasterize(&[], &[], 2, 2), vec![0; 4]);
}

#[test]
fn rasterize_flattens_the_curves() {
    let arc = Curve { start: at(2, 12), control: at(10, -4), end: at(18, 12) };
    let chord = Line { p0: at(18, 12), p1: at(2, 12) };
    let whole = rasterize(&[chord], &[arc], 20, 14);
    let rows = mask(&outline_edges(&[chord], &[arc]), 20, 14);
    assert_eq!(whole, rows.concat());
}

#[test]
fn pentagram_is_filled_in_the_middle_too() {
    // The five lines of a star cross each other; under the non-zero rule the
    // middle, which they wind around twice, is inside.
    let star = polygon(&[(10, 1), (15, 18), (1, 7), (19, 7), (5, 18)]);
    let m = mask(&star, 20, 20);
    assert_eq!(m[10][10], 255);
    assert_eq!(m[0], vec![0; 20]);
    assert_eq!(m[4], vec![0, 0, 0, 0, 0, 0, 0, 0, 14, 249, 249, 13, 0, 0, 0, 0, 0, 0, 0, 0]);
    assert_eq!(
        m[7],
        vec![
            0, 100, 248, 255, 255, 255, 255, 255, 255, 255, 255, 255, 255, 255, 255, 255, 255,
            248, 100, 0
        ]
    );
    assert_eq!(
        m[10],
        vec![0, 0, 0, 0, 3, 136, 254, 255, 255, 255, 255, 255, 255, 254, 136, 3, 0, 0, 0, 0]
    );
    assert_eq!(
        m[14],
        vec![0, 0, 0, 0, 0, 6, 242, 255, 252, 119, 119, 252, 255, 241, 6, 0, 0, 0, 0, 0]
    );
    assert_eq!(m[17], vec![0, 0, 0, 0, 0, 119, 7, 0, 0, 0, 0, 0, 0, 7, 118, 0, 0, 0, 0, 0]);
}

#[test]
fn convex_polygon_is_full_inside_and_empty_outside() {
    // A hexagon, its corners taken the way the hands of a clock turn.
    let corners = [(8, 1), (14, 4), (14, 10), (8, 13), (2, 10), (2, 4)];
    let edges = polygon(&corners);
    let m = mask(&edges, 16, 14);
    // Twice the area of the triangle of a line and a point, as for the lines.
    let side = |a: (i64, i64), b: (i64, i64), x: i64, y: i64| {
        (b.0 - a.0) * (y - a.1) - (x - a.0) * (b.1 - a.1)
    };
    for py in 0..14i64 {
        for px in 0..16i64 {
            // The four corners of the pixel.
            let mut all_in = true;
            let mut all_out = true;
            for (x, y) in [(px, py), (px + 1, py), (px, py + 1), (px + 1, py + 1)] {
                let inside = (0..6).all(|i| side(corners[i], corners[(i + 1) % 6], x, y) >= 0);
                all_in &= inside;
                all_out &= !inside;
            }
            let c = m[py as usize][px as usize];
            if all_in {
                assert_eq!(c, 255, "({}, {})", px, py);
            }
            if all_out && (px < 1 || px > 14 || py < 1 || py > 12) {
                assert_eq!(c, 0, "({}, {})", px, py);
            }
        }
    }
    assert_eq!(m[7][8], 255);
    assert_eq!(m[2][3], 0);
    assert_eq!(m[12][13], 0);
}

#[test]
fn rows_without_edges_are_empty_and_the_others_are_not_skipped() {
    // From the middle of row 2 to a quarter into row 7, one pixel wide.
    let edges = vec![
        Line { p0: point(0, 163840), p1: point(0, 475136) },
        Line { p0: point(65536, 475136), p1: point(65536, 163840) },
    ];
    assert_eq!(
        rasterize(&edges, &[], 2, 10),
        vec![0, 0, 0, 0, 128, 0, 255, 0, 255, 0, 255, 0, 255, 0, 64, 0, 0, 0, 0, 0]
    );
    let above = polygon(&[(0, -9), (2, -9), (2, -1), (0, -1)]);
    assert_eq!(rasterize(&above, &[], 2, 3), vec![0; 6]);
    let below = polygon(&[(0, 5), (2, 5), (2, 9), (0, 9)]);
    assert_eq!(rasterize(&below, &[], 2, 3), vec![0; 6]);
}
