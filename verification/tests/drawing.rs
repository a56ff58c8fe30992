use barg::draw::geometry::{point, Curve, Line};
use barg::draw::path::{PathError, PathOp};
use barg::draw::{bitmap, draw, fill_edges, fill_mask, Paint};
use barg::Size;

const ONE: i64 = 65536;

fn px(n: i64) -> i64 {
    n * ONE
}

fn square_path() -> [PathOp; 4] {
    [
        PathOp::Move(px(2), px(2), 0),
        PathOp::Line(px(8), px(2), 0),
        PathOp::Line(px(8), px(8), 0),
        PathOp::Line(px(2), px(8), 0),
    ]
}

fn pixel(buffer: &[u8], pitch: usize, x: usize, y: usize) -> [u8; 4] {
    let at = y * pitch + 4 * x;
    [buffer[at], buffer[at + 1], buffer[at + 2], buffer[at + 3]]
}

#[test]
fn red_square_on_a_clear_canvas() {
    let mut buffer = vec![0u8; 10 * 10 * 4];
    let mut lines = Vec::new();
    let mut curves = Vec::new();
    let r = draw(
        &mut buffer,
        Size(10, 10),
        40,
        &square_path(),
        [255, 0, 0, 255],
        &mut lines,
        &mut curves,
        ONE,
        ONE,
    );
    assert_eq!(r, Ok(()));
    for y in 0..10 {
        for x in 0..10 {
            let inside = (2..8).contains(&x) && (2..8).contains(&y);
            let want = if inside { [255, 0, 0, 255] } else { [0, 0, 0, 0] };
            assert_eq!(pixel(&buffer, 40, x, y), want, "({}, {})", x, y);
        }
    }
    assert!(lines.is_empty() && curves.is_empty());
}

#[test]
fn path_in_unit_space_is_scaled_to_the_canvas() {
    let path = [
        PathOp::Move(ONE / 4, ONE / 4, 0),
        PathOp::Line(ONE * 3 / 4, ONE / 4, 0),
        PathOp::Line(ONE * 3 / 4, ONE * 3 / 4, 0),
        PathOp::Line(ONE / 4, ONE * 3 / 4, 0),
    ];
    let mut buffer = vec![0u8; 8 * 4 * 4];
    let mut lines = Vec::new();
    let mut curves = Vec::new();
    let r = draw(
        &mut buffer,
        Size(8, 4),
        32,
        &path,
        [1, 2, 3, 255],
        &mut lines,
        &mut curves,
        px(8),
        px(4),
    );
    assert_eq!(r, Ok(()));
    for y in 0..4 {
        for x in 0..8 {
            let inside = (2..6).contains(&x) && (1..3).contains(&y);
            let want = if inside { [1, 2, 3, 255] } else { [0, 0, 0, 0] };
            assert_eq!(pixel(&buffer, 32, x, y), want);
        }
    }
}

#[test]
fn bytes_between_rows_and_after_the_canvas_are_kept() {
    let pitch = 4 * 4 + 3;
    let mut buffer = vec![7u8; 3 * pitch + 5];
    let path = [
        PathOp::Move(px(0), px(0), 0),
        PathOp::Line(px(4), px(0), 0),
        PathOp::Line(px(4), px(3), 0),
        PathOp::Line(px(0), px(3), 0),
    ];
    let mut lines = Vec::new();
    let mut curves = Vec::new();
    let r = draw(
        &mut buffer,
        Size(4, 3),
        pitch,
        &path,
        [9, 9, 9, 255],
        &mut lines,
        &mut curves,
        ONE,
        ONE,
    );
    assert_eq!(r, Ok(()));
    for (i, &byte) in buffer.iter().enumerate() {
        let in_pixel = i < 3 * pitch && i % pitch < 16;
        let want = if !in_pixel {
            7
        } else if i % pitch % 4 == 3 {
            255
        } else {
            9
        };
        assert_eq!(byte, want, "byte {}", i);
    }
}

#[test]
fn partly_covered_pixels_are_blended() {
    // The left half of the one pixel: coverage 128.
    let path = [
        PathOp::Move(0, 0, 0),
        PathOp::Line(ONE / 2, 0, 0),
        PathOp::Line(ONE / 2, ONE, 0),
        PathOp::Line(0, ONE, 0),
    ];
    let mut buffer = vec![0, 0, 255, 255];
    let mut lines = Vec::new();
    let mut curves = Vec::new();
    let r = draw(
        &mut buffer,
        Size(1, 1),
        4,
        &path,
        [255, 0, 0, 255],
        &mut lines,
        &mut curves,
        ONE,
        ONE,
    );
    assert_eq!(r, Ok(()));
    assert_eq!(buffer, vec![128, 0, 127, 255]);
}

#[test]
fn lists_that_are_not_empty_are_drawn_too() {
    let at = |x: i64, y: i64| point(x * 65536, y * 65536);
    let mut lines = vec![
        Line { p0: at(0, 0), p1: at(0, 1) },
        Line { p0: at(1, 1), p1: at(1, 0) },
    ];
    let mut curves: Vec<Curve> = Vec::new();
    let mut buffer = vec![0u8; 8];
    let r = draw(
        &mut buffer,
        Size(2, 1),
        8,
        &[],
        [5, 6, 7, 255],
        &mut lines,
        &mut curves,
        ONE,
        ONE,
    );
    assert_eq!(r, Ok(()));
    assert_eq!(buffer, vec![5, 6, 7, 255, 0, 0, 0, 0]);
    assert!(lines.is_empty());
}

#[test]
fn refused_path_leaves_the_buffer() {
    let mut buffer = vec![3u8; 10 * 10 * 4];
    let mut lines = Vec::new();
    let mut curves = Vec::new();
    let mut path = square_path().to_vec();
    path.push(PathOp::Cubic(0, 0, 0, 1, 1, 0, 2, 2, 0));
    let r = draw(
        &mut buffer,
        Size(10, 10),
        40,
        &path,
        [255, 0, 0, 255],
        &mut lines,
        &mut curves,
        ONE,
        ONE,
    );
    assert_eq!(r, Err(PathError::UnsupportedOp));
    assert_eq!(buffer, vec![3u8; 400]);
    assert!(lines.is_empty() && curves.is_empty());
    let r = draw(
        &mut buffer,
        Size(10, 10),
        40,
        &[PathOp::Line(px(1), px(1), 0)],
        [255, 0, 0, 255],
        &mut lines,
        &mut curves,
        ONE,
        ONE,
    );
    assert_eq!(r, Err(PathError::MalformedPath));
    assert_eq!(buffer, vec![3u8; 400]);
}

#[test]
fn curved_shape_is_filled() {
    // A leaf between a curve and its chord.
    let path = [
        PathOp::Move(px(2), px(12), 0),
        PathOp::Quad(px(10), px(-4), 0, px(18), px(12), 0),
    ];
    let mut buffer = vec![0u8; 20 * 14 * 4];
    let mut lines = Vec::new();
    let mut curves = Vec::new();
    let r = draw(
        &mut buffer,
        Size(20, 14),
        80,
        &path,
        [0, 255, 0, 255],
        &mut lines,
        &mut curves,
        ONE,
        ONE,
    );
    assert_eq!(r, Ok(()));
    assert_eq!(pixel(&buffer, 80, 10, 11), [0, 255, 0, 255]);
    assert_eq!(pixel(&buffer, 80, 10, 5), [0, 255, 0, 255]);
    assert_eq!(pixel(&buffer, 80, 2, 3), [0, 0, 0, 0]);
    assert_eq!(pixel(&buffer, 80, 10, 3), [0, 0, 0, 0]);
    assert_eq!(pixel(&buffer, 80, 10, 13), [0, 0, 0, 0]);
    // The curve is highest at (10, 4).
    let edge = pixel(&buffer, 80, 9, 4);
    assert!(edge[3] > 0 && edge[3] < 255, "{:?}", edge);
}

const R: [u8; 4] = [255, 0, 0, 255];
const G: [u8; 4] = [0, 255, 0, 255];
const B: [u8; 4] = [0, 0, 255, 255];
const W: [u8; 4] = [255, 255, 255, 255];

fn whole_canvas(side: i64) -> [PathOp; 4] {
    [
        PathOp::Move(px(0), px(0), 0),
        PathOp::Line(px(side), px(0), 0),
        PathOp::Line(px(side), px(side), 0),
        PathOp::Line(px(0), px(side), 0),
    ]
}

#[test]
fn each_texel_fills_a_quadrant() {
    let texels = [R, G, B, W];
    let mut buffer = vec![0u8; 4 * 4 * 4];
    let mut lines = Vec::new();
    let mut curves = Vec::new();
    let r = bitmap(
        &mut buffer,
        Size(4, 4),
        16,
        &whole_canvas(4),
        (2, 2, &texels),
        &mut lines,
        &mut curves,
        ONE,
        ONE,
    );
    assert_eq!(r, Ok(()));
    for y in 0..4 {
        for x in 0..4 {
            let want = match (x < 2, y < 2) {
                (true, true) => R,
                (false, true) => G,
                (true, false) => B,
                (false, false) => W,
            };
            assert_eq!(pixel(&buffer, 16, x, y), want, "({}, {})", x, y);
        }
    }
    assert!(lines.is_empty() && curves.is_empty());
}

#[test]
fn texels_past_the_far_corner_are_the_last() {
    // The texture ends at the third point, in column 4 of 8; the shape goes
    // on to the right of it at the top, and the last texel column with it.
    let texels = [R, G, B, W];
    let path = [
        PathOp::Move(px(0), px(0), 0),
        PathOp::Line(px(8), px(0), 0),
        PathOp::Line(px(4), px(8), 0),
        PathOp::Line(px(0), px(8), 0),
    ];
    let mut buffer = vec![0u8; 8 * 8 * 4];
    let mut lines = Vec::new();
    let mut curves = Vec::new();
    let r = bitmap(
        &mut buffer,
        Size(8, 8),
        32,
        &path,
        (2, 2, &texels),
        &mut lines,
        &mut curves,
        ONE,
        ONE,
    );
    assert_eq!(r, Ok(()));
    assert_eq!(pixel(&buffer, 32, 1, 0), R);
    assert_eq!(pixel(&buffer, 32, 2, 0), G);
    assert_eq!(pixel(&buffer, 32, 3, 3), G);
    assert_eq!(pixel(&buffer, 32, 6, 0), G);
    assert_eq!(pixel(&buffer, 32, 0, 5), B);
    assert_eq!(pixel(&buffer, 32, 2, 5), W);
    assert_eq!(pixel(&buffer, 32, 3, 7), W);
    assert_eq!(pixel(&buffer, 32, 7, 7), [0, 0, 0, 0]);
}

#[test]
fn texels_before_the_near_corner_are_the_first() {
    // The texture begins at the first point, in column 4 of 8; the shape
    // reaches to the left of it at the bottom, and the first column with it.
    let texels = [R, G, B, W];
    let path = [
        PathOp::Move(px(4), px(0), 0),
        PathOp::Line(px(8), px(0), 0),
        PathOp::Line(px(8), px(8), 0),
        PathOp::Line(px(0), px(8), 0),
    ];
    let mut buffer = vec![0u8; 8 * 8 * 4];
    let mut lines = Vec::new();
    let mut curves = Vec::new();
    let r = bitmap(
        &mut buffer,
        Size(8, 8),
        32,
        &path,
        (2, 2, &texels),
        &mut lines,
        &mut curves,
        ONE,
        ONE,
    );
    assert_eq!(r, Ok(()));
    assert_eq!(pixel(&buffer, 32, 1, 7), B);
    assert_eq!(pixel(&buffer, 32, 4, 7), B);
    assert_eq!(pixel(&buffer, 32, 6, 7), W);
    assert_eq!(pixel(&buffer, 32, 5, 0), R);
    assert_eq!(pixel(&buffer, 32, 7, 3), G);
    assert_eq!(pixel(&buffer, 32, 0, 0), [0, 0, 0, 0]);
}

#[test]
fn facets_are_drawn_one_over_the_other() {
    let texels = [R, G, B, W];
    let mut path = whole_canvas(4).to_vec();
    path.extend_from_slice(&whole_canvas(2));
    let mut buffer = vec![0u8; 4 * 4 * 4];
    let mut lines = Vec::new();
    let mut curves = Vec::new();
    let r = bitmap(
        &mut buffer,
        Size(4, 4),
        16,
        &path,
        (2, 2, &texels),
        &mut lines,
        &mut curves,
        ONE,
        ONE,
    );
    assert_eq!(r, Ok(()));
    // The second facet, two pixels wide, shows the whole texture again.
    assert_eq!(pixel(&buffer, 16, 0, 0), R);
    assert_eq!(pixel(&buffer, 16, 1, 0), G);
    assert_eq!(pixel(&buffer, 16, 0, 1), B);
    assert_eq!(pixel(&buffer, 16, 1, 1), W);
    assert_eq!(pixel(&buffer, 16, 2, 0), G);
    assert_eq!(pixel(&buffer, 16, 0, 2), B);
    assert_eq!(pixel(&buffer, 16, 3, 3), W);
}

#[test]
fn texture_alpha_is_scaled_by_coverage() {
    // The left half of one pixel, from a texture of one half-transparent texel.
    let path = [
        PathOp::Move(0, 0, 0),
        PathOp::Line(ONE / 2, 0, 0),
        PathOp::Line(ONE / 2, ONE, 0),
        PathOp::Line(0, ONE, 0),
    ];
    let texels = [[255, 255, 255, 128]];
    let mut buffer = vec![0u8; 4];
    let mut lines = Vec::new();
    let mut curves = Vec::new();
    let r = bitmap(
        &mut buffer,
        Size(1, 1),
        4,
        &path,
        (1, 1, &texels),
        &mut lines,
        &mut curves,
        ONE,
        ONE,
    );
    assert_eq!(r, Ok(()));
    // Alpha 128 * 128 / 255 = 64 over nothing.
    assert_eq!(buffer, vec![255, 255, 255, 64]);
}

#[test]
fn faulty_facets_are_refused_and_nothing_is_drawn() {
    let texels = [R, G, B, W];
    let mut buffer = vec![0u8; 4 * 4 * 4];
    let mut lines = Vec::new();
    let mut curves = Vec::new();
    let mut seven = whole_canvas(4).to_vec();
    seven.extend_from_slice(&whole_canvas(2)[..3]);
    let r = bitmap(
        &mut buffer,
        Size(4, 4),
        16,
        &seven,
        (2, 2, &texels),
        &mut lines,
        &mut curves,
        ONE,
        ONE,
    );
    assert_eq!(r, Err(PathError::IncompletePath));
    assert_eq!(buffer, vec![0u8; 64]);
    let mut line_first = whole_canvas(4);
    line_first[0] = PathOp::Line(0, 0, 0);
    let r = bitmap(
        &mut buffer,
        Size(4, 4),
        16,
        &line_first,
        (2, 2, &texels),
        &mut lines,
        &mut curves,
        ONE,
        ONE,
    );
    assert_eq!(r, Err(PathError::MalformedPath));
    assert_eq!(buffer, vec![0u8; 64]);
}

#[test]
fn facet_without_width_takes_the_first_or_the_last_texel() {
    // The first and the third point share their column: pixels to its right
    // take the last texel column, those to its left the first.
    let texels = [R, G];
    let path = [
        PathOp::Move(px(2), px(0), 0),
        PathOp::Line(px(4), px(1), 0),
        PathOp::Line(px(2), px(2), 0),
        PathOp::Line(px(0), px(1), 0),
    ];
    let mut buffer = vec![0u8; 4 * 2 * 4];
    let mut lines = Vec::new();
    let mut curves = Vec::new();
    let r = bitmap(
        &mut buffer,
        Size(4, 2),
        16,
        &path,
        (2, 1, &texels),
        &mut lines,
        &mut curves,
        ONE,
        ONE,
    );
    assert_eq!(r, Ok(()));
    let left = pixel(&buffer, 16, 1, 0);
    let right = pixel(&buffer, 16, 2, 0);
    assert_eq!((left[0], left[1]), (255, 0));
    assert_eq!((right[0], right[1]), (0, 255));
}

#[test]
fn fill_with_a_paint() {
    let at = |x: i64, y: i64| point(x * 65536, y * 65536);
    let edges = [
        Line { p0: at(0, 0), p1: at(0, 1) },
        Line { p0: at(2, 1), p1: at(2, 0) },
    ];
    let mut buffer = vec![0u8; 12];
    fill_edges(&mut buffer, Size(3, 1), 12, &edges, &Paint::Solid([4, 5, 6, 255]));
    assert_eq!(buffer, vec![4, 5, 6, 255, 4, 5, 6, 255, 0, 0, 0, 0]);
    let texels = [R, G, B];
    let paint = Paint::Texture { width: 3, height: 1, texels: &texels, near: at(0, 0), far: at(3, 1) };
    fill_edges(&mut buffer, Size(3, 1), 12, &edges, &paint);
    assert_eq!(buffer, vec![255, 0, 0, 255, 0, 255, 0, 255, 0, 0, 0, 0]);
}

#[test]
fn fill_with_a_mask() {
    let mask = [0, 255, 128, 0, 1, 0];
    let mut buffer = vec![0u8; 2 * 14];
    for byte in buffer.iter_mut() {
        *byte = 200;
    }
    fill_mask(&mut buffer, Size(3, 2), 14, &mask, &Paint::Solid([10, 20, 30, 255]));
    let p = |x: usize, y: usize| pixel(&buffer, 14, x, y);
    assert_eq!(p(0, 0), [200, 200, 200, 200]);
    assert_eq!(p(1, 0), [10, 20, 30, 255]);
    // Source alpha 128: 10 * 128 / 255 = 5, and the destination, 200 * 200 /
    // 255 = 156, let through by 127: 156 * 127 / 255 = 77. Alpha 128 + 200 *
    // 127 / 255 = 227; (5 + 77) * 256 / 227 = 92.
    assert_eq!(p(2, 0), [92, 98, 103, 227]);
    // Source alpha 1 over alpha 200: alpha 1 + 200 * 254 / 255 = 200.
    assert_eq!(p(1, 1), [198, 198, 198, 200]);
    assert_eq!(p(2, 1), [200, 200, 200, 200]);
    assert_eq!(buffer[12..14], [200, 200]);
    assert_eq!(buffer[26..28], [200, 200]);
}

#[test]
fn convex_polygon_either_way_round() {
    // A hexagon on a canvas of 16 by 14, on a grey ground.
    let corners = [(8, 1), (14, 4), (14, 10), (8, 13), (2, 10), (2, 4)];
    let path = |cs: &[(i64, i64)]| -> Vec<PathOp> {
        cs.iter()
            .enumerate()
            .map(|(i, &(x, y))| {
                if i == 0 {
                    PathOp::Move(px(x), px(y), 0)
                } else {
                    PathOp::Line(px(x), px(y), 0)
                }
            })
            .collect()
    };
    let mut back = corners;
    back.reverse();
    let mut one = vec![90u8; 16 * 14 * 4];
    let mut other = one.clone();
    let mut lines = Vec::new();
    let mut curves = Vec::new();
    let color = [10, 200, 30, 255];
    assert_eq!(
        draw(&mut one, Size(16, 14), 64, &path(&corners), color, &mut lines, &mut curves, ONE, ONE),
        Ok(())
    );
    assert_eq!(
        draw(&mut other, Size(16, 14), 64, &path(&back), color, &mut lines, &mut curves, ONE, ONE),
        Ok(())
    );
    assert_eq!(one, other);
    let side = |a: (i64, i64), b: (i64, i64), x: i64, y: i64| {
        (b.0 - a.0) * (y - a.1) - (x - a.0) * (b.1 - a.1)
    };
    for y in 0..14i64 {
        for x in 0..16i64 {
            let square = [(x, y), (x + 1, y), (x, y + 1), (x + 1, y + 1)];
            // The square lies within the polygon, or one line parts them.
            let within = (0..6).all(|k| {
                square.iter().all(|&(u, v)| side(corners[k], corners[(k + 1) % 6], u, v) >= 0)
            });
            let beyond = (0..6).any(|k| {
                square.iter().all(|&(u, v)| side(corners[k], corners[(k + 1) % 6], u, v) <= 0)
            });
            let got = pixel(&one, 64, x as usize, y as usize);
            if within {
                assert_eq!(got, color, "({}, {})", x, y);
            }
            if beyond {
                assert_eq!(got, [90, 90, 90, 90], "({}, {})", x, y);
            }
        }
    }
    assert_eq!(pixel(&one, 64, 8, 7), color);
    assert_eq!(pixel(&one, 64, 0, 0), [90, 90, 90, 90]);
}
