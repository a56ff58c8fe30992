//! Drawing of vector paths onto RGBA byte buffers.
//!
//! A buffer holds the rows of a canvas from top to bottom, each row `pitch`
//! bytes long, each pixel four bytes in the order red, green, blue, alpha:
//! the pixel in column `x` of row `y` begins at byte `y * pitch + 4 * x`.

use vstd::prelude::*;
use vstd::arithmetic::div_mod::lemma_fundamental_div_mod_converse;
use vstd::slice::slice_subrange;
use crate::Size;
use crate::draw::composite::{Rgba, rgba, channel, composite_pixel, composite};
use crate::draw::curves::{edges_of, outline_edges};
use crate::draw::geometry::{Point, Line, Curve, LIMIT, lines_wf, curves_wf};
use crate::draw::path::{
    PathOp, PathError, segments, build_segments, facets, check_facets, op_point, end_point,
    first_fault, lemma_facet_traces,
};
use crate::draw::rasterizer::{coverage, coverage_row, touched_rows};

pub mod composite;
pub mod curves;
pub mod geometry;
pub mod path;
pub mod rasterizer;
pub mod util;
pub mod winding;

verus! {

/// The pixel whose four bytes begin at `at`.
pub open spec fn pixel_at(buf: Seq<u8>, at: int) -> Rgba {
    Rgba { r: buf[at], g: buf[at + 1], b: buf[at + 2], a: buf[at + 3] }
}

/// A buffer of `len` bytes holds a canvas of this size with this pitch.
pub open spec fn fits(wh: Size, pitch: int, len: int) -> bool {
    4 * wh.0 <= pitch && wh.1 * pitch <= len
}

/// What a shape is filled with.
#[derive(Clone, Copy, Debug)]
pub enum Paint<'a> {
    /// One colour for every pixel.
    Solid([u8; 4]),
    /// The texels of a texture `width` wide and `height` high, stored row by
    /// row. The texture is stretched along each axis so that it begins at the
    /// coordinate of `near` and ends at that of `far`.
    Texture { width: u16, height: u16, texels: &'a [[u8; 4]], near: Point, far: Point },
}

impl<'a> Paint<'a> {
    /// A texture has a texel for every place of its width and height, and
    /// its two corners are within the limit of coordinates.
    pub open spec fn wf(self) -> bool {
        match self {
            Paint::Solid(_) => true,
            Paint::Texture { width, height, texels, near, far } => {
                &&& width > 0
                &&& height > 0
                &&& texels@.len() >= width * height
                &&& near.wf()
                &&& far.wf()
            },
        }
    }

    /// The colour for the pixel `(x, y)`.
    pub open spec fn color_at(self, x: int, y: int) -> Rgba {
        match self {
            Paint::Solid(c) => rgba(c),
            Paint::Texture { width, height, texels, near, far } => rgba(
                texels@[texel(center(y), near.y as int, far.y as int, height as int) * width
                    + texel(center(x), near.x as int, far.x as int, width as int)],
            ),
        }
    }
}

/// The coordinate of the middle of pixel column (or row) `pixel`.
pub open spec fn center(pixel: int) -> int {
    pixel * 65536 + 32768
}

/// The texel column (or row) for the coordinate `at`, in a texture of `size`
/// columns that begins at `near` and ends at `far`: the span is cut into
/// `size` equal parts and the part that holds `at` is taken, the first or the
/// last where `at` is outside the span. A span of no length has its first
/// part up to `near` and its last part after it.
pub open spec fn texel(at: int, near: int, far: int, size: int) -> int {
    let off = at - near;
    let span = far - near;
    if span == 0 {
        if off > 0 {
            size - 1
        } else {
            0
        }
    } else {
        let part = if span > 0 {
            (off * size) / span
        } else {
            ((-off) * size) / (-span)
        };
        if part < 0 {
            0
        } else if part > size - 1 {
            size - 1
        } else {
            part
        }
    }
}

/// The row of the canvas that byte `i` of a buffer lies in.
pub open spec fn row_of(i: int, pitch: int) -> int {
    i / pitch
}

/// The column of the canvas that byte `i` of a buffer lies in.
pub open spec fn column_of(i: int, pitch: int) -> int {
    (i % pitch) / 4
}

/// Byte `i` of the buffer after painting, where the pixel it lies in has the
/// coverage `cover`. A byte of a pixel of the canvas with some coverage is
/// the byte of the paint's colour for that pixel laid over the pixel; every
/// other byte is as it was.
pub open spec fn painted_byte(
    buf: Seq<u8>,
    wh: Size,
    pitch: int,
    paint: Paint,
    i: int,
    cover: int,
) -> u8 {
    let y = row_of(i, pitch);
    let x = column_of(i, pitch);
    if pitch > 0 && y < wh.1 && x < wh.0 && cover > 0 {
        channel(
            composite_pixel(cover, paint.color_at(x, y), pixel_at(buf, y * pitch + 4 * x)),
            (i % pitch) % 4,
        )
    } else {
        buf[i]
    }
}

/// Byte `i` of the buffer after a shape with these edges was filled: every
/// pixel is painted with its coverage by the shape.
pub open spec fn filled_byte(
    buf: Seq<u8>,
    wh: Size,
    pitch: int,
    edges: Seq<Line>,
    paint: Paint,
    i: int,
) -> u8 {
    painted_byte(
        buf,
        wh,
        pitch,
        paint,
        i,
        coverage(edges, column_of(i, pitch), row_of(i, pitch)),
    )
}

/// The buffer after a shape with these edges was filled.
pub open spec fn filled(buf: Seq<u8>, wh: Size, pitch: int, edges: Seq<Line>, paint: Paint) -> Seq<
    u8,
> {
    Seq::new(buf.len(), |i: int| filled_byte(buf, wh, pitch, edges, paint, i))
}

/// Byte `i` of the buffer after a mask was painted: every pixel is painted
/// with the coverage that the mask holds for it. The mask holds the rows of
/// the canvas one after the other, one byte for each pixel.
pub open spec fn masked_byte(
    buf: Seq<u8>,
    wh: Size,
    pitch: int,
    mask: Seq<u8>,
    paint: Paint,
    i: int,
) -> u8 {
    painted_byte(
        buf,
        wh,
        pitch,
        paint,
        i,
        mask[row_of(i, pitch) * wh.0 + column_of(i, pitch)] as int,
    )
}

/// The buffer after a mask was painted.
pub open spec fn masked(buf: Seq<u8>, wh: Size, pitch: int, mask: Seq<u8>, paint: Paint) -> Seq<
    u8,
> {
    Seq::new(buf.len(), |i: int| masked_byte(buf, wh, pitch, mask, paint, i))
}

/// The texel column (or row) for the middle of pixel column (or row) `pixel`.
fn texel_for(pixel: usize, near: i64, far: i64, size: u16) -> (t: usize)
    requires
        pixel < 65535,
        size > 0,
        -LIMIT <= near <= LIMIT,
        -LIMIT <= far <= LIMIT,
    ensures
        t as int == texel(center(pixel as int), near as int, far as int, size as int),
        t < size,
{
    let at: i128 = (pixel as i128) * 65536 + 32768;
    let off: i128 = at - near as i128;
    let span: i128 = far as i128 - near as i128;
    let last: usize = (size - 1) as usize;
    if span == 0 {
        if off > 0 {
            last
        } else {
            0
        }
    } else {
        assert(-0x1_0000_0000_0000 * 0x1_0000 <= off * size <= 0x1_0000_0000_0000 * 0x1_0000)
            by (nonlinear_arith)
            requires
                -0x1_0000_0000_0000 <= off <= 0x1_0000_0000_0000,
                0 < size <= 0x1_0000,
        ;
        let num: i128 = off * (size as i128);
        let (n, d): (i128, i128) = if span > 0 {
            (num, span)
        } else {
            (-num, -span)
        };
        assert((-off) * size == -(off * size)) by (nonlinear_arith);
        if n <= 0 {
            assert(n / d <= 0) by (nonlinear_arith)
                requires
                    n <= 0,
                    d > 0,
            ;
            0
        } else {
            let q: i128 = n / d;
            assert(q >= 0) by (nonlinear_arith)
                requires
                    q == n / d,
                    n > 0,
                    d > 0,
            ;
            if q > last as i128 {
                last
            } else {
                q as usize
            }
        }
    }
}

/// The colour of a paint for the pixel `(x, y)`.
fn paint_color(paint: &Paint, x: usize, y: usize) -> (c: [u8; 4])
    requires
        paint.wf(),
        x < 65535,
        y < 65535,
    ensures
        rgba(c) == paint.color_at(x as int, y as int),
{
    match paint {
        Paint::Solid(c) => *c,
        Paint::Texture { width, height, texels, near, far } => {
            let tx = texel_for(x, near.x, far.x, *width);
            let ty = texel_for(y, near.y, far.y, *height);
            assert(ty * *width + tx < *width * *height) by (nonlinear_arith)
                requires
                    tx < *width,
                    ty < *height,
            ;
            let w: usize = *width as usize;
            assert(ty * w <= 65535 * 65535) by (nonlinear_arith)
                requires
                    ty < 65535,
                    w <= 65535,
            ;
            texels[ty * w + tx]
        },
    }
}

/// Lays a colour with a coverage over the pixel that begins at byte `at`.
fn blend_at(image: &mut [u8], at: usize, cover: u8, color: [u8; 4])
    requires
        at + 4 <= old(image)@.len(),
    ensures
        final(image)@.len() == old(image)@.len(),
        forall|i: int|
            0 <= i < old(image)@.len() ==> #[trigger] final(image)@[i] == if at <= i < at + 4 {
                channel(
                    composite_pixel(cover as int, rgba(color), pixel_at(old(image)@, at as int)),
                    i - at,
                )
            } else {
                old(image)@[i]
            },
{
    let dst: [u8; 4] = [image[at], image[at + 1], image[at + 2], image[at + 3]];
    let out = composite(cover, color, dst);
    image[at] = out[0];
    image[at + 1] = out[1];
    image[at + 2] = out[2];
    image[at + 3] = out[3];
}

/// Byte `y * pitch + r` lies in row `y`, `r` bytes from its start.
proof fn lemma_locate(i: int, pitch: int, y: int, r: int)
    requires
        0 <= r < pitch,
        i == y * pitch + r,
    ensures
        i / pitch == y,
        i % pitch == r,
{
    lemma_fundamental_div_mod_converse(i, pitch, y, r);
}

/// Rows are in the buffer one after the other.
proof fn lemma_row_start(y: int, height: int, pitch: int)
    by (nonlinear_arith)
    requires
        0 <= y < height,
        0 <= pitch,
    ensures
        0 <= y * pitch,
        y * pitch + pitch <= height * pitch,
        (y + 1) * pitch == y * pitch + pitch,
{
}

/// Paints one row of the canvas: the paint's colour for a pixel is laid over
/// every pixel of row `y` for which `cover` holds some coverage.
fn paint_row(image: &mut [u8], wh: Size, pitch: usize, y: usize, cover: &[u8], paint: &Paint)
    requires
        fits(wh, pitch as int, old(image)@.len() as int),
        y < wh.1,
        cover@.len() == wh.0,
        paint.wf(),
    ensures
        final(image)@.len() == old(image)@.len(),
        forall|i: int|
            0 <= i < old(image)@.len() ==> #[trigger] final(image)@[i] == if y * pitch <= i < y
                * pitch + pitch {
                painted_byte(
                    old(image)@,
                    wh,
                    pitch as int,
                    *paint,
                    i,
                    cover@[column_of(i, pitch as int)] as int,
                )
            } else {
                old(image)@[i]
            },
{
    let width: usize = wh.0 as usize;
    let ghost before = image@;
    let len: usize = image.len();
    proof {
        lemma_row_start(y as int, wh.1 as int, pitch as int);
    }
    let start: usize = y * pitch;
    let mut x: usize = 0;
    while x < width
        invariant
            x <= width,
            y < wh.1,
            width == wh.0,
            start == y * pitch,
            start + pitch <= before.len(),
            len == before.len(),
            paint.wf(),
            fits(wh, pitch as int, before.len() as int),
            image@.len() == before.len(),
            cover@.len() == width,
            forall|i: int|
                start <= i < start + 4 * x ==> #[trigger] image@[i] == painted_byte(
                    before,
                    wh,
                    pitch as int,
                    *paint,
                    i,
                    cover@[column_of(i, pitch as int)] as int,
                ),
            forall|i: int|
                0 <= i < before.len() && !(start <= i < start + 4 * x) ==> #[trigger] image@[i]
                    == before[i],
        decreases width - x,
    {
        let at: usize = start + 4 * x;
        let c: u8 = cover[x];
        let ghost prev = image@;
        if c > 0 {
            let color = paint_color(paint, x, y);
            blend_at(image, at, c, color);
            assert(pixel_at(prev, at as int) == pixel_at(before, at as int));
        }
        assert forall|i: int| at <= i < at + 4 implies #[trigger] image@[i] == painted_byte(
            before,
            wh,
            pitch as int,
            *paint,
            i,
            cover@[column_of(i, pitch as int)] as int,
        ) by {
            lemma_locate(i, pitch as int, y as int, i - start);
        }
        x += 1;
    }
    assert forall|i: int| start + 4 * width <= i < start + pitch implies #[trigger] image@[i]
        == painted_byte(
        before,
        wh,
        pitch as int,
        *paint,
        i,
        cover@[column_of(i, pitch as int)] as int,
    ) by {
        lemma_locate(i, pitch as int, y as int, i - start);
    }
}

/// Fills the shape with these edges: the paint's colour for a pixel is laid
/// over every pixel of the canvas that the shape covers in part or in whole,
/// with that pixel's coverage.
pub fn fill_edges(image: &mut [u8], wh: Size, pitch: usize, edges: &[Line], paint: &Paint)
    requires
        fits(wh, pitch as int, old(image)@.len() as int),
        lines_wf(edges@),
        paint.wf(),
    ensures
        final(image)@ == filled(old(image)@, wh, pitch as int, edges@, *paint),
{
    let width: usize = wh.0 as usize;
    let height: usize = wh.1 as usize;
    let ghost before = image@;
    let (first, last) = touched_rows(edges, height);
    let mut y: usize = first;
    while y < last
        invariant
            first <= y <= last <= height,
            width == wh.0,
            height == wh.1,
            fits(wh, pitch as int, before.len() as int),
            lines_wf(edges@),
            paint.wf(),
            image@.len() == before.len(),
            forall|i: int|
                0 <= i < before.len() ==> #[trigger] image@[i] == if first * pitch <= i < y * pitch {
                    filled_byte(before, wh, pitch as int, edges@, *paint, i)
                } else {
                    before[i]
                },
        decreases last - y,
    {
        let row = coverage_row(edges, width, y);
        let ghost prev = image@;
        paint_row(image, wh, pitch, y, row.as_slice(), paint);
        assert forall|i: int| 0 <= i < before.len() implies #[trigger] image@[i] == if first
            * pitch <= i < (y + 1) * pitch {
            filled_byte(before, wh, pitch as int, edges@, *paint, i)
        } else {
            before[i]
        } by {
            lemma_row_start(y as int, height as int, pitch as int);
            lemma_rows_in_order(first as int, y as int, pitch as int);
            if y * pitch <= i < y * pitch + pitch {
                lemma_locate(i, pitch as int, y as int, i - y * pitch);
                lemma_same_pixel(prev, before, wh, pitch as int, *paint, i, y as int);
            }
        }
        y += 1;
    }
    assert forall|i: int| 0 <= i < before.len() implies #[trigger] image@[i] == filled_byte(
        before,
        wh,
        pitch as int,
        edges@,
        *paint,
        i,
    ) by {
        lemma_row_of(i, pitch as int, first as int);
        lemma_row_of(i, pitch as int, last as int);
        lemma_past_canvas(i, pitch as int, height as int);
    }
    assert(image@ =~= filled(before, wh, pitch as int, edges@, *paint));
}

/// A row begins where the rows before it end.
proof fn lemma_rows_in_order(a: int, b: int, pitch: int)
    by (nonlinear_arith)
    requires
        0 <= a <= b,
        0 <= pitch,
    ensures
        a * pitch <= b * pitch,
{
}

/// The bytes before the start of row `y` lie in the rows before it, the
/// others do not.
proof fn lemma_row_of(i: int, pitch: int, y: int)
    ensures
        pitch > 0 && 0 <= i ==> (i < y * pitch <==> row_of(i, pitch) < y),
{
    if pitch > 0 && 0 <= i {
        assert(i < y * pitch <==> i / pitch < y) by (nonlinear_arith)
            requires
                pitch > 0,
                0 <= i,
        ;
    }
}

/// Painting a byte of row `y` gives the same for two buffers that agree from
/// row `y` on.
proof fn lemma_same_pixel(
    now: Seq<u8>,
    before: Seq<u8>,
    wh: Size,
    pitch: int,
    paint: Paint,
    i: int,
    y: int,
)
    requires
        fits(wh, pitch, before.len() as int),
        now.len() == before.len(),
        0 <= y < wh.1,
        y * pitch <= i < y * pitch + pitch,
        row_of(i, pitch) == y,
        forall|k: int| y * pitch <= k < before.len() ==> now[k] == before[k],
    ensures
        forall|c: int|
            painted_byte(now, wh, pitch, paint, i, c) == painted_byte(before, wh, pitch, paint, i, c),
{
    lemma_row_start(y, wh.1 as int, pitch);
    let x = column_of(i, pitch);
    if x < wh.0 {
        let at = y * pitch + 4 * x;
        assert(0 <= i % pitch < pitch);
        assert(now[at] == before[at]);
        assert(now[at + 1] == before[at + 1]);
        assert(now[at + 2] == before[at + 2]);
        assert(now[at + 3] == before[at + 3]);
    }
}

/// A byte after the last row of the canvas is in no row of the canvas.
proof fn lemma_past_canvas(i: int, pitch: int, height: int)
    ensures
        i >= height * pitch && pitch > 0 ==> row_of(i, pitch) >= height,
{
    if i >= height * pitch && pitch > 0 {
        assert(i / pitch >= height) by (nonlinear_arith)
            requires
                i >= height * pitch,
                pitch > 0,
        ;
    }
}

/// Paints a mask: the paint's colour for a pixel is laid over every pixel of
/// the canvas for which the mask holds some coverage, with that coverage. The
/// mask holds the rows of the canvas one after the other, one byte for each
/// pixel.
pub fn fill_mask(image: &mut [u8], wh: Size, pitch: usize, mask: &[u8], paint: &Paint)
    requires
        fits(wh, pitch as int, old(image)@.len() as int),
        mask@.len() == wh.0 * wh.1,
        paint.wf(),
    ensures
        final(image)@ == masked(old(image)@, wh, pitch as int, mask@, *paint),
{
    let width: usize = wh.0 as usize;
    let height: usize = wh.1 as usize;
    let ghost before = image@;
    let total: usize = mask.len();
    let mut y: usize = 0;
    while y < height
        invariant
            y <= height,
            width == wh.0,
            height == wh.1,
            total == mask@.len(),
            mask@.len() == wh.0 * wh.1,
            fits(wh, pitch as int, before.len() as int),
            paint.wf(),
            image@.len() == before.len(),
            forall|i: int|
                0 <= i < before.len() ==> #[trigger] image@[i] == if i < y * pitch {
                    masked_byte(before, wh, pitch as int, mask@, *paint, i)
                } else {
                    before[i]
                },
        decreases height - y,
    {
        proof {
            lemma_row_start(y as int, height as int, width as int);
            assert(height * width == wh.0 * wh.1) by (nonlinear_arith)
                requires
                    width == wh.0,
                    height == wh.1,
            ;
        }
        let row = slice_subrange(mask, y * width, y * width + width);
        let ghost prev = image@;
        paint_row(image, wh, pitch, y, row, paint);
        assert forall|i: int| 0 <= i < before.len() implies #[trigger] image@[i] == if i < (y + 1)
            * pitch {
            masked_byte(before, wh, pitch as int, mask@, *paint, i)
        } else {
            before[i]
        } by {
            lemma_row_start(y as int, height as int, pitch as int);
            if y * pitch <= i < y * pitch + pitch {
                lemma_locate(i, pitch as int, y as int, i - y * pitch);
                lemma_same_pixel(prev, before, wh, pitch as int, *paint, i, y as int);
                let x = column_of(i, pitch as int);
                if x < width {
                    assert(row@[x] == mask@[y * width + x]);
                }
            }
        }
        y += 1;
    }
    assert forall|i: int| 0 <= i < before.len() implies #[trigger] image@[i] == masked_byte(
        before,
        wh,
        pitch as int,
        mask@,
        *paint,
        i,
    ) by {
        lemma_past_canvas(i, pitch as int, height as int);
    }
    assert(image@ =~= masked(before, wh, pitch as int, mask@, *paint));
}

/// Filling a shape without edges changes nothing.
pub proof fn lemma_nothing_to_fill(buf: Seq<u8>, wh: Size, pitch: int, paint: Paint)
    ensures
        filled(buf, wh, pitch, Seq::empty(), paint) == buf,
{
    assert forall|i: int| 0 <= i < buf.len() implies filled_byte(
        buf,
        wh,
        pitch,
        Seq::empty(),
        paint,
        i,
    ) == buf[i] by {
        crate::draw::rasterizer::lemma_no_edges(column_of(i, pitch), row_of(i, pitch));
    }
    assert(filled(buf, wh, pitch, Seq::empty(), paint) =~= buf);
}

/// Draws a path filled with one colour. The path is scaled by `(w, h)` and
/// traced; its segments are added to what `lines` and `curves` hold, and the
/// shape that all of them bound is filled under the non-zero winding rule.
/// A path that cannot be traced is refused and the buffer left as it was.
/// The two lists are empty afterwards either way.
pub fn draw(
    image: &mut [u8],
    wh: Size,
    pitch: usize,
    path: &[PathOp],
    color: [u8; 4],
    lines: &mut Vec<Line>,
    curves: &mut Vec<Curve>,
    w: i64,
    h: i64,
) -> (r: Result<(), PathError>)
    requires
        fits(wh, pitch as int, old(image)@.len() as int),
        lines_wf(old(lines)@),
        curves_wf(old(curves)@),
    ensures
        match segments(path@, w, h, old(lines)@, old(curves)@) {
            Ok((l, c)) => r is Ok && final(image)@ == filled(
                old(image)@,
                wh,
                pitch as int,
                edges_of(l, c),
                Paint::Solid(color),
            ),
            Err(e) => r == Err::<(), PathError>(e) && final(image)@ == old(image)@,
        },
        final(lines)@.len() == 0,
        final(curves)@.len() == 0,
{
    let traced = build_segments(path, w, h, lines, curves);
    let r = match traced {
        Ok(()) => {
            let edges = outline_edges(lines.as_slice(), curves.as_slice());
            fill_edges(image, wh, pitch, edges.as_slice(), &Paint::Solid(color));
            Ok(())
        },
        Err(e) => Err(e),
    };
    lines.clear();
    curves.clear();
    r
}

/// The four operations of facet `f` of a path.
pub open spec fn facet_ops(ops: Seq<PathOp>, f: int) -> Seq<PathOp> {
    ops.subrange(4 * f, 4 * f + 4)
}

/// The edges of facet `f` of a path, together with what the two lists held
/// before the first facet.
pub open spec fn facet_edges(
    ops: Seq<PathOp>,
    f: int,
    w: i64,
    h: i64,
    lines: Seq<Line>,
    curves: Seq<Curve>,
) -> Seq<Line> {
    let held = segments(
        facet_ops(ops, f),
        w,
        h,
        if f == 0 {
            lines
        } else {
            Seq::empty()
        },
        if f == 0 {
            curves
        } else {
            Seq::empty()
        },
    )->Ok_0;
    edges_of(held.0, held.1)
}

/// The paint of facet `f` of a path: the texture, stretched from the facet's
/// first point to its third.
pub open spec fn facet_paint<'a>(
    ops: Seq<PathOp>,
    f: int,
    w: i64,
    h: i64,
    texture: (u16, u16, &'a [[u8; 4]]),
) -> Paint<'a> {
    Paint::Texture {
        width: texture.0,
        height: texture.1,
        texels: texture.2,
        near: op_point(ops[4 * f], w, h),
        far: op_point(ops[4 * f + 2], w, h),
    }
}

/// The buffer after the first `n` facets of a path were drawn, one after the
/// other.
pub open spec fn facets_drawn(
    buf: Seq<u8>,
    wh: Size,
    pitch: int,
    ops: Seq<PathOp>,
    texture: (u16, u16, &[[u8; 4]]),
    lines: Seq<Line>,
    curves: Seq<Curve>,
    w: i64,
    h: i64,
    n: int,
) -> Seq<u8>
    decreases n,
{
    if n <= 0 {
        buf
    } else {
        filled(
            facets_drawn(buf, wh, pitch, ops, texture, lines, curves, w, h, n - 1),
            wh,
            pitch,
            facet_edges(ops, n - 1, w, h, lines, curves),
            facet_paint(ops, n - 1, w, h, texture),
        )
    }
}

/// A facet of a path of whole facets has no fault.
proof fn lemma_facet_sound(ops: Seq<PathOp>, f: int)
    requires
        facets(ops) is Ok,
        0 <= f,
        4 * f + 4 <= ops.len(),
    ensures
        first_fault(facet_ops(ops, f), 4) is None,
{
    let group = facet_ops(ops, f);
    crate::draw::path::lemma_no_fault(ops, ops.len() as int, 4 * f);
    crate::draw::path::lemma_no_fault(ops, ops.len() as int, 4 * f + 1);
    crate::draw::path::lemma_no_fault(ops, ops.len() as int, 4 * f + 2);
    crate::draw::path::lemma_no_fault(ops, ops.len() as int, 4 * f + 3);
    assert(group[0] == ops[4 * f]);
    assert(group[1] == ops[4 * f + 1]);
    assert(group[2] == ops[4 * f + 2]);
    assert(group[3] == ops[4 * f + 3]);
    assert(first_fault(group, 0) is None);
    assert(first_fault(group, 1) is None);
    assert(first_fault(group, 2) is None);
    assert(first_fault(group, 3) is None);
}

/// Draws a path of facets filled from a texture. A facet is a move and three
/// segments, each a line or a quadratic curve; it is filled as a closed shape
/// with the texture stretched, along each axis, from the facet's first point
/// to its third, and sampled at the middle of each pixel. The facets are drawn
/// one after the other. A path that is not made of whole facets is refused
/// and the buffer left as it was. What `lines` and `curves` hold is drawn
/// with the first facet, and the two lists are empty afterwards.
pub fn bitmap(
    image: &mut [u8],
    wh: Size,
    pitch: usize,
    path: &[PathOp],
    texture: (u16, u16, &[[u8; 4]]),
    lines: &mut Vec<Line>,
    curves: &mut Vec<Curve>,
    w: i64,
    h: i64,
) -> (r: Result<(), PathError>)
    requires
        fits(wh, pitch as int, old(image)@.len() as int),
        lines_wf(old(lines)@),
        curves_wf(old(curves)@),
        texture.0 > 0,
        texture.1 > 0,
        texture.2@.len() >= texture.0 * texture.1,
    ensures
        match facets(path@) {
            Ok(()) => r is Ok && final(image)@ == facets_drawn(
                old(image)@,
                wh,
                pitch as int,
                path@,
                texture,
                old(lines)@,
                old(curves)@,
                w,
                h,
                path@.len() as int / 4,
            ),
            Err(e) => r == Err::<(), PathError>(e) && final(image)@ == old(image)@,
        },
        final(lines)@.len() == 0,
        final(curves)@.len() == 0,
{
    match check_facets(path) {
        Ok(()) => {},
        Err(e) => {
            lines.clear();
            curves.clear();
            return Err(e);
        },
    }
    let total: usize = path.len();
    let count: usize = total / 4;
    let ghost before = image@;
    let ghost lines0 = lines@;
    let ghost curves0 = curves@;
    let mut f: usize = 0;
    while f < count
        invariant
            f <= count,
            total == path@.len(),
            4 * count == total,
            facets(path@) is Ok,
            fits(wh, pitch as int, before.len() as int),
            image@.len() == before.len(),
            texture.0 > 0,
            texture.1 > 0,
            texture.2@.len() >= texture.0 * texture.1,
            lines_wf(lines@),
            curves_wf(curves@),
            lines@ == if f == 0 {
                lines0
            } else {
                Seq::<Line>::empty()
            },
            curves@ == if f == 0 {
                curves0
            } else {
                Seq::<Curve>::empty()
            },
            image@ == facets_drawn(
                before,
                wh,
                pitch as int,
                path@,
                texture,
                lines0,
                curves0,
                w,
                h,
                f as int,
            ),
        decreases count - f,
    {
        let group = slice_subrange(path, 4 * f, 4 * f + 4);
        proof {
            lemma_facet_sound(path@, f as int);
            lemma_facet_traces(group@, w, h, lines@, curves@);
        }
        let _ = build_segments(group, w, h, lines, curves);
        let paint = Paint::Texture {
            width: texture.0,
            height: texture.1,
            texels: texture.2,
            near: end_point(&path[4 * f], w, h),
            far: end_point(&path[4 * f + 2], w, h),
        };
        let edges = outline_edges(lines.as_slice(), curves.as_slice());
        fill_edges(image, wh, pitch, edges.as_slice(), &paint);
        lines.clear();
        curves.clear();
        f += 1;
    }
    lines.clear();
    curves.clear();
    Ok(())
}

} // verus!
