//! Scan conversion of lines and curves into anti-aliased coverage.
//!
//! Curves are first flattened into short lines. Each pixel is then sampled on
//! a regular grid of sixteen by sixteen points. A sample is inside the shape
//! where its winding number is not zero: the number of edges that cross, in a
//! downward sense, the ray from the sample to the right, less the number that
//! cross it in an upward sense. The coverage of a pixel is the fraction of its
//! samples that are inside, as a value from 0 to 255.

use vstd::prelude::*;
use crate::draw::curves::{edges_of, outline_edges};
use crate::draw::geometry::{Line, Curve, LIMIT, lines_wf, curves_wf, floor_div};

verus! {

/// The number of samples in a pixel along each axis.
pub const GRID: usize = 16;

/// The widest and the highest canvas, in pixels.
pub const MAX_SIDE: usize = 65535;

/// The coordinate of sample `k` of the pixel in column (or row) `pixel`.
pub open spec fn sample(pixel: int, k: int) -> int {
    pixel * 65536 + k * 4096 + 2048
}

/// Twice the signed area of the triangle `l.p0`, `l.p1`, `(x, y)`. For a line
/// with growing `y` it is positive where the point is on the side of smaller
/// `x`.
pub open spec fn side(l: Line, x: int, y: int) -> int {
    (l.p1.x - l.p0.x) * (y - l.p0.y) - (x - l.p0.x) * (l.p1.y - l.p0.y)
}

/// The sense in which a line passes the height `y`: 1 where `y` grows along
/// it, -1 where `y` shrinks, 0 where it does not pass that height. The end of
/// smaller `y` belongs to the line, the other does not.
pub open spec fn direction(l: Line, y: int) -> int {
    if l.p0.y <= y < l.p1.y {
        1
    } else if l.p1.y <= y < l.p0.y {
        -1
    } else {
        0
    }
}

/// What a line adds to the winding number of the point `(x, y)`: its
/// direction where it crosses the ray from the point to the right, else 0.
pub open spec fn crossing(l: Line, x: int, y: int) -> int {
    if direction(l, y) == 1 && side(l, x, y) > 0 {
        1
    } else if direction(l, y) == -1 && side(l, x, y) < 0 {
        -1
    } else {
        0
    }
}

/// The winding number of the point `(x, y)` with respect to `edges`.
pub open spec fn winding(edges: Seq<Line>, x: int, y: int) -> int
    decreases edges.len(),
{
    if edges.len() == 0 {
        0
    } else {
        winding(edges.drop_last(), x, y) + crossing(edges.last(), x, y)
    }
}

/// The non-zero winding rule.
pub open spec fn inside(edges: Seq<Line>, x: int, y: int) -> bool {
    winding(edges, x, y) != 0
}

/// How many of the first `n` samples of pixel column `px` at the height `y`
/// are inside.
pub open spec fn row_hits(edges: Seq<Line>, px: int, y: int, n: int) -> int
    decreases n,
{
    if n <= 0 {
        0
    } else {
        row_hits(edges, px, y, n - 1) + if inside(edges, sample(px, n - 1), y) {
            1int
        } else {
            0int
        }
    }
}

/// How many samples in the first `m` sample rows of the pixel `(px, py)` are
/// inside.
pub open spec fn hits(edges: Seq<Line>, px: int, py: int, m: int) -> int
    decreases m,
{
    if m <= 0 {
        0
    } else {
        hits(edges, px, py, m - 1) + row_hits(edges, px, sample(py, m - 1), 16)
    }
}

/// The coverage that stands for `n` of the 256 samples of a pixel: `n / 256`
/// as a fraction of 255, rounded to the nearest.
pub open spec fn coverage_of(n: int) -> int {
    (n * 255 + 128) / 256
}

/// The coverage of the pixel `(px, py)`, from 0 (no sample inside) to 255
/// (every sample inside).
pub open spec fn coverage(edges: Seq<Line>, px: int, py: int) -> int {
    coverage_of(hits(edges, px, py, 16))
}

/// The coordinate of sample column `c`, counted from the left edge of the
/// canvas: column `16 * px + k` is sample `k` of pixel column `px`.
pub open spec fn column(c: int) -> int {
    c * 4096 + 2048
}

/// `side` as a linear function of `x`.
proof fn lemma_side_linear(l: Line, x: int, y: int)
    by (nonlinear_arith)
    ensures
        side(l, x, y) == (l.p1.x - l.p0.x) * (y - l.p0.y) + l.p0.x * (l.p1.y - l.p0.y) - x * (l.p1.y
            - l.p0.y),
{
}

/// Whole multiples of a positive divisor up to a bound.
proof fn lemma_multiples_up_to(n: int, d: int, c: int)
    by (nonlinear_arith)
    requires
        d > 0,
        n >= 0,
        c >= 0,
    ensures
        c * d <= n <==> c <= n / d,
{
}

/// The number of sample columns, from the left edge of the canvas, for which
/// the line crosses the ray to the right of the sample at height `y`. They are
/// the columns before the one where the line passes that height.
fn columns_before(l: &Line, y: i64, ncols: usize) -> (k: usize)
    requires
        l.wf(),
        0 <= y <= 0x1_0000_0000,
        direction(*l, y as int) != 0,
    ensures
        k <= ncols,
        forall|c: int|
            0 <= c < ncols ==> #[trigger] crossing(*l, column(c), y as int) == if c < k {
                direction(*l, y as int)
            } else {
                0
            },
{
    let up = l.p0.y <= y;
    let dy: i128 = if up {
        l.p1.y as i128 - l.p0.y as i128
    } else {
        l.p0.y as i128 - l.p1.y as i128
    };
    let dx: i128 = l.p1.x as i128 - l.p0.x as i128;
    let t: i128 = y as i128 - l.p0.y as i128;
    assert(-0x1_0000_0000_0000 * 0x1_0000_0000_0000 <= dx * t <= 0x1_0000_0000_0000
        * 0x1_0000_0000_0000) by (nonlinear_arith)
        requires
            -0x1_0000_0000_0000 <= dx <= 0x1_0000_0000_0000,
            -0x1_0000_0000_0000 <= t <= 0x1_0000_0000_0000,
    ;
    assert(-0x1_0000_0000_0000 * 0x1_0000_0000_0000 <= l.p0.x * dy <= 0x1_0000_0000_0000
        * 0x1_0000_0000_0000) by (nonlinear_arith)
        requires
            -0x1_0000_0000_0000 <= l.p0.x <= 0x1_0000_0000_0000,
            0 <= dy <= 0x1_0000_0000_0000,
    ;
    let lift: i128 = if up {
        dx * t
    } else {
        -(dx * t)
    };
    let a: i128 = lift + (l.p0.x as i128) * dy;
    let n1: i128 = a - 2048 * dy;
    let dd: i128 = 4096 * dy;
    let k: usize = if n1 <= 0 {
        0
    } else {
        let q: i128 = (n1 - 1) / dd;
        if q >= ncols as i128 {
            ncols
        } else {
            (q + 1) as usize
        }
    };
    assert forall|c: int| 0 <= c < ncols implies #[trigger] crossing(*l, column(c), y as int)
        == if c < k {
        direction(*l, y as int)
    } else {
        0
    } by {
        let x = column(c);
        lemma_side_linear(*l, x, y as int);
        let s = side(*l, x, y as int);
        // s * direction == a - x * dy
        assert(x * dy == c * dd + 2048 * dy) by (nonlinear_arith)
            requires
                x == c * 4096 + 2048,
                dd == 4096 * dy,
        ;
        if up {
            assert(s == a - x * dy);
        } else {
            assert(x * (l.p1.y - l.p0.y) == -(x * dy)) by (nonlinear_arith)
                requires
                    dy == l.p0.y - l.p1.y,
            ;
            assert(l.p0.x * (l.p1.y - l.p0.y) == -(l.p0.x * dy)) by (nonlinear_arith)
                requires
                    dy == l.p0.y - l.p1.y,
            ;
            assert(-s == a - x * dy);
        }
        assert(c * dd >= 0) by (nonlinear_arith)
            requires
                c >= 0,
                dd > 0,
        ;
        if n1 > 0 {
            lemma_multiples_up_to(n1 - 1, dd as int, c);
        }
    }
    k
}

/// The sum of the first `m` entries.
pub open spec fn prefix(s: Seq<i128>, m: int) -> int
    decreases m,
{
    if m <= 0 {
        0
    } else {
        prefix(s, m - 1) + s[m - 1]
    }
}

/// Changing one entry changes the sums that include it by the difference.
proof fn lemma_prefix_update(s: Seq<i128>, t: int, v: i128, m: int)
    requires
        0 <= t < s.len(),
        0 <= m <= s.len(),
    ensures
        prefix(s.update(t, v), m) == prefix(s, m) + if t < m {
            v - s[t]
        } else {
            0
        },
    decreases m,
{
    if m > 0 {
        lemma_prefix_update(s, t, v, m - 1);
    }
}

/// The sums of a list of zeros are zero.
proof fn lemma_prefix_zero(s: Seq<i128>, m: int)
    requires
        0 <= m <= s.len(),
        forall|i: int| 0 <= i < s.len() ==> s[i] == 0,
    ensures
        prefix(s, m) == 0,
    decreases m,
{
    if m > 0 {
        lemma_prefix_zero(s, m - 1);
    }
}

/// A winding number is at most the number of edges, in either sense.
pub proof fn lemma_winding_bound(edges: Seq<Line>, x: int, y: int)
    ensures
        -edges.len() <= winding(edges, x, y) <= edges.len(),
    decreases edges.len(),
{
    if edges.len() > 0 {
        lemma_winding_bound(edges.drop_last(), x, y);
    }
}

/// Fills `delta` so that the sum of its first `c + 1` entries is the winding
/// number of sample column `c` at the height `y`.
fn mark_crossings(edges: &[Line], y: i64, ncols: usize, delta: &mut Vec<i128>)
    requires
        lines_wf(edges@),
        0 <= y <= 0x1_0000_0000,
        old(delta).len() == ncols + 1,
    ensures
        final(delta).len() == ncols + 1,
        forall|c: int|
            0 <= c < ncols ==> prefix(final(delta)@, c + 1) == #[trigger] winding(
                edges@,
                column(c),
                y as int,
            ),
{
    let mut z: usize = 0;
    while z < delta.len()
        invariant
            delta.len() == ncols + 1,
            z <= delta.len(),
            forall|i: int| 0 <= i < z ==> delta[i] == 0,
        decreases delta.len() - z,
    {
        delta[z] = 0;
        z += 1;
    }
    assert forall|c: int| 0 <= c < ncols implies prefix(delta@, c + 1) == #[trigger] winding(
        edges@.take(0),
        column(c),
        y as int,
    ) by {
        lemma_prefix_zero(delta@, c + 1);
    }
    let mut n: usize = 0;
    while n < edges.len()
        invariant
            n <= edges.len(),
            lines_wf(edges@),
            0 <= y <= 0x1_0000_0000,
            delta.len() == ncols + 1,
            forall|i: int| 0 <= i <= ncols ==> -2 * n <= #[trigger] delta[i] <= 2 * n,
            forall|c: int|
                0 <= c < ncols ==> prefix(delta@, c + 1) == #[trigger] winding(
                    edges@.take(n as int),
                    column(c),
                    y as int,
                ),
        decreases edges.len() - n,
    {
        let l = edges[n];
        assert(l.wf());
        let ghost before = delta@;
        let ghost seen = edges@.take(n as int);
        let ghost more = edges@.take(n + 1);
        assert(more.drop_last() == seen);
        assert(more.last() == l);
        let up = l.p0.y <= y && y < l.p1.y;
        let down = l.p1.y <= y && y < l.p0.y;
        if up || down {
            let k = columns_before(&l, y, ncols);
            let d: i128 = if up {
                1
            } else {
                -1
            };
            let first: i128 = delta[0];
            delta[0] = first + d;
            let ghost middle = delta@;
            let at: i128 = delta[k];
            delta[k] = at - d;
            assert forall|c: int| 0 <= c < ncols implies prefix(delta@, c + 1) == #[trigger] winding(
                more,
                column(c),
                y as int,
            ) by {
                lemma_prefix_update(before, 0, (first + d) as i128, c + 1);
                lemma_prefix_update(middle, k as int, (at - d) as i128, c + 1);
                assert(winding(more, column(c), y as int) == winding(seen, column(c), y as int)
                    + crossing(l, column(c), y as int));
            }
        } else {
            assert forall|c: int| 0 <= c < ncols implies prefix(delta@, c + 1) == #[trigger] winding(
                more,
                column(c),
                y as int,
            ) by {
                assert(winding(more, column(c), y as int) == winding(seen, column(c), y as int)
                    + crossing(l, column(c), y as int));
            }
        }
        n += 1;
    }
    assert(edges@.take(n as int) == edges@);
}

/// No more samples are inside than there are samples.
pub proof fn lemma_row_hits_bound(edges: Seq<Line>, px: int, y: int, n: int)
    requires
        0 <= n,
    ensures
        0 <= row_hits(edges, px, y, n) <= n,
    decreases n,
{
    if n > 0 {
        lemma_row_hits_bound(edges, px, y, n - 1);
    }
}

/// No more samples are inside than there are samples.
pub proof fn lemma_hits_bound(edges: Seq<Line>, px: int, py: int, m: int)
    requires
        0 <= m,
    ensures
        0 <= hits(edges, px, py, m) <= 16 * m,
    decreases m,
{
    if m > 0 {
        lemma_hits_bound(edges, px, py, m - 1);
        lemma_row_hits_bound(edges, px, sample(py, m - 1), 16);
    }
}

/// Every coverage is a fraction of 255 between zero and one, and it is zero
/// only where no sample of the pixel is inside.
pub proof fn lemma_coverage_bounds(edges: Seq<Line>, px: int, py: int)
    ensures
        0 <= coverage(edges, px, py) <= 255,
        coverage(edges, px, py) == 0 <==> hits(edges, px, py, 16) == 0,
        coverage(edges, px, py) == 255 <==> hits(edges, px, py, 16) == 256,
{
    lemma_hits_bound(edges, px, py, 16);
}

/// The coverage of every pixel of row `y` of a canvas `width` pixels wide.
pub fn coverage_row(edges: &[Line], width: usize, y: usize) -> (row: Vec<u8>)
    requires
        lines_wf(edges@),
        width <= MAX_SIDE,
        y < MAX_SIDE,
    ensures
        row.len() == width,
        forall|x: int| 0 <= x < width ==> row[x] as int == #[trigger] coverage(edges@, x, y as int),
{
    let ncols: usize = width * GRID;
    let total: usize = edges.len();
    let mut delta: Vec<i128> = Vec::new();
    let mut counts: Vec<u16> = Vec::new();
    let mut f: usize = 0;
    while f <= ncols
        invariant
            f <= ncols + 1,
            ncols <= 16 * MAX_SIDE,
            delta.len() == f,
        decreases ncols + 1 - f,
    {
        delta.push(0);
        f += 1;
    }
    let mut g: usize = 0;
    while g < width
        invariant
            g <= width,
            counts.len() == g,
            forall|x: int| 0 <= x < g ==> counts[x] as int == #[trigger] hits(edges@, x, y as int, 0),
        decreases width - g,
    {
        counts.push(0);
        g += 1;
    }
    let mut j: usize = 0;
    while j < GRID
        invariant
            j <= GRID,
            lines_wf(edges@),
            total == edges@.len(),
            width <= MAX_SIDE,
            y < MAX_SIDE,
            ncols == width * 16,
            delta.len() == ncols + 1,
            counts.len() == width,
            forall|x: int|
                0 <= x < width ==> counts[x] as int == #[trigger] hits(edges@, x, y as int, j as int),
        decreases GRID - j,
    {
        let sy: i64 = (y as i64) * 65536 + (j as i64) * 4096 + 2048;
        assert(sy as int == sample(y as int, j as int));
        mark_crossings(edges, sy, ncols, &mut delta);
        let mut acc: i128 = 0;
        let mut px: usize = 0;
        while px < width
            invariant
                px <= width,
                j < GRID,
                total == edges@.len(),
                width <= MAX_SIDE,
                ncols == width * 16,
                delta.len() == ncols + 1,
                counts.len() == width,
                sy as int == sample(y as int, j as int),
                acc as int == prefix(delta@, 16 * px),
                forall|c: int|
                    0 <= c < ncols ==> prefix(delta@, c + 1) == #[trigger] winding(
                        edges@,
                        column(c),
                        sy as int,
                    ),
                forall|x: int|
                    0 <= x < px ==> counts[x] as int == #[trigger] hits(
                        edges@,
                        x,
                        y as int,
                        j + 1,
                    ),
                forall|x: int|
                    px <= x < width ==> counts[x] as int == #[trigger] hits(
                        edges@,
                        x,
                        y as int,
                        j as int,
                    ),
            decreases width - px,
        {
            let ghost base = hits(edges@, px as int, y as int, j as int);
            proof {
                lemma_hits_bound(edges@, px as int, y as int, j as int);
            }
            let mut i: usize = 0;
            while i < GRID
                invariant
                    i <= GRID,
                    px < width,
                    j < GRID,
                    total == edges@.len(),
                    width <= MAX_SIDE,
                    ncols == width * 16,
                    delta.len() == ncols + 1,
                    counts.len() == width,
                    acc as int == prefix(delta@, 16 * px + i),
                    0 <= base <= 16 * j,
                    base == hits(edges@, px as int, y as int, j as int),
                    forall|c: int|
                        0 <= c < ncols ==> prefix(delta@, c + 1) == #[trigger] winding(
                            edges@,
                            column(c),
                            sy as int,
                        ),
                    counts[px as int] as int == base + row_hits(
                        edges@,
                        px as int,
                        sy as int,
                        i as int,
                    ),
                    forall|x: int|
                        0 <= x < px ==> counts[x] as int == #[trigger] hits(
                            edges@,
                            x,
                            y as int,
                            j + 1,
                        ),
                    forall|x: int|
                        px < x < width ==> counts[x] as int == #[trigger] hits(
                            edges@,
                            x,
                            y as int,
                            j as int,
                        ),
                decreases GRID - i,
            {
                let c: usize = px * GRID + i;
                proof {
                    assert(column(c as int) == sample(px as int, i as int));
                    lemma_winding_bound(edges@, column(c as int), sy as int);
                    lemma_row_hits_bound(edges@, px as int, sy as int, i as int);
                    assert(prefix(delta@, c + 1) == winding(edges@, column(c as int), sy as int));
                    assert(prefix(delta@, c + 1) == prefix(delta@, c as int) + delta@[c as int]);
                }
                acc = acc + delta[c];
                if acc != 0 {
                    let seen: u16 = counts[px];
                    counts[px] = seen + 1;
                }
                i += 1;
            }
            px += 1;
        }
        j += 1;
    }
    let mut row: Vec<u8> = Vec::new();
    let mut x: usize = 0;
    while x < width
        invariant
            x <= width,
            counts.len() == width,
            row.len() == x,
            forall|t: int|
                0 <= t < width ==> counts[t] as int == #[trigger] hits(edges@, t, y as int, 16),
            forall|t: int| 0 <= t < x ==> row[t] as int == #[trigger] coverage(edges@, t, y as int),
        decreases width - x,
    {
        proof {
            lemma_hits_bound(edges@, x as int, y as int, 16);
        }
        let n: u32 = counts[x] as u32;
        row.push(((n * 255 + 128) / 256) as u8);
        x += 1;
    }
    row
}

/// A line that stays at one height, and so one without length too, adds
/// nothing to any winding number.
pub proof fn lemma_level_line(l: Line, x: int, y: int)
    requires
        l.p0.y == l.p1.y,
    ensures
        crossing(l, x, y) == 0,
{
}

/// Without edges no pixel is covered.
pub proof fn lemma_no_edges(px: int, py: int)
    ensures
        coverage(Seq::<Line>::empty(), px, py) == 0,
{
    assert forall|i: int, j: int| 0 <= i < 16 && 0 <= j < 16 implies !inside(
        Seq::<Line>::empty(),
        #[trigger] sample(px, i),
        #[trigger] sample(py, j),
    ) by {}
    lemma_pixel_empty(Seq::<Line>::empty(), px, py);
}

/// A pixel all of whose samples are inside is covered in full.
pub proof fn lemma_pixel_full(edges: Seq<Line>, px: int, py: int)
    requires
        forall|i: int, j: int|
            0 <= i < 16 && 0 <= j < 16 ==> inside(edges, #[trigger] sample(px, i), #[trigger] sample(py, j)),
    ensures
        coverage(edges, px, py) == 255,
{
    lemma_hits_all(edges, px, py, 16);
}

/// A pixel none of whose samples is inside is not covered.
pub proof fn lemma_pixel_empty(edges: Seq<Line>, px: int, py: int)
    requires
        forall|i: int, j: int|
            0 <= i < 16 && 0 <= j < 16 ==> !inside(edges, #[trigger] sample(px, i), #[trigger] sample(py, j)),
    ensures
        coverage(edges, px, py) == 0,
{
    lemma_hits_none(edges, px, py, 16);
}

proof fn lemma_row_hits_all(edges: Seq<Line>, px: int, y: int, n: int)
    requires
        0 <= n <= 16,
        forall|i: int| 0 <= i < 16 ==> inside(edges, #[trigger] sample(px, i), y),
    ensures
        row_hits(edges, px, y, n) == n,
    decreases n,
{
    if n > 0 {
        lemma_row_hits_all(edges, px, y, n - 1);
    }
}

proof fn lemma_row_hits_none(edges: Seq<Line>, px: int, y: int, n: int)
    requires
        0 <= n <= 16,
        forall|i: int| 0 <= i < 16 ==> !inside(edges, #[trigger] sample(px, i), y),
    ensures
        row_hits(edges, px, y, n) == 0,
    decreases n,
{
    if n > 0 {
        lemma_row_hits_none(edges, px, y, n - 1);
    }
}

proof fn lemma_hits_all(edges: Seq<Line>, px: int, py: int, m: int)
    requires
        0 <= m <= 16,
        forall|i: int, j: int|
            0 <= i < 16 && 0 <= j < 16 ==> inside(edges, #[trigger] sample(px, i), #[trigger] sample(py, j)),
    ensures
        hits(edges, px, py, m) == 16 * m,
    decreases m,
{
    if m > 0 {
        lemma_hits_all(edges, px, py, m - 1);
        let y = sample(py, m - 1);
        assert forall|i: int| 0 <= i < 16 implies inside(edges, #[trigger] sample(px, i), y) by {
            assert(inside(edges, sample(px, i), sample(py, m - 1)));
        }
        lemma_row_hits_all(edges, px, y, 16);
    }
}

proof fn lemma_hits_none(edges: Seq<Line>, px: int, py: int, m: int)
    requires
        0 <= m <= 16,
        forall|i: int, j: int|
            0 <= i < 16 && 0 <= j < 16 ==> !inside(edges, #[trigger] sample(px, i), #[trigger] sample(py, j)),
    ensures
        hits(edges, px, py, m) == 0,
    decreases m,
{
    if m > 0 {
        lemma_hits_none(edges, px, py, m - 1);
        let y = sample(py, m - 1);
        assert forall|i: int| 0 <= i < 16 implies !inside(edges, #[trigger] sample(px, i), y) by {
            assert(!inside(edges, sample(px, i), sample(py, m - 1)));
        }
        lemma_row_hits_none(edges, px, y, 16);
    }
}

/// An edge all of which lies above or below a height does not cross it, and
/// edges that all do wind around no point at that height.
proof fn lemma_no_winding(edges: Seq<Line>, x: int, y: int, top: int, bottom: int)
    requires
        forall|k: int|
            0 <= k < edges.len() ==> top <= (#[trigger] edges[k]).p0.y <= bottom && top
                <= edges[k].p1.y <= bottom,
        y < top || bottom <= y,
    ensures
        winding(edges, x, y) == 0,
    decreases edges.len(),
{
    if edges.len() > 0 {
        assert(edges.last() == edges[edges.len() - 1]);
        assert forall|k: int| 0 <= k < edges.drop_last().len() implies top <= (
        #[trigger] edges.drop_last()[k]).p0.y <= bottom && top <= edges.drop_last()[k].p1.y
            <= bottom by {
            assert(edges.drop_last()[k] == edges[k]);
        }
        lemma_no_winding(edges.drop_last(), x, y, top, bottom);
    }
}

/// The rows of a canvas that the edges can touch: the first of them and the
/// one after the last. No pixel of any other row is covered.
pub(crate) fn touched_rows(edges: &[Line], height: usize) -> (rows: (usize, usize))
    requires
        lines_wf(edges@),
        height <= MAX_SIDE,
    ensures
        rows.0 <= rows.1 <= height,
        forall|x: int, y: int|
            0 <= y < height && !(rows.0 <= y < rows.1) ==> #[trigger] coverage(edges@, x, y) == 0,
{
    if edges.len() == 0 {
        assert forall|x: int, y: int| 0 <= y < height implies #[trigger] coverage(edges@, x, y)
            == 0 by {
            assert forall|i: int, j: int| 0 <= i < 16 && 0 <= j < 16 implies !inside(
                edges@,
                #[trigger] sample(x, i),
                #[trigger] sample(y, j),
            ) by {
                lemma_no_winding(edges@, sample(x, i), sample(y, j), 0, 0);
            }
            lemma_pixel_empty(edges@, x, y);
        }
        return (0, 0);
    }
    let mut top: i64 = edges[0].p0.y;
    let mut bottom: i64 = edges[0].p0.y;
    let mut n: usize = 0;
    while n < edges.len()
        invariant
            n <= edges.len(),
            lines_wf(edges@),
            -LIMIT <= top <= bottom <= LIMIT,
            forall|k: int|
                0 <= k < n ==> top <= (#[trigger] edges@[k]).p0.y <= bottom && top <= edges@[k].p1.y
                    <= bottom,
        decreases edges.len() - n,
    {
        let l = edges[n];
        assert(l.wf());
        if l.p0.y < top {
            top = l.p0.y;
        }
        if l.p1.y < top {
            top = l.p1.y;
        }
        if l.p0.y > bottom {
            bottom = l.p0.y;
        }
        if l.p1.y > bottom {
            bottom = l.p1.y;
        }
        n += 1;
    }
    // The first row with a sample at or below `top`, and the first row all
    // of whose samples are at or below `bottom`.
    let limit: i128 = height as i128;
    let above: i128 = floor_div(top as i128, 65536);
    let below: i128 = floor_div(bottom as i128 + 65535, 65536);
    let first: usize = if above < 0 {
        0
    } else if above > limit {
        height
    } else {
        above as usize
    };
    let last: usize = if below < first as i128 {
        first
    } else if below > limit {
        height
    } else {
        below as usize
    };
    assert forall|x: int, y: int| 0 <= y < height && !(first <= y < last) implies #[trigger] coverage(
        edges@,
        x,
        y,
    ) == 0 by {
        assert forall|i: int, j: int| 0 <= i < 16 && 0 <= j < 16 implies !inside(
            edges@,
            #[trigger] sample(x, i),
            #[trigger] sample(y, j),
        ) by {
            lemma_no_winding(edges@, sample(x, i), sample(y, j), top as int, bottom as int);
        }
        lemma_pixel_empty(edges@, x, y);
    }
    (first, last)
}

/// The pixels of row `y` come after those of the rows before it.
proof fn lemma_mask_index(x: int, y: int, width: int, rows: int)
    by (nonlinear_arith)
    requires
        0 <= x < width,
        0 <= y < rows,
    ensures
        0 <= y * width <= y * width + x < (y + 1) * width <= rows * width,
        (y + 1) * width == y * width + width,
{
}

/// A row of pixels without coverage.
fn empty_row(width: usize) -> (row: Vec<u8>)
    ensures
        row.len() == width,
        forall|x: int| 0 <= x < width ==> row[x] == 0,
{
    let mut row: Vec<u8> = Vec::new();
    let mut x: usize = 0;
    while x < width
        invariant
            x <= width,
            row.len() == x,
            forall|t: int| 0 <= t < x ==> row[t] == 0,
        decreases width - x,
    {
        row.push(0);
        x += 1;
    }
    row
}

/// The coverage of every pixel of a canvas under the non-zero winding rule,
/// row by row from the top, for the shape that the lines and the flattened
/// curves bound. A pixel that the shape does not touch has coverage 0.
pub fn rasterize(lines: &[Line], curves: &[Curve], width: usize, height: usize) -> (mask: Vec<u8>)
    requires
        lines_wf(lines@),
        curves_wf(curves@),
        width <= MAX_SIDE,
        height <= MAX_SIDE,
    ensures
        mask.len() == width * height,
        forall|x: int, y: int|
            0 <= x < width && 0 <= y < height ==> mask[y * width + x] as int == #[trigger] coverage(
                edges_of(lines@, curves@),
                x,
                y,
            ),
{
    let edges = outline_edges(lines, curves);
    let (first, last) = touched_rows(edges.as_slice(), height);
    let mut mask: Vec<u8> = Vec::new();
    let mut y: usize = 0;
    while y < height
        invariant
            y <= height,
            width <= MAX_SIDE,
            height <= MAX_SIDE,
            lines_wf(edges@),
            edges@ == edges_of(lines@, curves@),
            forall|x: int, t: int|
                0 <= t < height && !(first <= t < last) ==> #[trigger] coverage(edges@, x, t) == 0,
            mask.len() == y * width,
            forall|x: int, t: int|
                0 <= x < width && 0 <= t < y ==> mask[t * width + x] as int == #[trigger] coverage(
                    edges@,
                    x,
                    t,
                ),
        decreases height - y,
    {
        let row = if first <= y && y < last {
            coverage_row(edges.as_slice(), width, y)
        } else {
            empty_row(width)
        };
        assert forall|x: int| 0 <= x < width implies row[x] as int == #[trigger] coverage(
            edges@,
            x,
            y as int,
        ) by {}
        let ghost before = mask@;
        let mut x: usize = 0;
        while x < width
            invariant
                x <= width,
                y < height,
                width <= MAX_SIDE,
                height <= MAX_SIDE,
                row.len() == width,
                before.len() == y * width,
                mask@ == before + row@.take(x as int),
            decreases width - x,
        {
            proof {
                lemma_mask_index(x as int, y as int, width as int, height as int);
            }
            mask.push(row[x]);
            assert(row@.take(x + 1) == row@.take(x as int).push(row@[x as int]));
            x += 1;
        }
        assert forall|x: int, t: int| 0 <= x < width && 0 <= t < y + 1 implies mask[t * width
            + x] as int == #[trigger] coverage(edges@, x, t) by {
            if t < y {
                lemma_mask_index(x, t, width as int, y as int);
                assert(mask@[t * width + x] == before[t * width + x]);
            } else {
                lemma_mask_index(x, t, width as int, y + 1);
                assert(mask@[t * width + x] == row@[x]);
            }
        }
        proof {
            if width > 0 {
                lemma_mask_index(0, y as int, width as int, height as int);
            } else {
                assert(y * width == 0 && (y + 1) * width == 0) by (nonlinear_arith)
                    requires
                        width == 0,
                ;
            }
        }
        y += 1;
    }
    assert(y * width == width * height) by (nonlinear_arith)
        requires
            y == height,
    ;
    mask
}

} // verus!
