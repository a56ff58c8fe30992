//! Flattening of quadratic curves into lines.
//!
//! A curve is cut into pieces of equal length in its parameter, and each
//! piece is replaced by the line between its ends. The number of pieces is a
//! power of two, chosen so that no point of the curve is farther than a
//! sixteenth of a pixel from its line, up to 512 pieces.

use vstd::prelude::*;
use crate::draw::geometry::{Point, Line, Curve, LIMIT, lines_wf, curves_wf, floor_div};

verus! {

/// The largest number of lines that one curve is flattened into.
pub const MAX_PIECES: usize = 512;

/// The larger of the two second differences of a curve's coordinates. The
/// curve leaves its chord by a quarter of this at most.
pub open spec fn deviation(c: Curve) -> int {
    let dx = c.start.x - 2 * c.control.x + c.end.x;
    let dy = c.start.y - 2 * c.control.y + c.end.y;
    let ax = if dx < 0 { -dx } else { dx };
    let ay = if dy < 0 { -dy } else { dy };
    if ax < ay { ay } else { ax }
}

/// The first of `n`, `2n`, `4n`, ... that is at least 512 or whose square
/// times 16384 is at least `dev`.
pub open spec fn pieces_from(dev: int, n: int) -> int
    decreases 1024 - n,
{
    if n <= 0 || n >= 512 || n * n * 16384 >= dev {
        n
    } else {
        pieces_from(dev, 2 * n)
    }
}

/// The number of lines that a curve is flattened into: the smallest power of
/// two for which the lines stay within a sixteenth of a pixel of the curve,
/// and 512 where that would take more.
pub open spec fn pieces(c: Curve) -> int {
    pieces_from(deviation(c), 1)
}

/// One coordinate of the point at `k / n` of the way along a curve with the
/// coordinates `a`, `b` (control) and `c`, times `n * n`.
pub open spec fn weighted(a: int, b: int, c: int, k: int, n: int) -> int {
    (n - k) * (n - k) * a + 2 * k * (n - k) * b + k * k * c
}

/// One coordinate of the point at `k / n` of the way along a curve with the
/// coordinates `a`, `b` (control) and `c`, rounded down.
pub open spec fn bezier(a: int, b: int, c: int, k: int, n: int) -> int {
    weighted(a, b, c, k, n) / (n * n)
}

/// The point at `k / n` of the way along the curve.
pub open spec fn curve_point(c: Curve, k: int, n: int) -> Point {
    Point {
        x: bezier(c.start.x as int, c.control.x as int, c.end.x as int, k, n) as i64,
        y: bezier(c.start.y as int, c.control.y as int, c.end.y as int, k, n) as i64,
    }
}

/// The first `m` of the `n` lines that a curve is flattened into.
pub open spec fn flatten(c: Curve, m: int, n: int) -> Seq<Line> {
    Seq::new(m as nat, |k: int| Line { p0: curve_point(c, k, n), p1: curve_point(c, k + 1, n) })
}

/// The lines that a list of curves is flattened into, curve after curve.
pub open spec fn flatten_all(curves: Seq<Curve>) -> Seq<Line>
    decreases curves.len(),
{
    if curves.len() == 0 {
        Seq::empty()
    } else {
        flatten_all(curves.drop_last()) + flatten(
            curves.last(),
            pieces(curves.last()),
            pieces(curves.last()),
        )
    }
}

/// The edges of a shape: its lines, then its curves flattened.
pub open spec fn edges_of(lines: Seq<Line>, curves: Seq<Curve>) -> Seq<Line> {
    lines + flatten_all(curves)
}

/// The largest second difference for which `n` lines keep to the tolerance.
fn reach(n: usize) -> (r: i128)
    requires
        n <= 512,
    ensures
        r as int == n * n * 16384,
{
    assert(n * n <= 262144) by (nonlinear_arith)
        requires
            n <= 512,
    ;
    (n as i128) * (n as i128) * 16384
}

/// The number of lines for a curve.
pub fn curve_pieces(c: &Curve) -> (n: usize)
    requires
        c.wf(),
    ensures
        n as int == pieces(*c),
        1 <= n <= MAX_PIECES,
{
    let dx: i128 = c.start.x as i128 - 2 * (c.control.x as i128) + c.end.x as i128;
    let dy: i128 = c.start.y as i128 - 2 * (c.control.y as i128) + c.end.y as i128;
    let ax: i128 = if dx < 0 { -dx } else { dx };
    let ay: i128 = if dy < 0 { -dy } else { dy };
    let dev: i128 = if ax < ay { ay } else { ax };
    let mut n: usize = 1;
    while n < 512 && reach(n) < dev
        invariant
            n == 1 || n == 2 || n == 4 || n == 8 || n == 16 || n == 32 || n == 64 || n == 128 || n
                == 256 || n == 512,
            dev as int == deviation(*c),
            pieces_from(dev as int, n as int) == pieces(*c),
        decreases 512 - n,
    {
        n = 2 * n;
    }
    n
}

/// A weighted mean of values within a bound is within that bound.
proof fn lemma_mean_in_range(a: int, b: int, c: int, w0: int, w1: int, w2: int, lim: int)
    requires
        -lim <= a <= lim,
        -lim <= b <= lim,
        -lim <= c <= lim,
        w0 >= 0,
        w1 >= 0,
        w2 >= 0,
        w0 + w1 + w2 > 0,
    ensures
        -lim * (w0 + w1 + w2) <= w0 * a + w1 * b + w2 * c <= lim * (w0 + w1 + w2),
        -lim <= (w0 * a + w1 * b + w2 * c) / (w0 + w1 + w2) <= lim,
{
    assert(-lim * w0 <= w0 * a <= lim * w0) by (nonlinear_arith)
        requires
            -lim <= a <= lim,
            w0 >= 0,
    ;
    assert(-lim * w1 <= w1 * b <= lim * w1) by (nonlinear_arith)
        requires
            -lim <= b <= lim,
            w1 >= 0,
    ;
    assert(-lim * w2 <= w2 * c <= lim * w2) by (nonlinear_arith)
        requires
            -lim <= c <= lim,
            w2 >= 0,
    ;
    let num = w0 * a + w1 * b + w2 * c;
    let den = w0 + w1 + w2;
    assert(-lim * den <= num <= lim * den) by (nonlinear_arith)
        requires
            -lim * w0 <= w0 * a <= lim * w0,
            -lim * w1 <= w1 * b <= lim * w1,
            -lim * w2 <= w2 * c <= lim * w2,
            num == w0 * a + w1 * b + w2 * c,
            den == w0 + w1 + w2,
    ;
    assert(-lim <= num / den <= lim) by (nonlinear_arith)
        requires
            -lim * den <= num <= lim * den,
            den > 0,
    ;
}

/// A bound on the product of a weight and a coordinate.
proof fn lemma_product_bound(w: int, a: int)
    by (nonlinear_arith)
    requires
        0 <= w <= 524288,
        -0x8000_0000_0000 <= a <= 0x8000_0000_0000,
    ensures
        -0x8000_0000_0000 * 524288 <= w * a <= 0x8000_0000_0000 * 524288,
{
}

/// One coordinate of the point at `k / n` of the way along a curve.
fn curve_coord(a: i64, b: i64, c: i64, k: usize, n: usize) -> (r: i64)
    requires
        -LIMIT <= a <= LIMIT,
        -LIMIT <= b <= LIMIT,
        -LIMIT <= c <= LIMIT,
        1 <= n <= MAX_PIECES,
        k <= n,
    ensures
        r as int == bezier(a as int, b as int, c as int, k as int, n as int),
        -LIMIT <= r <= LIMIT,
{
    let m: i128 = (n - k) as i128;
    let kk: i128 = k as i128;
    let nn: i128 = n as i128;
    assert(0 <= m * m <= 262144 && 0 <= 2 * kk * m <= 524288 && 0 <= kk * kk <= 262144 && 0 < nn
        * nn <= 262144 && m * m + 2 * kk * m + kk * kk == nn * nn) by (nonlinear_arith)
        requires
            0 <= m <= 512,
            0 <= kk <= 512,
            1 <= nn <= 512,
            m + kk == nn,
    ;
    let w0: i128 = m * m;
    let w1: i128 = 2 * kk * m;
    let w2: i128 = kk * kk;
    let den: i128 = nn * nn;
    proof {
        lemma_mean_in_range(
            a as int,
            b as int,
            c as int,
            w0 as int,
            w1 as int,
            w2 as int,
            LIMIT as int,
        );
        lemma_product_bound(w0 as int, a as int);
        lemma_product_bound(w1 as int, b as int);
        lemma_product_bound(w2 as int, c as int);
    }
    let num: i128 = w0 * (a as i128) + w1 * (b as i128) + w2 * (c as i128);
    let q: i128 = floor_div(num, den);
    q as i64
}

/// The point at `k / n` of the way along a curve.
fn curve_at(c: &Curve, k: usize, n: usize) -> (p: Point)
    requires
        c.wf(),
        1 <= n <= MAX_PIECES,
        k <= n,
    ensures
        p == curve_point(*c, k as int, n as int),
        p.wf(),
{
    Point {
        x: curve_coord(c.start.x, c.control.x, c.end.x, k, n),
        y: curve_coord(c.start.y, c.control.y, c.end.y, k, n),
    }
}

/// Flattens a curve and appends its lines to `out`.
pub fn flatten_into(c: &Curve, out: &mut Vec<Line>)
    requires
        c.wf(),
    ensures
        final(out)@ == old(out)@ + flatten(*c, pieces(*c), pieces(*c)),
        lines_wf(old(out)@) ==> lines_wf(final(out)@),
{
    let n = curve_pieces(c);
    let mut prev = curve_at(c, 0, n);
    let mut k: usize = 0;
    while k < n
        invariant
            c.wf(),
            1 <= n <= MAX_PIECES,
            n as int == pieces(*c),
            k <= n,
            prev == curve_point(*c, k as int, n as int),
            prev.wf(),
            out@ == old(out)@ + flatten(*c, k as int, n as int),
            lines_wf(old(out)@) ==> lines_wf(out@),
        decreases n - k,
    {
        let next = curve_at(c, k + 1, n);
        out.push(Line { p0: prev, p1: next });
        assert(flatten(*c, k + 1, n as int) == flatten(*c, k as int, n as int).push(
            Line { p0: prev, p1: next },
        ));
        prev = next;
        k += 1;
    }
}

/// The edges of a shape: its lines, then its curves flattened.
pub fn outline_edges(lines: &[Line], curves: &[Curve]) -> (edges: Vec<Line>)
    requires
        lines_wf(lines@),
        curves_wf(curves@),
    ensures
        edges@ == edges_of(lines@, curves@),
        lines_wf(edges@),
{
    let mut edges: Vec<Line> = Vec::new();
    let mut i: usize = 0;
    while i < lines.len()
        invariant
            i <= lines.len(),
            edges@ == lines@.take(i as int),
        decreases lines.len() - i,
    {
        edges.push(lines[i]);
        i += 1;
    }
    assert(lines@.take(i as int) == lines@);
    let mut j: usize = 0;
    while j < curves.len()
        invariant
            j <= curves.len(),
            curves_wf(curves@),
            lines_wf(edges@),
            edges@ == lines@ + flatten_all(curves@.take(j as int)),
        decreases curves.len() - j,
    {
        assert(curves@.take(j + 1).drop_last() == curves@.take(j as int));
        assert(curves@.take(j + 1).last() == curves@[j as int]);
        flatten_into(&curves[j], &mut edges);
        j += 1;
    }
    assert(curves@.take(j as int) == curves@);
    edges
}

/// One of the numbers of pieces that a curve can have: a power of two from 1
/// to 512.
pub open spec fn piece_count(n: int) -> bool {
    n == 1 || n == 2 || n == 4 || n == 8 || n == 16 || n == 32 || n == 64 || n == 128 || n == 256
        || n == 512
}

/// The number of pieces of a curve is a power of two from 1 to 512, and it is
/// 512 or else large enough for the tolerance: its square times 16384 is at
/// least the larger second difference of the curve.
pub proof fn lemma_pieces_suffice(c: Curve)
    ensures
        piece_count(pieces(c)),
        pieces(c) == 512 || pieces(c) * pieces(c) * 16384 >= deviation(c),
{
    lemma_pieces_from(deviation(c), 1);
}

proof fn lemma_pieces_from(dev: int, n: int)
    requires
        piece_count(n),
    ensures
        piece_count(pieces_from(dev, n)),
        pieces_from(dev, n) == 512 || pieces_from(dev, n) * pieces_from(dev, n) * 16384 >= dev,
    decreases 1024 - n,
{
    if !(n >= 512 || n * n * 16384 >= dev) {
        lemma_pieces_from(dev, 2 * n);
    }
}

/// The lines of a flattened curve form a chain from the start of the curve
/// to its end: the first begins at the start, each begins where the one
/// before it ends, and the last ends at the end.
pub proof fn lemma_flatten_chain(c: Curve, n: int)
    requires
        n >= 1,
    ensures
        flatten(c, n, n).len() == n,
        flatten(c, n, n)[0].p0 == c.start,
        flatten(c, n, n)[n - 1].p1 == c.end,
        forall|k: int| 0 <= k < n - 1 ==> (#[trigger] flatten(c, n, n)[k]).p1 == flatten(c, n, n)[k + 1].p0,
{
    lemma_bezier_ends(c.start.x as int, c.control.x as int, c.end.x as int, n);
    lemma_bezier_ends(c.start.y as int, c.control.y as int, c.end.y as int, n);
}

proof fn lemma_bezier_ends(a: int, b: int, c: int, n: int)
    requires
        n >= 1,
    ensures
        bezier(a, b, c, 0, n) == a,
        bezier(a, b, c, n, n) == c,
{
    let d = n * n;
    assert(d >= 1) by (nonlinear_arith)
        requires
            d == n * n,
            n >= 1,
    ;
    assert(weighted(a, b, c, 0, n) == d * a && weighted(a, b, c, n, n) == d * c) by (nonlinear_arith)
        requires
            d == n * n,
            weighted(a, b, c, 0, n) == (n - 0) * (n - 0) * a + 2 * 0 * (n - 0) * b + 0 * 0 * c,
            weighted(a, b, c, n, n) == (n - n) * (n - n) * a + 2 * n * (n - n) * b + n * n * c,
    ;
    assert((d * a) / d == a && (d * c) / d == c) by (nonlinear_arith)
        requires
            d >= 1,
    ;
}

/// A curve whose three points are one point is flattened into one line
/// without length.
pub proof fn lemma_point_curve(c: Curve)
    requires
        c.start == c.control,
        c.control == c.end,
    ensures
        pieces(c) == 1,
        flatten(c, 1, 1) == seq![Line { p0: c.start, p1: c.start }],
{
    lemma_flatten_chain(c, 1);
    assert(flatten(c, 1, 1) =~= seq![Line { p0: c.start, p1: c.start }]);
}

/// A factor moved past another.
proof fn lemma_swap_factors(s: int, a: int, x: int)
    by (nonlinear_arith)
    ensures
        s * (a * x) == a * (s * x),
{
}

/// `s * (a * x + e * y + d * z)` with the factor `s` moved to the weights.
proof fn lemma_scale_sum(s: int, a: int, x: int, e: int, y: int, d: int, z: int)
    ensures
        s * (a * x + e * y + d * z) == a * (s * x) + e * (s * y) + d * (s * z),
{
    let p = a * x;
    let q = e * y;
    let r = d * z;
    assert(s * (p + q + r) == s * p + s * q + s * r) by (nonlinear_arith);
    lemma_swap_factors(s, a, x);
    lemma_swap_factors(s, e, y);
    lemma_swap_factors(s, d, z);
}

/// The sum of two weighted sums of the same three values.
proof fn lemma_add_sums(a: int, e: int, d: int, x1: int, y1: int, z1: int, x2: int, y2: int, z2: int)
    ensures
        (a * x1 + e * y1 + d * z1) + (a * x2 + e * y2 + d * z2) == a * (x1 + x2) + e * (y1 + y2) + d
            * (z1 + z2),
{
    assert(a * (x1 + x2) == a * x1 + a * x2) by (nonlinear_arith);
    assert(e * (y1 + y2) == e * y1 + e * y2) by (nonlinear_arith);
    assert(d * (z1 + z2) == d * z1 + d * z2) by (nonlinear_arith);
}

/// The weighted coordinate in powers of `k`: with `e` twice the step from the
/// first to the control coordinate and `d` the second difference.
proof fn lemma_weighted_powers(a: int, b: int, c: int, k: int, n: int)
    by (nonlinear_arith)
    ensures
        weighted(a, b, c, k, n) == a * (n * n) + (2 * (b - a)) * (n * k) + (a - 2 * b + c) * (k * k),
{
}

/// The weights of the chord of piece `k` of `n` at `j / m` of the way along
/// it, against those of the curve there.
proof fn lemma_piece_weights(n: int, k: int, m: int, j: int)
    ensures
        m * ((m - j) * (n * n) + j * (n * n)) == (n * m) * (n * m),
        m * ((m - j) * (n * k) + j * (n * (k + 1))) == (n * m) * (k * m + j),
        m * ((m - j) * (k * k) + j * ((k + 1) * (k + 1))) == (k * m + j) * (k * m + j) + j * (m - j),
{
    let nn = n * n;
    let nk = n * k;
    let kk = k * k;
    let mm = m * m;
    let mj = m * j;
    let jj = j * j;
    assert((m - j) * nn + j * nn == m * nn) by (nonlinear_arith);
    assert(m * (m * nn) == (n * m) * (n * m)) by (nonlinear_arith)
        requires
            nn == n * n,
    ;
    assert(n * (k + 1) == nk + n) by (nonlinear_arith)
        requires
            nk == n * k,
    ;
    assert((m - j) * nk + j * (nk + n) == m * nk + j * n) by (nonlinear_arith);
    assert(m * (m * nk + j * n) == (n * m) * (k * m + j)) by (nonlinear_arith)
        requires
            nk == n * k,
    ;
    assert((k + 1) * (k + 1) == kk + 2 * k + 1) by (nonlinear_arith)
        requires
            kk == k * k,
    ;
    assert((m - j) * kk + j * (kk + 2 * k + 1) == m * kk + 2 * (j * k) + j) by (nonlinear_arith);
    assert(m * (m * kk + 2 * (j * k) + j) == mm * kk + 2 * (mj * k) + mj) by (nonlinear_arith)
        requires
            mm == m * m,
            mj == m * j,
    ;
    assert((k * m + j) * (k * m + j) == mm * kk + 2 * (mj * k) + jj) by (nonlinear_arith)
        requires
            mm == m * m,
            mj == m * j,
            kk == k * k,
            jj == j * j,
    ;
    assert(j * (m - j) == mj - jj) by (nonlinear_arith)
        requires
            mj == m * j,
            jj == j * j,
    ;
}

/// How far a curve leaves the chord of one of its pieces. The piece is piece
/// `k` of `n`, and the curve and the chord between the ends of the piece are
/// compared at `j / m` of the way along the piece. In each coordinate, with
/// `a`, `b` (control) and `c` the coordinates of the curve, the curve is at
/// `weighted(a, b, c, k * m + j, n * m)` and the chord at `m * ((m - j) *
/// weighted(a, b, c, k, n) + j * weighted(a, b, c, k + 1, n))`, both over
/// `n * n * m * m`: they differ by `j * (m - j)` times the second difference,
/// which is at most a quarter of `m * m` times it. So where `n * n * 16384`
/// is at least the second difference in size, curve and chord differ by at
/// most 4096 units, a sixteenth of a pixel.
pub proof fn lemma_curve_near_chord(a: int, b: int, c: int, n: int, k: int, m: int, j: int)
    requires
        n >= 1,
        0 <= k < n,
        m >= 1,
        0 <= j <= m,
    ensures
        weighted(a, b, c, k * m + j, n * m) - m * ((m - j) * weighted(a, b, c, k, n) + j * weighted(
            a,
            b,
            c,
            k + 1,
            n,
        )) == -(j * (m - j) * (a - 2 * b + c)),
        n * n * 16384 >= a - 2 * b + c && n * n * 16384 >= -(a - 2 * b + c) ==> {
            let gap = weighted(a, b, c, k * m + j, n * m) - m * ((m - j) * weighted(a, b, c, k, n)
                + j * weighted(a, b, c, k + 1, n));
            -4096 * (n * n * m * m) <= gap <= 4096 * (n * n * m * m)
        },
{
    let d = a - 2 * b + c;
    let e = 2 * (b - a);
    let t = k * m + j;
    let big = n * m;
    let q = j * (m - j);
    let w0 = weighted(a, b, c, t, big);
    let w1 = weighted(a, b, c, k, n);
    let w2 = weighted(a, b, c, k + 1, n);
    lemma_weighted_powers(a, b, c, t, big);
    lemma_weighted_powers(a, b, c, k, n);
    lemma_weighted_powers(a, b, c, k + 1, n);
    // The chord, with the factors moved to the weights.
    let x1 = n * n;
    let y1 = n * k;
    let z1 = k * k;
    let y2 = n * (k + 1);
    let z2 = (k + 1) * (k + 1);
    lemma_scale_sum(m - j, a, x1, e, y1, d, z1);
    lemma_scale_sum(j, a, x1, e, y2, d, z2);
    lemma_add_sums(
        a,
        e,
        d,
        (m - j) * x1,
        (m - j) * y1,
        (m - j) * z1,
        j * x1,
        j * y2,
        j * z2,
    );
    let xs = (m - j) * x1 + j * x1;
    let ys = (m - j) * y1 + j * y2;
    let zs = (m - j) * z1 + j * z2;
    lemma_scale_sum(m, a, xs, e, ys, d, zs);
    let chord = m * ((m - j) * w1 + j * w2);
    assert(chord == a * (m * xs) + e * (m * ys) + d * (m * zs));
    lemma_piece_weights(n, k, m, j);
    assert(m * xs == big * big);
    assert(m * ys == big * t);
    assert(m * zs == t * t + q);
    let gap = w0 - chord;
    assert(d * (t * t + q) == d * (t * t) + d * q) by (nonlinear_arith);
    assert(gap == -(d * q));
    assert(j * (m - j) * d == d * q) by (nonlinear_arith)
        requires
            q == j * (m - j),
    ;
    if n * n * 16384 >= d && n * n * 16384 >= -d {
        let nn = n * n;
        let mm = m * m;
        assert(0 <= 4 * q <= mm) by (nonlinear_arith)
            requires
                q == j * (m - j),
                mm == m * m,
                0 <= j <= m,
        ;
        assert(nn >= 1 && mm >= 1) by (nonlinear_arith)
            requires
                nn == n * n,
                mm == m * m,
                n >= 1,
                m >= 1,
        ;
        assert(-4096 * (nn * mm) <= d * q <= 4096 * (nn * mm)) by (nonlinear_arith)
            requires
                0 <= 4 * q <= mm,
                -(nn * 16384) <= d <= nn * 16384,
                nn >= 1,
        ;
        assert(n * n * m * m == nn * mm) by (nonlinear_arith)
            requires
                nn == n * n,
                mm == m * m,
        ;
    }
}

} // verus!
