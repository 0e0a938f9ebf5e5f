use vstd::prelude::*;
use vstd::arithmetic::div_mod::{lemma_fundamental_div_mod, lemma_fundamental_div_mod_converse};
use crate::bitmap::Bitmap;
use crate::pixel::{opaque_rgb, Rgb};
use crate::raster::{abs, draw_horizontal_line, draw_line, line_covers, span_covers};

verus! {

/// A point of screen space, in whole pixels.
#[derive(Copy, Clone, Debug, PartialEq, Eq, Structural)]
pub struct Point2 {
    pub x: i32,
    pub y: i32,
}

impl Point2 {
    pub fn new(x: i32, y: i32) -> (p: Self)
        ensures
            p == (Point2 { x, y }),
    {
        Point2 { x, y }
    }
}

/// A triangle of screen space.
pub struct STriangle {
    pub vertices: [Point2; 3],
}

impl STriangle {
    pub fn new(v0: Point2, v1: Point2, v2: Point2) -> (t: Self)
        ensures
            t.vertices@ == seq![v0, v1, v2],
    {
        STriangle { vertices: [v0, v1, v2] }
    }
}

impl From<[Point2; 3]> for STriangle {
    fn from(vertices: [Point2; 3]) -> (t: Self) {
        STriangle { vertices }
    }
}

impl vstd::std_specs::convert::FromSpecImpl<[Point2; 3]> for STriangle {
    open spec fn obeys_from_spec() -> bool {
        true
    }

    open spec fn from_spec(vertices: [Point2; 3]) -> Self {
        STriangle { vertices }
    }
}

/// Whether `x` lies between `a` and `b`, both included.
pub open spec fn between(x: int, a: int, b: int) -> bool {
    if a < b { a <= x <= b } else { b <= x <= a }
}

/// Column of the edge from `apex` towards `other`, `k` rows away from the
/// apex: the exact column rounded down.
pub open spec fn edge_x(apex: Point2, other: Point2, k: int) -> int {
    let dy = abs(other.y - apex.y);
    if dy == 0 { apex.x as int } else { apex.x + k * (other.x - apex.x) / dy }
}

/// Pixels of a triangle whose apex `v1` lies above the flat edge `v2`-`v3`:
/// in each row from the apex down to the edge, the span between the two
/// slanted edges.
pub open spec fn flat_bottom_covers(v1: Point2, v2: Point2, v3: Point2, x: int, y: int) -> bool {
    v1.y <= y <= v3.y && between(x, edge_x(v1, v2, y - v1.y), edge_x(v1, v3, y - v1.y))
}

/// Pixels of a triangle whose apex `v3` lies below the flat edge `v1`-`v2`:
/// in each row from the edge down to the apex, the span between the two
/// slanted edges.
pub open spec fn flat_top_covers(v1: Point2, v2: Point2, v3: Point2, x: int, y: int) -> bool {
    v1.y <= y <= v3.y && between(x, edge_x(v3, v1, v3.y - y), edge_x(v3, v2, v3.y - y))
}

/// Quotient rounded toward zero.
pub open spec fn trunc_div(n: int, d: int) -> int {
    if n >= 0 { n / d } else { -((-n) / d) }
}

/// Where the long edge `a`-`c` of a triangle sorted by row crosses the row
/// of the middle vertex `b`; the column is rounded toward `a`.
pub open spec fn split_point(a: Point2, b: Point2, c: Point2) -> Point2 {
    Point2 { x: (a.x + trunc_div((b.y - a.y) * (c.x - a.x), c.y - a.y)) as i32, y: b.y }
}

/// The three vertices ordered by row, vertices of equal row kept in their
/// given order.
pub open spec fn sorted_by_row(p0: Point2, p1: Point2, p2: Point2) -> (Point2, Point2, Point2) {
    if p0.y <= p1.y {
        if p1.y <= p2.y {
            (p0, p1, p2)
        } else if p0.y <= p2.y {
            (p0, p2, p1)
        } else {
            (p2, p0, p1)
        }
    } else {
        if p0.y <= p2.y {
            (p1, p0, p2)
        } else if p1.y <= p2.y {
            (p1, p2, p0)
        } else {
            (p2, p1, p0)
        }
    }
}

/// Pixels of a triangle whose vertices are sorted by row: a flat-bottom
/// triangle, a flat-top one, or both halves of a triangle cut along the row
/// of its middle vertex.
pub open spec fn sorted_fill_covers(a: Point2, b: Point2, c: Point2, x: int, y: int) -> bool {
    if b.y == c.y {
        flat_bottom_covers(a, b, c, x, y)
    } else if a.y == b.y {
        flat_top_covers(a, b, c, x, y)
    } else {
        let s = split_point(a, b, c);
        flat_bottom_covers(a, b, s, x, y) || flat_top_covers(b, s, c, x, y)
    }
}

/// Pixels of the filled triangle with the given vertices.
pub open spec fn fill_covers(p0: Point2, p1: Point2, p2: Point2, x: int, y: int) -> bool {
    let (a, b, c) = sorted_by_row(p0, p1, p2);
    sorted_fill_covers(a, b, c, x, y)
}

/// Pixels of the outline of the triangle with the given vertices.
pub open spec fn outline_covers(p0: Point2, p1: Point2, p2: Point2, x: int, y: int) -> bool {
    line_covers(p0.x as int, p0.y as int, p1.x as int, p1.y as int, x, y)
        || line_covers(p0.x as int, p0.y as int, p2.x as int, p2.y as int, x, y)
        || line_covers(p1.x as int, p1.y as int, p2.x as int, p2.y as int, x, y)
}

/// Quotient rounded down.
fn floor_div(n: i128, d: i128) -> (q: i128)
    requires
        0 < d <= 0x1_0000_0000,
        -0x1_0000_0000_0000_0000 <= n <= 0x1_0000_0000_0000_0000,
    ensures
        q == n / d,
{
    if n >= 0 {
        n / d
    } else {
        let m: i128 = -n;
        let t: i128 = (m + (d - 1)) / d;
        proof {
            lemma_fundamental_div_mod(m + d - 1, d as int);
            assert(d * t <= m + d - 1 < d * t + d);
            assert(n + t * d == n + d * t) by (nonlinear_arith);
            assert((-t) * d == -(t * d)) by (nonlinear_arith);
            lemma_fundamental_div_mod_converse(n as int, d as int, -t, n + t * d);
        }
        -t
    }
}

/// Quotient rounded toward zero.
fn trunc_div_exec(n: i128, d: i128) -> (q: i128)
    requires
        0 < d <= 0x1_0000_0000,
        -0x1_0000_0000_0000_0000 <= n <= 0x1_0000_0000_0000_0000,
    ensures
        q == trunc_div(n as int, d as int),
{
    if n >= 0 {
        n / d
    } else {
        -((-n) / d)
    }
}

/// Whole rows of the division stay within the edge's extent.
proof fn lemma_edge_between(apex: Point2, other: Point2, k: int)
    requires
        0 <= k <= abs(other.y - apex.y),
    ensures
        between(edge_x(apex, other, k), apex.x as int, other.x as int),
{
    let dy = abs(other.y - apex.y);
    if dy != 0 {
        let d = other.x - apex.x;
        let n = k * d;
        lemma_fundamental_div_mod(n, dy);
        let q = n / dy;
        let r = n % dy;
        if d >= 0 {
            assert(0 <= n <= dy * d) by (nonlinear_arith)
                requires
                    n == k * d,
                    0 <= k <= dy,
                    d >= 0,
            ;
            if q < 0 {
                assert(dy * q <= -dy) by (nonlinear_arith)
                    requires
                        q <= -1,
                        dy > 0,
                ;
            }
            if q > d {
                assert(dy * q >= dy * d + dy) by (nonlinear_arith)
                    requires
                        q >= d + 1,
                        dy > 0,
                ;
            }
        } else {
            assert(dy * d <= n <= 0) by (nonlinear_arith)
                requires
                    n == k * d,
                    0 <= k <= dy,
                    d < 0,
            ;
            if q > 0 {
                assert(dy * q >= dy) by (nonlinear_arith)
                    requires
                        q >= 1,
                        dy > 0,
                ;
            }
            if q < d {
                assert(dy * q <= dy * d - dy) by (nonlinear_arith)
                    requires
                        q <= d - 1,
                        dy > 0,
                ;
            }
        }
    }
}

/// Column of the edge from `apex` towards `other`, `k` rows from the apex.
fn edge_column(apex: Point2, other: Point2, k: i64) -> (x: i32)
    requires
        0 <= k <= abs(other.y - apex.y),
    ensures
        x == edge_x(apex, other, k as int),
{
    proof {
        lemma_edge_between(apex, other, k as int);
    }
    let dy: i64 = if other.y >= apex.y { other.y as i64 - apex.y as i64 } else { apex.y as i64 - other.y as i64 };
    if dy == 0 {
        apex.x
    } else {
        let d: i128 = other.x as i128 - apex.x as i128;
        proof {
            assert(-0x1_0000_0000 * 0x1_0000_0000 <= k * d <= 0x1_0000_0000 * 0x1_0000_0000) by (nonlinear_arith)
                requires
                    0 <= k <= 0x1_0000_0000,
                    -0x1_0000_0000 <= d <= 0x1_0000_0000,
            ;
        }
        (apex.x as i128 + floor_div(k as i128 * d, dy as i128)) as i32
    }
}

/// Fills a triangle whose apex `v1` lies above the flat edge `v2`-`v3`,
/// one row at a time from the apex down.
fn fill_top_triangle(bitmap: &mut Bitmap, v1: &Point2, v2: &Point2, v3: &Point2, color: &Rgb)
    requires
        old(bitmap).wf(),
        old(bitmap).in_bounds(v1.x as int, v1.y as int),
        old(bitmap).in_bounds(v2.x as int, v2.y as int),
        old(bitmap).in_bounds(v3.x as int, v3.y as int),
        v2.y == v3.y,
        v1.y <= v3.y,
    ensures
        final(bitmap).repainted(
            old(bitmap),
            |x: int, y: int| flat_bottom_covers(*v1, *v2, *v3, x, y),
            opaque_rgb(*color),
        ),
{
    let ghost start = *bitmap;
    let ghost pixel = opaque_rgb(*color);
    let mut y: i64 = v1.y as i64;
    while y <= v3.y as i64
        invariant
            start == *old(bitmap),
            start.wf(),
            start.in_bounds(v1.x as int, v1.y as int),
            start.in_bounds(v2.x as int, v2.y as int),
            start.in_bounds(v3.x as int, v3.y as int),
            v2.y == v3.y,
            pixel == opaque_rgb(*color),
            v1.y <= y <= v3.y + 1,
            bitmap.repainted(
                &start,
                |u: int, v: int| v1.y <= v < y && between(u, edge_x(*v1, *v2, v - v1.y), edge_x(*v1, *v3, v - v1.y)),
                pixel,
            ),
        decreases v3.y + 1 - y,
    {
        let k: i64 = y - v1.y as i64;
        let x_1 = edge_column(*v1, *v2, k);
        let x_2 = edge_column(*v1, *v3, k);
        proof {
            lemma_edge_between(*v1, *v2, k as int);
            lemma_edge_between(*v1, *v3, k as int);
        }
        let ghost mid = *bitmap;
        draw_horizontal_line(bitmap, y as i32, x_1, x_2, color);
        proof {
            assert forall|u: int, v: int| #[trigger] bitmap.in_bounds(u, v) implies bitmap.at(u, v)
                == if v1.y <= v < y + 1 && between(u, edge_x(*v1, *v2, v - v1.y), edge_x(*v1, *v3, v - v1.y)) { pixel } else { start.at(u, v) } by {
                assert(mid.in_bounds(u, v));
            }
        }
        y = y + 1;
    }
}

/// Fills a triangle whose apex `v3` lies below the flat edge `v1`-`v2`,
/// one row at a time from the apex up.
fn fill_bottom_triangle(bitmap: &mut Bitmap, v1: &Point2, v2: &Point2, v3: &Point2, color: &Rgb)
    requires
        old(bitmap).wf(),
        old(bitmap).in_bounds(v1.x as int, v1.y as int),
        old(bitmap).in_bounds(v2.x as int, v2.y as int),
        old(bitmap).in_bounds(v3.x as int, v3.y as int),
        v1.y == v2.y,
        v1.y <= v3.y,
    ensures
        final(bitmap).repainted(
            old(bitmap),
            |x: int, y: int| flat_top_covers(*v1, *v2, *v3, x, y),
            opaque_rgb(*color),
        ),
{
    let ghost start = *bitmap;
    let ghost pixel = opaque_rgb(*color);
    let mut y: i64 = v3.y as i64;
    while y >= v1.y as i64
        invariant
            start == *old(bitmap),
            start.wf(),
            start.in_bounds(v1.x as int, v1.y as int),
            start.in_bounds(v2.x as int, v2.y as int),
            start.in_bounds(v3.x as int, v3.y as int),
            v1.y == v2.y,
            pixel == opaque_rgb(*color),
            v1.y - 1 <= y <= v3.y,
            bitmap.repainted(
                &start,
                |u: int, v: int| y < v <= v3.y && between(u, edge_x(*v3, *v1, v3.y - v), edge_x(*v3, *v2, v3.y - v)),
                pixel,
            ),
        decreases y - v1.y + 1,
    {
        let k: i64 = v3.y as i64 - y;
        let x_1 = edge_column(*v3, *v1, k);
        let x_2 = edge_column(*v3, *v2, k);
        proof {
            lemma_edge_between(*v3, *v1, k as int);
            lemma_edge_between(*v3, *v2, k as int);
        }
        let ghost mid = *bitmap;
        draw_horizontal_line(bitmap, y as i32, x_1, x_2, color);
        proof {
            assert forall|u: int, v: int| #[trigger] bitmap.in_bounds(u, v) implies bitmap.at(u, v)
                == if y - 1 < v <= v3.y && between(u, edge_x(*v3, *v1, v3.y - v), edge_x(*v3, *v2, v3.y - v)) { pixel } else { start.at(u, v) } by {
                assert(mid.in_bounds(u, v));
            }
        }
        y = y - 1;
    }
}

/// A share `k / dy` of a non-negative length `m` stays within `[0, m]`.
proof fn lemma_share_bounds(k: int, m: int, dy: int)
    requires
        0 <= k <= dy,
        0 < dy,
        0 <= m,
    ensures
        0 <= (k * m) / dy <= m,
{
    let n = k * m;
    assert(0 <= n <= dy * m) by (nonlinear_arith)
        requires
            n == k * m,
            0 <= k <= dy,
            0 <= m,
    ;
    lemma_fundamental_div_mod(n, dy);
    let q = n / dy;
    if q < 0 {
        assert(dy * q <= -dy) by (nonlinear_arith)
            requires
                q <= -1,
                dy > 0,
        ;
    }
    if q > m {
        assert(dy * q >= dy * m + dy) by (nonlinear_arith)
            requires
                q >= m + 1,
                dy > 0,
        ;
    }
}

/// The split point lies on the row of the middle vertex, between the
/// columns of the outer two.
proof fn lemma_split_between(a: Point2, b: Point2, c: Point2)
    requires
        a.y < b.y < c.y,
    ensures
        between(a.x + trunc_div((b.y - a.y) * (c.x - a.x), c.y - a.y), a.x as int, c.x as int),
{
    let k = b.y - a.y;
    let dy = c.y - a.y;
    let d = c.x - a.x;
    if d >= 0 {
        lemma_share_bounds(k, d, dy);
        assert(k * d >= 0) by (nonlinear_arith)
            requires
                k >= 0,
                d >= 0,
        ;
    } else {
        lemma_share_bounds(k, -d, dy);
        assert(-(k * d) == k * (-d)) by (nonlinear_arith);
        if k * d >= 0 {
            assert(k * d == 0) by (nonlinear_arith)
                requires
                    k * d >= 0,
                    k >= 0,
                    d < 0,
            ;
        }
    }
}

/// Sorts three vertices by row, keeping vertices of equal row in order.
fn sort_by_row(p0: Point2, p1: Point2, p2: Point2) -> (r: (Point2, Point2, Point2))
    ensures
        r == sorted_by_row(p0, p1, p2),
        r.0.y <= r.1.y <= r.2.y,
{
    if p0.y <= p1.y {
        if p1.y <= p2.y {
            (p0, p1, p2)
        } else if p0.y <= p2.y {
            (p0, p2, p1)
        } else {
            (p2, p0, p1)
        }
    } else {
        if p0.y <= p2.y {
            (p1, p0, p2)
        } else if p1.y <= p2.y {
            (p1, p2, p0)
        } else {
            (p2, p1, p0)
        }
    }
}

/// Fills a triangle by scanlines.
///
/// The vertices are sorted by row in place. A triangle with a flat bottom or
/// a flat top edge is filled directly; any other is cut along the row of its
/// middle vertex into a flat-bottom half and a flat-top half.
pub fn fill_triangle(bitmap: &mut Bitmap, triangle: &mut STriangle, color: &Rgb)
    requires
        old(bitmap).wf(),
        forall|i: int| 0 <= i < 3 ==> old(bitmap).in_bounds(
            #[trigger] old(triangle).vertices@[i].x as int,
            old(triangle).vertices@[i].y as int,
        ),
    ensures
        ({
            let (a, b, c) = sorted_by_row(
                old(triangle).vertices@[0],
                old(triangle).vertices@[1],
                old(triangle).vertices@[2],
            );
            final(triangle).vertices@ == seq![a, b, c]
        }),
        final(bitmap).repainted(
            old(bitmap),
            |x: int, y: int| fill_covers(
                old(triangle).vertices@[0],
                old(triangle).vertices@[1],
                old(triangle).vertices@[2],
                x,
                y,
            ),
            opaque_rgb(*color),
        ),
{
    let ghost start = *bitmap;
    let ghost pixel = opaque_rgb(*color);
    let p0 = triangle.vertices[0];
    let p1 = triangle.vertices[1];
    let p2 = triangle.vertices[2];
    proof {
        assert(start.in_bounds(p0.x as int, p0.y as int));
        assert(start.in_bounds(p1.x as int, p1.y as int));
        assert(start.in_bounds(p2.x as int, p2.y as int));
    }
    let (a, b, c) = sort_by_row(p0, p1, p2);
    triangle.vertices = [a, b, c];
    if b.y == c.y {
        fill_top_triangle(bitmap, &a, &b, &c, color);
    } else if a.y == b.y {
        fill_bottom_triangle(bitmap, &a, &b, &c, color);
    } else {
        proof {
            lemma_split_between(a, b, c);
            let n = (b.y - a.y) * (c.x - a.x);
            assert(-0x1_0000_0000 * 0x1_0000_0000 <= n <= 0x1_0000_0000 * 0x1_0000_0000) by (nonlinear_arith)
                requires
                    n == (b.y - a.y) * (c.x - a.x),
                    0 <= b.y - a.y <= 0x1_0000_0000,
                    -0x1_0000_0000 <= c.x - a.x <= 0x1_0000_0000,
            ;
        }
        let n: i128 = (b.y as i128 - a.y as i128) * (c.x as i128 - a.x as i128);
        let offset = trunc_div_exec(n, c.y as i128 - a.y as i128);
        let s = Point2 { x: (a.x as i128 + offset) as i32, y: b.y };
        assert(s == split_point(a, b, c));
        let ghost mid = *bitmap;
        fill_top_triangle(bitmap, &a, &b, &s, color);
        let ghost mid2 = *bitmap;
        fill_bottom_triangle(bitmap, &b, &s, &c, color);
        proof {
            assert forall|u: int, v: int| #[trigger] bitmap.in_bounds(u, v) implies bitmap.at(u, v)
                == if fill_covers(p0, p1, p2, u, v) { pixel } else { start.at(u, v) } by {
                assert(mid2.in_bounds(u, v));
            }
        }
    }
}

/// The topmost row of the three vertices.
pub open spec fn top_row(p0: Point2, p1: Point2, p2: Point2) -> int {
    if p0.y <= p1.y && p0.y <= p2.y { p0.y as int } else if p1.y <= p2.y { p1.y as int } else { p2.y as int }
}

/// The bottommost row of the three vertices.
pub open spec fn bottom_row(p0: Point2, p1: Point2, p2: Point2) -> int {
    if p0.y >= p1.y && p0.y >= p2.y { p0.y as int } else if p1.y >= p2.y { p1.y as int } else { p2.y as int }
}

/// A filled triangle covers no row above its topmost vertex or below its
/// bottommost one.
pub proof fn lemma_fill_within_rows(p0: Point2, p1: Point2, p2: Point2, x: int, y: int)
    requires
        fill_covers(p0, p1, p2, x, y),
    ensures
        top_row(p0, p1, p2) <= y <= bottom_row(p0, p1, p2),
{
}

/// Width of the default viewport, in pixels.
pub const WIDTH: i32 = 960;

/// Height of the default viewport, in pixels.
pub const HEIGHT: i32 = 540;

/// Draws the three edges of the triangle (x0, y0), (x1, y1), (x2, y2).
pub fn draw_triangle_outline(
    bitmap: &mut Bitmap,
    x0: i32,
    y0: i32,
    x1: i32,
    y1: i32,
    x2: i32,
    y2: i32,
    color: &Rgb,
)
    requires
        old(bitmap).wf(),
        old(bitmap).in_bounds(x0 as int, y0 as int),
        old(bitmap).in_bounds(x1 as int, y1 as int),
        old(bitmap).in_bounds(x2 as int, y2 as int),
    ensures
        final(bitmap).repainted(
            old(bitmap),
            |x: int, y: int| outline_covers(Point2 { x: x0, y: y0 }, Point2 { x: x1, y: y1 }, Point2 { x: x2, y: y2 }, x, y),
            opaque_rgb(*color),
        ),
{
    let ghost start = *bitmap;
    draw_line(bitmap, x0, y0, x1, y1, color);
    let ghost m1 = *bitmap;
    draw_line(bitmap, x0, y0, x2, y2, color);
    let ghost m2 = *bitmap;
    draw_line(bitmap, x1, y1, x2, y2, color);
    proof {
        assert forall|u: int, v: int| #[trigger] bitmap.in_bounds(u, v) implies bitmap.at(u, v)
            == if outline_covers(Point2 { x: x0, y: y0 }, Point2 { x: x1, y: y1 }, Point2 { x: x2, y: y2 }, u, v) {
                opaque_rgb(*color)
            } else {
                start.at(u, v)
            } by {
            assert(m1.in_bounds(u, v));
            assert(m2.in_bounds(u, v));
        }
    }
}

/// Fills the triangle (x0, y0), (x1, y1), (x2, y2).
pub fn draw_filled_triangle(
    bitmap: &mut Bitmap,
    x0: i32,
    y0: i32,
    x1: i32,
    y1: i32,
    x2: i32,
    y2: i32,
    color: &Rgb,
)
    requires
        old(bitmap).wf(),
        old(bitmap).in_bounds(x0 as int, y0 as int),
        old(bitmap).in_bounds(x1 as int, y1 as int),
        old(bitmap).in_bounds(x2 as int, y2 as int),
    ensures
        final(bitmap).repainted(
            old(bitmap),
            |x: int, y: int| fill_covers(Point2 { x: x0, y: y0 }, Point2 { x: x1, y: y1 }, Point2 { x: x2, y: y2 }, x, y),
            opaque_rgb(*color),
        ),
{
    let mut triangle = STriangle::new(Point2::new(x0, y0), Point2::new(x1, y1), Point2::new(x2, y2));
    assert(triangle.vertices@[0] == Point2 { x: x0, y: y0 });
    assert(triangle.vertices@[1] == Point2 { x: x1, y: y1 });
    assert(triangle.vertices@[2] == Point2 { x: x2, y: y2 });
    fill_triangle(bitmap, &mut triangle, color);
}

/// Outlines a fixed yellow triangle in the middle of the default viewport.
pub fn draw_lines(bitmap: &mut Bitmap)
    requires
        old(bitmap).wf(),
        old(bitmap).width() > 720,
        old(bitmap).height() > 405,
    ensures
        final(bitmap).repainted(
            old(bitmap),
            |x: int, y: int| outline_covers(
                Point2 { x: 480, y: 135 },
                Point2 { x: 240, y: 405 },
                Point2 { x: 720, y: 270 },
                x,
                y,
            ),
            opaque_rgb((255, 255, 0)),
        ),
{
    let color: Rgb = (255, 255, 0);
    draw_triangle_outline(
        bitmap,
        WIDTH / 2,
        HEIGHT / 4,
        WIDTH / 4,
        3 * HEIGHT / 4,
        3 * WIDTH / 4,
        HEIGHT / 2,
        &color,
    );
}

} // verus!
