use vstd::prelude::*;
use vstd::arithmetic::div_mod::{lemma_fundamental_div_mod, lemma_fundamental_div_mod_converse};
use crate::bitmap::Bitmap;
use crate::pixel::{opaque_rgb, Pixel, Rgb};

verus! {

/// Absolute value.
pub open spec fn abs(a: int) -> int {
    if a < 0 { -a } else { a }
}

/// How far the minor coordinate has moved after `i` steps along the major
/// axis of a line that rises `minor` over `major`: the ideal offset
/// `i * minor / major` rounded to the nearest integer, halves rounded down.
pub open spec fn bresenham_offset(i: int, minor: int, major: int) -> int {
    (2 * i * minor + major - 1) / (2 * major)
}

/// Row of the pixel drawn in column `x` by a line that steps along x from
/// (x0, y0) towards (x1, y1).
pub open spec fn low_line_y(x0: int, y0: int, x1: int, y1: int, x: int) -> int {
    let off = bresenham_offset(x - x0, abs(y1 - y0), x1 - x0);
    if y1 < y0 { y0 - off } else { y0 + off }
}

/// Column of the pixel drawn in row `y` by a line that steps along y from
/// (x0, y0) towards (x1, y1).
pub open spec fn high_line_x(x0: int, y0: int, x1: int, y1: int, y: int) -> int {
    let off = bresenham_offset(y - y0, abs(x1 - x0), y1 - y0);
    if x1 < x0 { x0 - off } else { x0 + off }
}

/// Pixels of a line stepped along x: one per column from x0 up to, not
/// including, x1.
pub open spec fn low_line_covers(x0: int, y0: int, x1: int, y1: int, x: int, y: int) -> bool {
    x0 <= x < x1 && y == low_line_y(x0, y0, x1, y1, x)
}

/// Pixels of a line stepped along y: one per row from y0 up to, not
/// including, y1.
pub open spec fn high_line_covers(x0: int, y0: int, x1: int, y1: int, x: int, y: int) -> bool {
    y0 <= y < y1 && x == high_line_x(x0, y0, x1, y1, y)
}

/// Pixels of the line from (x0, y0) to (x1, y1): a line more horizontal than
/// vertical is stepped along x, any other along y, always from the endpoint
/// with the smaller stepping coordinate.
pub open spec fn line_covers(x0: int, y0: int, x1: int, y1: int, x: int, y: int) -> bool {
    if abs(y1 - y0) < abs(x1 - x0) {
        if x0 > x1 {
            low_line_covers(x1, y1, x0, y0, x, y)
        } else {
            low_line_covers(x0, y0, x1, y1, x, y)
        }
    } else if y0 > y1 {
        high_line_covers(x1, y1, x0, y0, x, y)
    } else {
        high_line_covers(x0, y0, x1, y1, x, y)
    }
}

/// Pixels of the horizontal span of row `y` between columns `x0` and `x1`,
/// both included.
pub open spec fn span_covers(y: int, x0: int, x1: int, x: int, yy: int) -> bool {
    yy == y && (if x0 < x1 { x0 <= x <= x1 } else { x1 <= x <= x0 })
}

/// Pixels of the vertical span of column `x` between rows `y0` and `y1`,
/// both included.
pub open spec fn column_covers(x: int, y0: int, y1: int, xx: int, y: int) -> bool {
    xx == x && (if y0 < y1 { y0 <= y <= y1 } else { y1 <= y <= y0 })
}

/// The offset after one more step grows by one exactly when the error term
/// of the sweep is positive.
proof fn lemma_offset_step(i: int, minor: int, major: int, diff: int)
    requires
        0 <= i,
        0 <= minor <= major,
        0 < major,
        diff == 2 * (i + 1) * minor - major - 2 * major * bresenham_offset(i, minor, major),
    ensures
        bresenham_offset(i + 1, minor, major) == bresenham_offset(i, minor, major) + if diff > 0 { 1int } else { 0int },
        -2 * major < diff <= 2 * minor,
{
    let o = bresenham_offset(i, minor, major);
    let m = 2 * major;
    let n0 = 2 * i * minor + major - 1;
    let n1 = 2 * (i + 1) * minor + major - 1;
    lemma_fundamental_div_mod(n0, m);
    assert(n0 == m * o + n0 % m);
    assert(0 <= n0 % m < m);
    assert(n1 == n0 + 2 * minor) by (nonlinear_arith)
        requires
            n0 == 2 * i * minor + major - 1,
            n1 == 2 * (i + 1) * minor + major - 1,
    ;
    assert(2 * major * o == m * o) by (nonlinear_arith)
        requires
            m == 2 * major,
    ;
    assert((o + 1) * m == m * o + m) by (nonlinear_arith);
    if diff > 0 {
        lemma_fundamental_div_mod_converse(n1, m, o + 1, n1 - (o + 1) * m);
    } else {
        lemma_fundamental_div_mod_converse(n1, m, o, n1 - o * m);
    }
}

/// A line starts at its first endpoint.
proof fn lemma_offset_zero(minor: int, major: int)
    requires
        0 < major,
    ensures
        bresenham_offset(0, minor, major) == 0,
        2 * major * bresenham_offset(0, minor, major) == 0,
{
    assert(2 * 0 * minor + major - 1 == major - 1) by (nonlinear_arith);
    lemma_fundamental_div_mod_converse(major - 1, 2 * major, 0, major - 1);
}

/// Along a line the offset stays between zero and the full rise.
proof fn lemma_offset_bounds(i: int, minor: int, major: int)
    requires
        0 <= i <= major,
        0 <= minor <= major,
        0 < major,
    ensures
        0 <= bresenham_offset(i, minor, major) <= minor,
{
    let m = 2 * major;
    let n = 2 * i * minor + major - 1;
    assert(0 <= n < m * (minor + 1)) by (nonlinear_arith)
        requires
            n == 2 * i * minor + major - 1,
            m == 2 * major,
            0 <= i <= major,
            0 <= minor,
            0 < major,
    ;
    lemma_fundamental_div_mod(n, m);
    let o = n / m;
    if o > minor {
        assert(m * o >= m * (minor + 1)) by (nonlinear_arith)
            requires
                o >= minor + 1,
                m > 0,
        ;
    }
    if o < 0 {
        assert(m * o <= -m) by (nonlinear_arith)
            requires
                o <= -1,
                m > 0,
        ;
    }
}

/// Draws a line stepped along x, from column x0 up to, not including, x1.
fn draw_low(bitmap: &mut Bitmap, x0: i32, y0: i32, x1: i32, y1: i32, color: &Rgb)
    requires
        old(bitmap).wf(),
        x0 < x1 ==> old(bitmap).in_bounds(x0 as int, y0 as int) && old(bitmap).in_bounds(x1 - 1, y1 as int),
        x0 <= x1,
        abs(y1 - y0) <= x1 - x0,
    ensures
        final(bitmap).repainted(
            old(bitmap),
            |x: int, y: int| low_line_covers(x0 as int, y0 as int, x1 as int, y1 as int, x, y),
            opaque_rgb(*color),
        ),
{
    let ghost start = *bitmap;
    let dx: i64 = x1 as i64 - x0 as i64;
    let mut dy: i64 = y1 as i64 - y0 as i64;
    let yi: i64 = if dy < 0 {
        dy = -dy;
        -1
    } else {
        1
    };
    let mut diff: i64 = 2 * dy - dx;
    let mut y: i64 = y0 as i64;
    let mut x: i64 = x0 as i64;
    let pixel = Pixel::from_rgb_tuple(*color);
    proof {
        if dx > 0 {
            lemma_offset_zero(dy as int, dx as int);
        }
    }
    while x < x1 as i64
        invariant
            start == *old(bitmap),
            start.wf(),
            x0 < x1 ==> start.in_bounds(x0 as int, y0 as int) && start.in_bounds(x1 - 1, y1 as int),
            pixel == opaque_rgb(*color),
            dx == x1 - x0,
            dy == abs(y1 - y0),
            yi == if y1 < y0 { -1int } else { 1int },
            x0 <= x <= x1,
            0 <= dy <= dx,
            x < x1 ==> y == low_line_y(x0 as int, y0 as int, x1 as int, y1 as int, x as int),
            x < x1 ==> diff == 2 * (x - x0 + 1) * dy - dx - 2 * dx * bresenham_offset(x - x0, dy as int, dx as int),
            bitmap.repainted(
                &start,
                |u: int, v: int| x0 <= u < x && v == low_line_y(x0 as int, y0 as int, x1 as int, y1 as int, u),
                pixel,
            ),
        decreases x1 - x,
    {
        let ghost i: int = x - x0;
        let ghost o: int = bresenham_offset(i, dy as int, dx as int);
        let ghost prev: int = diff as int;
        proof {
            lemma_offset_bounds(i, dy as int, dx as int);
            lemma_offset_step(i, dy as int, dx as int, diff as int);
        }
        let ghost mid = *bitmap;
        bitmap.set_pixel(x as usize, y as usize, pixel);
        proof {
            assert forall|u: int, v: int| #[trigger] bitmap.in_bounds(u, v) implies bitmap.at(u, v)
                == if x0 <= u < x + 1 && v == low_line_y(x0 as int, y0 as int, x1 as int, y1 as int, u) { pixel } else { start.at(u, v) } by {
                assert(mid.in_bounds(u, v));
            }
        }
        let ghost step: int = if diff > 0 { 1int } else { 0int };
        if diff > 0 {
            y = y + yi;
            diff = diff + 2 * (dy - dx);
        } else {
            diff = diff + 2 * dy;
        }
        x = x + 1;
        proof {
            assert(diff == 2 * (i + 2) * dy - dx - 2 * dx * (o + step)) by (nonlinear_arith)
                requires
                    prev == 2 * (i + 1) * dy - dx - 2 * dx * o,
                    diff == prev + 2 * dy - 2 * dx * step,
            ;
        }
    }
}

/// Draws a line stepped along y, from row y0 up to, not including, y1.
fn draw_high(bitmap: &mut Bitmap, x0: i32, y0: i32, x1: i32, y1: i32, color: &Rgb)
    requires
        old(bitmap).wf(),
        y0 < y1 ==> old(bitmap).in_bounds(x0 as int, y0 as int) && old(bitmap).in_bounds(x1 as int, y1 - 1),
        y0 <= y1,
        abs(x1 - x0) <= y1 - y0,
    ensures
        final(bitmap).repainted(
            old(bitmap),
            |x: int, y: int| high_line_covers(x0 as int, y0 as int, x1 as int, y1 as int, x, y),
            opaque_rgb(*color),
        ),
{
    let ghost start = *bitmap;
    let mut dx: i64 = x1 as i64 - x0 as i64;
    let dy: i64 = y1 as i64 - y0 as i64;
    let xi: i64 = if dx < 0 {
        dx = -dx;
        -1
    } else {
        1
    };
    let mut diff: i64 = 2 * dx - dy;
    let mut x: i64 = x0 as i64;
    let mut y: i64 = y0 as i64;
    let pixel = Pixel::from_rgb_tuple(*color);
    proof {
        if dy > 0 {
            lemma_offset_zero(dx as int, dy as int);
        }
    }
    while y < y1 as i64
        invariant
            start == *old(bitmap),
            start.wf(),
            y0 < y1 ==> start.in_bounds(x0 as int, y0 as int) && start.in_bounds(x1 as int, y1 - 1),
            pixel == opaque_rgb(*color),
            dy == y1 - y0,
            dx == abs(x1 - x0),
            xi == if x1 < x0 { -1int } else { 1int },
            y0 <= y <= y1,
            0 <= dx <= dy,
            y < y1 ==> x == high_line_x(x0 as int, y0 as int, x1 as int, y1 as int, y as int),
            y < y1 ==> diff == 2 * (y - y0 + 1) * dx - dy - 2 * dy * bresenham_offset(y - y0, dx as int, dy as int),
            bitmap.repainted(
                &start,
                |u: int, v: int| y0 <= v < y && u == high_line_x(x0 as int, y0 as int, x1 as int, y1 as int, v),
                pixel,
            ),
        decreases y1 - y,
    {
        let ghost i: int = y - y0;
        let ghost o: int = bresenham_offset(i, dx as int, dy as int);
        let ghost prev: int = diff as int;
        proof {
            lemma_offset_bounds(i, dx as int, dy as int);
            lemma_offset_step(i, dx as int, dy as int, diff as int);
        }
        let ghost mid = *bitmap;
        bitmap.set_pixel(x as usize, y as usize, pixel);
        proof {
            assert forall|u: int, v: int| #[trigger] bitmap.in_bounds(u, v) implies bitmap.at(u, v)
                == if y0 <= v < y + 1 && u == high_line_x(x0 as int, y0 as int, x1 as int, y1 as int, v) { pixel } else { start.at(u, v) } by {
                assert(mid.in_bounds(u, v));
            }
        }
        let ghost step: int = if diff > 0 { 1int } else { 0int };
        if diff > 0 {
            x = x + xi;
            diff = diff + 2 * (dx - dy);
        } else {
            diff = diff + 2 * dx;
        }
        y = y + 1;
        proof {
            assert(diff == 2 * (i + 2) * dx - dy - 2 * dy * (o + step)) by (nonlinear_arith)
                requires
                    prev == 2 * (i + 1) * dx - dy - 2 * dy * o,
                    diff == prev + 2 * dx - 2 * dy * step,
            ;
        }
    }
}

/// Every pixel that the line from (x0, y0) to (x1, y1) draws is a pixel of
/// `bitmap`: the box between the starting endpoint and the last step before
/// the far one lies inside it. The far endpoint itself is never drawn and
/// may lie just outside.
pub open spec fn line_in_bounds(bitmap: Bitmap, x0: int, y0: int, x1: int, y1: int) -> bool {
    if abs(y1 - y0) < abs(x1 - x0) {
        if x0 > x1 {
            bitmap.in_bounds(x1, y1) && bitmap.in_bounds(x0 - 1, y0)
        } else {
            bitmap.in_bounds(x0, y0) && bitmap.in_bounds(x1 - 1, y1)
        }
    } else if y0 > y1 {
        bitmap.in_bounds(x1, y1) && bitmap.in_bounds(x0, y0 - 1)
    } else {
        y0 < y1 ==> bitmap.in_bounds(x0, y0) && bitmap.in_bounds(x1, y1 - 1)
    }
}

/// Draws the line from (x0, y0) to (x1, y1) with Bresenham's algorithm.
///
/// The sweep starts at the endpoint with the smaller stepping coordinate and
/// stops one step short of the other endpoint, so a line of one point draws
/// nothing.
pub fn draw_line(bitmap: &mut Bitmap, x0: i32, y0: i32, x1: i32, y1: i32, color: &Rgb)
    requires
        old(bitmap).wf(),
        line_in_bounds(*old(bitmap), x0 as int, y0 as int, x1 as int, y1 as int),
    ensures
        final(bitmap).repainted(
            old(bitmap),
            |x: int, y: int| line_covers(x0 as int, y0 as int, x1 as int, y1 as int, x, y),
            opaque_rgb(*color),
        ),
{
    let ady: i64 = if y1 >= y0 { y1 as i64 - y0 as i64 } else { y0 as i64 - y1 as i64 };
    let adx: i64 = if x1 >= x0 { x1 as i64 - x0 as i64 } else { x0 as i64 - x1 as i64 };
    if ady < adx {
        if x0 > x1 {
            draw_low(bitmap, x1, y1, x0, y0, color);
        } else {
            draw_low(bitmap, x0, y0, x1, y1, color);
        }
    } else if y0 > y1 {
        draw_high(bitmap, x1, y1, x0, y0, color);
    } else {
        draw_high(bitmap, x0, y0, x1, y1, color);
    }
}

/// Draws the pixels of row `y` from column `x0` to column `x1`, both included.
pub fn draw_horizontal_line(bitmap: &mut Bitmap, y: i32, x0: i32, x1: i32, color: &Rgb)
    requires
        old(bitmap).wf(),
        old(bitmap).in_bounds(x0 as int, y as int),
        old(bitmap).in_bounds(x1 as int, y as int),
    ensures
        final(bitmap).repainted(
            old(bitmap),
            |x: int, yy: int| span_covers(y as int, x0 as int, x1 as int, x, yy),
            opaque_rgb(*color),
        ),
{
    let ghost start = *bitmap;
    let (x_min, x_max) = if x0 < x1 { (x0, x1) } else { (x1, x0) };
    let pixel = Pixel::from_rgb_tuple(*color);
    let mut x: i64 = x_min as i64;
    while x <= x_max as i64
        invariant
            start == *old(bitmap),
            start.wf(),
            start.in_bounds(x_min as int, y as int),
            start.in_bounds(x_max as int, y as int),
            x_min == if x0 < x1 { x0 } else { x1 },
            x_max == if x0 < x1 { x1 } else { x0 },
            pixel == opaque_rgb(*color),
            x_min <= x <= x_max + 1,
            bitmap.repainted(&start, |u: int, v: int| v == y && x_min <= u < x, pixel),
        decreases x_max + 1 - x,
    {
        let ghost mid = *bitmap;
        bitmap.set_pixel(x as usize, y as usize, pixel);
        proof {
            assert forall|u: int, v: int| #[trigger] bitmap.in_bounds(u, v) implies bitmap.at(u, v)
                == if v == y && x_min <= u < x + 1 { pixel } else { start.at(u, v) } by {
                assert(mid.in_bounds(u, v));
            }
        }
        x = x + 1;
    }
}

/// Draws the pixels of column `x` from row `y0` to row `y1`, both included.
pub fn draw_vertical_line(bitmap: &mut Bitmap, x: i32, y0: i32, y1: i32, color: &Rgb)
    requires
        old(bitmap).wf(),
        old(bitmap).in_bounds(x as int, y0 as int),
        old(bitmap).in_bounds(x as int, y1 as int),
    ensures
        final(bitmap).repainted(
            old(bitmap),
            |xx: int, y: int| column_covers(x as int, y0 as int, y1 as int, xx, y),
            opaque_rgb(*color),
        ),
{
    let ghost start = *bitmap;
    let (y_min, y_max) = if y0 < y1 { (y0, y1) } else { (y1, y0) };
    let pixel = Pixel::from_rgb_tuple(*color);
    let mut y: i64 = y_min as i64;
    while y <= y_max as i64
        invariant
            start == *old(bitmap),
            start.wf(),
            start.in_bounds(x as int, y_min as int),
            start.in_bounds(x as int, y_max as int),
            y_min == if y0 < y1 { y0 } else { y1 },
            y_max == if y0 < y1 { y1 } else { y0 },
            pixel == opaque_rgb(*color),
            y_min <= y <= y_max + 1,
            bitmap.repainted(&start, |u: int, v: int| u == x && y_min <= v < y, pixel),
        decreases y_max + 1 - y,
    {
        let ghost mid = *bitmap;
        bitmap.set_pixel(x as usize, y as usize, pixel);
        proof {
            assert forall|u: int, v: int| #[trigger] bitmap.in_bounds(u, v) implies bitmap.at(u, v)
                == if u == x && y_min <= v < y + 1 { pixel } else { start.at(u, v) } by {
                assert(mid.in_bounds(u, v));
            }
        }
        y = y + 1;
    }
}

} // verus!
