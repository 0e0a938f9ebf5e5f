use engine3d::bitmap::Bitmap;
use engine3d::fill::{draw_filled_triangle, draw_lines, draw_triangle_outline, fill_triangle, Point2, STriangle};
use engine3d::pixel::Pixel;
use engine3d::raster::{draw_horizontal_line, draw_line, draw_vertical_line};

const C: (u8, u8, u8) = (200, 10, 20);

fn painted(b: &Bitmap) -> Vec<(usize, usize)> {
    let mut out = Vec::new();
    for y in 0..b.height() {
        for x in 0..b.width() {
            if b.get_pixel(x, y) != Pixel::default() {
                out.push((x, y));
            }
        }
    }
    out.sort();
    out
}

fn line(w: usize, h: usize, x0: i32, y0: i32, x1: i32, y1: i32) -> Vec<(usize, usize)> {
    let mut b = Bitmap::new(w, h);
    draw_line(&mut b, x0, y0, x1, y1, &C);
    painted(&b)
}

#[test]
fn bresenham_shallow_line_on_small_bitmap() {
    assert_eq!(line(5, 3, 0, 0, 4, 2), vec![(0, 0), (1, 0), (2, 1), (3, 1)]);
}

#[test]
fn bresenham_horizontal_line() {
    assert_eq!(line(6, 6, 0, 0, 5, 0), vec![(0, 0), (1, 0), (2, 0), (3, 0), (4, 0)]);
}

#[test]
fn bresenham_vertical_line() {
    let mut expected = vec![(0, 0), (0, 1), (0, 2), (0, 3), (0, 4)];
    expected.sort();
    assert_eq!(line(6, 6, 0, 0, 0, 5), expected);
}

#[test]
fn bresenham_diagonal_line() {
    assert_eq!(line(6, 6, 0, 0, 5, 5), vec![(0, 0), (1, 1), (2, 2), (3, 3), (4, 4)]);
}

#[test]
fn bresenham_gentle_slope() {
    let ys = [0, 0, 1, 1, 1, 1, 2, 2, 2, 3];
    let mut expected: Vec<(usize, usize)> = ys.iter().enumerate().map(|(x, y)| (x, *y)).collect();
    expected.sort();
    assert_eq!(line(11, 4, 0, 0, 10, 3), expected);
}

#[test]
fn bresenham_reversed_endpoints_start_from_the_other_end() {
    assert_eq!(line(5, 3, 4, 2, 0, 0), vec![(0, 0), (1, 0), (2, 1), (3, 1)]);
    let mut expected = vec![(2, 0), (2, 1), (2, 2), (1, 3)];
    expected.sort();
    assert_eq!(line(3, 5, 1, 4, 2, 0), expected);
}

#[test]
fn bresenham_single_point_draws_nothing() {
    assert_eq!(line(3, 3, 1, 1, 1, 1), vec![]);
}

#[test]
fn spans_include_both_ends() {
    let mut b = Bitmap::new(4, 4);
    draw_horizontal_line(&mut b, 2, 3, 1, &C);
    assert_eq!(painted(&b), vec![(1, 2), (2, 2), (3, 2)]);
    let mut b = Bitmap::new(4, 4);
    draw_vertical_line(&mut b, 0, 1, 3, &C);
    assert_eq!(painted(&b), vec![(0, 1), (0, 2), (0, 3)]);
}

#[test]
fn flat_bottom_triangle_fill_is_complete() {
    let mut b = Bitmap::new(5, 6);
    let mut t = STriangle::new(Point2::new(0, 4), Point2::new(2, 0), Point2::new(4, 4));
    fill_triangle(&mut b, &mut t, &C);
    assert_eq!(t.vertices, [Point2::new(2, 0), Point2::new(0, 4), Point2::new(4, 4)]);
    let spans = [(2, 2), (1, 2), (1, 3), (0, 3), (0, 4)];
    let mut expected = Vec::new();
    for (y, (lo, hi)) in spans.iter().enumerate() {
        for x in *lo..=*hi {
            expected.push((x, y));
        }
    }
    expected.sort();
    assert_eq!(painted(&b), expected);
}

#[test]
fn flat_top_triangle_fill() {
    let mut b = Bitmap::new(5, 5);
    draw_filled_triangle(&mut b, 0, 0, 4, 0, 2, 4, &C);
    let spans = [(0, 4), (0, 3), (1, 3), (1, 2), (2, 2)];
    let mut expected = Vec::new();
    for (y, (lo, hi)) in spans.iter().enumerate() {
        for x in *lo..=*hi {
            expected.push((x, y));
        }
    }
    expected.sort();
    assert_eq!(painted(&b), expected);
}

#[test]
fn general_triangle_is_split_at_middle_row() {
    let mut b = Bitmap::new(5, 5);
    draw_filled_triangle(&mut b, 0, 0, 4, 2, 0, 4, &C);
    let spans = [(0, 0), (0, 2), (0, 4), (0, 2), (0, 0)];
    let mut expected = Vec::new();
    for (y, (lo, hi)) in spans.iter().enumerate() {
        for x in *lo..=*hi {
            expected.push((x, y));
        }
    }
    expected.sort();
    assert_eq!(painted(&b), expected);
}

#[test]
fn outline_draws_three_edges() {
    let mut b = Bitmap::new(5, 5);
    draw_triangle_outline(&mut b, 0, 0, 4, 0, 0, 4, &C);
    let mut expected = vec![(0, 0), (1, 0), (2, 0), (3, 0), (0, 1), (0, 2), (0, 3), (4, 0), (3, 1), (2, 2), (1, 3)];
    expected.sort();
    assert_eq!(painted(&b), expected);
}

#[test]
fn draw_lines_outlines_a_yellow_triangle() {
    let mut b = Bitmap::default();
    draw_lines(&mut b);
    assert_eq!(b.get_pixel(480, 135), Pixel::new(255, 255, 0));
    assert_eq!(b.get_pixel(240, 405), Pixel::new(255, 255, 0));
    assert_eq!(b.get_pixel(0, 0), Pixel::default());
}

#[test]
fn far_endpoint_may_lie_just_off_the_bitmap() {
    assert_eq!(line(5, 1, 0, 0, 5, 0), vec![(0, 0), (1, 0), (2, 0), (3, 0), (4, 0)]);
    assert_eq!(line(1, 3, 0, 0, 0, 3), vec![(0, 0), (0, 1), (0, 2)]);
    assert_eq!(line(5, 3, 5, 2, 0, 0), vec![(0, 0), (1, 0), (2, 1), (3, 1), (4, 2)]);
}
