use engine3d::bitmap::Bitmap;
use engine3d::clock::AngleAccumulator;
use engine3d::fill::Point2;
use engine3d::pixel::Pixel;
use engine3d::render::{depth_order, render_faces, ScreenFace};

fn face(depth: i64, facing_camera: bool, shade: u8) -> ScreenFace {
    ScreenFace::new(Point2::new(0, 0), Point2::new(4, 0), Point2::new(0, 4), depth, facing_camera, shade)
}

#[test]
fn culled_face_is_not_drawn() {
    let mut b = Bitmap::new(5, 5);
    render_faces(&mut b, &vec![face(0, false, 100)]);
    assert!(b.raw_pixels().iter().all(|p| *p == Pixel::default()));
}

#[test]
fn facing_face_gets_fill_of_its_shade() {
    let mut b = Bitmap::new(5, 5);
    render_faces(&mut b, &vec![face(0, true, 100)]);
    assert_eq!(b.get_pixel(1, 1), Pixel::new(100, 100, 0));
    assert_eq!(b.get_pixel(4, 4), Pixel::default());
}

#[test]
fn nearer_face_wins_in_either_input_order() {
    let far = face(1, true, 50);
    let near = face(2, true, 200);
    for faces in [vec![far, near], vec![near, far]] {
        let mut b = Bitmap::new(5, 5);
        render_faces(&mut b, &faces);
        assert_eq!(b.get_pixel(1, 1), Pixel::new(200, 200, 0));
    }
}

#[test]
fn depth_order_is_stable() {
    let faces = vec![face(3, true, 0), face(1, true, 0), face(3, true, 0), face(-2, true, 0)];
    assert_eq!(depth_order(&faces), vec![3, 1, 0, 2]);
}

#[test]
fn clock_is_additive_in_elapsed_time() {
    let mut one = AngleAccumulator::new();
    one.advance(1_000_000);
    let mut two = AngleAccumulator::new();
    two.advance(500_000);
    two.advance(500_000);
    assert_eq!(one.elapsed_nanos(), two.elapsed_nanos());
    assert_eq!(one.elapsed_nanos(), 1_000_000);
}

#[test]
fn clock_saturates() {
    let mut c = AngleAccumulator::new();
    c.advance(u64::MAX);
    c.advance(5);
    assert_eq!(c.elapsed_nanos(), u64::MAX);
}

#[test]
fn culled_face_may_lie_off_screen() {
    let off = ScreenFace::new(Point2::new(-50, 7), Point2::new(900, 0), Point2::new(0, -3), 9, false, 10);
    let mut b = Bitmap::new(5, 5);
    render_faces(&mut b, &vec![off, face(0, true, 100)]);
    assert_eq!(b.get_pixel(1, 1), Pixel::new(100, 100, 0));
    assert_eq!(b.get_pixel(4, 4), Pixel::default());
}
