use engine3d::bitmap::Bitmap;
use engine3d::pixel::Pixel;

#[test]
fn new_bitmap_holds_background() {
    let b = Bitmap::new(3, 2);
    assert_eq!(b.width(), 3);
    assert_eq!(b.height(), 2);
    assert_eq!(b.raw_pixels().len(), 6);
    assert!(b.raw_pixels().iter().all(|p| *p == Pixel::default()));
}

#[test]
fn set_and_get_pixel() {
    let mut b = Bitmap::new(3, 2);
    b.set_pixel(2, 1, Pixel::new(9, 8, 7));
    assert_eq!(b.get_pixel(2, 1), Pixel::new(9, 8, 7));
    assert_eq!(b.raw_pixels()[5], Pixel::new(9, 8, 7));
    assert_eq!(b.get_pixel(1, 1), Pixel::default());
}

#[test]
fn set_single_channels() {
    let mut b = Bitmap::new(2, 2);
    b.set_red(0, 1, 1);
    b.set_green(0, 1, 2);
    b.set_blue(0, 1, 3);
    assert_eq!(b.get_pixel(0, 1), Pixel::new(1, 2, 3));
    assert_eq!(b.get_pixel(1, 1), Pixel::default());
}

#[test]
fn fill_and_clear() {
    let mut b = Bitmap::new(2, 2);
    b.fill(&(1, 2, 3));
    assert!(b.raw_pixels().iter().all(|p| *p == Pixel::new(1, 2, 3)));
    b.clear_buffer();
    assert!(b.raw_pixels().iter().all(|p| *p == Pixel::default()));
}

#[test]
fn resize_keeps_buffer_order() {
    let mut b = Bitmap::new(2, 1);
    b.set_pixel(1, 0, Pixel::new(1, 1, 1));
    b.resize(1, 3);
    assert_eq!((b.width(), b.height()), (1, 3));
    assert_eq!(b.get_pixel(0, 1), Pixel::new(1, 1, 1));
    assert_eq!(b.get_pixel(0, 2), Pixel::default());
    b.resize(1, 1);
    assert_eq!(b.raw_pixels().len(), 1);
}

#[test]
fn default_bitmap_size() {
    let b = Bitmap::default();
    assert_eq!((b.width(), b.height()), (960, 540));
}

#[test]
fn plain_ppm_text_breaks_lines_after_five_pixels() {
    let mut b = Bitmap::new(6, 1);
    b.fill(&(1, 2, 3));
    b.set_pixel(5, 0, Pixel::new(255, 0, 10));
    let expected = String::from("P3\n6 1\n255\n")
        + " 1 2 3  1 2 3  1 2 3  1 2 3  1 2 3 \n"
        + " 255 0 10 ";
    assert_eq!(b.plain_ppm_format(), expected);
}

#[test]
fn plain_ppm_text_of_empty_bitmap() {
    let b = Bitmap::new(0, 0);
    assert_eq!(b.plain_ppm_format(), "P3\n0 0\n255\n");
}

#[test]
fn gradient_wraps_channels() {
    let mut b = Bitmap::new(300, 2);
    engine3d::bitmap::render_wierd_gradient(&mut b, 10, 250);
    assert_eq!(b.get_pixel(0, 0), Pixel::new(0, 250, 10));
    assert_eq!(b.get_pixel(250, 1), Pixel::new(0, 251, 4));
    assert_eq!(b.get_pixel(299, 1), Pixel::new(0, 251, 53));
}
