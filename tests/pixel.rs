use engine3d::pixel::Pixel;

/// Test Pixel::from_string
#[test]
fn pixel_from_string() {
    assert_eq!(Pixel::from_string("0   0 0"), Pixel::new(0, 0, 0));
    assert_eq!(Pixel::from_string("   1 2 3 "), Pixel::new(1, 2, 3));
    assert_eq!(Pixel::from_string("0 0  0   "), Pixel::new(0, 0, 0));
    assert_eq!(Pixel::from_string("  255 255   255   "), Pixel::new(255, 255, 255));
}

#[test]
fn pixel_text_rejects_values_out_of_range() {
    assert_eq!(Pixel::try_from_string("256 0 0"), None);
    assert_eq!(Pixel::try_from_string("-1 42 13"), None);
}

#[test]
fn pixel_text_rejects_too_few_numbers() {
    assert_eq!(Pixel::try_from_string("0 0"), None);
    assert_eq!(Pixel::try_from_string(""), None);
    assert_eq!(Pixel::try_from_string("   "), None);
}

#[test]
fn pixel_text_rejects_too_many_numbers() {
    assert_eq!(Pixel::try_from_string("0 0 0 0"), None);
}

#[test]
fn pixel_text_accepts_other_whitespace_and_plus() {
    assert_eq!(Pixel::try_from_string("\t+7\n008\u{3000}9 "), Some(Pixel::new(7, 8, 9)));
    assert_eq!(Pixel::try_from_string("1 2 x"), None);
    assert_eq!(Pixel::try_from_string("1 2 +"), None);
    assert_eq!(Pixel::try_from_string("1 2 99999999999"), None);
}

#[test]
fn pixel_new_is_opaque() {
    let p = Pixel::new(1, 2, 3);
    assert_eq!((p.red, p.green, p.blue, p.alfa), (1, 2, 3, 255));
    assert_eq!(Pixel::from_rgb_tuple((4, 5, 6)), Pixel::new(4, 5, 6));
    assert_eq!(Pixel::default(), Pixel::new(51, 76, 76));
}

#[test]
fn pixel_plain_ppm_text() {
    assert_eq!(Pixel::new(1, 22, 255).plain_ppm_pixel_format(), " 1 22 255 ");
    assert_eq!(Pixel::new(0, 0, 0).plain_ppm_pixel_format(), " 0 0 0 ");
}
