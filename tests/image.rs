use rust_colors::image::Image;
use rust_colors::points::{ColorPoint, SpacePoint};

#[test]
fn image_write_and_raw() {
    let mut img = Image::new();
    let s = SpacePoint::new(3, 2);
    assert!(!img.has(s.offset()));
    img.write(&s, &ColorPoint::new(9, 8, 7));
    assert!(img.has(2 * 4096 + 3));
    assert_eq!(img.color_at(2 * 4096 + 3), ColorPoint::new(9, 8, 7));
    let raw = img.to_raw();
    assert_eq!(raw.len(), 4096 * 4096 * 4);
    let o = 4 * (2 * 4096 + 3);
    assert_eq!(&raw[o..o + 4], &[9, 8, 7, 255]);
    assert_eq!(&raw[0..4], &[0, 0, 0, 255]);
}
