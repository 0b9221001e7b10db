use image::DynamicImage;
use site_patterns::bitmap_loader::{bitmap_from_image, create_test_bitmap};
use site_patterns::grid::{Bitmap, Volume};
use site_patterns::pattern::{goodness, xor};
use site_patterns::site::SiteManager;
use site_patterns::state::Point2;

#[test]
fn test_create_test_bitmap() {
    let bitmap = create_test_bitmap();
    assert_eq!(bitmap.dim(), (3, 3));
    assert!(bitmap.get(1, 1)); // Center should be true
    assert!(!bitmap.get(0, 0)); // Corner should be false
}

#[test]
fn test_bitmap_from_image() {
    // Create a simple test image
    let mut img = image::RgbaImage::new(3, 3);
    img.put_pixel(1, 1, image::Rgba([0, 0, 0, 255])); // Black pixel in center

    let bitmap = bitmap_from_image(&DynamicImage::ImageRgba8(img)).unwrap();
    assert_eq!(bitmap.dim(), (3, 3));
    assert!(bitmap.get(1, 1)); // Center should be true
    assert!(!bitmap.get(0, 0)); // Corner should be false
}

#[test]
fn test_xor() {
    let slice = Bitmap::from_rows(&vec![
        vec![true, false, true],
        vec![false, true, false],
        vec![true, false, true],
    ]);
    let bmp = Bitmap::from_rows(&vec![
        vec![true, false, true],
        vec![false, false, false],
        vec![true, true, false],
    ]);
    let result = Bitmap::from_rows(&vec![
        vec![false, false, false],
        vec![false, true, false],
        vec![false, true, true],
    ]);
    assert_eq!(xor(&slice, &bmp), result);
}

#[test]
fn test_goodness() {
    let bmp = Bitmap::from_rows(&vec![
        vec![false, false, true, false, false],
        vec![false, false, true, false, false],
        vec![true, true, true, true, true],
        vec![false, false, true, false, false],
        vec![false, false, true, false, false],
    ]);
    let side = Volume::new(5, 5, 1, true);
    let cords: Point2 = (0, 0);
    let goodness = goodness(&cords, &side, &bmp);
    assert_eq!(
        goodness.matching as f32 / goodness.total as f32,
        0.36,
        "Goodness should be 0.36 for the given bitmap and side"
    );
}

#[test]
fn test_collides_true() {
    let mut sites = SiteManager::new();
    sites.add_site((2, 1));
    let site_shape: (usize, usize) = (3, 3);
    let s: Point2 = (0, 0);
    let bmp = Bitmap::new(site_shape.0, site_shape.1, false);
    assert_eq!(sites.collides_with_sites(s, site_shape, &bmp), true);
}

#[test]
fn test_collides_false() {
    let mut sites = SiteManager::new();
    sites.add_site((3, 1));
    let site_shape: (usize, usize) = (3, 3);
    let s: Point2 = (0, 0);
    let bmp = Bitmap::new(site_shape.0, site_shape.1, false);
    assert_eq!(sites.collides_with_sites(s, site_shape, &bmp), false);
}
