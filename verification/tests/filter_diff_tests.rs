use bmp_rust::bmp::BMP;
use bmp_rust::errors::ErrorKind;

#[test]
fn blur_radius_zero_is_invalid() {
    let mut img = BMP::new(3, 3, None);
    assert!(matches!(img.box_blur(0), Err(ErrorKind::RadiusInvalid)));
    assert!(matches!(img.box_blur(17), Err(ErrorKind::RadiusInvalid)));
    assert!(matches!(img.gaussian_blur(0), Err(ErrorKind::RadiusInvalid)));
    assert!(matches!(img.median_filter(99), Err(ErrorKind::RadiusInvalid)));
    assert!(matches!(img.mean_filter(0), Err(ErrorKind::RadiusInvalid)));
}

#[test]
fn box_blur_keeps_uniform_image() {
    let mut img = BMP::new(4, 4, Some([40, 80, 120, 255]));
    let before = img.contents.clone();
    img.box_blur(2).unwrap();
    assert_eq!(img.contents, before);
}

#[test]
fn gaussian_blur_keeps_uniform_image() {
    let mut img = BMP::new(4, 4, Some([10, 10, 10, 255]));
    let before = img.contents.clone();
    img.gaussian_blur(1).unwrap();
    assert_eq!(img.contents, before);
}

#[test]
fn box_blur_averages_neighbors() {
    // A single black pixel in a 3-wide white row: after a radius-1
    // horizontal-only pass, the center becomes the average of the window.
    let mut img = BMP::new(1, 3, None);
    img.change_color_of_pixel(1, 0, [0, 0, 0, 255]).unwrap();
    let weights: Vec<u16> = vec![1, 1, 1];
    img.separable_blur(1, &weights, Some(true), Some(false)).unwrap();
    // Center window: (255 + 0 + 255) / 3 = 170.
    assert_eq!(img.get_color_of_px(1, 0).unwrap(), [170, 170, 170, 255]);
    // Left edge window: (255 + 0) / 2 rounds to 128.
    assert_eq!(img.get_color_of_px(0, 0).unwrap(), [128, 128, 128, 255]);
}

#[test]
fn median_filter_drops_outlier() {
    let mut img = BMP::new(3, 3, None);
    img.change_color_of_pixel(1, 1, [0, 0, 0, 255]).unwrap();
    img.median_filter(1).unwrap();
    // Rank 1 of the 9 sorted window values (eight 255s, one 0) is 255.
    assert_eq!(img.get_color_of_px(1, 1).unwrap(), [255, 255, 255, 255]);
}

#[test]
fn mean_filter_keeps_uniform_image() {
    let mut img = BMP::new(3, 3, Some([60, 70, 80, 255]));
    let before = img.contents.clone();
    img.mean_filter(1).unwrap();
    assert_eq!(img.contents, before);
}

#[test]
fn surround_filter_with_custom_combiner() {
    let mut img = BMP::new(2, 2, Some([1, 2, 3, 255]));
    img.surround_filter(1, |_r: u8, v: Vec<[u8; 4]>| v[0]).unwrap();
    assert_eq!(img.get_color_of_px(0, 0).unwrap(), [1, 2, 3, 255]);
}

#[test]
fn diff_of_identical_images_is_empty() {
    let a = BMP::new(3, 3, Some([5, 6, 7, 255]));
    let b = BMP::new(3, 3, Some([5, 6, 7, 255]));
    let d = BMP::diff(&a, &b).unwrap();
    assert_eq!(d.diff.len(), 0);
    assert!(d.is_same_size());
}

#[test]
fn diff_wider_image_reports_missing_column() {
    let a = BMP::new(2, 2, None);
    let b = BMP::new(2, 3, None);
    let d = BMP::diff(&a, &b).unwrap();
    assert!(!d.is_same_size());
    assert_eq!(d.image1_size, [2, 2]);
    assert_eq!(d.image2_size, [3, 2]);
    // Exactly the two pixels of the extra column differ; the first, in
    // row-major order, is (2, 0).
    assert_eq!(d.diff.len(), 2);
    assert_eq!(d.diff[0].coord, [2, 0]);
    assert_eq!(d.diff[0].color1, None);
    assert_eq!(d.diff[0].color2, Some([255, 255, 255, 255]));
    assert_eq!(d.diff[1].coord, [2, 1]);
}

#[test]
fn diff_colored_against_smaller_white() {
    let a = BMP::new(2, 3, Some([100, 100, 23, 255]));
    let b = BMP::new(2, 2, None);
    let d = BMP::diff(&a, &b).unwrap();
    // Every shared pixel differs, and the extra column exists only in the
    // first image.
    assert_eq!(d.diff.len(), 6);
    assert_eq!(d.diff[0].coord, [0, 0]);
    assert_eq!(d.diff[0].color1, Some([100, 100, 23, 255]));
    assert_eq!(d.diff[0].color2, Some([255, 255, 255, 255]));
    let extra = d.diff.iter().find(|e| e.coord == [2, 0]).unwrap();
    assert_eq!(extra.color1, Some([100, 100, 23, 255]));
    assert_eq!(extra.color2, None);
}

#[test]
fn diff_detects_single_pixel_change() {
    let a = BMP::new(2, 2, None);
    let mut b = BMP::new(2, 2, None);
    b.change_color_of_pixel(1, 0, [0, 0, 0, 255]).unwrap();
    let d = BMP::diff(&a, &b).unwrap();
    assert_eq!(d.diff.len(), 1);
    assert_eq!(d.diff[0].coord, [1, 0]);
    assert_eq!(d.diff[0].color1, Some([255, 255, 255, 255]));
    assert_eq!(d.diff[0].color2, Some([0, 0, 0, 255]));
}

#[test]
fn diff_propagates_decode_failure() {
    let a = BMP::new(2, 2, None);
    let bad = BMP { contents: vec![0u8; 10], from_file: false };
    assert!(matches!(BMP::diff(&a, &bad), Err(ErrorKind::Unsupported)));
    assert!(matches!(BMP::diff(&bad, &a), Err(ErrorKind::Unsupported)));
}
