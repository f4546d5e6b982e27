use bmp_rust::bmp::BMP;
use bmp_rust::color::RGBAChannel;
use bmp_rust::errors::ErrorKind;

#[test]
fn pixel_write_then_read() {
    let mut img = BMP::new(4, 4, None);
    img.change_color_of_pixel(1, 2, [10, 20, 30, 40]).unwrap();
    assert_eq!(img.get_color_of_px(1, 2).unwrap(), [10, 20, 30, 40]);
    assert_eq!(img.get_color_of_px(0, 0).unwrap(), [255, 255, 255, 255]);
}

#[test]
fn pixel_write_out_of_bounds() {
    let mut img = BMP::new(4, 4, None);
    assert!(matches!(img.change_color_of_pixel(4, 0, [1, 1, 1, 1]), Err(ErrorKind::DoesNotExist)));
    assert!(matches!(img.change_color_of_pixel(0, 4, [1, 1, 1, 1]), Err(ErrorKind::DoesNotExist)));
}

#[test]
fn pixel_read_out_of_bounds() {
    let img = BMP::new(4, 4, None);
    assert!(matches!(img.get_color_of_pixel(9, 0), Err(ErrorKind::DoesNotExist)));
}

#[test]
fn batch_pixel_write() {
    let mut img = BMP::new(3, 3, None);
    img.change_color_of_pixels(vec![[0, 0], [2, 2]], [5, 6, 7, 255]).unwrap();
    assert_eq!(img.get_color_of_px(0, 0).unwrap(), [5, 6, 7, 255]);
    assert_eq!(img.get_color_of_px(2, 2).unwrap(), [5, 6, 7, 255]);
    assert_eq!(img.get_color_of_px(1, 1).unwrap(), [255, 255, 255, 255]);
}

#[test]
fn composite_transparent_bottom_is_identity() {
    let top = [10, 20, 30, 200];
    assert_eq!(BMP::composite_colors(top, [77, 88, 99, 0]), top);
}

#[test]
fn composite_opaque_top_wins() {
    assert_eq!(BMP::composite_colors([1, 2, 3, 255], [9, 9, 9, 77]), [1, 2, 3, 255]);
}

#[test]
fn composite_half_over_opaque() {
    // 50%-alpha black over opaque white: a0 = 255, channels round to 127.
    let out = BMP::composite_colors([0, 0, 0, 128], [255, 255, 255, 255]);
    assert_eq!(out[3], 255);
    assert_eq!(out[0], out[1]);
    assert_eq!(out[1], out[2]);
    assert_eq!(out[0], 127);
}

#[test]
fn grayscale_luma_formula() {
    // round(0.2126·100 + 0.7152·50 + 0.0722·200) = round(71.46) = 71
    assert_eq!(BMP::rgb_to_grayscale([100, 50, 200, 9]), [71, 71, 71, 9]);
}

#[test]
fn invert_twice_restores_pixels() {
    let mut img = BMP::new(3, 3, Some([10, 200, 30, 255]));
    img.change_color_of_pixel(1, 1, [1, 2, 3, 255]).unwrap();
    let before = img.contents.clone();
    img.invert(None).unwrap();
    assert_eq!(img.get_color_of_px(1, 1).unwrap(), [254, 253, 252, 255]);
    img.invert(None).unwrap();
    assert_eq!(img.contents, before);
}

#[test]
fn invert_with_alpha() {
    let mut img = BMP::new(1, 1, Some([0, 0, 0, 200]));
    img.invert(Some(true)).unwrap();
    assert_eq!(img.get_color_of_px(0, 0).unwrap(), [255, 255, 255, 55]);
}

#[test]
fn change_opacity_rewrites_alpha_only() {
    let mut img = BMP::new(2, 2, Some([10, 20, 30, 255]));
    img.change_opacity(99).unwrap();
    assert_eq!(img.get_color_of_px(0, 0).unwrap(), [10, 20, 30, 99]);
    assert_eq!(img.get_color_of_px(1, 1).unwrap(), [10, 20, 30, 99]);
}

#[test]
fn grayscale_whole_image() {
    let mut img = BMP::new(2, 2, Some([100, 50, 200, 80]));
    img.grayscale().unwrap();
    assert_eq!(img.get_color_of_px(0, 1).unwrap(), [71, 71, 71, 80]);
}

#[test]
fn greyscale_is_the_same_operation() {
    let mut a = BMP::new(2, 2, Some([100, 50, 200, 80]));
    let mut b = BMP::new(2, 2, Some([100, 50, 200, 80]));
    a.grayscale().unwrap();
    b.greyscale().unwrap();
    assert_eq!(a.contents, b.contents);
}

#[test]
fn channel_grayscale_replicates_channel() {
    let mut img = BMP::new(1, 1, Some([11, 22, 33, 44]));
    img.channel_grayscale(RGBAChannel::Green).unwrap();
    assert_eq!(img.get_color_of_px(0, 0).unwrap(), [22, 22, 22, 44]);
    let mut img2 = BMP::new(1, 1, Some([11, 22, 33, 44]));
    img2.channel_grayscale(RGBAChannel::Alpha).unwrap();
    assert_eq!(img2.get_color_of_px(0, 0).unwrap(), [44, 44, 44, 44]);
}

#[test]
fn translate_moves_pixels() {
    let mut img = BMP::new(2, 2, Some([1, 2, 3, 255]));
    img.change_color_of_pixel(0, 0, [9, 9, 9, 255]).unwrap();
    img.translate(1, 0).unwrap();
    // The old (0,0) pixel now sits at (1,0); vacated pixels are
    // transparent white.
    assert_eq!(img.get_color_of_px(1, 0).unwrap(), [9, 9, 9, 255]);
    assert_eq!(img.get_color_of_px(0, 0).unwrap(), [255, 255, 255, 0]);
    assert_eq!(img.get_color_of_px(1, 1).unwrap(), [1, 2, 3, 255]);
}

#[test]
fn draw_image_stamps_opaque_pixels() {
    let mut dst = BMP::new(4, 4, Some([0, 0, 0, 255]));
    let mut src = BMP::new(2, 2, Some([250, 0, 0, 255]));
    src.change_color_of_pixel(0, 0, [0, 250, 0, 255]).unwrap();
    dst.draw_image(1, 1, src).unwrap();
    assert_eq!(dst.get_color_of_px(1, 1).unwrap(), [0, 250, 0, 255]);
    assert_eq!(dst.get_color_of_px(2, 2).unwrap(), [250, 0, 0, 255]);
    assert_eq!(dst.get_color_of_px(0, 0).unwrap(), [0, 0, 0, 255]);
}

#[test]
fn draw_image_composites_translucent_pixels() {
    let mut dst = BMP::new(1, 1, Some([255, 255, 255, 255]));
    let src = BMP::new(1, 1, Some([0, 0, 0, 128]));
    dst.draw_image(0, 0, src).unwrap();
    assert_eq!(dst.get_color_of_px(0, 0).unwrap(), [127, 127, 127, 255]);
}

#[test]
fn draw_image_must_fit() {
    let mut dst = BMP::new(2, 2, None);
    let src = BMP::new(2, 2, None);
    assert!(matches!(dst.draw_image(1, 1, src), Err(ErrorKind::DoesNotExist)));
}

#[test]
fn equality_compares_buffers() {
    let a = BMP::new(2, 2, None);
    let b = BMP::new(2, 2, None);
    let c = BMP::new(2, 3, None);
    assert!(a == b);
    assert!(a != c);
}

#[test]
fn composite_both_transparent_keeps_top() {
    // Both alpha fractions vanish: the transparent bottom stays a no-op.
    assert_eq!(BMP::composite_colors([1, 2, 3, 0], [7, 8, 9, 0]), [1, 2, 3, 0]);
}

#[test]
fn editing_accepts_trailing_bytes() {
    // Profile or gap data after the pixel array does not block editing.
    let mut img = BMP::new(2, 2, Some([1, 2, 3, 255]));
    img.contents.extend_from_slice(&[0xEEu8; 16]);
    img.change_color_of_pixel(0, 0, [9, 8, 7, 255]).unwrap();
    assert_eq!(img.get_color_of_px(0, 0).unwrap(), [9, 8, 7, 255]);
    assert_eq!(img.get_color_of_px(1, 1).unwrap(), [1, 2, 3, 255]);
    // The trailing bytes themselves stay put.
    let n = img.contents.len();
    assert!(img.contents[n - 16..].iter().all(|&b| b == 0xEE));
}
