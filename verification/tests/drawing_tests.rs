use bmp_rust::bmp::BMP;
use bmp_rust::errors::ErrorKind;

#[test]
fn vertical_line_fills_inclusive_span() {
    let mut img = BMP::new(10, 10, None);
    img.draw_line([9, 8, 7, 255], [3, 2], [3, 7]).unwrap();
    let mut painted = 0;
    for y in 0..10u16 {
        for x in 0..10u16 {
            if img.get_color_of_px(x as usize, y as usize).unwrap() == [9, 8, 7, 255] {
                painted += 1;
                assert_eq!(x, 3);
                assert!((2..=7).contains(&y));
            }
        }
    }
    // |7 - 2| + 1 pixels exactly.
    assert_eq!(painted, 6);
}

#[test]
fn vertical_line_reversed_endpoints() {
    let mut a = BMP::new(10, 10, None);
    let mut b = BMP::new(10, 10, None);
    a.draw_line([1, 2, 3, 255], [4, 8], [4, 1]).unwrap();
    b.draw_line([1, 2, 3, 255], [4, 1], [4, 8]).unwrap();
    assert_eq!(a.contents, b.contents);
}

#[test]
fn horizontal_line_fills_inclusive_span() {
    let mut img = BMP::new(6, 6, None);
    img.draw_line([5, 5, 5, 255], [1, 4], [4, 4]).unwrap();
    for x in 1..=4usize {
        assert_eq!(img.get_color_of_px(x, 4).unwrap(), [5, 5, 5, 255]);
    }
    assert_eq!(img.get_color_of_px(0, 4).unwrap(), [255, 255, 255, 255]);
    assert_eq!(img.get_color_of_px(5, 4).unwrap(), [255, 255, 255, 255]);
}

#[test]
fn line_outside_image_fails() {
    let mut img = BMP::new(4, 4, None);
    assert!(matches!(
        img.draw_line([1, 1, 1, 255], [0, 0], [0, 9]),
        Err(ErrorKind::DoesNotExist)
    ));
}

#[test]
fn diagonal_line_endpoints_painted() {
    let mut img = BMP::new(20, 20, None);
    img.draw_line([1, 2, 3, 255], [2, 2], [10, 7]).unwrap();
    // The segmented walk paints both end rows.
    assert_eq!(img.get_color_of_px(2, 2).unwrap(), [1, 2, 3, 255]);
}

#[test]
fn rasterized_vertical_line_points() {
    let pts = BMP::rasterize_line([5, 9], [5, 6]).unwrap();
    assert_eq!(pts, vec![[5, 6], [5, 7], [5, 8], [5, 9]]);
}

#[test]
fn rectangle_stroke_and_fill() {
    let mut img = BMP::new(8, 8, None);
    img.draw_rectangle(Some([1, 1, 1, 255]), Some([2, 2, 2, 255]), [1, 1], [5, 5]).unwrap();
    // Corners and edges carry the stroke; the strict interior the fill.
    assert_eq!(img.get_color_of_px(1, 1).unwrap(), [2, 2, 2, 255]);
    assert_eq!(img.get_color_of_px(5, 1).unwrap(), [2, 2, 2, 255]);
    assert_eq!(img.get_color_of_px(3, 1).unwrap(), [2, 2, 2, 255]);
    assert_eq!(img.get_color_of_px(3, 3).unwrap(), [1, 1, 1, 255]);
    assert_eq!(img.get_color_of_px(6, 6).unwrap(), [255, 255, 255, 255]);
}

#[test]
fn ellipse_axis_extremes_stroked() {
    let mut img = BMP::new(12, 12, None);
    img.draw_ellipse([6, 6], 3, 2, [7, 7, 7, 255], None, false).unwrap();
    assert_eq!(img.get_color_of_px(6, 8).unwrap(), [7, 7, 7, 255]);
    assert_eq!(img.get_color_of_px(6, 4).unwrap(), [7, 7, 7, 255]);
    assert_eq!(img.get_color_of_px(3, 6).unwrap(), [7, 7, 7, 255]);
    assert_eq!(img.get_color_of_px(9, 6).unwrap(), [7, 7, 7, 255]);
}

#[test]
fn fill_bucket_repaints_connected_region() {
    let mut img = BMP::new(4, 4, None);
    // A red wall across the second column.
    for y in 0..4u16 {
        img.change_color_of_pixel(1, y, [200, 0, 0, 255]).unwrap();
    }
    let filled = img.fill_bucket([0, 0, 200, 255], 0, 0).unwrap();
    // The left column (4 pixels) is the whole reachable white region.
    assert_eq!(filled.len(), 4);
    for y in 0..4usize {
        assert_eq!(img.get_color_of_px(0, y).unwrap(), [0, 0, 200, 255]);
        assert_eq!(img.get_color_of_px(1, y).unwrap(), [200, 0, 0, 255]);
        assert_eq!(img.get_color_of_px(2, y).unwrap(), [255, 255, 255, 255]);
    }
}

#[test]
fn fill_bucket_covers_whole_uniform_image() {
    let mut img = BMP::new(3, 3, None);
    let filled = img.fill_bucket([9, 9, 9, 255], 1, 1).unwrap();
    assert_eq!(filled.len(), 9);
    for y in 0..3usize {
        for x in 0..3usize {
            assert_eq!(img.get_color_of_px(x, y).unwrap(), [9, 9, 9, 255]);
        }
    }
}

#[test]
fn fill_bucket_out_of_bounds_seed() {
    let mut img = BMP::new(3, 3, None);
    assert!(matches!(img.fill_bucket([1, 1, 1, 255], 5, 5), Err(ErrorKind::DoesNotExist)));
}

#[test]
fn rasterized_diagonal_walk_shallow() {
    // hdiff 5, vdiff 3: mid 1, ends 4, each end run 2 pixels.
    let pts = BMP::rasterize_line([0, 0], [4, 2]).unwrap();
    assert_eq!(pts, vec![[0, 0], [1, 0], [2, 1], [4, 2], [3, 2]]);
}

#[test]
fn rasterized_diagonal_walk_steep() {
    // vdiff 5, hdiff 3: the mirror walk down the columns.
    let pts = BMP::rasterize_line([0, 0], [2, 4]).unwrap();
    assert_eq!(pts, vec![[0, 0], [0, 1], [1, 2], [2, 4], [2, 3]]);
}

#[test]
fn rasterized_diagonal_rising_orientation() {
    // Left endpoint below right: middle rows hang off the top endpoint.
    let pts = BMP::rasterize_line([0, 9], [4, 5]).unwrap();
    assert_eq!(pts, vec![[0, 9], [0, 5], [1, 4], [2, 3], [4, 5]]);
}

#[test]
fn rasterized_diagonal_leaving_range_fails() {
    // The rising walk would step above row zero.
    assert!(matches!(BMP::rasterize_line([0, 4], [4, 0]), Err(ErrorKind::DoesNotExist)));
}

#[test]
fn ellipse_sample_heights_stroked() {
    let mut img = BMP::new(21, 21, None);
    img.draw_ellipse([10, 10], 4, 3, [1, 2, 3, 255], None, false).unwrap();
    // Sampled heights round(sqrt(b²(a²-d²))/a): 3, 3, 2, 0 for d = 1..4.
    assert_eq!(img.get_color_of_px(9, 13).unwrap(), [1, 2, 3, 255]);
    assert_eq!(img.get_color_of_px(12, 13).unwrap(), [1, 2, 3, 255]);
    assert_eq!(img.get_color_of_px(13, 8).unwrap(), [1, 2, 3, 255]);
    assert_eq!(img.get_color_of_px(14, 10).unwrap(), [1, 2, 3, 255]);
    // The center stays untouched without a fill.
    assert_eq!(img.get_color_of_px(10, 10).unwrap(), [255, 255, 255, 255]);
}

#[test]
fn ellipse_gap_guessing_bridges_jumps() {
    // Heights for xlength 3, ylength 6 are 6, 4, 0: the jump from 6 to 4
    // leaves a gap that the guessing pass bridges one column inward.
    let mut with_guess = BMP::new(21, 24, None);
    with_guess.draw_ellipse([10, 12], 3, 6, [5, 5, 5, 255], None, true).unwrap();
    assert_eq!(with_guess.get_color_of_px(9, 17).unwrap(), [5, 5, 5, 255]);
    let mut plain = BMP::new(21, 24, None);
    plain.draw_ellipse([10, 12], 3, 6, [5, 5, 5, 255], None, false).unwrap();
    assert_eq!(plain.get_color_of_px(9, 17).unwrap(), [255, 255, 255, 255]);
}

#[test]
fn diagonal_line_paints_exactly_the_walk() {
    let mut img = BMP::new(20, 20, None);
    img.draw_line([1, 2, 3, 255], [0, 0], [4, 2]).unwrap();
    assert_eq!(img.get_color_of_px(0, 0).unwrap(), [1, 2, 3, 255]);
    assert_eq!(img.get_color_of_px(1, 0).unwrap(), [1, 2, 3, 255]);
    assert_eq!(img.get_color_of_px(2, 1).unwrap(), [1, 2, 3, 255]);
    assert_eq!(img.get_color_of_px(4, 2).unwrap(), [1, 2, 3, 255]);
    assert_eq!(img.get_color_of_px(3, 2).unwrap(), [1, 2, 3, 255]);
    // A neighbor off the walk keeps its bytes.
    assert_eq!(img.get_color_of_px(3, 1).unwrap(), [255, 255, 255, 255]);
}

#[test]
fn ellipse_fill_floods_from_the_center() {
    let mut img = BMP::new(21, 21, None);
    img.draw_ellipse([10, 10], 4, 3, [1, 2, 3, 255], Some([9, 9, 9, 255]), false).unwrap();
    // The seed region takes the fill; stroked outline points keep the stroke.
    assert_eq!(img.get_color_of_px(10, 10).unwrap(), [9, 9, 9, 255]);
    assert_eq!(img.get_color_of_px(14, 10).unwrap(), [1, 2, 3, 255]);
    assert_eq!(img.get_color_of_px(10, 13).unwrap(), [1, 2, 3, 255]);
}
