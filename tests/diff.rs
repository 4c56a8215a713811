use blazediff::{diff, pack_pixel, unpack_pixel, DiffError, DiffOptions, Image};

fn create_solid_image(width: u32, height: u32, color: u32) -> Image {
    let mut img = Image::new(width, height);
    for y in 0..height {
        for x in 0..width {
            img.set_pixel(x, y, color);
        }
    }
    img
}

#[test]
fn diff_test_identical_images() {
    let img1 = create_solid_image(100, 100, pack_pixel(255, 255, 255, 255));
    let img2 = create_solid_image(100, 100, pack_pixel(255, 255, 255, 255));
    let result = diff(&img1, &img2, None, &DiffOptions::default()).unwrap();
    assert_eq!(result.diff_count, 0);
    assert!(result.identical);
}

#[test]
fn diff_test_completely_different() {
    let img1 = create_solid_image(100, 100, pack_pixel(0, 0, 0, 255));
    let img2 = create_solid_image(100, 100, pack_pixel(255, 255, 255, 255));
    let options = DiffOptions { include_aa: true, ..Default::default() };
    let result = diff(&img1, &img2, None, &options).unwrap();
    assert_eq!(result.diff_count, 10000);
    assert!(!result.identical);
}

#[test]
fn diff_test_size_mismatch() {
    let img1 = create_solid_image(100, 100, pack_pixel(0, 0, 0, 255));
    let img2 = create_solid_image(50, 50, pack_pixel(0, 0, 0, 255));
    let result = diff(&img1, &img2, None, &DiffOptions::default());
    assert!(matches!(result, Err(DiffError::SizeMismatch { .. })));
}

#[test]
fn test_aa_excluded_from_count() {
    let img1 = create_solid_image(10, 10, pack_pixel(100, 100, 100, 255));
    let mut img2 = create_solid_image(10, 10, pack_pixel(100, 100, 100, 255));
    img2.set_pixel(0, 0, pack_pixel(100, 100, 104, 255));
    img2.set_pixel(1, 0, pack_pixel(100, 101, 100, 255));
    let options_no_aa = DiffOptions { include_aa: false, threshold: 100_000, ..Default::default() };
    let result = diff(&img1, &img2, None, &options_no_aa).unwrap();
    assert!(result.diff_count < 2, "AA pixels should be excluded from count, got {}", result.diff_count);
}

#[test]
fn test_no_aa_vs_aa_difference() {
    let img1 = create_solid_image(10, 10, pack_pixel(0, 0, 0, 255));
    let img2 = create_solid_image(10, 10, pack_pixel(255, 255, 255, 255));
    let options_with_aa = DiffOptions { include_aa: true, threshold: 100_000, ..Default::default() };
    let options_without_aa = DiffOptions { include_aa: false, threshold: 100_000, ..Default::default() };
    let result_with = diff(&img1, &img2, None, &options_with_aa).unwrap();
    let result_without = diff(&img1, &img2, None, &options_without_aa).unwrap();
    assert_eq!(result_with.diff_count, result_without.diff_count);
}

#[test]
fn solid_black_against_white_without_aa_counts_every_pixel() {
    let img1 = create_solid_image(100, 100, pack_pixel(0, 0, 0, 255));
    let img2 = create_solid_image(100, 100, pack_pixel(255, 255, 255, 255));
    let options = DiffOptions { include_aa: false, threshold: 100_000, ..Default::default() };
    let result = diff(&img1, &img2, None, &options).unwrap();
    assert_eq!(result.diff_count, 10000);
    let percentage = 100.0 * result.diff_count as f64 / result.total_pixels as f64;
    assert_eq!(percentage, 100.0);
}

#[test]
fn one_flipped_corner_pixel() {
    let img1 = create_solid_image(100, 100, pack_pixel(255, 255, 255, 255));
    let mut img2 = create_solid_image(100, 100, pack_pixel(255, 255, 255, 255));
    img2.set_pixel(0, 0, pack_pixel(100, 100, 104, 255));
    let options = DiffOptions { include_aa: false, ..Default::default() };
    let result = diff(&img1, &img2, None, &options).unwrap();
    assert!(result.diff_count == 0 || result.diff_count == 1);
    // The corner has no lighter neighbour in the second image, so it is not
    // anti-aliased here and counts.
    assert_eq!(result.diff_count, 1);
    let percentage = 100.0 * result.diff_count as f64 / result.total_pixels as f64;
    assert!((percentage - 0.01).abs() < 1e-12);
}

#[test]
fn shifted_strip_counts_the_differing_pixels() {
    let n: u32 = 37;
    let mut img1 = Image::new(1, n);
    let mut img2 = Image::new(1, n);
    for y in 0..n {
        let v = ((y * 29) % 256) as u8;
        img1.set_pixel(0, y, pack_pixel(v, 255 - v, (v / 2) as u8, 255));
    }
    for y in 0..n {
        let src = if y == 0 { 0 } else { y - 1 };
        img2.set_pixel(0, y, img1.get_pixel(0, src));
    }
    let mut differing = 0;
    for y in 0..n {
        if img1.get_pixel(0, y) != img2.get_pixel(0, y) {
            differing += 1;
        }
    }
    let options = DiffOptions { threshold: 0, include_aa: true, ..Default::default() };
    let result = diff(&img1, &img2, None, &options).unwrap();
    assert_eq!(result.diff_count, differing);
    assert_eq!(differing, n - 1);
}

#[test]
fn count_is_symmetric() {
    let mut img1 = create_solid_image(20, 20, pack_pixel(30, 60, 90, 255));
    let img2 = create_solid_image(20, 20, pack_pixel(30, 60, 90, 255));
    for i in 0..20 {
        img1.set_pixel(i, (i * 7) % 20, pack_pixel(250, 10, 10, 255));
        img1.set_pixel((i * 3) % 20, i, pack_pixel(128, 128, 128, 128));
    }
    let options = DiffOptions::default();
    let ab = diff(&img1, &img2, None, &options).unwrap();
    let ba = diff(&img2, &img1, None, &options).unwrap();
    assert_eq!(ab.diff_count, ba.diff_count);
    assert_eq!(ab.identical, ba.identical);
    assert!(ab.diff_count > 0);
}

#[test]
fn count_falls_as_threshold_rises() {
    let mut img1 = create_solid_image(16, 16, pack_pixel(0, 0, 0, 255));
    let img2 = create_solid_image(16, 16, pack_pixel(0, 0, 0, 255));
    for x in 0..16 {
        let v = (x * 16) as u8;
        img1.set_pixel(x, 8, pack_pixel(v, v, v, 255));
    }
    let mut previous = u32::MAX;
    for t in [0u32, 50_000, 100_000, 200_000, 400_000, 800_000, 1_000_000] {
        let options = DiffOptions { threshold: t, include_aa: true, ..Default::default() };
        let result = diff(&img1, &img2, None, &options).unwrap();
        assert!(result.diff_count <= 256);
        assert!(result.diff_count <= previous);
        previous = result.diff_count;
    }
    assert_eq!(previous, 0);
}

#[test]
fn identical_flag_matches_zero_count() {
    let img1 = create_solid_image(9, 9, pack_pixel(1, 2, 3, 255));
    let img2 = create_solid_image(9, 9, pack_pixel(1, 2, 4, 255));
    let result = diff(&img1, &img2, None, &DiffOptions::default()).unwrap();
    assert_eq!(result.diff_count, 0);
    assert!(result.identical);
    let strict = DiffOptions { threshold: 0, ..Default::default() };
    let result = diff(&img1, &img2, None, &strict).unwrap();
    assert_eq!(result.diff_count, 81);
    assert!(!result.identical);
}

#[test]
fn invalid_buffer_length_is_rejected() {
    let img1 = create_solid_image(4, 4, pack_pixel(0, 0, 0, 255));
    let mut img2 = create_solid_image(4, 4, pack_pixel(0, 0, 0, 255));
    img2.data.pop();
    let result = diff(&img1, &img2, None, &DiffOptions::default());
    match result {
        Err(DiffError::InvalidDataSize { expected, actual }) => {
            assert_eq!(expected, 64);
            assert_eq!(actual, 63);
        }
        _ => panic!("expected InvalidDataSize"),
    }
}

#[test]
fn output_of_another_size_is_rejected_and_untouched() {
    let img1 = create_solid_image(4, 4, pack_pixel(0, 0, 0, 255));
    let img2 = create_solid_image(4, 4, pack_pixel(255, 0, 0, 255));
    let mut out = create_solid_image(3, 4, pack_pixel(9, 9, 9, 9));
    let before = out.data.clone();
    let result = diff(&img1, &img2, Some(&mut out), &DiffOptions::default());
    assert!(matches!(result, Err(DiffError::SizeMismatch { img2_width: 3, .. })));
    assert_eq!(out.data, before);
}

#[test]
fn identical_images_paint_the_desaturated_first_image() {
    let img = create_solid_image(100, 100, pack_pixel(255, 255, 255, 255));
    let mut out = create_solid_image(100, 100, pack_pixel(1, 2, 3, 4));
    let result = diff(&img, &img, Some(&mut out), &DiffOptions::default()).unwrap();
    assert!(result.identical);
    assert!(out.data.iter().all(|&v| v == 255));

    let dark = create_solid_image(10, 10, pack_pixel(0, 0, 0, 255));
    let mut out = Image::new(10, 10);
    diff(&dark, &dark, Some(&mut out), &DiffOptions::default()).unwrap();
    // 255 + (0 - 255) * 0.1 = 229.5, rounded toward zero.
    for y in 0..10 {
        for x in 0..10 {
            assert_eq!(unpack_pixel(out.get_pixel(x, y)), (229, 229, 229, 255));
        }
    }
}

#[test]
fn diff_mask_leaves_unchanged_pixels_transparent() {
    let img = create_solid_image(12, 12, pack_pixel(40, 80, 120, 255));
    let mut out = create_solid_image(12, 12, pack_pixel(1, 2, 3, 4));
    let options = DiffOptions { diff_mask: true, ..Default::default() };
    diff(&img, &img, Some(&mut out), &options).unwrap();
    assert!(out.data.iter().all(|&v| v == 0));
}

#[test]
fn every_output_pixel_is_written_with_ragged_blocks() {
    // 13 x 7 is not a multiple of the 8-pixel block.
    let img1 = create_solid_image(13, 7, pack_pixel(0, 0, 0, 255));
    let mut img2 = create_solid_image(13, 7, pack_pixel(0, 0, 0, 255));
    img2.set_pixel(12, 6, pack_pixel(255, 255, 255, 255));
    img2.set_pixel(3, 2, pack_pixel(0, 0, 0, 255));
    let mut out = create_solid_image(13, 7, pack_pixel(7, 7, 7, 7));
    let options = DiffOptions { include_aa: true, ..Default::default() };
    let result = diff(&img1, &img2, Some(&mut out), &options).unwrap();
    assert_eq!(result.diff_count, 1);
    assert_eq!(result.total_pixels, 91);
    for y in 0..7 {
        for x in 0..13 {
            let p = unpack_pixel(out.get_pixel(x, y));
            if x == 12 && y == 6 {
                // The second image is lighter there: positive delta.
                assert_eq!(p, (255, 0, 0, 255));
            } else {
                assert_eq!(p, (229, 229, 229, 255));
            }
        }
    }
}

#[test]
fn lighter_and_darker_pixels_get_their_markers() {
    let img1 = create_solid_image(8, 8, pack_pixel(128, 128, 128, 255));
    let mut img2 = create_solid_image(8, 8, pack_pixel(128, 128, 128, 255));
    img2.set_pixel(1, 1, pack_pixel(255, 255, 255, 255));
    img2.set_pixel(6, 6, pack_pixel(0, 0, 0, 255));
    let options = DiffOptions {
        include_aa: true,
        diff_color_alt: Some([0, 255, 0]),
        diff_mask: true,
        ..Default::default()
    };
    let mut out = Image::new(8, 8);
    let result = diff(&img1, &img2, Some(&mut out), &options).unwrap();
    assert_eq!(result.diff_count, 2);
    // Darker in the second image: negative delta, the alternative marker.
    assert_eq!(unpack_pixel(out.get_pixel(6, 6)), (0, 255, 0, 255));
    assert_eq!(unpack_pixel(out.get_pixel(1, 1)), (255, 0, 0, 255));
    assert_eq!(out.get_pixel(0, 0), 0);
}

#[test]
fn antialiased_pixel_gets_the_aa_marker() {
    let black = pack_pixel(0, 0, 0, 255);
    let white = pack_pixel(255, 255, 255, 255);
    let gray = pack_pixel(128, 128, 128, 255);
    let mut img1 = create_solid_image(7, 7, black);
    for y in 0..7 {
        for x in 4..7 {
            img1.set_pixel(x, y, white);
        }
    }
    let mut img2 = Image::new(7, 7);
    img2.data = img1.data.clone();
    img2.set_pixel(3, 3, gray);
    let mut out = Image::new(7, 7);
    let options = DiffOptions::default();
    let result = diff(&img1, &img2, Some(&mut out), &options).unwrap();
    assert_eq!(result.diff_count, 0);
    assert_eq!(unpack_pixel(out.get_pixel(3, 3)), (255, 255, 0, 255));
    let counted = diff(&img1, &img2, None, &DiffOptions { include_aa: true, ..options }).unwrap();
    assert_eq!(counted.diff_count, 1);
}

#[test]
fn diff_mask_leaves_antialiased_pixels_transparent() {
    let black = pack_pixel(0, 0, 0, 255);
    let white = pack_pixel(255, 255, 255, 255);
    let gray = pack_pixel(128, 128, 128, 255);
    let mut img1 = create_solid_image(7, 7, black);
    for y in 0..7 {
        for x in 4..7 {
            img1.set_pixel(x, y, white);
        }
    }
    let mut img2 = Image::new(7, 7);
    img2.data = img1.data.clone();
    img2.set_pixel(3, 3, gray);
    img2.set_pixel(0, 6, white);
    let mut out = create_solid_image(7, 7, pack_pixel(5, 5, 5, 5));
    let options = DiffOptions { diff_mask: true, ..Default::default() };
    let result = diff(&img1, &img2, Some(&mut out), &options).unwrap();
    assert_eq!(result.diff_count, 1);
    assert_eq!(out.get_pixel(3, 3), 0);
    assert_eq!(unpack_pixel(out.get_pixel(0, 6)), (255, 0, 0, 255));
    assert_eq!(out.get_pixel(6, 0), 0);
}

#[test]
fn output_with_wrong_buffer_length_is_rejected() {
    let img1 = create_solid_image(4, 4, pack_pixel(0, 0, 0, 255));
    let img2 = create_solid_image(4, 4, pack_pixel(0, 0, 0, 255));
    let mut out = Image::new(4, 4);
    out.data.push(0);
    let result = diff(&img1, &img2, Some(&mut out), &DiffOptions::default());
    assert!(matches!(result, Err(DiffError::InvalidDataSize { expected: 64, actual: 65 })));
}

#[test]
fn first_image_buffer_is_checked_before_the_second() {
    let mut img1 = create_solid_image(2, 2, pack_pixel(0, 0, 0, 255));
    let mut img2 = create_solid_image(2, 2, pack_pixel(0, 0, 0, 255));
    img1.data.truncate(10);
    img2.data.truncate(12);
    let result = diff(&img1, &img2, None, &DiffOptions::default());
    assert!(matches!(result, Err(DiffError::InvalidDataSize { expected: 16, actual: 10 })));
}
