use blazediff::{
    color_delta, color_delta_fixed, color_delta_lane, is_opaque, luminance_delta, pack_pixel, threshold_to_max_delta,
    unpack_pixel, DELTA_SCALE,
};

#[test]
fn test_unpack_pixel() {
    let pixel = 0xFF804020u32;
    let (r, g, b, a) = unpack_pixel(pixel);
    assert_eq!(r, 0x20);
    assert_eq!(g, 0x40);
    assert_eq!(b, 0x80);
    assert_eq!(a, 0xFF);
}

#[test]
fn test_pack_pixel() {
    let pixel = pack_pixel(32, 64, 128, 255);
    assert_eq!(pixel, 0xFF804020);
}

#[test]
fn test_identical_pixels_zero_delta() {
    let pixel = 0xFF8080FF;
    let delta = color_delta(pixel, pixel);
    assert_eq!(delta, 0);
}

#[test]
fn test_black_white_delta() {
    let black = 0xFF000000;
    let white = 0xFFFFFFFF;
    let delta = color_delta(black, white);
    assert!(delta.abs() > 30000 * DELTA_SCALE as i128);
}

#[test]
fn test_threshold_conversion() {
    let threshold = 100_000;
    let max_delta = threshold_to_max_delta(threshold) as f64 / DELTA_SCALE as f64;
    assert!((max_delta - 352.15).abs() < 0.1);
}

#[test]
fn threshold_conversion_is_exact() {
    // 35215 * 0.1^2 = 352.15 real units.
    assert_eq!(threshold_to_max_delta(100_000), 35_215 * DELTA_SCALE / 100);
    assert_eq!(threshold_to_max_delta(0), 0);
    assert_eq!(threshold_to_max_delta(1_000_000), 35_215 * DELTA_SCALE);
}

#[test]
fn black_to_white_delta_value() {
    let black = pack_pixel(0, 0, 0, 255);
    let white = pack_pixel(255, 255, 255, 255);
    // The luminance difference black - white is negative, so the delta is
    // the positive magnitude.
    let d = color_delta(black, white);
    assert!(d > 0);
    let real = d as f64 / DELTA_SCALE as f64;
    // 0.5053 * 255^2, the I and Q axes nearly vanishing on grey.
    assert!((real - 32857.13).abs() < 0.01, "got {}", real);
    // Swapping keeps the magnitude and flips the sign.
    assert_eq!(color_delta(white, black), -d);
}

#[test]
fn delta_of_a_pure_red_step() {
    // dr = 255 after scaling by 255: Y = 0.29889531 * 255, I = 0.59597799 * 255,
    // Q = 0.21147017 * 255.
    let a = pack_pixel(255, 0, 0, 255);
    let b = pack_pixel(0, 0, 0, 255);
    let y = 29_889_531i128 * 65_025;
    let i = 59_597_799i128 * 65_025;
    let q = 21_147_017i128 * 65_025;
    let m = 5053 * y * y + 2990 * i * i + 1957 * q * q;
    assert_eq!(color_delta(a, b), -m);
    assert_eq!(luminance_delta(a, b), (29_889_531i64 * 65_025) as i64);
}

#[test]
fn transparent_pixels_compare_equal() {
    let a = pack_pixel(10, 200, 30, 0);
    let b = pack_pixel(250, 0, 90, 0);
    assert_eq!(color_delta(a, b), 0);
    assert_eq!(luminance_delta(a, b), 0);
}

#[test]
fn half_transparent_black_blends_toward_white() {
    // Black at alpha 0 is white; at alpha 255 it is black; the metric of the
    // two equals that of opaque white against opaque black.
    let clear = pack_pixel(0, 0, 0, 0);
    let black = pack_pixel(0, 0, 0, 255);
    let white = pack_pixel(255, 255, 255, 255);
    assert_eq!(color_delta(clear, black), color_delta(white, black));
}

#[test]
fn opacity_check() {
    assert!(is_opaque(0xFF000000));
    assert!(!is_opaque(0xFE000000));
}

#[test]
fn fixed_point_delta_of_black_and_white() {
    let black = 0xFF000000u32;
    let white = 0xFFFFFFFFu32;
    let d = color_delta_fixed(black, white);
    // 12 fractional bits and truncated coefficients: a little under 35215.
    let real = d as f64 / 4096.0;
    assert!(real > 32_000.0 && real < 35_300.0, "got {}", real);
    assert_eq!(color_delta_fixed(white, white), 0);
}

#[test]
fn lane_deltas_equal_the_scalar_ones() {
    let a = [
        pack_pixel(0, 0, 0, 255),
        pack_pixel(10, 20, 30, 128),
        pack_pixel(200, 100, 50, 255),
        pack_pixel(1, 2, 3, 0),
    ];
    let b = [
        pack_pixel(255, 255, 255, 255),
        pack_pixel(10, 20, 30, 128),
        pack_pixel(50, 100, 200, 17),
        pack_pixel(9, 8, 7, 0),
    ];
    let lanes = color_delta_lane(a, b);
    for k in 0..4 {
        assert_eq!(lanes[k], color_delta(a[k], b[k]));
    }
    assert_eq!(lanes[1], 0);
    assert_eq!(lanes[3], 0);
    assert!(lanes[0] > 0);
}

#[test]
fn semi_transparent_pixels_blend_over_white() {
    // Half-covered black blends to about mid grey; against opaque mid grey
    // (127.5 is not a channel value, so compare 127 and 128) the delta is tiny.
    let half_black = pack_pixel(0, 0, 0, 128);
    let grey = pack_pixel(127, 127, 127, 255);
    let d = color_delta(half_black, grey).abs() as f64 / DELTA_SCALE as f64;
    assert!(d < 1.0, "got {}", d);
    // The same colour at different coverage differs.
    let opaque_black = pack_pixel(0, 0, 0, 255);
    assert!(color_delta(half_black, opaque_black) != 0);
}
