use blazediff::{calculate_block_size, pack_pixel, DiffOptions, DiffResult, Image};

#[test]
fn test_image_creation() {
    let img = Image::new(100, 100);
    assert_eq!(img.width, 100);
    assert_eq!(img.height, 100);
    assert_eq!(img.data.len(), 100 * 100 * 4);
}

#[test]
fn pixels_are_little_endian_words() {
    let mut img = Image::new(3, 2);
    img.set_pixel(2, 1, pack_pixel(1, 2, 3, 4));
    assert_eq!(&img.data[20..24], &[1, 2, 3, 4]);
    assert_eq!(img.get_pixel(2, 1), 0x04030201);
    assert_eq!(img.get_pixel(1, 1), 0);
}

#[test]
fn default_options() {
    let o = DiffOptions::default();
    assert_eq!(o.threshold, 100_000);
    assert!(!o.include_aa);
    assert_eq!(o.alpha, 100_000);
    assert_eq!(o.aa_color, [255, 255, 0]);
    assert_eq!(o.diff_color, [255, 0, 0]);
    assert!(o.diff_color_alt.is_none());
    assert!(!o.diff_mask);
    assert_eq!(o.compression, 0);
}

#[test]
fn result_identical_flag() {
    let r = DiffResult::new(0, 10);
    assert!(r.identical);
    let r = DiffResult::new(3, 10);
    assert!(!r.identical);
    assert_eq!(r.total_pixels, 10);
}

#[test]
fn block_sizes() {
    assert_eq!(calculate_block_size(1, 1), 8);
    assert_eq!(calculate_block_size(49, 50), 8);
    assert_eq!(calculate_block_size(50, 50), 16);
    assert_eq!(calculate_block_size(100, 100), 16);
    assert_eq!(calculate_block_size(200, 200), 32);
    assert_eq!(calculate_block_size(800, 800), 64);
    assert_eq!(calculate_block_size(3200, 3200), 128);
    assert_eq!(calculate_block_size(10000, 10000), 128);
}
