use blazediff::{
    clear_transparent, draw_gray_pixel, draw_gray_pixel_u32, draw_pixel, draw_pixel_u32, fill_block_gray, fill_gray,
    pack_pixel, unpack_pixel, Image,
};

#[test]
fn test_draw_pixel() {
    let mut output = Image::new(10, 10);
    draw_pixel(&mut output, 0, &[255, 0, 0]);
    assert_eq!(output.data[0], 255);
    assert_eq!(output.data[1], 0);
    assert_eq!(output.data[2], 0);
    assert_eq!(output.data[3], 255);
}

#[test]
fn test_draw_gray_pixel() {
    let mut source = Image::new(10, 10);
    let mut output = Image::new(10, 10);
    source.data[0] = 255;
    source.data[1] = 255;
    source.data[2] = 255;
    source.data[3] = 255;
    draw_gray_pixel(&source, 0, 100_000, &mut output);
    assert!(output.data[0] > 250);
    assert_eq!(output.data[0], output.data[1]);
    assert_eq!(output.data[1], output.data[2]);
}

#[test]
fn test_clear_transparent() {
    let mut output = Image::new(10, 10);
    output.data.fill(255);
    clear_transparent(&mut output);
    assert!(output.data.iter().all(|&x| x == 0));
}

#[test]
fn draw_pixel_u32_matches_draw_pixel() {
    let mut a = Image::new(3, 3);
    let mut b = Image::new(3, 3);
    draw_pixel(&mut a, 4, &[12, 34, 56]);
    draw_pixel_u32(&mut b, 4, &[12, 34, 56]);
    assert_eq!(a.data, b.data);
    assert_eq!(unpack_pixel(b.get_pixel(1, 1)), (12, 34, 56, 255));
}

#[test]
fn gray_level_values() {
    let mut source = Image::new(4, 1);
    source.set_pixel(0, 0, pack_pixel(0, 0, 0, 255));
    source.set_pixel(1, 0, pack_pixel(0, 0, 0, 0));
    source.set_pixel(2, 0, pack_pixel(100, 150, 200, 255));
    source.set_pixel(3, 0, pack_pixel(255, 255, 255, 255));
    let mut out = Image::new(4, 1);
    fill_gray(&source, 1_000_000, &mut out);
    // Full alpha: the luminance itself, rounded toward zero.
    assert_eq!(unpack_pixel(out.get_pixel(0, 0)), (0, 0, 0, 255));
    // A transparent source stays white.
    assert_eq!(unpack_pixel(out.get_pixel(1, 0)), (255, 255, 255, 255));
    // 0.29889531 * 100 + 0.58662247 * 150 + 0.11448223 * 200 = 140.78...
    assert_eq!(unpack_pixel(out.get_pixel(2, 0)), (140, 140, 140, 255));
    assert_eq!(unpack_pixel(out.get_pixel(3, 0)), (255, 255, 255, 255));
}

#[test]
fn block_fill_touches_only_the_block() {
    let mut source = Image::new(6, 6);
    for y in 0..6 {
        for x in 0..6 {
            source.set_pixel(x, y, pack_pixel(0, 0, 0, 255));
        }
    }
    let mut out = Image::new(6, 6);
    fill_block_gray(&source, &mut out, 100_000, 2, 1, 5, 3);
    for y in 0..6 {
        for x in 0..6 {
            let inside = (2..5).contains(&x) && (1..3).contains(&y);
            let expected = if inside { pack_pixel(229, 229, 229, 255) } else { 0 };
            assert_eq!(out.get_pixel(x, y), expected);
        }
    }
}

#[test]
fn gray_pixel_word_and_bytes_agree() {
    let mut source = Image::new(2, 2);
    source.set_pixel(1, 1, pack_pixel(10, 200, 90, 200));
    let mut a = Image::new(2, 2);
    let mut b = Image::new(2, 2);
    draw_gray_pixel(&source, 3, 500_000, &mut a);
    draw_gray_pixel_u32(&source, 3, 500_000, &mut b);
    assert_eq!(a.data, b.data);
    let (r, g, bl, al) = unpack_pixel(a.get_pixel(1, 1));
    assert_eq!((r, al), (g, 255));
    assert_eq!(g, bl);
    // Y = 130.61...; 255 + (Y - 255) * 0.5 * 200 / 255 = 206.2... -> 206.
    assert_eq!(r, 206);
    assert_eq!(a.get_pixel(0, 0), 0);
}
