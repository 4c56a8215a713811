use blazediff::{is_antialiased, pack_pixel, Image};

fn solid(width: u32, height: u32, color: u32) -> Image {
    let mut img = Image::new(width, height);
    for y in 0..height {
        for x in 0..width {
            img.set_pixel(x, y, color);
        }
    }
    img
}

#[test]
fn test_solid_region_not_antialiased() {
    let white = pack_pixel(255, 255, 255, 255);
    let img = solid(10, 10, white);
    assert!(!is_antialiased(&img, &img, 5, 5));
}

#[test]
fn test_edge_pixel_handling() {
    let white = pack_pixel(255, 255, 255, 255);
    let img = solid(10, 10, white);
    assert!(!is_antialiased(&img, &img, 0, 0));
    assert!(!is_antialiased(&img, &img, 9, 9));
    assert!(!is_antialiased(&img, &img, 0, 9));
    assert!(!is_antialiased(&img, &img, 9, 0));
}

#[test]
fn test_gradient_detection() {
    let mut img = Image::new(10, 10);
    for y in 0..10 {
        for x in 0..10 {
            let gray = ((x + y) * 12) as u8;
            let pixel = pack_pixel(gray, gray, gray, 255);
            img.set_pixel(x, y, pixel);
        }
    }
    let _ = is_antialiased(&img, &img, 5, 5);
}

#[test]
fn single_pixel_image_is_never_antialiased() {
    let a = solid(1, 1, pack_pixel(0, 0, 0, 255));
    let b = solid(1, 1, pack_pixel(255, 255, 255, 255));
    assert!(!is_antialiased(&a, &b, 0, 0));
    assert!(!is_antialiased(&b, &a, 0, 0));
}

#[test]
fn edge_between_solid_regions_is_antialiased() {
    // Left half black, right half white, one grey column between them: the
    // grey pixel has a darker and a lighter neighbour, each in a solid
    // region of both images.
    let black = pack_pixel(0, 0, 0, 255);
    let white = pack_pixel(255, 255, 255, 255);
    let gray = pack_pixel(128, 128, 128, 255);
    let mut img = solid(7, 7, black);
    for y in 0..7 {
        img.set_pixel(3, y, gray);
        for x in 4..7 {
            img.set_pixel(x, y, white);
        }
    }
    assert!(is_antialiased(&img, &img, 3, 3));
    // A pixel inside the black region has many equal neighbours.
    assert!(!is_antialiased(&img, &img, 1, 3));
}
