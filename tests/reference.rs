use blazediff::{
    color_delta, diff, is_antialiased, pack_pixel, threshold_to_max_delta, DiffOptions, Image,
};

struct Lcg(u64);

impl Lcg {
    fn next(&mut self) -> u32 {
        self.0 = self.0.wrapping_mul(6364136223846793005).wrapping_add(1442695040888963407);
        (self.0 >> 33) as u32
    }
}

/// A noisy image: mostly flat patches, with scattered pixels of other
/// colours and some translucent ones.
fn noisy(width: u32, height: u32, seed: u64) -> Image {
    let mut rng = Lcg(seed);
    let mut img = Image::new(width, height);
    for y in 0..height {
        for x in 0..width {
            let patch = ((x / 5) + (y / 3)) % 3;
            let base = [pack_pixel(20, 40, 60, 255), pack_pixel(200, 180, 160, 255), pack_pixel(90, 90, 90, 255)]
                [patch as usize];
            let r = rng.next();
            let p = if r % 7 == 0 {
                pack_pixel(r as u8, (r >> 8) as u8, (r >> 16) as u8, if r % 3 == 0 { 128 } else { 255 })
            } else {
                base
            };
            img.set_pixel(x, y, p);
        }
    }
    img
}

fn reference_count(a: &Image, b: &Image, options: &DiffOptions) -> u32 {
    let max = threshold_to_max_delta(options.threshold);
    let mut count = 0;
    for y in 0..a.height {
        for x in 0..a.width {
            let (pa, pb) = (a.get_pixel(x, y), b.get_pixel(x, y));
            if pa == pb || color_delta(pa, pb).unsigned_abs() <= max {
                continue;
            }
            if options.include_aa || !(is_antialiased(a, b, x, y) || is_antialiased(b, a, x, y)) {
                count += 1;
            }
        }
    }
    count
}

#[test]
fn block_passes_match_a_pixel_by_pixel_count() {
    for (w, h, seed) in [(37u32, 23u32, 1u64), (8, 8, 2), (129, 65, 3), (1, 40, 4), (50, 50, 5)] {
        let a = noisy(w, h, seed);
        let b = noisy(w, h, seed + 100);
        for include_aa in [false, true] {
            for threshold in [0u32, 50_000, 100_000, 300_000] {
                let options = DiffOptions { include_aa, threshold, ..Default::default() };
                let expected = reference_count(&a, &b, &options);
                let mut out = Image::new(w, h);
                let result = diff(&a, &b, Some(&mut out), &options).unwrap();
                assert_eq!(result.diff_count, expected, "{}x{} aa={} t={}", w, h, include_aa, threshold);
                let plain = diff(&a, &b, None, &options).unwrap();
                assert_eq!(plain.diff_count, expected);
            }
        }
    }
}
