//! Painting the visualisation: markers, and the first image desaturated
//! and whitened by the `alpha` option.
use vstd::prelude::*;

use crate::types::{
    pixel_xy, read_pixel, read_pixel_xy, with_pixel, write_pixel, write_pixel_xy, Image,
};
use crate::yiq::{alpha, blue, green, lemma_floor_div_negative, pack, pack_pixel, red, unpack_pixel};

verus! {

/// The luminance of a pixel's colour channels, times 10^8.
pub open spec fn luma(p: u32) -> int {
    29889531 * red(p) + 58662247 * green(p) + 11448223 * blue(p)
}

pub open spec fn clamp_byte(v: int) -> int {
    if v < 0 {
        0
    } else if v > 255 {
        255
    } else {
        v
    }
}

/// The grey level of a desaturated pixel:
/// `255 + (Y - 255) * alpha * a / 255`, with `alpha` in millionths, clamped
/// to `[0, 255]` and rounded toward zero.
pub open spec fn gray_level(p: u32, alpha_ppm: u32) -> int {
    let n = (luma(p) - 25_500_000_000) * alpha_ppm * alpha(p);
    clamp_byte(255 + n / 25_500_000_000_000_000)
}

/// An opaque grey pixel of level `g`.
pub open spec fn gray_word(g: int) -> u32 {
    pack(g, g, g, 255) as u32
}

/// The desaturated form of a pixel.
pub open spec fn desaturated(p: u32, alpha_ppm: u32) -> u32 {
    gray_word(gray_level(p, alpha_ppm))
}

/// An opaque marker pixel of the given colour.
pub open spec fn marker(c: [u8; 3]) -> u32 {
    pack(c@[0] as int, c@[1] as int, c@[2] as int, 255) as u32
}

/// The opaque grey pixel of a level.
pub fn pack_gray_pixel(gray: u8) -> (r: u32)
    ensures
        r == gray_word(gray as int),
{
    pack_pixel(gray, gray, gray, 255)
}

/// The opaque marker pixel of a colour.
pub fn pack_color_pixel(color: &[u8; 3]) -> (r: u32)
    ensures
        r == marker(*color),
{
    pack_pixel(color[0], color[1], color[2], 255)
}

/// The grey level of the desaturated form of `pixel` (see [`gray_level`]).
pub fn gray_of(pixel: u32, alpha_ppm: u32) -> (r: u8)
    ensures
        r == gray_level(pixel, alpha_ppm),
{
    let (r, g, b, a) = unpack_pixel(pixel);
    let y: i64 = 29889531 * (r as i64) + 58662247 * (g as i64) + 11448223 * (b as i64);
    let base = (y - 25_500_000_000) as i128;
    assert(-25_500_000_000 <= base <= 255);
    assert(base * (alpha_ppm as i128) <= 255 * u32::MAX) by (nonlinear_arith)
        requires
            base <= 255,
            0 <= alpha_ppm <= u32::MAX,
    ;
    assert(base * (alpha_ppm as i128) >= -25_500_000_000 * u32::MAX) by (nonlinear_arith)
        requires
            base >= -25_500_000_000,
            0 <= alpha_ppm <= u32::MAX,
    ;
    let scaled = base * (alpha_ppm as i128);
    assert(-25_500_000_000 * u32::MAX * 255 <= scaled * (a as i128) <= 255 * u32::MAX * 255)
        by (nonlinear_arith)
        requires
            -25_500_000_000 * u32::MAX <= scaled <= 255 * u32::MAX,
            0 <= a <= 255,
    ;
    let n = scaled * (a as i128);
    let d: u128 = 25_500_000_000_000_000;
    if n >= 0 {
        assert(n / 25_500_000_000_000_000 >= 0);
        255
    } else {
        let m = (-n) as u128;
        let c = (m + d - 1) / d;
        proof {
            lemma_floor_div_negative(m as int, d as int);
        }
        if c >= 255 {
            0
        } else {
            (255 - c) as u8
        }
    }
}

/// Paints the marker colour at pixel `pixel_index`, byte by byte.
pub fn draw_pixel(output: &mut Image, pixel_index: usize, color: &[u8; 3])
    requires
        old(output).wf(),
        pixel_index < old(output).num_pixels(),
    ensures
        final(output).width == old(output).width,
        final(output).height == old(output).height,
        final(output).wf(),
        final(output).data@ == with_pixel(old(output).data@, pixel_index as int, marker(*color)),
{
    let pos = pixel_index * 4;
    output.data.set(pos, color[0]);
    output.data.set(pos + 1, color[1]);
    output.data.set(pos + 2, color[2]);
    output.data.set(pos + 3, 255);
    proof {
        crate::yiq::lemma_pixel_bytes(marker(*color));
        assert(output.data@ =~= with_pixel(old(output).data@, pixel_index as int, marker(*color)));
    }
}

/// Paints the marker colour at pixel `pixel_index` as one word.
pub fn draw_pixel_u32(output: &mut Image, pixel_index: usize, color: &[u8; 3])
    requires
        old(output).wf(),
        pixel_index < old(output).num_pixels(),
    ensures
        final(output).width == old(output).width,
        final(output).height == old(output).height,
        final(output).wf(),
        final(output).data@ == with_pixel(old(output).data@, pixel_index as int, marker(*color)),
{
    let pixel = pack_color_pixel(color);
    write_pixel(&mut output.data, pixel_index, pixel);
}

/// Paints at `pixel_index` of `output` the desaturated form of the same
/// pixel of `source`, byte by byte.
pub fn draw_gray_pixel(source: &Image, pixel_index: usize, alpha_ppm: u32, output: &mut Image)
    requires
        source.wf(),
        old(output).wf(),
        pixel_index < source.num_pixels(),
        pixel_index < old(output).num_pixels(),
    ensures
        final(output).width == old(output).width,
        final(output).height == old(output).height,
        final(output).wf(),
        final(output).data@ == with_pixel(
            old(output).data@,
            pixel_index as int,
            desaturated(source.pixel(pixel_index as int), alpha_ppm),
        ),
{
    let p = read_pixel(&source.data, pixel_index);
    let g = gray_of(p, alpha_ppm);
    let color = [g, g, g];
    assert(marker(color) == gray_word(g as int));
    draw_pixel(output, pixel_index, &color);
}

/// Paints at `pixel_index` of `output` the desaturated form of the same
/// pixel of `source`, as one word.
pub fn draw_gray_pixel_u32(source: &Image, pixel_index: usize, alpha_ppm: u32, output: &mut Image)
    requires
        source.wf(),
        old(output).wf(),
        pixel_index < source.num_pixels(),
        pixel_index < old(output).num_pixels(),
    ensures
        final(output).width == old(output).width,
        final(output).height == old(output).height,
        final(output).wf(),
        final(output).data@ == with_pixel(
            old(output).data@,
            pixel_index as int,
            desaturated(source.pixel(pixel_index as int), alpha_ppm),
        ),
{
    let p = read_pixel(&source.data, pixel_index);
    let g = gray_of(p, alpha_ppm);
    write_pixel(&mut output.data, pixel_index, pack_gray_pixel(g));
}

pub open spec fn in_rect(x: int, y: int, x0: int, y0: int, x1: int, y1: int) -> bool {
    x0 <= x < x1 && y0 <= y < y1
}

/// Paints every pixel of the block `[start_x, end_x) x [start_y, end_y)` of
/// `output` with the desaturated form of the same pixel of `source`; the
/// pixels outside the block keep their values.
pub fn fill_block_gray(
    source: &Image,
    output: &mut Image,
    alpha_ppm: u32,
    start_x: u32,
    start_y: u32,
    end_x: u32,
    end_y: u32,
)
    requires
        source.wf(),
        old(output).wf(),
        old(output).width == source.width,
        old(output).height == source.height,
        start_x <= end_x <= source.width,
        start_y <= end_y <= source.height,
    ensures
        final(output).width == old(output).width,
        final(output).height == old(output).height,
        final(output).wf(),
        forall|x: int, y: int|
            0 <= x < source.width && 0 <= y < source.height ==> #[trigger] pixel_xy(
                final(output).data@,
                source.width as int,
                x,
                y,
            ) == if in_rect(x, y, start_x as int, start_y as int, end_x as int, end_y as int) {
                desaturated(pixel_xy(source.data@, source.width as int, x, y), alpha_ppm)
            } else {
                pixel_xy(old(output).data@, source.width as int, x, y)
            },
{
    let w = source.width;
    let h = source.height;
    let ghost w_i = w as int;
    let mut y = start_y;
    while y < end_y
        invariant
            source.wf(),
            output.wf(),
            w == source.width,
            h == source.height,
            w_i == w,
            output.width == w,
            output.height == h,
            old(output).width == w,
            old(output).height == h,
            start_x <= end_x <= w,
            start_y <= y <= end_y,
            end_y <= h,
            forall|xx: int, yy: int|
                0 <= xx < w && 0 <= yy < h ==> #[trigger] pixel_xy(output.data@, w_i, xx, yy) == if in_rect(
                    xx,
                    yy,
                    start_x as int,
                    start_y as int,
                    end_x as int,
                    y as int,
                ) {
                    desaturated(pixel_xy(source.data@, w_i, xx, yy), alpha_ppm)
                } else {
                    pixel_xy(old(output).data@, w_i, xx, yy)
                },
        decreases end_y - y,
    {
        let mut x = start_x;
        while x < end_x
            invariant
                source.wf(),
                output.wf(),
                w == source.width,
                h == source.height,
                w_i == w,
                output.width == w,
                output.height == h,
                old(output).width == w,
                old(output).height == h,
                start_x <= x <= end_x,
                end_x <= w,
                start_y <= y < end_y,
                end_y <= h,
                forall|xx: int, yy: int|
                    0 <= xx < w && 0 <= yy < h ==> #[trigger] pixel_xy(output.data@, w_i, xx, yy) == if in_rect(
                        xx,
                        yy,
                        start_x as int,
                        start_y as int,
                        end_x as int,
                        y as int,
                    ) || (yy == y && start_x <= xx < x) {
                        desaturated(pixel_xy(source.data@, w_i, xx, yy), alpha_ppm)
                    } else {
                        pixel_xy(old(output).data@, w_i, xx, yy)
                    },
            decreases end_x - x,
        {
            let p = read_pixel_xy(&source.data, w, h, x, y);
            let g = gray_of(p, alpha_ppm);
            write_pixel_xy(&mut output.data, w, h, x, y, pack_gray_pixel(g));
            x = x + 1;
        }
        y = y + 1;
    }
}

/// Paints all of `output` with the desaturated form of `source`.
pub fn fill_gray(source: &Image, alpha_ppm: u32, output: &mut Image)
    requires
        source.wf(),
        old(output).wf(),
        old(output).width == source.width,
        old(output).height == source.height,
    ensures
        final(output).width == old(output).width,
        final(output).height == old(output).height,
        final(output).wf(),
        forall|x: int, y: int|
            0 <= x < source.width && 0 <= y < source.height ==> #[trigger] pixel_xy(
                final(output).data@,
                source.width as int,
                x,
                y,
            ) == desaturated(pixel_xy(source.data@, source.width as int, x, y), alpha_ppm),
{
    fill_block_gray(source, output, alpha_ppm, 0, 0, source.width, source.height);
}

/// Sets every byte of the output to 0: every pixel transparent black.
pub fn clear_transparent(output: &mut Image)
    ensures
        final(output).width == old(output).width,
        final(output).height == old(output).height,
        final(output).data@.len() == old(output).data@.len(),
        forall|i: int| 0 <= i < final(output).data@.len() ==> final(output).data@[i] == 0,
{
    let n = output.data.len();
    let mut i: usize = 0;
    while i < n
        invariant
            n == output.data@.len(),
            output.width == old(output).width,
            output.height == old(output).height,
            n == old(output).data@.len(),
            i <= n,
            forall|j: int| 0 <= j < i ==> output.data@[j] == 0,
        decreases n - i,
    {
        output.data.set(i, 0);
        i = i + 1;
    }
}

} // verus!
