//! The comparison engine: block sizing, the cold check that finds blocks
//! holding a perceptible difference, the hot pass that classifies and
//! paints the pixels of such a block, and the driver.
use vstd::prelude::*;
use vstd::set_lib::*;

use crate::antialiasing::{antialiased_spec, is_antialiased};
use crate::output::{
    clear_transparent, desaturated, fill_block_gray, gray_of, in_rect, marker, pack_color_pixel,
    pack_gray_pixel,
};
use crate::types::{
    dims_fit, lemma_index_in_image, lemma_zero_pixels, pixel_xy, read_pixel_xy, write_pixel_xy,
    DiffError, DiffOptions, DiffResult, Image,
};
use crate::yiq::{
    color_delta, color_delta_lane, color_delta_spec, exceeds, lemma_delta_swap, max_delta_spec,
    threshold_to_max_delta,
};

verus! {

/// The marker for pixels with a negative delta.
pub open spec fn alt_color(opts: DiffOptions) -> [u8; 3] {
    match opts.diff_color_alt {
        Some(c) => c,
        None => opts.diff_color,
    }
}

/// `(x, y)` lies on an anti-aliased edge of either image.
pub open spec fn aa_pixel(a: Seq<u8>, b: Seq<u8>, w: int, h: int, x: int, y: int) -> bool {
    antialiased_spec(a, b, w, h, x, y) || antialiased_spec(b, a, w, h, x, y)
}

/// The pixel pair at `(x, y)` differs perceptibly.
pub open spec fn exceeds_at(a: Seq<u8>, b: Seq<u8>, w: int, x: int, y: int, opts: DiffOptions) -> bool {
    exceeds(pixel_xy(a, w, x, y), pixel_xy(b, w, x, y), max_delta_spec(opts.threshold))
}

/// `(x, y)` counts as a differing pixel: the pair differs perceptibly and,
/// unless anti-aliased pixels are included, it is not anti-aliased.
pub open spec fn counted(a: Seq<u8>, b: Seq<u8>, w: int, h: int, x: int, y: int, opts: DiffOptions) -> bool {
    exceeds_at(a, b, w, x, y, opts) && (opts.include_aa || !aa_pixel(a, b, w, h, x, y))
}

/// The marker of a counted pixel: `diff_color_alt` (or `diff_color` when it
/// is absent) where the delta is negative, that is where the first image is
/// the lighter one; `diff_color` elsewhere.
pub open spec fn diff_marker(a: Seq<u8>, b: Seq<u8>, w: int, x: int, y: int, opts: DiffOptions) -> u32 {
    if color_delta_spec(pixel_xy(a, w, x, y), pixel_xy(b, w, x, y)) < 0 {
        marker(alt_color(opts))
    } else {
        marker(opts.diff_color)
    }
}

/// The output pixel at `(x, y)` after the hot pass, `old` being its value
/// before: counted pixels get their diff marker; anti-aliased ones the AA
/// marker and the others the desaturated first image, both only when the
/// background is drawn; otherwise the pixel keeps `old`.
pub open spec fn painted(
    old: u32,
    a: Seq<u8>,
    b: Seq<u8>,
    w: int,
    h: int,
    x: int,
    y: int,
    opts: DiffOptions,
    background: bool,
) -> u32 {
    if exceeds_at(a, b, w, x, y, opts) {
        if counted(a, b, w, h, x, y, opts) {
            diff_marker(a, b, w, x, y, opts)
        } else if background {
            marker(opts.aa_color)
        } else {
            old
        }
    } else if background {
        desaturated(pixel_xy(a, w, x, y), opts.alpha)
    } else {
        old
    }
}

/// The output pixel at `(x, y)` after a comparison: the background is the
/// desaturated first image, or transparent black (0) in diff-mask mode.
pub open spec fn expected_output(a: Seq<u8>, b: Seq<u8>, w: int, h: int, x: int, y: int, opts: DiffOptions) -> u32 {
    painted(0, a, b, w, h, x, y, opts, !opts.diff_mask)
}

/// The row-major indices of the counted pixels inside the rectangle
/// `[x0, x1) x [y0, y1)` of a `w` x `h` image.
pub open spec fn counted_pixels(
    a: Seq<u8>,
    b: Seq<u8>,
    w: int,
    h: int,
    opts: DiffOptions,
    x0: int,
    y0: int,
    x1: int,
    y1: int,
) -> Set<int> {
    Set::new(
        |k: int|
            0 <= k < w * h && in_rect(k % w, k / w, x0, y0, x1, y1) && counted(
                a,
                b,
                w,
                h,
                k % w,
                k / w,
                opts,
            ),
    )
}

/// The number of differing pixels of a comparison.
pub open spec fn diff_count_spec(a: Seq<u8>, b: Seq<u8>, w: int, h: int, opts: DiffOptions) -> int {
    counted_pixels(a, b, w, h, opts, 0, 0, w, h).len() as int
}

/// Row-major index and coordinates determine each other.
pub proof fn lemma_coords(x: int, y: int, w: int)
    requires
        0 <= x < w,
        0 <= y,
    ensures
        (y * w + x) / w == y,
        (y * w + x) % w == x,
{
    vstd::arithmetic::div_mod::lemma_fundamental_div_mod_converse(y * w + x, w, y, x);
}

pub proof fn lemma_index_of_coords(k: int, w: int)
    requires
        0 <= k,
        0 < w,
    ensures
        k == (k / w) * w + k % w,
        0 <= k % w < w,
        0 <= k / w,
{
    vstd::arithmetic::div_mod::lemma_fundamental_div_mod(k, w);
    vstd::arithmetic::div_mod::lemma_mod_bound(k, w);
    assert(w * (k / w) == (k / w) * w) by (nonlinear_arith);
    assert(0 <= k / w) by (nonlinear_arith)
        requires
            0 <= k,
            0 < w,
    {
        vstd::arithmetic::div_mod::lemma_div_pos_is_pos(k, w);
    }
}

/// The counted pixels of a rectangle form a finite set of at most `w * h`
/// indices.
pub proof fn lemma_counted_finite(
    a: Seq<u8>,
    b: Seq<u8>,
    w: int,
    h: int,
    opts: DiffOptions,
    x0: int,
    y0: int,
    x1: int,
    y1: int,
)
    requires
        0 <= w,
        0 <= h,
    ensures
        counted_pixels(a, b, w, h, opts, x0, y0, x1, y1).finite(),
        counted_pixels(a, b, w, h, opts, x0, y0, x1, y1).len() <= w * h,
{
    assert(0 <= w * h) by (nonlinear_arith)
        requires
            0 <= w,
            0 <= h,
    ;
    lemma_int_range(0, w * h);
    lemma_len_subset(counted_pixels(a, b, w, h, opts, x0, y0, x1, y1), set_int_range(0, w * h));
}

/// Splitting a rectangle at column `xm` splits its counted pixels.
pub proof fn lemma_split_columns(
    a: Seq<u8>,
    b: Seq<u8>,
    w: int,
    h: int,
    opts: DiffOptions,
    x0: int,
    xm: int,
    x1: int,
    y0: int,
    y1: int,
)
    requires
        0 <= w,
        0 <= h,
        x0 <= xm <= x1,
    ensures
        counted_pixels(a, b, w, h, opts, x0, y0, x1, y1).len() == counted_pixels(
            a,
            b,
            w,
            h,
            opts,
            x0,
            y0,
            xm,
            y1,
        ).len() + counted_pixels(a, b, w, h, opts, xm, y0, x1, y1).len(),
{
    let l = counted_pixels(a, b, w, h, opts, x0, y0, xm, y1);
    let r = counted_pixels(a, b, w, h, opts, xm, y0, x1, y1);
    lemma_counted_finite(a, b, w, h, opts, x0, y0, xm, y1);
    lemma_counted_finite(a, b, w, h, opts, xm, y0, x1, y1);
    assert(l.disjoint(r));
    assert(counted_pixels(a, b, w, h, opts, x0, y0, x1, y1) =~= l + r);
    lemma_set_disjoint_lens(l, r);
}

/// Splitting a rectangle at row `ym` splits its counted pixels.
pub proof fn lemma_split_rows(
    a: Seq<u8>,
    b: Seq<u8>,
    w: int,
    h: int,
    opts: DiffOptions,
    x0: int,
    x1: int,
    y0: int,
    ym: int,
    y1: int,
)
    requires
        0 <= w,
        0 <= h,
        y0 <= ym <= y1,
    ensures
        counted_pixels(a, b, w, h, opts, x0, y0, x1, y1).len() == counted_pixels(
            a,
            b,
            w,
            h,
            opts,
            x0,
            y0,
            x1,
            ym,
        ).len() + counted_pixels(a, b, w, h, opts, x0, ym, x1, y1).len(),
{
    let t = counted_pixels(a, b, w, h, opts, x0, y0, x1, ym);
    let u = counted_pixels(a, b, w, h, opts, x0, ym, x1, y1);
    lemma_counted_finite(a, b, w, h, opts, x0, y0, x1, ym);
    lemma_counted_finite(a, b, w, h, opts, x0, ym, x1, y1);
    assert(t.disjoint(u));
    assert(counted_pixels(a, b, w, h, opts, x0, y0, x1, y1) =~= t + u);
    lemma_set_disjoint_lens(t, u);
}

/// A rectangle without a perceptibly differing pixel has no counted pixel.
pub proof fn lemma_clean_rect(
    a: Seq<u8>,
    b: Seq<u8>,
    w: int,
    h: int,
    opts: DiffOptions,
    x0: int,
    y0: int,
    x1: int,
    y1: int,
)
    requires
        0 < w,
        0 <= h,
        forall|x: int, y: int|
            in_rect(x, y, x0, y0, x1, y1) && 0 <= x < w && 0 <= y < h ==> !#[trigger] exceeds_at(
                a,
                b,
                w,
                x,
                y,
                opts,
            ),
    ensures
        counted_pixels(a, b, w, h, opts, x0, y0, x1, y1).len() == 0,
{
    assert forall|k: int| !counted_pixels(a, b, w, h, opts, x0, y0, x1, y1).contains(k) by {
        if 0 <= k < w * h {
            lemma_index_of_coords(k, w);
            if k / w >= h {
                assert((k / w) * w >= h * w) by (nonlinear_arith)
                    requires
                        k / w >= h,
                        w > 0,
                ;
                assert(h * w == w * h) by (nonlinear_arith);
            }
            if in_rect(k % w, k / w, x0, y0, x1, y1) {
                assert(!exceeds_at(a, b, w, k % w, k / w, opts));
            }
        }
    }
    assert(counted_pixels(a, b, w, h, opts, x0, y0, x1, y1) =~= Set::empty());
}

/// An empty rectangle has no counted pixel.
pub proof fn lemma_empty_rect(
    a: Seq<u8>,
    b: Seq<u8>,
    w: int,
    h: int,
    opts: DiffOptions,
    x0: int,
    y0: int,
    x1: int,
    y1: int,
)
    requires
        x1 <= x0 || y1 <= y0,
    ensures
        counted_pixels(a, b, w, h, opts, x0, y0, x1, y1).len() == 0,
{
    assert(counted_pixels(a, b, w, h, opts, x0, y0, x1, y1) =~= Set::empty());
}

/// A one-pixel rectangle inside the image has one counted pixel if that
/// pixel is counted, else none.
pub proof fn lemma_single_pixel(
    a: Seq<u8>,
    b: Seq<u8>,
    w: int,
    h: int,
    opts: DiffOptions,
    x: int,
    y: int,
)
    requires
        0 <= x < w,
        0 <= y < h,
    ensures
        counted_pixels(a, b, w, h, opts, x, y, x + 1, y + 1).len() == if counted(
            a,
            b,
            w,
            h,
            x,
            y,
            opts,
        ) {
            1int
        } else {
            0int
        },
{
    let s = counted_pixels(a, b, w, h, opts, x, y, x + 1, y + 1);
    let k0 = y * w + x;
    lemma_index_in_image(x, y, w, h);
    lemma_coords(x, y, w);
    assert forall|k: int| s.contains(k) implies k == k0 by {
        lemma_index_of_coords(k, w);
    }
    if counted(a, b, w, h, x, y, opts) {
        assert(s.contains(k0));
        assert(s =~= Set::empty().insert(k0));
    } else {
        assert(s =~= Set::empty());
    }
}

/// The side of the square blocks for a `w` x `h` image:
/// `2^round(log2(16 * sqrt(sqrt(w * h) / 100)))` clamped to `[8, 128]`.
/// The rounded logarithm reaches `k` exactly when
/// `65536 * w * h >= 10000 * 2^(4k - 2)`, which gives the area bounds below.
pub open spec fn block_size_spec(w: u32, h: u32) -> u32 {
    let area = w as int * h as int;
    if area >= 10_240_000 {
        128
    } else if area >= 640_000 {
        64
    } else if area >= 40_000 {
        32
    } else if area >= 2_500 {
        16
    } else {
        8
    }
}

/// The block side for a `width` x `height` image (see [`block_size_spec`]).
pub fn calculate_block_size(width: u32, height: u32) -> (r: u32)
    ensures
        r == block_size_spec(width, height),
        8 <= r <= 128,
{
    assert(width as int * height as int <= u64::MAX) by (nonlinear_arith)
        requires
            width <= u32::MAX,
            height <= u32::MAX,
    ;
    let area = width as u64 * height as u64;
    if area >= 10_240_000 {
        128
    } else if area >= 640_000 {
        64
    } else if area >= 40_000 {
        32
    } else if area >= 2_500 {
        16
    } else {
        8
    }
}

/// The common preconditions of the block passes: two well-formed images of
/// one size, and `max_delta` derived from the options' threshold.
pub open spec fn pass_ready(image1: &Image, image2: &Image, opts: &DiffOptions, max_delta: u128) -> bool {
    &&& image1.wf()
    &&& image2.wf()
    &&& image1.width == image2.width
    &&& image1.height == image2.height
    &&& max_delta == max_delta_spec(opts.threshold)
}

/// Whether the pixel pair at `(x, y)` differs perceptibly.
fn pixel_exceeds(image1: &Image, image2: &Image, opts: &DiffOptions, max_delta: u128, x: u32, y: u32) -> (r: (bool, u32, u32, i128))
    requires
        pass_ready(image1, image2, opts, max_delta),
        x < image1.width,
        y < image1.height,
    ensures
        r.0 == exceeds_at(image1.data@, image2.data@, image1.width as int, x as int, y as int, *opts),
        r.1 == pixel_xy(image1.data@, image1.width as int, x as int, y as int),
        r.2 == pixel_xy(image2.data@, image1.width as int, x as int, y as int),
        r.3 == color_delta_spec(r.1, r.2),
        -0x1000_0000_0000_0000_0000_0000_0000_0000 <= r.3 <= 0x1000_0000_0000_0000_0000_0000_0000_0000,
{
    let w = image1.width;
    let h = image1.height;
    let pa = read_pixel_xy(&image1.data, w, h, x, y);
    let pb = read_pixel_xy(&image2.data, w, h, x, y);
    if pa == pb {
        proof {
            crate::yiq::lemma_delta_swap(pa, pb);
        }
        (false, pa, pb, 0)
    } else {
        let delta = color_delta(pa, pb);
        let magnitude: u128 = if delta < 0 {
            (-delta) as u128
        } else {
            delta as u128
        };
        (magnitude > max_delta, pa, pb, delta)
    }
}

/// Whether the pair `(pa, pb)` with delta `d` differs by more than
/// `max_delta`.
fn beyond(pa: u32, pb: u32, d: i128, max_delta: u128) -> (r: bool)
    requires
        d == color_delta_spec(pa, pb),
        -0x1000_0000_0000_0000_0000_0000_0000_0000 <= d <= 0x1000_0000_0000_0000_0000_0000_0000_0000,
    ensures
        r == exceeds(pa, pb, max_delta as int),
{
    let magnitude: u128 = if d < 0 {
        (-d) as u128
    } else {
        d as u128
    };
    pa != pb && magnitude > max_delta
}

/// Whether any of the four pixel pairs `(x .. x + 4, y)` differs
/// perceptibly. The four words of each image are compared first; only when
/// some pair differs are the four deltas computed, as one lane.
fn lane_exceeds(image1: &Image, image2: &Image, opts: &DiffOptions, max_delta: u128, x: u32, y: u32) -> (r: bool)
    requires
        pass_ready(image1, image2, opts, max_delta),
        x + 4 <= image1.width,
        y < image1.height,
    ensures
        r == exists|k: int|
            x <= k < x + 4 && #[trigger] exceeds_at(
                image1.data@,
                image2.data@,
                image1.width as int,
                k,
                y as int,
                *opts,
            ),
{
    let ghost (ad, bd, w) = (image1.data@, image2.data@, image1.width as int);
    let (width, height) = (image1.width, image1.height);
    let a = [
        read_pixel_xy(&image1.data, width, height, x, y),
        read_pixel_xy(&image1.data, width, height, x + 1, y),
        read_pixel_xy(&image1.data, width, height, x + 2, y),
        read_pixel_xy(&image1.data, width, height, x + 3, y),
    ];
    let b = [
        read_pixel_xy(&image2.data, width, height, x, y),
        read_pixel_xy(&image2.data, width, height, x + 1, y),
        read_pixel_xy(&image2.data, width, height, x + 2, y),
        read_pixel_xy(&image2.data, width, height, x + 3, y),
    ];
    let r = if a[0] == b[0] && a[1] == b[1] && a[2] == b[2] && a[3] == b[3] {
        false
    } else {
        let d = color_delta_lane(a, b);
        beyond(a[0], b[0], d[0], max_delta) || beyond(a[1], b[1], d[1], max_delta) || beyond(
            a[2],
            b[2],
            d[2],
            max_delta,
        ) || beyond(a[3], b[3], d[3], max_delta)
    };
    assert forall|k: int| x <= k < x + 4 implies #[trigger] exceeds_at(ad, bd, w, k, y as int, *opts)
        == exceeds(a@[k - x], b@[k - x], max_delta as int) by {
        assert(k == x || k == x + 1 || k == x + 2 || k == x + 3);
    }
    if r {
        assert(exists|k: int| 0 <= k < 4 && exceeds(a@[k], b@[k], max_delta as int));
        let ghost k = choose|k: int| 0 <= k < 4 && exceeds(a@[k], b@[k], max_delta as int);
        assert(exceeds_at(ad, bd, w, x + k, y as int, *opts));
    }
    r
}

/// The cold check of a block: whether any pixel pair of
/// `[x0, x1) x [y0, y1)` differs perceptibly. Each row is walked in lanes
/// of four pixels, the pixels after the last full lane one by one.
pub fn block_has_perceptual_diff(
    image1: &Image,
    image2: &Image,
    opts: &DiffOptions,
    max_delta: u128,
    x0: u32,
    y0: u32,
    x1: u32,
    y1: u32,
) -> (r: bool)
    requires
        pass_ready(image1, image2, opts, max_delta),
        x0 <= x1 <= image1.width,
        y0 <= y1 <= image1.height,
    ensures
        r == exists|x: int, y: int|
            in_rect(x, y, x0 as int, y0 as int, x1 as int, y1 as int) && #[trigger] exceeds_at(
                image1.data@,
                image2.data@,
                image1.width as int,
                x,
                y,
                *opts,
            ),
{
    let ghost (a, b, w) = (image1.data@, image2.data@, image1.width as int);
    let mut y = y0;
    while y < y1
        invariant
            pass_ready(image1, image2, opts, max_delta),
            a == image1.data@,
            b == image2.data@,
            w == image1.width,
            x0 <= x1 <= image1.width,
            y0 <= y <= y1,
            y1 <= image1.height,
            forall|xx: int, yy: int|
                in_rect(xx, yy, x0 as int, y0 as int, x1 as int, y as int) ==> !#[trigger] exceeds_at(
                    a,
                    b,
                    w,
                    xx,
                    yy,
                    *opts,
                ),
        decreases y1 - y,
    {
        let mut x = x0;
        while x1 - x >= 4
            invariant
                pass_ready(image1, image2, opts, max_delta),
                a == image1.data@,
                b == image2.data@,
                w == image1.width,
                x0 <= x <= x1,
                x1 <= image1.width,
                y0 <= y < y1,
                y1 <= image1.height,
                forall|xx: int, yy: int|
                    in_rect(xx, yy, x0 as int, y0 as int, x1 as int, y as int) || (yy == y && x0
                        <= xx < x) ==> !#[trigger] exceeds_at(a, b, w, xx, yy, *opts),
            decreases x1 - x,
        {
            if lane_exceeds(image1, image2, opts, max_delta, x, y) {
                return true;
            }
            x = x + 4;
        }
        while x < x1
            invariant
                pass_ready(image1, image2, opts, max_delta),
                a == image1.data@,
                b == image2.data@,
                w == image1.width,
                x0 <= x <= x1,
                x1 <= image1.width,
                y0 <= y < y1,
                y1 <= image1.height,
                forall|xx: int, yy: int|
                    in_rect(xx, yy, x0 as int, y0 as int, x1 as int, y as int) || (yy == y && x0
                        <= xx < x) ==> !#[trigger] exceeds_at(a, b, w, xx, yy, *opts),
            decreases x1 - x,
        {
            let (hit, _, _, _) = pixel_exceeds(image1, image2, opts, max_delta, x, y);
            if hit {
                assert(exceeds_at(a, b, w, x as int, y as int, *opts));
                return true;
            }
            x = x + 1;
        }
        y = y + 1;
    }
    false
}

/// The hot pass on one pixel: classifies the pair `(pa, pb)` at `(x, y)`,
/// whose delta is `delta`, paints the output pixel when `paint` holds, and
/// returns 1 when the pixel counts as a difference, else 0.
fn hot_pixel(
    image1: &Image,
    image2: &Image,
    out: &mut Vec<u8>,
    paint: bool,
    background: bool,
    opts: &DiffOptions,
    max_delta: u128,
    x: u32,
    y: u32,
    pa: u32,
    pb: u32,
    delta: i128,
) -> (r: u32)
    requires
        pass_ready(image1, image2, opts, max_delta),
        x < image1.width,
        y < image1.height,
        paint ==> old(out)@.len() == 4 * image1.num_pixels(),
        pa == pixel_xy(image1.data@, image1.width as int, x as int, y as int),
        pb == pixel_xy(image2.data@, image1.width as int, x as int, y as int),
        delta == color_delta_spec(pa, pb),
        -0x1000_0000_0000_0000_0000_0000_0000_0000 <= delta <= 0x1000_0000_0000_0000_0000_0000_0000_0000,
    ensures
        r == if counted(
            image1.data@,
            image2.data@,
            image1.width as int,
            image1.height as int,
            x as int,
            y as int,
            *opts,
        ) {
            1u32
        } else {
            0u32
        },
        !paint ==> final(out)@ == old(out)@,
        final(out)@.len() == old(out)@.len(),
        paint ==> pixel_xy(final(out)@, image1.width as int, x as int, y as int) == painted(
            pixel_xy(old(out)@, image1.width as int, x as int, y as int),
            image1.data@,
            image2.data@,
            image1.width as int,
            image1.height as int,
            x as int,
            y as int,
            *opts,
            background,
        ),
        paint ==> forall|xx: int, yy: int|
            0 <= xx < image1.width && 0 <= yy < image1.height && (xx != x || yy != y)
                ==> #[trigger] pixel_xy(final(out)@, image1.width as int, xx, yy) == pixel_xy(
                old(out)@,
                image1.width as int,
                xx,
                yy,
            ),
{
    let w = image1.width;
    let h = image1.height;
    let hit = beyond(pa, pb, delta, max_delta);
    let (count, color): (u32, Option<u32>) = if hit {
        let aa = !opts.include_aa && (is_antialiased(image1, image2, x, y) || is_antialiased(
            image2,
            image1,
            x,
            y,
        ));
        if aa {
            (0, if background {
                Some(pack_color_pixel(&opts.aa_color))
            } else {
                None
            })
        } else {
            let c = if delta < 0 {
                match opts.diff_color_alt {
                    Some(alt) => pack_color_pixel(&alt),
                    None => pack_color_pixel(&opts.diff_color),
                }
            } else {
                pack_color_pixel(&opts.diff_color)
            };
            (1, Some(c))
        }
    } else {
        (0, if background {
            Some(pack_gray_pixel(gray_of(pa, opts.alpha)))
        } else {
            None
        })
    };
    if paint {
        match color {
            Some(c) => write_pixel_xy(out, w, h, x, y, c),
            None => {},
        }
    }
    count
}

/// The hot pass on the block `[x0, x1) x [y0, y1)`: returns how many of its
/// pixels count as differences and, when `paint` holds, paints each of its
/// output pixels (see [`painted`]); pixels outside the block are untouched.
/// Rows are walked in lanes of four pixels whose deltas are computed
/// together (none when the four pairs are equal), then pixel by pixel in
/// the same order; the pixels after the last full lane are taken one by one.
fn process_hot_block(
    image1: &Image,
    image2: &Image,
    out: &mut Vec<u8>,
    paint: bool,
    background: bool,
    opts: &DiffOptions,
    max_delta: u128,
    x0: u32,
    y0: u32,
    x1: u32,
    y1: u32,
) -> (r: u32)
    requires
        pass_ready(image1, image2, opts, max_delta),
        x0 <= x1 <= image1.width,
        y0 <= y1 <= image1.height,
        paint ==> old(out)@.len() == 4 * image1.num_pixels(),
    ensures
        r == counted_pixels(
            image1.data@,
            image2.data@,
            image1.width as int,
            image1.height as int,
            *opts,
            x0 as int,
            y0 as int,
            x1 as int,
            y1 as int,
        ).len(),
        final(out)@.len() == old(out)@.len(),
        !paint ==> final(out)@ == old(out)@,
        paint ==> forall|x: int, y: int|
            0 <= x < image1.width && 0 <= y < image1.height ==> #[trigger] pixel_xy(
                final(out)@,
                image1.width as int,
                x,
                y,
            ) == if in_rect(x, y, x0 as int, y0 as int, x1 as int, y1 as int) {
                painted(
                    pixel_xy(old(out)@, image1.width as int, x, y),
                    image1.data@,
                    image2.data@,
                    image1.width as int,
                    image1.height as int,
                    x,
                    y,
                    *opts,
                    background,
                )
            } else {
                pixel_xy(old(out)@, image1.width as int, x, y)
            },
{
    let ghost (a, b, w, h) = (
        image1.data@,
        image2.data@,
        image1.width as int,
        image1.height as int,
    );
    proof {
        lemma_empty_rect(a, b, w, h, *opts, x0 as int, y0 as int, x1 as int, y0 as int);
        assert(w * h <= u32::MAX);
    }
    let mut count: u32 = 0;
    let mut y = y0;
    while y < y1
        invariant
            pass_ready(image1, image2, opts, max_delta),
            a == image1.data@,
            b == image2.data@,
            w == image1.width,
            h == image1.height,
            w * h <= u32::MAX,
            x0 <= x1 <= w,
            y0 <= y <= y1,
            y1 <= h,
            paint ==> out@.len() == 4 * image1.num_pixels(),
            out@.len() == old(out)@.len(),
            !paint ==> out@ == old(out)@,
            count == counted_pixels(a, b, w, h, *opts, x0 as int, y0 as int, x1 as int, y as int).len(),
            paint ==> forall|xx: int, yy: int|
                0 <= xx < w && 0 <= yy < h ==> #[trigger] pixel_xy(out@, w, xx, yy) == if in_rect(
                    xx,
                    yy,
                    x0 as int,
                    y0 as int,
                    x1 as int,
                    y as int,
                ) {
                    painted(pixel_xy(old(out)@, w, xx, yy), a, b, w, h, xx, yy, *opts, background)
                } else {
                    pixel_xy(old(out)@, w, xx, yy)
                },
        decreases y1 - y,
    {
        proof {
            lemma_empty_rect(a, b, w, h, *opts, x0 as int, y as int, x0 as int, y + 1);
        }
        let mut x = x0;
        while x1 - x >= 4
            invariant
                pass_ready(image1, image2, opts, max_delta),
                a == image1.data@,
                b == image2.data@,
                w == image1.width,
                h == image1.height,
                w * h <= u32::MAX,
                x0 <= x <= x1,
                x1 <= w,
                y0 <= y < y1,
                y1 <= h,
                paint ==> out@.len() == 4 * image1.num_pixels(),
                out@.len() == old(out)@.len(),
                !paint ==> out@ == old(out)@,
                count == counted_pixels(a, b, w, h, *opts, x0 as int, y0 as int, x1 as int, y as int).len()
                    + counted_pixels(a, b, w, h, *opts, x0 as int, y as int, x as int, y + 1).len(),
                paint ==> forall|xx: int, yy: int|
                    0 <= xx < w && 0 <= yy < h ==> #[trigger] pixel_xy(out@, w, xx, yy) == if in_rect(
                        xx,
                        yy,
                        x0 as int,
                        y0 as int,
                        x1 as int,
                        y as int,
                    ) || (yy == y && x0 <= xx < x as int) {
                        painted(pixel_xy(old(out)@, w, xx, yy), a, b, w, h, xx, yy, *opts, background)
                    } else {
                        pixel_xy(old(out)@, w, xx, yy)
                    },
            decreases x1 - x,
        {
            let (width, height) = (image1.width, image1.height);
            let pa = [
                read_pixel_xy(&image1.data, width, height, x, y),
                read_pixel_xy(&image1.data, width, height, x + 1, y),
                read_pixel_xy(&image1.data, width, height, x + 2, y),
                read_pixel_xy(&image1.data, width, height, x + 3, y),
            ];
            let pb = [
                read_pixel_xy(&image2.data, width, height, x, y),
                read_pixel_xy(&image2.data, width, height, x + 1, y),
                read_pixel_xy(&image2.data, width, height, x + 2, y),
                read_pixel_xy(&image2.data, width, height, x + 3, y),
            ];
            let d = if pa[0] == pb[0] && pa[1] == pb[1] && pa[2] == pb[2] && pa[3] == pb[3] {
                proof {
                    assert forall|k: int| 0 <= k < 4 implies color_delta_spec(pa@[k], pb@[k]) == 0 by {
                        lemma_delta_swap(pa@[k], pb@[k]);
                    }
                }
                [0i128; 4]
            } else {
                color_delta_lane(pa, pb)
            };
            assert forall|k: int| 0 <= k < 4 implies pa@[k] == pixel_xy(a, w, x + k, y as int)
                && pb@[k] == pixel_xy(b, w, x + k, y as int) && d@[k] == color_delta_spec(pa@[k], pb@[k])
                && -0x1000_0000_0000_0000_0000_0000_0000_0000 <= d@[k]
                <= 0x1000_0000_0000_0000_0000_0000_0000_0000 by {
                assert(k == 0 || k == 1 || k == 2 || k == 3);
            }
            let mut k: usize = 0;
            while k < 4
                invariant
                    pass_ready(image1, image2, opts, max_delta),
                    a == image1.data@,
                    b == image2.data@,
                    w == image1.width,
                    h == image1.height,
                    w * h <= u32::MAX,
                    x0 <= x,
                    x + 4 <= x1,
                    k <= 4,
                    x1 <= w,
                    y0 <= y < y1,
                    y1 <= h,
                    paint ==> out@.len() == 4 * image1.num_pixels(),
                    out@.len() == old(out)@.len(),
                    !paint ==> out@ == old(out)@,
                    count == counted_pixels(a, b, w, h, *opts, x0 as int, y0 as int, x1 as int, y as int).len()
                        + counted_pixels(a, b, w, h, *opts, x0 as int, y as int, x + k, y + 1).len(),
                    paint ==> forall|xx: int, yy: int|
                        0 <= xx < w && 0 <= yy < h ==> #[trigger] pixel_xy(out@, w, xx, yy) == if in_rect(
                            xx,
                            yy,
                            x0 as int,
                            y0 as int,
                            x1 as int,
                            y as int,
                        ) || (yy == y && x0 <= xx < x + k) {
                            painted(pixel_xy(old(out)@, w, xx, yy), a, b, w, h, xx, yy, *opts, background)
                        } else {
                            pixel_xy(old(out)@, w, xx, yy)
                        },
                    forall|j: int| 0 <= j < 4 ==> pa@[j] == pixel_xy(a, w, x + j, y as int)
                        && pb@[j] == pixel_xy(b, w, x + j, y as int) && d@[j] == color_delta_spec(
                        pa@[j],
                        pb@[j],
                    ) && -0x1000_0000_0000_0000_0000_0000_0000_0000 <= d@[j]
                        <= 0x1000_0000_0000_0000_0000_0000_0000_0000,
                decreases 4 - k,
            {
                let xk = x + k as u32;
                let c = hot_pixel(
                    image1,
                    image2,
                    out,
                    paint,
                    background,
                    opts,
                    max_delta,
                    xk,
                    y,
                    pa[k],
                    pb[k],
                    d[k],
                );
                proof {
                    lemma_split_columns(a, b, w, h, *opts, x0 as int, xk as int, xk as int + 1, y as int, y + 1);
                    lemma_single_pixel(a, b, w, h, *opts, xk as int, y as int);
                    lemma_split_rows(a, b, w, h, *opts, x0 as int, x1 as int, y0 as int, y as int, y + 1);
                    lemma_split_columns(a, b, w, h, *opts, x0 as int, xk as int + 1, x1 as int, y as int, y + 1);
                    lemma_counted_finite(a, b, w, h, *opts, x0 as int, y0 as int, x1 as int, y + 1);
                }
                count = count + c;
                k = k + 1;
            }
            x = x + 4;
        }
        while x < x1
            invariant
                pass_ready(image1, image2, opts, max_delta),
                a == image1.data@,
                b == image2.data@,
                w == image1.width,
                h == image1.height,
                w * h <= u32::MAX,
                x0 <= x <= x1,
                x1 <= w,
                y0 <= y < y1,
                y1 <= h,
                paint ==> out@.len() == 4 * image1.num_pixels(),
                out@.len() == old(out)@.len(),
                !paint ==> out@ == old(out)@,
                count == counted_pixels(a, b, w, h, *opts, x0 as int, y0 as int, x1 as int, y as int).len()
                    + counted_pixels(a, b, w, h, *opts, x0 as int, y as int, x as int, y + 1).len(),
                paint ==> forall|xx: int, yy: int|
                    0 <= xx < w && 0 <= yy < h ==> #[trigger] pixel_xy(out@, w, xx, yy) == if in_rect(
                        xx,
                        yy,
                        x0 as int,
                        y0 as int,
                        x1 as int,
                        y as int,
                    ) || (yy == y && x0 <= xx < x as int) {
                        painted(pixel_xy(old(out)@, w, xx, yy), a, b, w, h, xx, yy, *opts, background)
                    } else {
                        pixel_xy(old(out)@, w, xx, yy)
                    },
            decreases x1 - x,
        {
            let (_, pa, pb, d) = pixel_exceeds(image1, image2, opts, max_delta, x, y);
            let c = hot_pixel(image1, image2, out, paint, background, opts, max_delta, x, y, pa, pb, d);
            proof {
                lemma_split_columns(a, b, w, h, *opts, x0 as int, x as int, x as int + 1, y as int, y + 1);
                lemma_single_pixel(a, b, w, h, *opts, x as int, y as int);
                lemma_split_rows(a, b, w, h, *opts, x0 as int, x1 as int, y0 as int, y as int, y + 1);
                lemma_split_columns(a, b, w, h, *opts, x0 as int, x as int + 1, x1 as int, y as int, y + 1);
                lemma_counted_finite(a, b, w, h, *opts, x0 as int, y0 as int, x1 as int, y + 1);
            }
            count = count + c;
            x = x + 1;
        }
        proof {
            lemma_split_rows(a, b, w, h, *opts, x0 as int, x1 as int, y0 as int, y as int, y + 1);
        }
        y = y + 1;
    }
    count
}

/// A block `(x0, y0, x1, y1)` covers `[x0, x1) x [y0, y1)`.
pub open spec fn in_block(block: (u32, u32, u32, u32), x: int, y: int) -> bool {
    in_rect(x, y, block.0 as int, block.1 as int, block.2 as int, block.3 as int)
}

/// `(x, y)` lies in one of the first `n` blocks.
pub open spec fn in_any(blocks: Seq<(u32, u32, u32, u32)>, n: int, x: int, y: int) -> bool
    decreases n,
{
    if n <= 0 {
        false
    } else {
        in_block(blocks[n - 1], x, y) || in_any(blocks, n - 1, x, y)
    }
}

/// The counted pixels of the first `n` blocks, block by block.
pub open spec fn block_counts(
    a: Seq<u8>,
    b: Seq<u8>,
    w: int,
    h: int,
    opts: DiffOptions,
    blocks: Seq<(u32, u32, u32, u32)>,
    n: int,
) -> int
    decreases n,
{
    if n <= 0 {
        0
    } else {
        let k = blocks[n - 1];
        block_counts(a, b, w, h, opts, blocks, n - 1) + counted_pixels(
            a,
            b,
            w,
            h,
            opts,
            k.0 as int,
            k.1 as int,
            k.2 as int,
            k.3 as int,
        ).len()
    }
}

/// Blocks that lie inside a `w` x `h` image, none overlapping an earlier one.
pub open spec fn blocks_disjoint_within(blocks: Seq<(u32, u32, u32, u32)>, w: int, h: int) -> bool {
    &&& forall|i: int|
        0 <= i < blocks.len() ==> #[trigger] blocks[i].0 <= blocks[i].2 <= w && blocks[i].1
            <= blocks[i].3 <= h
    &&& forall|i: int, x: int, y: int|
        0 <= i < blocks.len() && #[trigger] in_block(blocks[i], x, y) ==> !in_any(blocks, i, x, y)
}

/// Appending a block leaves the counts of the blocks before it.
proof fn lemma_push_block(
    a: Seq<u8>,
    b: Seq<u8>,
    w: int,
    h: int,
    opts: DiffOptions,
    blocks: Seq<(u32, u32, u32, u32)>,
    block: (u32, u32, u32, u32),
    n: int,
)
    requires
        0 <= n <= blocks.len(),
    ensures
        block_counts(a, b, w, h, opts, blocks.push(block), n) == block_counts(a, b, w, h, opts, blocks, n),
    decreases n,
{
    if n > 0 {
        lemma_push_block(a, b, w, h, opts, blocks, block, n - 1);
        assert(blocks.push(block)[n - 1] == blocks[n - 1]);
    }
}

/// Appending the block `(x0, y0, x1, y1)`, which lies past every earlier
/// block in raster order, keeps the blocks disjoint.
proof fn lemma_push_disjoint(
    prev: Seq<(u32, u32, u32, u32)>,
    w: int,
    h: int,
    x0: u32,
    y0: u32,
    x1: u32,
    y1: u32,
)
    requires
        blocks_disjoint_within(prev, w, h),
        x0 <= x1 <= w,
        y0 <= y1 <= h,
        forall|xx: int, yy: int| #[trigger] in_any(prev, prev.len() as int, xx, yy)
            ==> yy < y0 || (y0 <= yy < y1 && xx < x0),
    ensures
        blocks_disjoint_within(prev.push((x0, y0, x1, y1)), w, h),
        forall|xx: int, yy: int| #[trigger] in_any(prev.push((x0, y0, x1, y1)), prev.len() + 1int, xx, yy)
            == (in_rect(xx, yy, x0 as int, y0 as int, x1 as int, y1 as int) || in_any(prev, prev.len() as int, xx, yy)),
{
    let blk = (x0, y0, x1, y1);
    let next = prev.push(blk);
    let n = prev.len() as int;
    assert(next[n] == blk);
    lemma_in_any_prefix(prev, blk, n);
    assert forall|xx: int, yy: int| #[trigger] in_any(next, n + 1, xx, yy) == (in_rect(
        xx,
        yy,
        x0 as int,
        y0 as int,
        x1 as int,
        y1 as int,
    ) || in_any(prev, n, xx, yy)) by {
        assert(in_any(next, n, xx, yy) == in_any(prev, n, xx, yy));
    }
    assert forall|i: int, x: int, y: int|
        0 <= i < next.len() && #[trigger] in_block(next[i], x, y) implies !in_any(next, i, x, y) by {
        lemma_in_any_prefix(prev, blk, i);
        assert(in_any(next, i, x, y) == in_any(prev, i, x, y));
        if i < n {
            assert(next[i] == prev[i]);
        } else {
            if in_any(prev, n, x, y) {
                assert(y < y0 || (y0 <= y < y1 && x < x0));
            }
        }
    }
    assert forall|i: int| 0 <= i < next.len() implies #[trigger] next[i].0 <= next[i].2 <= w
        && next[i].1 <= next[i].3 <= h by {
        if i < n {
            assert(next[i] == prev[i]);
        }
    }
}

proof fn lemma_in_any_prefix(blocks: Seq<(u32, u32, u32, u32)>, block: (u32, u32, u32, u32), n: int)
    requires
        0 <= n <= blocks.len(),
    ensures
        forall|x: int, y: int| #[trigger]
            in_any(blocks.push(block), n, x, y) == in_any(blocks, n, x, y),
    decreases n,
{
    if n > 0 {
        lemma_in_any_prefix(blocks, block, n - 1);
        assert(blocks.push(block)[n - 1] == blocks[n - 1]);
        assert forall|x: int, y: int| #[trigger]
            in_any(blocks.push(block), n, x, y) == in_any(blocks, n, x, y) by {
            assert(in_any(blocks.push(block), n - 1, x, y) == in_any(blocks, n - 1, x, y));
        }
    }
}

proof fn lemma_block_counts_grow(
    a: Seq<u8>,
    b: Seq<u8>,
    w: int,
    h: int,
    opts: DiffOptions,
    blocks: Seq<(u32, u32, u32, u32)>,
    i: int,
    n: int,
)
    requires
        0 <= i <= n,
        0 <= w,
        0 <= h,
    ensures
        0 <= block_counts(a, b, w, h, opts, blocks, i) <= block_counts(a, b, w, h, opts, blocks, n),
    decreases n,
{
    if n > 0 {
        if i < n {
            lemma_block_counts_grow(a, b, w, h, opts, blocks, i, n - 1);
        } else {
            lemma_block_counts_grow(a, b, w, h, opts, blocks, 0, n - 1);
        }
    }
}

/// The cold pass over the block grid of side [`calculate_block_size`],
/// blocks in raster order: records every block that holds a perceptibly
/// differing pixel and, when `paint_background` holds, paints every pixel of
/// the other blocks desaturated. The recorded blocks hold all counted
/// pixels.
#[verifier::rlimit(80)]
fn cold_pass(
    image1: &Image,
    image2: &Image,
    out: &mut Image,
    paint_background: bool,
    opts: &DiffOptions,
    max_delta: u128,
) -> (changed: Vec<(u32, u32, u32, u32)>)
    requires
        pass_ready(image1, image2, opts, max_delta),
        paint_background ==> old(out).wf() && old(out).width == image1.width && old(out).height
            == image1.height,
    ensures
        blocks_disjoint_within(changed@, image1.width as int, image1.height as int),
        block_counts(
            image1.data@,
            image2.data@,
            image1.width as int,
            image1.height as int,
            *opts,
            changed@,
            changed@.len() as int,
        ) == diff_count_spec(
            image1.data@,
            image2.data@,
            image1.width as int,
            image1.height as int,
            *opts,
        ),
        forall|x: int, y: int|
            0 <= x < image1.width && 0 <= y < image1.height && !#[trigger] in_any(
                changed@,
                changed@.len() as int,
                x,
                y,
            ) ==> !exceeds_at(image1.data@, image2.data@, image1.width as int, x, y, *opts),
        final(out).width == old(out).width,
        final(out).height == old(out).height,
        final(out).data@.len() == old(out).data@.len(),
        !paint_background ==> final(out).data@ == old(out).data@,
        paint_background ==> forall|x: int, y: int|
            0 <= x < image1.width && 0 <= y < image1.height ==> #[trigger] pixel_xy(
                final(out).data@,
                image1.width as int,
                x,
                y,
            ) == if in_any(changed@, changed@.len() as int, x, y) {
                pixel_xy(old(out).data@, image1.width as int, x, y)
            } else {
                desaturated(pixel_xy(image1.data@, image1.width as int, x, y), opts.alpha)
            },
{
    let width = image1.width;
    let height = image1.height;
    let ghost (a, b, w, h) = (image1.data@, image2.data@, width as int, height as int);
    let ghost before = out.data@;
    proof {
        lemma_empty_rect(a, b, w, h, *opts, 0, 0, w, 0);
        assert(w * h <= u32::MAX);
    }
    let block = calculate_block_size(width, height);
    let mut changed: Vec<(u32, u32, u32, u32)> = Vec::new();
    let mut y0: u32 = 0;
    while y0 < height
        invariant
            pass_ready(image1, image2, opts, max_delta),
            a == image1.data@,
            b == image2.data@,
            w == width,
            h == height,
            width == image1.width,
            height == image1.height,
            w * h <= u32::MAX,
            8 <= block <= 128,
            y0 <= height,
            out.width == old(out).width,
            out.height == old(out).height,
            out.data@.len() == before.len(),
            before == old(out).data@,
            paint_background ==> out.wf() && out.width == width && out.height == height,
            !paint_background ==> out.data@ == before,
            blocks_disjoint_within(changed@, w, h),
            forall|xx: int, yy: int| #[trigger] in_any(changed@, changed@.len() as int, xx, yy) ==> yy < y0,
            block_counts(a, b, w, h, *opts, changed@, changed@.len() as int) == counted_pixels(
                a,
                b,
                w,
                h,
                *opts,
                0,
                0,
                w,
                y0 as int,
            ).len(),
            forall|xx: int, yy: int|
                0 <= xx < w && 0 <= yy < y0 && !#[trigger] in_any(changed@, changed@.len() as int, xx, yy)
                    ==> !exceeds_at(a, b, w, xx, yy, *opts),
            paint_background ==> forall|xx: int, yy: int|
                0 <= xx < w && 0 <= yy < h ==> #[trigger] pixel_xy(out.data@, w, xx, yy) == if yy < y0
                    && !in_any(changed@, changed@.len() as int, xx, yy) {
                    desaturated(pixel_xy(a, w, xx, yy), opts.alpha)
                } else {
                    pixel_xy(before, w, xx, yy)
                },
        decreases height - y0,
    {
        let y1 = if height - y0 > block {
            y0 + block
        } else {
            height
        };
        proof {
            lemma_empty_rect(a, b, w, h, *opts, 0, y0 as int, 0, y1 as int);
        }
        let mut x0: u32 = 0;
        while x0 < width
            invariant
                pass_ready(image1, image2, opts, max_delta),
                a == image1.data@,
                b == image2.data@,
                w == width,
                h == height,
                width == image1.width,
                height == image1.height,
                w * h <= u32::MAX,
                8 <= block <= 128,
                y0 < y1 <= height,
                x0 <= width,
                out.width == old(out).width,
                out.height == old(out).height,
                out.data@.len() == before.len(),
                before == old(out).data@,
                paint_background ==> out.wf() && out.width == width && out.height == height,
                !paint_background ==> out.data@ == before,
                blocks_disjoint_within(changed@, w, h),
                forall|xx: int, yy: int| #[trigger] in_any(changed@, changed@.len() as int, xx, yy)
                    ==> yy < y0 || (y0 <= yy < y1 && xx < x0),
                block_counts(a, b, w, h, *opts, changed@, changed@.len() as int) == counted_pixels(
                    a,
                    b,
                    w,
                    h,
                    *opts,
                    0,
                    0,
                    w,
                    y0 as int,
                ).len() + counted_pixels(a, b, w, h, *opts, 0, y0 as int, x0 as int, y1 as int).len(),
                forall|xx: int, yy: int|
                    0 <= xx < w && (0 <= yy < y0 || (y0 <= yy < y1 && xx < x0)) && !#[trigger] in_any(
                        changed@,
                        changed@.len() as int,
                        xx,
                        yy,
                    ) ==> !exceeds_at(a, b, w, xx, yy, *opts),
                paint_background ==> forall|xx: int, yy: int|
                    0 <= xx < w && 0 <= yy < h ==> #[trigger] pixel_xy(out.data@, w, xx, yy) == if (yy
                        < y0 || (y0 <= yy < y1 && xx < x0)) && !in_any(
                        changed@,
                        changed@.len() as int,
                        xx,
                        yy,
                    ) {
                        desaturated(pixel_xy(a, w, xx, yy), opts.alpha)
                    } else {
                        pixel_xy(before, w, xx, yy)
                    },
            decreases width - x0,
        {
            let x1 = if width - x0 > block {
                x0 + block
            } else {
                width
            };
            let dirty = block_has_perceptual_diff(image1, image2, opts, max_delta, x0, y0, x1, y1);
            let ghost prev = changed@;
            proof {
                lemma_split_columns(a, b, w, h, *opts, 0, x0 as int, x1 as int, y0 as int, y1 as int);
            }
            if dirty {
                let blk = (x0, y0, x1, y1);
                changed.push(blk);
                proof {
                    lemma_push_block(a, b, w, h, *opts, prev, blk, prev.len() as int);
                    lemma_push_disjoint(prev, w, h, x0, y0, x1, y1);
                }
            } else {
                proof {
                    if w > 0 {
                        lemma_clean_rect(a, b, w, h, *opts, x0 as int, y0 as int, x1 as int, y1 as int);
                    }
                }
                if paint_background {
                    fill_block_gray(image1, out, opts.alpha, x0, y0, x1, y1);
                }
            }
            x0 = x1;
        }
        proof {
            lemma_split_rows(a, b, w, h, *opts, 0, w, 0, y0 as int, y1 as int);
        }
        y0 = y1;
    }
    changed
}

/// The hot pass over the recorded blocks, in order: returns the number of
/// counted pixels they hold and, when `paint` holds, paints each of their
/// pixels as [`painted`] says; the other pixels are untouched.
fn hot_pass(
    image1: &Image,
    image2: &Image,
    out: &mut Image,
    paint: bool,
    background: bool,
    opts: &DiffOptions,
    max_delta: u128,
    changed: &Vec<(u32, u32, u32, u32)>,
) -> (r: u32)
    requires
        pass_ready(image1, image2, opts, max_delta),
        paint ==> old(out).wf() && old(out).width == image1.width && old(out).height
            == image1.height,
        blocks_disjoint_within(changed@, image1.width as int, image1.height as int),
        block_counts(
            image1.data@,
            image2.data@,
            image1.width as int,
            image1.height as int,
            *opts,
            changed@,
            changed@.len() as int,
        ) <= u32::MAX,
    ensures
        r == block_counts(
            image1.data@,
            image2.data@,
            image1.width as int,
            image1.height as int,
            *opts,
            changed@,
            changed@.len() as int,
        ),
        final(out).width == old(out).width,
        final(out).height == old(out).height,
        final(out).data@.len() == old(out).data@.len(),
        !paint ==> final(out).data@ == old(out).data@,
        paint ==> forall|x: int, y: int|
            0 <= x < image1.width && 0 <= y < image1.height ==> #[trigger] pixel_xy(
                final(out).data@,
                image1.width as int,
                x,
                y,
            ) == if in_any(changed@, changed@.len() as int, x, y) {
                painted(
                    pixel_xy(old(out).data@, image1.width as int, x, y),
                    image1.data@,
                    image2.data@,
                    image1.width as int,
                    image1.height as int,
                    x,
                    y,
                    *opts,
                    background,
                )
            } else {
                pixel_xy(old(out).data@, image1.width as int, x, y)
            },
{
    let ghost (a, b, w, h) = (
        image1.data@,
        image2.data@,
        image1.width as int,
        image1.height as int,
    );
    let ghost before = out.data@;
    let n = changed.len();
    let mut count: u32 = 0;
    let mut i: usize = 0;
    while i < n
        invariant
            pass_ready(image1, image2, opts, max_delta),
            a == image1.data@,
            b == image2.data@,
            w == image1.width,
            h == image1.height,
            n == changed@.len(),
            i <= n,
            blocks_disjoint_within(changed@, w, h),
            block_counts(a, b, w, h, *opts, changed@, n as int) <= u32::MAX,
            count == block_counts(a, b, w, h, *opts, changed@, i as int),
            out.width == old(out).width,
            out.height == old(out).height,
            out.data@.len() == before.len(),
            before == old(out).data@,
            paint ==> out.wf() && out.width == w && out.height == h,
            !paint ==> out.data@ == before,
            paint ==> forall|xx: int, yy: int|
                0 <= xx < w && 0 <= yy < h ==> #[trigger] pixel_xy(out.data@, w, xx, yy) == if in_any(
                    changed@,
                    i as int,
                    xx,
                    yy,
                ) {
                    painted(pixel_xy(before, w, xx, yy), a, b, w, h, xx, yy, *opts, background)
                } else {
                    pixel_xy(before, w, xx, yy)
                },
        decreases n - i,
    {
        let (x0, y0, x1, y1) = changed[i];
        assert(changed@[i as int].0 <= changed@[i as int].2 <= w);
        let c = process_hot_block(
            image1,
            image2,
            &mut out.data,
            paint,
            background,
            opts,
            max_delta,
            x0,
            y0,
            x1,
            y1,
        );
        proof {
            lemma_block_counts_grow(a, b, w, h, *opts, changed@, i + 1, n as int);
            assert forall|xx: int, yy: int|
                0 <= xx < w && 0 <= yy < h && #[trigger] in_block(changed@[i as int], xx, yy) implies !in_any(
                changed@,
                i as int,
                xx,
                yy,
            ) by {}
        }
        count = count + c;
        i = i + 1;
    }
    count
}

/// Both passes: the cold pass over all blocks, then, unless no block
/// changed, the hot pass over the recorded ones. Returns the number of
/// differing pixels; when `paint` holds, every output pixel is painted as
/// [`painted`] says.
fn compare_blocks(
    image1: &Image,
    image2: &Image,
    out: &mut Image,
    paint: bool,
    background: bool,
    opts: &DiffOptions,
    max_delta: u128,
) -> (r: u32)
    requires
        pass_ready(image1, image2, opts, max_delta),
        paint ==> old(out).wf() && old(out).width == image1.width && old(out).height
            == image1.height,
    ensures
        r == diff_count_spec(
            image1.data@,
            image2.data@,
            image1.width as int,
            image1.height as int,
            *opts,
        ),
        final(out).width == old(out).width,
        final(out).height == old(out).height,
        final(out).data@.len() == old(out).data@.len(),
        !paint ==> final(out).data@ == old(out).data@,
        paint ==> forall|x: int, y: int|
            0 <= x < image1.width && 0 <= y < image1.height ==> #[trigger] pixel_xy(
                final(out).data@,
                image1.width as int,
                x,
                y,
            ) == painted(
                pixel_xy(old(out).data@, image1.width as int, x, y),
                image1.data@,
                image2.data@,
                image1.width as int,
                image1.height as int,
                x,
                y,
                *opts,
                background,
            ),
{
    let ghost (a, b, w, h) = (
        image1.data@,
        image2.data@,
        image1.width as int,
        image1.height as int,
    );
    let ghost before = out.data@;
    let changed = cold_pass(image1, image2, out, paint && background, opts, max_delta);
    let ghost mid = out.data@;
    proof {
        lemma_counted_finite(a, b, w, h, *opts, 0, 0, w, h);
        assert(w * h <= u32::MAX);
    }
    if changed.len() == 0 {
        assert forall|x: int, y: int| !#[trigger] in_any(changed@, changed@.len() as int, x, y) by {}
        assert forall|x: int, y: int|
            paint && 0 <= x < w && 0 <= y < h implies #[trigger] pixel_xy(out.data@, w, x, y) == painted(
            pixel_xy(before, w, x, y),
            a,
            b,
            w,
            h,
            x,
            y,
            *opts,
            background,
        ) by {
            assert(!in_any(changed@, changed@.len() as int, x, y));
            assert(!exceeds_at(a, b, w, x, y, *opts));
        }
        return 0;
    }
    hot_pass(image1, image2, out, paint, background, opts, max_delta, &changed)
}

/// The error a comparison of `image1` and `image2` fails with, if any; `out`
/// gives the width, height and buffer length of the output when there is
/// one. Differing input sizes come first, then a wrong buffer length of
/// either input, then an output of another size or buffer length.
pub open spec fn input_error(image1: Image, image2: Image, out: Option<(u32, u32, int)>) -> Option<DiffError> {
    let expected = 4 * (image1.width as int * image1.height as int);
    if image1.width != image2.width || image1.height != image2.height {
        Some(
            DiffError::SizeMismatch {
                img1_width: image1.width,
                img1_height: image1.height,
                img2_width: image2.width,
                img2_height: image2.height,
            },
        )
    } else if image1.data@.len() != expected {
        Some(DiffError::InvalidDataSize { expected: expected as usize, actual: image1.data@.len() as usize })
    } else if image2.data@.len() != expected {
        Some(DiffError::InvalidDataSize { expected: expected as usize, actual: image2.data@.len() as usize })
    } else {
        match out {
            Some((ow, oh, olen)) => if ow != image1.width || oh != image1.height {
                Some(
                    DiffError::SizeMismatch {
                        img1_width: image1.width,
                        img1_height: image1.height,
                        img2_width: ow,
                        img2_height: oh,
                    },
                )
            } else if olen != expected {
                Some(DiffError::InvalidDataSize { expected: expected as usize, actual: olen as usize })
            } else {
                None
            },
            None => None,
        }
    }
}

/// The size and buffer length of an optional output image.
pub open spec fn out_shape(out: Option<&mut Image>) -> Option<(u32, u32, int)> {
    match out {
        Some(o) => Some((o.width, o.height, o.data@.len() as int)),
        None => None,
    }
}

/// Checks that a buffer holds `4 * width * height` bytes.
fn check_len(len: usize, expected: usize) -> (r: Result<(), DiffError>)
    ensures
        r.is_ok() == (len == expected),
        r.is_err() ==> r == Err::<(), DiffError>(DiffError::InvalidDataSize { expected, actual: len }),
{
    if len == expected {
        Ok(())
    } else {
        Err(DiffError::InvalidDataSize { expected, actual: len })
    }
}

/// Compares two images and, when `output` is given, paints the
/// visualisation into it.
///
/// Fails with the error of [`input_error`], leaving the output untouched.
/// Otherwise the result counts the pixels that differ perceptibly and are
/// not anti-aliased (unless `include_aa`), out of `width * height`; every
/// output pixel is written as [`expected_output`] says: the diff marker on
/// counted pixels, and on the others the desaturated first image (or the AA
/// marker on anti-aliased pixels), or transparent black in diff-mask mode.
pub fn diff(
    image1: &Image,
    image2: &Image,
    output: Option<&mut Image>,
    options: &DiffOptions,
) -> (r: Result<DiffResult, DiffError>)
    requires
        dims_fit(image1.width, image1.height),
    ensures
        match input_error(*image1, *image2, out_shape(output)) {
            Some(e) => r == Err::<DiffResult, DiffError>(e) && (output.is_some() ==> *final(output.unwrap()) == *output.unwrap()),
            None => r.is_ok() && {
                let res = r.unwrap();
                let count = diff_count_spec(
                    image1.data@,
                    image2.data@,
                    image1.width as int,
                    image1.height as int,
                    *options,
                );
                &&& res.diff_count == count
                &&& res.total_pixels == image1.width * image1.height
                &&& res.identical == (count == 0)
                &&& output.is_some() ==> {
                    let o = *final(output.unwrap());
                    &&& o.width == image1.width
                    &&& o.height == image1.height
                    &&& o.wf()
                    &&& forall|x: int, y: int|
                        0 <= x < image1.width && 0 <= y < image1.height ==> #[trigger] pixel_xy(
                            o.data@,
                            image1.width as int,
                            x,
                            y,
                        ) == expected_output(
                            image1.data@,
                            image2.data@,
                            image1.width as int,
                            image1.height as int,
                            x,
                            y,
                            *options,
                        )
                }
            },
        },
{
    let width = image1.width;
    let height = image1.height;
    if width != image2.width || height != image2.height {
        return Err(
            DiffError::SizeMismatch {
                img1_width: width,
                img1_height: height,
                img2_width: image2.width,
                img2_height: image2.height,
            },
        );
    }
    let expected = (width as u64 * height as u64 * 4) as usize;
    if let Err(e) = check_len(image1.data.len(), expected) {
        return Err(e);
    }
    if let Err(e) = check_len(image2.data.len(), expected) {
        return Err(e);
    }
    let max_delta = threshold_to_max_delta(options.threshold);
    let total = width * height;
    let count = match output {
        Some(out) => {
            if out.width != width || out.height != height {
                return Err(
                    DiffError::SizeMismatch {
                        img1_width: width,
                        img1_height: height,
                        img2_width: out.width,
                        img2_height: out.height,
                    },
                );
            }
            if let Err(e) = check_len(out.data.len(), expected) {
                return Err(e);
            }
            if options.diff_mask {
                clear_transparent(out);
                proof {
                    lemma_zero_pixels(out.data@, width as int, height as int);
                }
            }
            compare_blocks(image1, image2, out, true, !options.diff_mask, options, max_delta)
        },
        None => {
            let mut unused = Image { data: Vec::new(), width, height };
            compare_blocks(image1, image2, &mut unused, false, false, options, max_delta)
        },
    };
    Ok(DiffResult::new(count, total))
}

} // verus!
