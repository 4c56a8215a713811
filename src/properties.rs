//! Laws of the comparison, stated over the specifications that the
//! functions' contracts use and proved from them.
use vstd::prelude::*;
use vstd::set_lib::*;

use crate::antialiasing::{antialiased_spec, brightest, darkest, has_neighbor};
use crate::diff::{
    aa_pixel, counted, counted_pixels, diff_count_spec, exceeds_at, expected_output,
    lemma_counted_finite,
};
use crate::output::{desaturated, marker};
use crate::types::{pixel_xy, DiffOptions};
use crate::yiq::{lemma_delta_swap, max_delta_spec};

verus! {

/// Comparing an image with itself finds no difference, and the output is
/// the desaturated image (or transparent black in diff-mask mode).
pub proof fn lemma_self_comparison(a: Seq<u8>, w: int, h: int, opts: DiffOptions)
    requires
        0 <= w,
        0 <= h,
    ensures
        diff_count_spec(a, a, w, h, opts) == 0,
        forall|x: int, y: int| #[trigger]
            expected_output(a, a, w, h, x, y, opts) == if opts.diff_mask {
                0u32
            } else {
                desaturated(pixel_xy(a, w, x, y), opts.alpha)
            },
{
    assert(counted_pixels(a, a, w, h, opts, 0, 0, w, h) =~= Set::empty());
}

/// The differing pixels of `(a, b)` and of `(b, a)` are the same, so the
/// count and whether the images are identical do not depend on the order.
pub proof fn lemma_count_symmetric(a: Seq<u8>, b: Seq<u8>, w: int, h: int, opts: DiffOptions)
    ensures
        diff_count_spec(a, b, w, h, opts) == diff_count_spec(b, a, w, h, opts),
        forall|x: int, y: int| #[trigger]
            counted(a, b, w, h, x, y, opts) == counted(b, a, w, h, x, y, opts),
{
    assert forall|x: int, y: int| #[trigger]
        counted(a, b, w, h, x, y, opts) == counted(b, a, w, h, x, y, opts) by {
        lemma_delta_swap(pixel_xy(a, w, x, y), pixel_xy(b, w, x, y));
    }
    assert(counted_pixels(a, b, w, h, opts, 0, 0, w, h) =~= counted_pixels(
        b,
        a,
        w,
        h,
        opts,
        0,
        0,
        w,
        h,
    ));
}

/// The count never exceeds the number of pixels, and raising the threshold
/// never raises it.
pub proof fn lemma_count_bounded_and_monotone(
    a: Seq<u8>,
    b: Seq<u8>,
    w: int,
    h: int,
    low: DiffOptions,
    high: DiffOptions,
)
    requires
        0 <= w,
        0 <= h,
        low.threshold <= high.threshold,
        low.include_aa == high.include_aa,
    ensures
        diff_count_spec(a, b, w, h, low) <= w * h,
        diff_count_spec(a, b, w, h, high) <= diff_count_spec(a, b, w, h, low),
{
    let (tl, th) = (low.threshold as int, high.threshold as int);
    assert(tl * tl <= th * th) by (nonlinear_arith)
        requires
            0 <= tl <= th,
    ;
    assert(max_delta_spec(low.threshold) <= max_delta_spec(high.threshold));
    lemma_counted_finite(a, b, w, h, low, 0, 0, w, h);
    lemma_len_subset(
        counted_pixels(a, b, w, h, high, 0, 0, w, h),
        counted_pixels(a, b, w, h, low, 0, 0, w, h),
    );
}

/// An anti-aliased pixel is never counted unless anti-aliased pixels are
/// included, and then every perceptibly differing pixel is counted. Where
/// the background is drawn, an excluded anti-aliased pixel gets the AA
/// marker.
pub proof fn lemma_aa_exclusion(a: Seq<u8>, b: Seq<u8>, w: int, h: int, x: int, y: int, opts: DiffOptions)
    ensures
        !opts.include_aa && aa_pixel(a, b, w, h, x, y) ==> !counted(a, b, w, h, x, y, opts),
        opts.include_aa ==> counted(a, b, w, h, x, y, opts) == exceeds_at(a, b, w, x, y, opts),
        !opts.include_aa && !opts.diff_mask && aa_pixel(a, b, w, h, x, y) && exceeds_at(
            a,
            b,
            w,
            x,
            y,
            opts,
        ) ==> expected_output(a, b, w, h, x, y, opts) == marker(opts.aa_color),
{
}

proof fn lemma_lone_pixel_scan(a: Seq<u8>, k: int)
    requires
        0 <= k <= 8,
    ensures
        darkest(a, 1, 1, 0, 0, k) == (0int, None::<int>),
        brightest(a, 1, 1, 0, 0, k) == (0int, None::<int>),
    decreases k,
{
    if k > 0 {
        lemma_lone_pixel_scan(a, k - 1);
        assert(!has_neighbor(0, 0, 1, 1, k - 1));
    }
}

/// A 1x1 image has no neighbours: its pixel is never anti-aliased, and it is
/// counted exactly when the pair differs perceptibly.
pub proof fn lemma_single_pixel_image(a: Seq<u8>, b: Seq<u8>, opts: DiffOptions)
    ensures
        !antialiased_spec(a, b, 1, 1, 0, 0),
        !aa_pixel(a, b, 1, 1, 0, 0),
        counted(a, b, 1, 1, 0, 0, opts) == exceeds_at(a, b, 1, 0, 0, opts),
{
    lemma_lone_pixel_scan(a, 8);
    lemma_lone_pixel_scan(b, 8);
}

} // verus!
