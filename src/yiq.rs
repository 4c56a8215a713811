//! Pixel packing and the YIQ colour-difference metric.
//!
//! A pixel is a 32-bit word holding R in its lowest byte, then G, B, and A in
//! its highest byte. The metric of two pixels blends each over opaque white,
//! takes the channel differences, maps them to the Y, I and Q axes and weighs
//! the squares. The coefficients are exact decimals, so the metric is computed
//! exactly over integers: channel differences are scaled by 255, the Y, I and
//! Q sums by 255 * 10^8, and the weighted magnitude by [`DELTA_SCALE`].
use vstd::prelude::*;

verus! {

/// The factor by which [`color_delta`] scales the real-valued YIQ delta:
/// 10^4 for the weights times (255 * 10^8)^2 for the squared axes.
pub const DELTA_SCALE: u128 = 6_502_500_000_000_000_000_000_000;

/// The largest YIQ delta between two opaque colours, in real units.
pub const MAX_YIQ_DELTA: u128 = 35215;

/// One unit of a fractional option (threshold, alpha): options are given in
/// millionths.
pub const FRACTION_ONE: u32 = 1_000_000;

pub open spec fn red(p: u32) -> int {
    p as int % 256
}

pub open spec fn green(p: u32) -> int {
    (p as int / 256) % 256
}

pub open spec fn blue(p: u32) -> int {
    (p as int / 65536) % 256
}

pub open spec fn alpha(p: u32) -> int {
    p as int / 16777216
}

/// The word of four channels, R in the lowest byte.
pub open spec fn pack(r: int, g: int, b: int, a: int) -> int {
    r + 256 * g + 65536 * b + 16777216 * a
}

proof fn lemma_pack_channels(r: u8, g: u8, b: u8, a: u8)
    ensures
        0 <= pack(r as int, g as int, b as int, a as int) <= u32::MAX,
        red(pack(r as int, g as int, b as int, a as int) as u32) == r,
        green(pack(r as int, g as int, b as int, a as int) as u32) == g,
        blue(pack(r as int, g as int, b as int, a as int) as u32) == b,
        alpha(pack(r as int, g as int, b as int, a as int) as u32) == a,
{
    let p = pack(r as int, g as int, b as int, a as int);
    assert(p / 256 == g + 256 * b + 65536 * a);
    assert(p / 65536 == b + 256 * a);
    assert(p / 16777216 == a);
}

proof fn lemma_channels_pack(p: u32)
    ensures
        pack(red(p), green(p), blue(p), alpha(p)) == p,
        0 <= red(p) < 256,
        0 <= green(p) < 256,
        0 <= blue(p) < 256,
        0 <= alpha(p) < 256,
{
    let x = p as int;
    let q1 = x / 256;
    let q2 = q1 / 256;
    let q3 = q2 / 256;
    assert(x == 256 * q1 + x % 256);
    assert(q1 == 256 * q2 + q1 % 256);
    assert(q2 == 256 * q3 + q2 % 256);
    assert(x / 65536 == q2) by {
        vstd::arithmetic::div_mod::lemma_div_denominator(x, 256, 256);
    }
    assert(x / 16777216 == q3) by {
        vstd::arithmetic::div_mod::lemma_div_denominator(x, 256, 256);
        vstd::arithmetic::div_mod::lemma_div_denominator(x, 65536, 256);
    }
    assert(q3 < 256);
}

/// The bytes of a pixel, lowest first, are its R, G, B and A channels.
pub proof fn lemma_pixel_bytes(p: u32)
    ensures
        p % 256 == red(p),
        p / 256 % 256 == green(p),
        p / 65536 % 256 == blue(p),
        p / 16777216 == alpha(p),
        pack(red(p), green(p), blue(p), alpha(p)) == p,
        0 <= red(p) < 256,
        0 <= green(p) < 256,
        0 <= blue(p) < 256,
        0 <= alpha(p) < 256,
{
    lemma_channels_pack(p);
}

/// Splits a pixel into its R, G, B and A channels.
pub fn unpack_pixel(pixel: u32) -> (r: (u8, u8, u8, u8))
    ensures
        r.0 == red(pixel),
        r.1 == green(pixel),
        r.2 == blue(pixel),
        r.3 == alpha(pixel),
        pack(r.0 as int, r.1 as int, r.2 as int, r.3 as int) == pixel,
{
    proof {
        lemma_channels_pack(pixel);
    }
    let r = (pixel % 256) as u8;
    let g = (pixel / 256 % 256) as u8;
    let b = (pixel / 65536 % 256) as u8;
    let a = (pixel / 16777216) as u8;
    (r, g, b, a)
}

/// Builds a pixel from its R, G, B and A channels.
pub fn pack_pixel(r: u8, g: u8, b: u8, a: u8) -> (p: u32)
    ensures
        p == pack(r as int, g as int, b as int, a as int),
        red(p) == r,
        green(p) == g,
        blue(p) == b,
        alpha(p) == a,
{
    proof {
        lemma_pack_channels(r, g, b, a);
    }
    r as u32 + 256 * (g as u32) + 65536 * (b as u32) + 16777216 * (a as u32)
}

/// Whether the pixel's alpha channel is 255.
pub fn is_opaque(pixel: u32) -> (r: bool)
    ensures
        r == (alpha(pixel) == 255),
{
    pixel / 16777216 == 255
}

/// A channel blended over opaque white, times 255: `255 * (255 + (c - 255) * a / 255)`.
/// An opaque channel gives `255 * c`; a fully transparent one gives `255 * 255`.
pub open spec fn blended(c: int, a: int) -> int {
    65025 + (c - 255) * a
}

/// The Y (luminance) axis of channel differences, times 10^8.
pub open spec fn y_sum(dr: int, dg: int, db: int) -> int {
    29889531 * dr + 58662247 * dg + 11448223 * db
}

/// The I axis of channel differences, times 10^8.
pub open spec fn i_sum(dr: int, dg: int, db: int) -> int {
    59597799 * dr - 27417610 * dg - 32180189 * db
}

/// The Q axis of channel differences, times 10^8.
pub open spec fn q_sum(dr: int, dg: int, db: int) -> int {
    21147017 * dr - 52261711 * dg + 31114694 * db
}

/// `0.5053 Y^2 + 0.299 I^2 + 0.1957 Q^2`, times 10^4.
pub open spec fn magnitude(dr: int, dg: int, db: int) -> int {
    let y = y_sum(dr, dg, db);
    let i = i_sum(dr, dg, db);
    let q = q_sum(dr, dg, db);
    5053 * (y * y) + 2990 * (i * i) + 1957 * (q * q)
}

pub open spec fn diff_r(pa: u32, pb: u32) -> int {
    blended(red(pa), alpha(pa)) - blended(red(pb), alpha(pb))
}

pub open spec fn diff_g(pa: u32, pb: u32) -> int {
    blended(green(pa), alpha(pa)) - blended(green(pb), alpha(pb))
}

pub open spec fn diff_b(pa: u32, pb: u32) -> int {
    blended(blue(pa), alpha(pa)) - blended(blue(pb), alpha(pb))
}

/// The luminance difference of two pixels blended over white, scaled by
/// 255 * 10^8. Positive when `pa` is the lighter one.
#[verifier::opaque]
pub open spec fn luminance_delta_spec(pa: u32, pb: u32) -> int {
    y_sum(diff_r(pa, pb), diff_g(pa, pb), diff_b(pa, pb))
}

/// The signed YIQ delta of two pixels blended over white, scaled by
/// [`DELTA_SCALE`]. Its absolute value is the weighted magnitude; it is
/// negative when `pb` is darker than `pa` (the luminance difference is
/// positive), and positive otherwise.
#[verifier::opaque]
pub open spec fn color_delta_spec(pa: u32, pb: u32) -> int {
    let m = magnitude(diff_r(pa, pb), diff_g(pa, pb), diff_b(pa, pb));
    if luminance_delta_spec(pa, pb) > 0 {
        -m
    } else {
        m
    }
}

pub open spec fn abs(v: int) -> int {
    if v < 0 {
        -v
    } else {
        v
    }
}

proof fn lemma_blended_bounds(c: int, a: int)
    requires
        0 <= c < 256,
        0 <= a < 256,
    ensures
        0 <= (255 - c) * a <= 65025,
        blended(c, a) == 65025 - (255 - c) * a,
        0 <= blended(c, a) <= 65025,
{
    assert(0 <= (255 - c) * a <= 255 * 255) by (nonlinear_arith)
        requires
            0 <= c < 256,
            0 <= a < 256,
    ;
    assert((c - 255) * a == -((255 - c) * a)) by (nonlinear_arith);
}

proof fn lemma_square_bound(v: int, bound: int)
    requires
        -bound <= v <= bound,
    ensures
        0 <= v * v <= bound * bound,
{
    assert(0 <= v * v <= bound * bound) by (nonlinear_arith)
        requires
            -bound <= v <= bound,
    ;
}

/// Blends one channel over white, scaled by 255.
fn blend_channel(c: u8, a: u8) -> (r: i64)
    ensures
        r == blended(c as int, a as int),
        0 <= r <= 65025,
{
    proof {
        lemma_blended_bounds(c as int, a as int);
    }
    65025 - (255 - c as i64) * (a as i64)
}

/// The channel differences of two pixels blended over white, scaled by 255.
fn channel_diffs(pa: u32, pb: u32) -> (r: (i64, i64, i64))
    ensures
        r.0 == diff_r(pa, pb),
        r.1 == diff_g(pa, pb),
        r.2 == diff_b(pa, pb),
        -65025 <= r.0 <= 65025,
        -65025 <= r.1 <= 65025,
        -65025 <= r.2 <= 65025,
{
    let (r1, g1, b1, a1) = unpack_pixel(pa);
    let (r2, g2, b2, a2) = unpack_pixel(pb);
    let dr = blend_channel(r1, a1) - blend_channel(r2, a2);
    let dg = blend_channel(g1, a1) - blend_channel(g2, a2);
    let db = blend_channel(b1, a1) - blend_channel(b2, a2);
    (dr, dg, db)
}

/// The luminance difference of two pixels blended over white, scaled by
/// 255 * 10^8 (see [`luminance_delta_spec`]).
pub fn luminance_delta(pa: u32, pb: u32) -> (r: i64)
    ensures
        r == luminance_delta_spec(pa, pb),
{
    reveal(luminance_delta_spec);
    let (dr, dg, db) = channel_diffs(pa, pb);
    29889531 * dr + 58662247 * dg + 11448223 * db
}

/// The Y, I and Q sums of channel differences that lie within one blended
/// channel range.
fn yiq_sums(dr: i64, dg: i64, db: i64) -> (r: (i64, i64, i64))
    requires
        -65025 <= dr <= 65025,
        -65025 <= dg <= 65025,
        -65025 <= db <= 65025,
    ensures
        r.0 == y_sum(dr as int, dg as int, db as int),
        r.1 == i_sum(dr as int, dg as int, db as int),
        r.2 == q_sum(dr as int, dg as int, db as int),
        -6_502_500_065_025 <= r.0 <= 6_502_500_065_025,
        -7_750_793_759_950 <= r.1 <= 7_750_793_759_950,
        -6_796_635_515_550 <= r.2 <= 6_796_635_515_550,
{
    let y = 29889531 * dr + 58662247 * dg + 11448223 * db;
    let i = 59597799 * dr - 27417610 * dg - 32180189 * db;
    let q = 21147017 * dr - 52261711 * dg + 31114694 * db;
    (y, i, q)
}

/// `5053 y^2 + 2990 i^2 + 1957 q^2` for sums within the bounds of [`yiq_sums`].
fn weighted_squares(y: i64, i: i64, q: i64) -> (r: i128)
    requires
        -6_502_500_065_025 <= y <= 6_502_500_065_025,
        -7_750_793_759_950 <= i <= 7_750_793_759_950,
        -6_796_635_515_550 <= q <= 6_796_635_515_550,
    ensures
        r == 5053 * (y * y) + 2990 * (i * i) + 1957 * (q * q),
        0 <= r <= 0x1000_0000_0000_0000_0000_0000_0000_0000,
{
    proof {
        lemma_square_bound(y as int, 6_502_500_065_025);
        lemma_square_bound(i as int, 7_750_793_759_950);
        lemma_square_bound(q as int, 6_796_635_515_550);
    }
    let y2 = (y as i128) * (y as i128);
    let i2 = (i as i128) * (i as i128);
    let q2 = (q as i128) * (q as i128);
    5053 * y2 + 2990 * i2 + 1957 * q2
}

/// The signed YIQ delta of two pixels blended over white, scaled by
/// [`DELTA_SCALE`] (see [`color_delta_spec`]). Equal pixels give 0.
pub fn color_delta(pa: u32, pb: u32) -> (r: i128)
    ensures
        r == color_delta_spec(pa, pb),
        -0x1000_0000_0000_0000_0000_0000_0000_0000 <= r <= 0x1000_0000_0000_0000_0000_0000_0000_0000,
{
    reveal(luminance_delta_spec);
    reveal(color_delta_spec);
    let (dr, dg, db) = channel_diffs(pa, pb);
    let (y, i, q) = yiq_sums(dr, dg, db);
    let m = weighted_squares(y, i, q);
    if y > 0 {
        -m
    } else {
        m
    }
}

/// The signed YIQ deltas of four pixel pairs at once, lane by lane: each
/// lane is exactly the delta [`color_delta`] gives for its pair.
pub fn color_delta_lane(a: [u32; 4], b: [u32; 4]) -> (r: [i128; 4])
    ensures
        forall|k: int| 0 <= k < 4 ==> #[trigger] r@[k] == color_delta_spec(a@[k], b@[k]),
        forall|k: int|
            0 <= k < 4 ==> -0x1000_0000_0000_0000_0000_0000_0000_0000 <= #[trigger] r@[k]
                <= 0x1000_0000_0000_0000_0000_0000_0000_0000,
{
    let r = [
        color_delta(a[0], b[0]),
        color_delta(a[1], b[1]),
        color_delta(a[2], b[2]),
        color_delta(a[3], b[3]),
    ];
    assert forall|k: int| 0 <= k < 4 implies #[trigger] r@[k] == color_delta_spec(a@[k], b@[k]) by {
        assert(k == 0 || k == 1 || k == 2 || k == 3);
    }
    assert forall|k: int|
        0 <= k < 4 implies -0x1000_0000_0000_0000_0000_0000_0000_0000 <= #[trigger] r@[k]
            <= 0x1000_0000_0000_0000_0000_0000_0000_0000 by {
        assert(k == 0 || k == 1 || k == 2 || k == 3);
    }
    r
}

/// `max_delta` for a threshold given in millionths, in the scale of
/// [`color_delta`]: `35215 * (threshold / 10^6)^2 * DELTA_SCALE`.
pub open spec fn max_delta_spec(threshold: u32) -> int {
    MAX_YIQ_DELTA * (threshold * threshold) * 6_502_500_000_000
}

/// Whether two pixels differ perceptibly: they are not the same word and the
/// magnitude of their delta exceeds `max_delta`.
pub open spec fn exceeds(pa: u32, pb: u32, max_delta: int) -> bool {
    pa != pb && abs(color_delta_spec(pa, pb)) > max_delta
}

/// Converts a threshold in millionths to the largest delta, in the scale of
/// [`color_delta`], that still counts as no difference.
pub fn threshold_to_max_delta(threshold: u32) -> (r: u128)
    ensures
        r == max_delta_spec(threshold),
{
    proof {
        lemma_square_bound(threshold as int, u32::MAX as int);
    }
    let t = threshold as u128;
    MAX_YIQ_DELTA * (t * t) * 6_502_500_000_000
}

/// Swapping the two pixels keeps the magnitude of the delta and only flips
/// its sign; a pixel compared with itself gives 0.
pub proof fn lemma_delta_swap(pa: u32, pb: u32)
    ensures
        abs(color_delta_spec(pa, pb)) == abs(color_delta_spec(pb, pa)),
        luminance_delta_spec(pb, pa) == -luminance_delta_spec(pa, pb),
        color_delta_spec(pa, pa) == 0,
        exceeds(pa, pb, 0) == exceeds(pb, pa, 0),
{
    reveal(luminance_delta_spec);
    reveal(color_delta_spec);
    let (dr, dg, db) = (diff_r(pa, pb), diff_g(pa, pb), diff_b(pa, pb));
    let y = y_sum(dr, dg, db);
    let i = i_sum(dr, dg, db);
    let q = q_sum(dr, dg, db);
    assert(y_sum(-dr, -dg, -db) == -y);
    assert(i_sum(-dr, -dg, -db) == -i);
    assert(q_sum(-dr, -dg, -db) == -q);
    assert((-y) * (-y) == y * y) by (nonlinear_arith);
    assert((-i) * (-i) == i * i) by (nonlinear_arith);
    assert((-q) * (-q) == q * q) by (nonlinear_arith);
    assert(magnitude(-dr, -dg, -db) == magnitude(dr, dg, db));
    assert(y * y >= 0 && i * i >= 0 && q * q >= 0) by (nonlinear_arith);
    lemma_magnitude_zero();
}

/// Two fully transparent pixels blend to the same white, whatever their
/// colour channels hold: their delta is 0.
pub proof fn lemma_transparent_pixels_equal(pa: u32, pb: u32)
    requires
        alpha(pa) == 0,
        alpha(pb) == 0,
    ensures
        color_delta_spec(pa, pb) == 0,
        luminance_delta_spec(pa, pb) == 0,
        forall|max_delta: int| max_delta >= 0 ==> !exceeds(pa, pb, max_delta),
{
    reveal(luminance_delta_spec);
    reveal(color_delta_spec);
    assert(diff_r(pa, pb) == 0);
    assert(diff_g(pa, pb) == 0);
    assert(diff_b(pa, pb) == 0);
    lemma_magnitude_zero();
}

proof fn lemma_magnitude_zero()
    ensures
        magnitude(0, 0, 0) == 0,
        y_sum(0, 0, 0) == 0,
{
    let z = y_sum(0, 0, 0);
    assert(z == 0);
    assert(i_sum(0, 0, 0) == 0);
    assert(q_sum(0, 0, 0) == 0);
    assert(0int * 0int == 0) by (nonlinear_arith);
}

/// One channel blended over white in the 12-bit fixed-point form of
/// [`color_delta_fixed`]; the division truncates toward zero.
pub open spec fn blend_fixed(c: int, a: int) -> int {
    if a == 0 {
        255 * 4096int
    } else if a < 255 {
        255 * 4096 - ((255 - c) * a * 4096) / 255
    } else {
        c * 4096
    }
}

/// The unsigned YIQ delta in 12-bit fixed point with truncated coefficients:
/// the axis sums and the weighted sum are shifted right (rounded toward
/// negative infinity) as an arithmetic shift does.
pub open spec fn color_delta_fixed_spec(pa: u32, pb: u32) -> int {
    let dr = blend_fixed(red(pa), alpha(pa)) - blend_fixed(red(pb), alpha(pb));
    let dg = blend_fixed(green(pa), alpha(pa)) - blend_fixed(green(pb), alpha(pb));
    let db = blend_fixed(blue(pa), alpha(pa)) - blend_fixed(blue(pb), alpha(pb));
    let y = (dr * 1224 + dg * 2402 + db * 468) / 4096;
    let i = (dr * 2441 - dg * 1123 - db * 1318) / 4096;
    let q = (dr * 866 - dg * 2140 + db * 1274) / 4096;
    (y * y * 2069 + i * i * 1224 + q * q * 801) / 16777216
}

/// Floor division of a negative numerator through the ceiling of its
/// magnitude: `(-m) / d == -((m + d - 1) / d)`.
pub proof fn lemma_floor_div_negative(m: int, d: int)
    requires
        m >= 1,
        d >= 1,
    ensures
        (-m) / d == -((m + d - 1) / d),
        0 <= (m + d - 1) / d <= m,
{
    let c = (m + d - 1) / d;
    let t = m + d - 1;
    vstd::arithmetic::div_mod::lemma_fundamental_div_mod(t, d);
    vstd::arithmetic::div_mod::lemma_mod_bound(t, d);
    assert(t == d * c + t % d);
    assert(c * d == d * c) by (nonlinear_arith);
    assert(0 <= c <= m) by (nonlinear_arith)
        requires
            c * d <= m + d - 1,
            c * d + d > m + d - 1,
            d >= 1,
            m >= 1,
    ;
    assert((-c) * d == -(c * d)) by (nonlinear_arith);
    vstd::arithmetic::div_mod::lemma_fundamental_div_mod_converse(-m, d, -c, -m + c * d);
}

/// `v / d` rounded toward negative infinity, as `>>` does on a signed value.
fn floor_div(v: i64, d: i64) -> (r: i64)
    requires
        d > 0,
        v >= -0x4000_0000_0000_0000,
    ensures
        r == v as int / d as int,
{
    if v >= 0 {
        (v as u64 / d as u64) as i64
    } else {
        let n = (-v) as u64;
        let d64 = d as u64;
        let c = (n + d64 - 1) / d64;
        proof {
            lemma_floor_div_negative(n as int, d as int);
        }
        -(c as i64)
    }
}

fn blend_fixed_channel(c: u8, a: u8) -> (r: i64)
    ensures
        r == blend_fixed(c as int, a as int),
        0 <= r <= 255 * 4096,
{
    if a == 0 {
        255 * 4096
    } else if a < 255 {
        proof {
            lemma_blended_bounds(c as int, a as int);
        }
        let n = (255 - c as i64) * (a as i64) * 4096;
        assert(n / 255 <= 4096 * 255);
        255 * 4096 - n / 255
    } else {
        c as i64 * 4096
    }
}

/// The YIQ delta in 12-bit fixed point (see [`color_delta_fixed_spec`]):
/// an unsigned approximation of the metric, scaled by 4096.
pub fn color_delta_fixed(pixel_a: u32, pixel_b: u32) -> (r: i64)
    ensures
        r == color_delta_fixed_spec(pixel_a, pixel_b),
{
    let (r1, g1, b1, a1) = unpack_pixel(pixel_a);
    let (r2, g2, b2, a2) = unpack_pixel(pixel_b);
    let dr = blend_fixed_channel(r1, a1) - blend_fixed_channel(r2, a2);
    let dg = blend_fixed_channel(g1, a1) - blend_fixed_channel(g2, a2);
    let db = blend_fixed_channel(b1, a1) - blend_fixed_channel(b2, a2);
    let y = floor_div(dr * 1224 + dg * 2402 + db * 468, 4096);
    let i = floor_div(dr * 2441 - dg * 1123 - db * 1318, 4096);
    let q = floor_div(dr * 866 - dg * 2140 + db * 1274, 4096);
    assert(-1_300_000 <= y <= 1_300_000);
    assert(-1_300_000 <= i <= 1_300_000);
    assert(-1_300_000 <= q <= 1_300_000);
    proof {
        lemma_square_bound(y as int, 1_300_000);
        lemma_square_bound(i as int, 1_300_000);
        lemma_square_bound(q as int, 1_300_000);
        assert(y * y * 2069 == (y * y) * 2069) by (nonlinear_arith);
        assert(i * i * 1224 == (i * i) * 1224) by (nonlinear_arith);
        assert(q * q * 801 == (q * q) * 801) by (nonlinear_arith);
    }
    let sum = (y * y) * 2069 + (i * i) * 1224 + (q * q) * 801;
    floor_div(sum, 16777216)
}

} // verus!
