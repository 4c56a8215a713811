//! Perceptual image comparison: a YIQ colour metric with alpha blending over
//! white, an anti-aliasing classifier, and a block scan that only does
//! per-pixel work inside blocks that hold a perceptible difference.
//!
//! All arithmetic is exact: colour deltas are integers scaled by
//! [`yiq::DELTA_SCALE`], and the fractional options are given in millionths.

pub mod antialiasing;
pub mod diff;
pub mod output;
pub mod properties;
pub mod qoi_io;
pub mod simd;
pub mod types;
pub mod yiq;

pub use antialiasing::is_antialiased;
pub use diff::{block_has_perceptual_diff, calculate_block_size, diff};
pub use output::{
    clear_transparent, draw_gray_pixel, draw_gray_pixel_u32, draw_pixel, draw_pixel_u32, fill_block_gray, fill_gray,
};
pub use qoi_io::{decode_qoi, encode_qoi};
pub use simd::{compare_pixels, detect_backend, lane_count, SimdBackend};
pub use types::{DiffError, DiffOptions, DiffResult, Image};
pub use yiq::{
    color_delta, color_delta_fixed, color_delta_lane, is_opaque, luminance_delta, pack_pixel, threshold_to_max_delta,
    unpack_pixel, DELTA_SCALE, FRACTION_ONE, MAX_YIQ_DELTA,
};
