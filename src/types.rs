//! Images, options, results and errors.
use vstd::prelude::*;

use crate::yiq::{alpha, blue, green, lemma_pixel_bytes, pack, red};

verus! {

/// The pixel at index `k` of an RGBA byte buffer: bytes `4k .. 4k + 4` read as
/// a little-endian word.
#[verifier::opaque]
pub open spec fn pixel_at(data: Seq<u8>, k: int) -> u32 {
    pack(
        data[4 * k] as int,
        data[4 * k + 1] as int,
        data[4 * k + 2] as int,
        data[4 * k + 3] as int,
    ) as u32
}

/// The pixel at column `x`, row `y` of an RGBA buffer `w` pixels wide.
pub open spec fn pixel_xy(data: Seq<u8>, w: int, x: int, y: int) -> u32 {
    pixel_at(data, y * w + x)
}

/// The buffer with the pixel at index `k` replaced by `p`.
pub open spec fn with_pixel(data: Seq<u8>, k: int, p: u32) -> Seq<u8> {
    data.update(4 * k, red(p) as u8).update(4 * k + 1, green(p) as u8).update(
        4 * k + 2,
        blue(p) as u8,
    ).update(4 * k + 3, alpha(p) as u8)
}

/// Whether a `width` x `height` image fits the 32-bit byte length that its
/// buffer is addressed with.
pub open spec fn dims_fit(width: u32, height: u32) -> bool {
    4 * (width as int * height as int) <= u32::MAX
}

/// A rectangular RGBA8 raster in row-major order: the byte at
/// `4 * (y * width + x) + c` holds channel `c` (R, G, B, A) of pixel `(x, y)`.
#[derive(Clone, Debug)]
pub struct Image {
    pub data: Vec<u8>,
    pub width: u32,
    pub height: u32,
}

impl Image {
    pub open spec fn num_pixels(&self) -> int {
        self.width as int * self.height as int
    }

    /// The buffer holds exactly `4 * width * height` bytes, and that length
    /// fits in 32 bits.
    pub open spec fn wf(&self) -> bool {
        &&& dims_fit(self.width, self.height)
        &&& self.data@.len() == 4 * self.num_pixels()
    }

    /// The pixel at row-major index `k`.
    pub open spec fn pixel(&self, k: int) -> u32 {
        pixel_at(self.data@, k)
    }

    /// A `width` x `height` image with every byte 0 (transparent black).
    pub fn new(width: u32, height: u32) -> (r: Image)
        requires
            dims_fit(width, height),
        ensures
            r.wf(),
            r.width == width,
            r.height == height,
            forall|i: int| 0 <= i < r.data@.len() ==> r.data@[i] == 0,
    {
        let len = (width as u64 * height as u64 * 4) as usize;
        let data = vec![0u8; len];
        Image { data, width, height }
    }

    /// The pixel at `(x, y)`.
    pub fn get_pixel(&self, x: u32, y: u32) -> (r: u32)
        requires
            self.wf(),
            x < self.width,
            y < self.height,
        ensures
            r == self.pixel(y * self.width + x),
    {
        proof {
            lemma_index_in_image(x as int, y as int, self.width as int, self.height as int);
        }
        read_pixel(&self.data, (y * self.width + x) as usize)
    }

    /// Replaces the pixel at `(x, y)`; every other pixel stays as it was.
    pub fn set_pixel(&mut self, x: u32, y: u32, pixel: u32)
        requires
            old(self).wf(),
            x < old(self).width,
            y < old(self).height,
        ensures
            final(self).width == old(self).width,
            final(self).height == old(self).height,
            final(self).wf(),
            final(self).data@ == with_pixel(old(self).data@, y * old(self).width + x, pixel),
            final(self).pixel(y * old(self).width + x) == pixel,
    {
        proof {
            lemma_index_in_image(x as int, y as int, self.width as int, self.height as int);
        }
        let k = (y * self.width + x) as usize;
        write_pixel(&mut self.data, k, pixel);
    }
}

/// Row-major index `y * w + x` of a pixel inside a `w` x `h` image lies
/// below `w * h`.
pub proof fn lemma_index_in_image(x: int, y: int, w: int, h: int)
    requires
        0 <= x < w,
        0 <= y < h,
    ensures
        0 <= y * w + x < w * h,
        y * w + x + 1 <= w * h,
{
    assert(y * w + x < w * h) by (nonlinear_arith)
        requires
            0 <= x < w,
            0 <= y < h,
    ;
    assert(0 <= y * w) by (nonlinear_arith)
        requires
            0 <= y,
            0 <= w,
    ;
}

/// Reads the pixel at index `k` of an RGBA buffer.
pub(crate) fn read_pixel(data: &Vec<u8>, k: usize) -> (r: u32)
    requires
        4 * k + 4 <= data@.len(),
    ensures
        r == pixel_at(data@, k as int),
{
    reveal(pixel_at);
    let n = data.len();
    assert(4 * k < n);
    let i = 4 * k;
    let (b0, b1, b2, b3) = (data[i], data[i + 1], data[i + 2], data[i + 3]);
    b0 as u32 + 256 * (b1 as u32) + 65536 * (b2 as u32) + 16777216 * (b3 as u32)
}

/// Writes the pixel at index `k` of an RGBA buffer.
pub(crate) fn write_pixel(data: &mut Vec<u8>, k: usize, p: u32)
    requires
        4 * k + 4 <= old(data)@.len(),
    ensures
        final(data)@ == with_pixel(old(data)@, k as int, p),
        pixel_at(final(data)@, k as int) == p,
        final(data)@.len() == old(data)@.len(),
        forall|j: int|
            0 <= j < old(data)@.len() / 4 && j != k ==> pixel_at(final(data)@, j) == pixel_at(
                old(data)@,
                j,
            ),
{
    proof {
        lemma_pixel_bytes(p);
        reveal(pixel_at);
    }
    let n = data.len();
    assert(4 * k < n);
    let i = 4 * k;
    data.set(i, (p % 256) as u8);
    data.set(i + 1, (p / 256 % 256) as u8);
    data.set(i + 2, (p / 65536 % 256) as u8);
    data.set(i + 3, (p / 16777216) as u8);
    assert forall|j: int| 0 <= j < old(data)@.len() / 4 && j != k implies pixel_at(
        data@,
        j,
    ) == pixel_at(old(data)@, j) by {
        assert(data@[4 * j] == old(data)@[4 * j]);
        assert(data@[4 * j + 1] == old(data)@[4 * j + 1]);
        assert(data@[4 * j + 2] == old(data)@[4 * j + 2]);
        assert(data@[4 * j + 3] == old(data)@[4 * j + 3]);
    }
}

/// Distinct pixels of a `w`-wide image have distinct row-major indices.
pub proof fn lemma_index_unique(x1: int, y1: int, x2: int, y2: int, w: int)
    requires
        0 <= x1 < w,
        0 <= x2 < w,
        0 <= y1,
        0 <= y2,
        x1 != x2 || y1 != y2,
    ensures
        y1 * w + x1 != y2 * w + x2,
{
    if y1 == y2 {
    } else if y1 < y2 {
        assert(y1 * w + w <= y2 * w) by (nonlinear_arith)
            requires
                y1 < y2,
                w >= 0,
        ;
    } else {
        assert(y2 * w + w <= y1 * w) by (nonlinear_arith)
            requires
                y2 < y1,
                w >= 0,
        ;
    }
}

/// Reads the pixel at `(x, y)` of a well-formed buffer `w` x `h`.
pub(crate) fn read_pixel_xy(data: &Vec<u8>, w: u32, h: u32, x: u32, y: u32) -> (r: u32)
    requires
        dims_fit(w, h),
        data@.len() == 4 * (w as int * h as int),
        x < w,
        y < h,
    ensures
        r == pixel_xy(data@, w as int, x as int, y as int),
{
    proof {
        lemma_index_in_image(x as int, y as int, w as int, h as int);
    }
    read_pixel(data, (y * w + x) as usize)
}

/// Writes the pixel at `(x, y)` of a well-formed buffer `w` x `h`; every
/// other pixel keeps its value.
pub(crate) fn write_pixel_xy(data: &mut Vec<u8>, w: u32, h: u32, x: u32, y: u32, p: u32)
    requires
        dims_fit(w, h),
        old(data)@.len() == 4 * (w as int * h as int),
        x < w,
        y < h,
    ensures
        final(data)@.len() == old(data)@.len(),
        pixel_xy(final(data)@, w as int, x as int, y as int) == p,
        forall|xx: int, yy: int|
            0 <= xx < w && 0 <= yy < h && (xx != x || yy != y) ==> #[trigger] pixel_xy(
                final(data)@,
                w as int,
                xx,
                yy,
            ) == pixel_xy(old(data)@, w as int, xx, yy),
{
    proof {
        lemma_index_in_image(x as int, y as int, w as int, h as int);
    }
    write_pixel(data, (y * w + x) as usize, p);
    proof {
        assert forall|xx: int, yy: int|
            0 <= xx < w && 0 <= yy < h && (xx != x || yy != y) implies #[trigger] pixel_xy(
                data@,
                w as int,
                xx,
                yy,
            ) == pixel_xy(old(data)@, w as int, xx, yy) by {
            lemma_index_in_image(xx, yy, w as int, h as int);
            lemma_index_unique(xx, yy, x as int, y as int, w as int);
            assert((4 * (w as int * h as int)) / 4 == w as int * h as int);
        }
    }
}

/// A buffer of zero bytes holds transparent black (0) in every pixel.
pub proof fn lemma_zero_pixels(data: Seq<u8>, w: int, h: int)
    requires
        data.len() == 4 * (w * h),
        forall|i: int| 0 <= i < data.len() ==> data[i] == 0,
    ensures
        forall|x: int, y: int| 0 <= x < w && 0 <= y < h ==> #[trigger] pixel_xy(data, w, x, y) == 0,
{
    reveal(pixel_at);
    assert forall|x: int, y: int| 0 <= x < w && 0 <= y < h implies #[trigger] pixel_xy(data, w, x, y)
        == 0 by {
        lemma_index_in_image(x, y, w, h);
    }
}

/// Options of a comparison. `threshold` and `alpha` are fractions given in
/// millionths (`1_000_000` is 1).
#[derive(Clone, Debug)]
pub struct DiffOptions {
    /// Perceptual tolerance: a pixel pair differs when its YIQ delta exceeds
    /// `35215 * threshold^2`.
    pub threshold: u32,
    /// Count anti-aliased pixels as differences instead of detecting and
    /// excluding them.
    pub include_aa: bool,
    /// Opacity of the desaturated first image in the output.
    pub alpha: u32,
    pub aa_color: [u8; 3],
    pub diff_color: [u8; 3],
    /// Marker for pixels whose delta is negative (the first image is the
    /// lighter one there); `diff_color` when absent.
    pub diff_color_alt: Option<[u8; 3]>,
    /// Leave the output transparent except for the marked pixels.
    pub diff_mask: bool,
    /// PNG compression level for a caller that encodes the output.
    pub compression: u8,
}

impl Default for DiffOptions {
    fn default() -> (r: DiffOptions)
        ensures
            r.threshold == 100_000,
            !r.include_aa,
            r.alpha == 100_000,
            r.aa_color@ == seq![255u8, 255u8, 0u8],
            r.diff_color@ == seq![255u8, 0u8, 0u8],
            r.diff_color_alt.is_none(),
            !r.diff_mask,
            r.compression == 0,
    {
        let r = DiffOptions {
            threshold: 100_000,
            include_aa: false,
            alpha: 100_000,
            aa_color: [255, 255, 0],
            diff_color: [255, 0, 0],
            diff_color_alt: None,
            diff_mask: false,
            compression: 0,
        };
        assert(r.aa_color@ =~= seq![255u8, 255u8, 0u8]);
        assert(r.diff_color@ =~= seq![255u8, 0u8, 0u8]);
        r
    }
}

/// The outcome of a comparison: how many of `total_pixels` pixels differ.
/// The percentage of differing pixels is `100 * diff_count / total_pixels`.
#[derive(Clone, Debug)]
pub struct DiffResult {
    pub diff_count: u32,
    pub total_pixels: u32,
    pub identical: bool,
}

impl DiffResult {
    pub fn new(diff_count: u32, total_pixels: u32) -> (r: DiffResult)
        ensures
            r.diff_count == diff_count,
            r.total_pixels == total_pixels,
            r.identical == (diff_count == 0),
    {
        DiffResult { diff_count, total_pixels, identical: diff_count == 0 }
    }
}

#[derive(Debug)]
pub enum DiffError {
    /// The two inputs (or an input and the output) differ in size.
    SizeMismatch { img1_width: u32, img1_height: u32, img2_width: u32, img2_height: u32 },
    /// A pixel buffer's length is not `4 * width * height`.
    InvalidDataSize { expected: usize, actual: usize },
    /// A QOI stream could not be decoded or encoded; the text says why.
    QoiError(String),
    /// A file name whose extension names no supported format.
    UnsupportedFormat(String),
}

} // verus!
