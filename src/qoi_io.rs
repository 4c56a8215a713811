//! QOI streams: decoding into an [`Image`] and encoding one, with the codec
//! itself left to the `qoi` crate.
use vstd::prelude::*;

use crate::types::{dims_fit, DiffError, Image};

verus! {

#[verifier::external_type_specification]
#[verifier::external_body]
pub struct ExQoiError(qoi::Error);

/// What `qoi::decode_to_vec` makes of a byte stream: width, height, channel
/// count and pixel bytes, or `None` when it rejects the stream.
pub uninterp spec fn qoi_decoded(data: Seq<u8>) -> Option<(u32, u32, u8, Seq<u8>)>;

/// The stream `qoi::encode_to_vec` makes of a pixel buffer and its size.
pub uninterp spec fn qoi_encoded(pixels: Seq<u8>, width: u32, height: u32) -> Seq<u8>;

/// Relies on `qoi::decode_to_vec`: the header's size, which its checks keep
/// non-empty and at most 400 million pixels, its channel count (3 or 4), and
/// a pixel buffer of `width * height * channels` bytes.
#[verifier::external_body]
fn qoi_decode(data: &[u8]) -> (r: Result<(u32, u32, u8, Vec<u8>), qoi::Error>)
    ensures
        match r {
            Ok((w, h, c, px)) => {
                &&& qoi_decoded(data@) == Some((w, h, c, px@))
                &&& 1 <= w
                &&& 1 <= h
                &&& w as int * h as int <= 400_000_000
                &&& c == 3 || c == 4
                &&& px@.len() == w as int * h as int * c as int
            },
            Err(_) => qoi_decoded(data@).is_none(),
        },
{
    match qoi::decode_to_vec(data) {
        Ok((header, pixels)) => Ok((header.width, header.height, header.channels.as_u8(), pixels)),
        Err(e) => Err(e),
    }
}

/// Relies on `qoi::encode_to_vec`: the encoded stream of a pixel buffer.
#[verifier::external_body]
fn qoi_encode(pixels: &[u8], width: u32, height: u32) -> (r: Result<Vec<u8>, qoi::Error>)
    ensures
        r.is_ok() ==> r.unwrap()@ == qoi_encoded(pixels@, width, height),
{
    qoi::encode_to_vec(pixels, width, height)
}

/// Relies on the `Display` impl of `qoi::Error`: a message describing it.
#[verifier::external_body]
fn qoi_error_text(e: &qoi::Error) -> String {
    e.to_string()
}

/// The RGBA buffer of `n` RGB pixels: each gets an opaque alpha byte.
pub open spec fn rgb_to_rgba(px: Seq<u8>, n: int) -> Seq<u8> {
    Seq::new((4 * n) as nat, |j: int| if j % 4 == 3 { 255u8 } else { px[(j / 4) * 3 + j % 4] })
}

/// Appends an opaque alpha byte to each of `n` RGB pixels.
fn expand_rgb(px: &Vec<u8>, n: usize) -> (r: Vec<u8>)
    requires
        px@.len() == 3 * n,
        4 * n <= usize::MAX,
    ensures
        r@ == rgb_to_rgba(px@, n as int),
{
    let mut out: Vec<u8> = Vec::new();
    let mut i: usize = 0;
    while i < n
        invariant
            px@.len() == 3 * n,
            4 * n <= usize::MAX,
            i <= n,
            out@.len() == 4 * i,
            forall|j: int| 0 <= j < 4 * i ==> out@[j] == rgb_to_rgba(px@, n as int)[j],
        decreases n - i,
    {
        let k = 3 * i;
        out.push(px[k]);
        out.push(px[k + 1]);
        out.push(px[k + 2]);
        out.push(255);
        i = i + 1;
    }
    assert(out@ =~= rgb_to_rgba(px@, n as int));
    out
}

/// Decodes a QOI stream into an RGBA image; RGB streams get opaque alpha.
/// Fails with `QoiError` exactly when the codec rejects the stream.
pub fn decode_qoi(bytes: &[u8]) -> (r: Result<Image, DiffError>)
    ensures
        match qoi_decoded(bytes@) {
            Some((w, h, c, px)) => r.is_ok() && {
                let img = r.unwrap();
                &&& img.wf()
                &&& img.width == w
                &&& img.height == h
                &&& img.data@ == if c == 4 {
                    px
                } else {
                    rgb_to_rgba(px, w as int * h as int)
                }
            },
            None => r.is_err() && r.unwrap_err() is QoiError,
        },
{
    match qoi_decode(bytes) {
        Ok((width, height, channels, pixels)) => {
            let n = (width as u64 * height as u64) as usize;
            let data = if channels == 4 {
                pixels
            } else {
                expand_rgb(&pixels, n)
            };
            let img = Image { data, width, height };
            assert(dims_fit(width, height));
            Ok(img)
        },
        Err(e) => Err(DiffError::QoiError(qoi_error_text(&e))),
    }
}

/// Encodes an image as a QOI stream.
pub fn encode_qoi(image: &Image) -> (r: Result<Vec<u8>, DiffError>)
    requires
        image.wf(),
    ensures
        r.is_ok() ==> r.unwrap()@ == qoi_encoded(image.data@, image.width, image.height),
        r.is_err() ==> r.unwrap_err() is QoiError,
{
    match qoi_encode(image.data.as_slice(), image.width, image.height) {
        Ok(bytes) => Ok(bytes),
        Err(e) => Err(DiffError::QoiError(qoi_error_text(&e))),
    }
}

} // verus!
