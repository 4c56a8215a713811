//! Anti-aliasing detection: a pixel lies on an anti-aliased edge when its
//! 3x3 neighbourhood holds both a strictly darker and a strictly brighter
//! neighbour, and one of those two sits in a solid region of both images.
use vstd::prelude::*;

use crate::types::{pixel_xy, read_pixel_xy, Image};
use crate::yiq::{luminance_delta, luminance_delta_spec};

verus! {

/// Column offset of the `k`-th neighbour; neighbours are taken in raster
/// order, the centre left out.
pub open spec fn offset_x(k: int) -> int {
    if k == 0 || k == 3 || k == 5 {
        -1
    } else if k == 1 || k == 6 {
        0
    } else {
        1
    }
}

/// Row offset of the `k`-th neighbour.
pub open spec fn offset_y(k: int) -> int {
    if k < 3 {
        -1
    } else if k < 5 {
        0
    } else {
        1
    }
}

pub open spec fn in_image(x: int, y: int, w: int, h: int) -> bool {
    0 <= x < w && 0 <= y < h
}

/// The `k`-th neighbour of `(x, y)` lies inside the image.
pub open spec fn has_neighbor(x: int, y: int, w: int, h: int, k: int) -> bool {
    in_image(x + offset_x(k), y + offset_y(k), w, h)
}

pub open spec fn neighbor(data: Seq<u8>, w: int, x: int, y: int, k: int) -> u32 {
    pixel_xy(data, w, x + offset_x(k), y + offset_y(k))
}

pub open spec fn on_boundary(x: int, y: int, w: int, h: int) -> bool {
    x == 0 || x == w - 1 || y == 0 || y == h - 1
}

/// How many of the first `k` neighbours of `(x, y)` hold the same pixel
/// word as `(x, y)`, plus one when `(x, y)` lies on the image boundary.
pub open spec fn equal_neighbors(data: Seq<u8>, w: int, h: int, x: int, y: int, k: int) -> int
    decreases k,
{
    if k <= 0 {
        if on_boundary(x, y, w, h) {
            1
        } else {
            0
        }
    } else {
        let prev = equal_neighbors(data, w, h, x, y, k - 1);
        if has_neighbor(x, y, w, h, k - 1) && neighbor(data, w, x, y, k - 1) == pixel_xy(
            data,
            w,
            x,
            y,
        ) {
            prev + 1
        } else {
            prev
        }
    }
}

/// Whether `(x, y)` has more than two neighbours of its own colour, counting
/// the boundary as one.
pub open spec fn many_siblings_spec(data: Seq<u8>, w: int, h: int, x: int, y: int) -> bool {
    equal_neighbors(data, w, h, x, y, 8) > 2
}

/// The luminance delta from `(x, y)` to its `k`-th neighbour when that
/// neighbour exists and differs from it; `None` otherwise.
pub open spec fn gradient(data: Seq<u8>, w: int, h: int, x: int, y: int, k: int) -> Option<int> {
    let c = pixel_xy(data, w, x, y);
    let n = neighbor(data, w, x, y, k);
    if has_neighbor(x, y, w, h, k) && n != c {
        Some(luminance_delta_spec(c, n))
    } else {
        None
    }
}

/// The most negative luminance delta among the first `k` neighbours, with
/// the index of the first neighbour that reached it; `(0, None)` when none
/// is negative.
pub open spec fn darkest(data: Seq<u8>, w: int, h: int, x: int, y: int, k: int) -> (int, Option<int>)
    decreases k,
{
    if k <= 0 {
        (0, None)
    } else {
        let prev = darkest(data, w, h, x, y, k - 1);
        match gradient(data, w, h, x, y, k - 1) {
            Some(d) => if d < prev.0 {
                (d, Some(k - 1))
            } else {
                prev
            },
            None => prev,
        }
    }
}

/// The most positive luminance delta among the first `k` neighbours, with
/// the index of the first neighbour that reached it; `(0, None)` when none
/// is positive.
pub open spec fn brightest(data: Seq<u8>, w: int, h: int, x: int, y: int, k: int) -> (int, Option<int>)
    decreases k,
{
    if k <= 0 {
        (0, None)
    } else {
        let prev = brightest(data, w, h, x, y, k - 1);
        match gradient(data, w, h, x, y, k - 1) {
            Some(d) => if d > prev.0 {
                (d, Some(k - 1))
            } else {
                prev
            },
            None => prev,
        }
    }
}

/// The neighbour `k` of `(x, y)` sits in a solid region of both images.
pub open spec fn solid_in_both(a: Seq<u8>, b: Seq<u8>, w: int, h: int, x: int, y: int, k: Option<int>) -> bool {
    match k {
        Some(k) => {
            let nx = x + offset_x(k);
            let ny = y + offset_y(k);
            many_siblings_spec(a, w, h, nx, ny) && many_siblings_spec(b, w, h, nx, ny)
        },
        None => false,
    }
}

/// Whether `(x, y)` of image `a` lies on an anti-aliased edge, with `b` the
/// other image: at most two neighbours share its colour (the boundary
/// counting as one), it has a strictly darker and a strictly brighter
/// neighbour, and the darkest or the brightest of them sits in a solid
/// region of both images.
pub open spec fn antialiased_spec(a: Seq<u8>, b: Seq<u8>, w: int, h: int, x: int, y: int) -> bool {
    let dark = darkest(a, w, h, x, y, 8);
    let bright = brightest(a, w, h, x, y, 8);
    &&& equal_neighbors(a, w, h, x, y, 8) <= 2
    &&& dark.0 != 0
    &&& bright.0 != 0
    &&& (solid_in_both(a, b, w, h, x, y, dark.1) || solid_in_both(a, b, w, h, x, y, bright.1))
}

proof fn lemma_equal_neighbors_grow(data: Seq<u8>, w: int, h: int, x: int, y: int, j: int, k: int)
    requires
        j <= k,
    ensures
        equal_neighbors(data, w, h, x, y, j) <= equal_neighbors(data, w, h, x, y, k),
    decreases k - j,
{
    if j < k {
        lemma_equal_neighbors_grow(data, w, h, x, y, j, k - 1);
    }
}

/// The `k`-th neighbour offsets (see [`offset_x`], [`offset_y`]).
fn neighbor_offset(k: u32) -> (r: (i64, i64))
    requires
        k < 8,
    ensures
        r.0 == offset_x(k as int),
        r.1 == offset_y(k as int),
{
    let dx: i64 = if k == 0 || k == 3 || k == 5 {
        -1
    } else if k == 1 || k == 6 {
        0
    } else {
        1
    };
    let dy: i64 = if k < 3 {
        -1
    } else if k < 5 {
        0
    } else {
        1
    };
    (dx, dy)
}

/// The coordinates of the `k`-th neighbour of `(x, y)` when it lies inside
/// the image.
fn neighbor_at(x: u32, y: u32, w: u32, h: u32, k: u32) -> (r: Option<(u32, u32)>)
    requires
        k < 8,
    ensures
        r.is_some() == has_neighbor(x as int, y as int, w as int, h as int, k as int),
        r.is_some() ==> r.unwrap().0 == x + offset_x(k as int) && r.unwrap().1 == y + offset_y(
            k as int,
        ),
{
    let (dx, dy) = neighbor_offset(k);
    let nx = x as i64 + dx;
    let ny = y as i64 + dy;
    if 0 <= nx && nx < w as i64 && 0 <= ny && ny < h as i64 {
        Some((nx as u32, ny as u32))
    } else {
        None
    }
}

/// The pixel at `(x, y)` of a well-formed image.
fn pixel_of(img: &Image, x: u32, y: u32) -> (r: u32)
    requires
        img.wf(),
        x < img.width,
        y < img.height,
    ensures
        r == pixel_xy(img.data@, img.width as int, x as int, y as int),
{
    read_pixel_xy(&img.data, img.width, img.height, x, y)
}

/// Whether `(x, y)` has more than two neighbours of its own colour in
/// `img`, the image boundary counting as one.
fn has_many_siblings(img: &Image, x: u32, y: u32) -> (r: bool)
    requires
        img.wf(),
        x < img.width,
        y < img.height,
    ensures
        r == many_siblings_spec(img.data@, img.width as int, img.height as int, x as int, y as int),
{
    let w = img.width;
    let h = img.height;
    let center = pixel_of(img, x, y);
    let mut count: u32 = if x == 0 || x == w - 1 || y == 0 || y == h - 1 {
        1
    } else {
        0
    };
    let mut k: u32 = 0;
    while k < 8
        invariant
            img.wf(),
            w == img.width,
            h == img.height,
            x < w,
            y < h,
            k <= 8,
            center == pixel_xy(img.data@, w as int, x as int, y as int),
            count == equal_neighbors(img.data@, w as int, h as int, x as int, y as int, k as int),
            count <= k + 1,
        decreases 8 - k,
    {
        match neighbor_at(x, y, w, h, k) {
            Some((nx, ny)) => {
                if pixel_of(img, nx, ny) == center {
                    count = count + 1;
                }
            },
            None => {},
        }
        k = k + 1;
    }
    count > 2
}

/// The neighbour index held in a scan slot: 8 marks an empty slot.
pub open spec fn slot(k: u32) -> Option<int> {
    if k < 8 {
        Some(k as int)
    } else {
        None
    }
}

/// Whether `(x, y)` of `image1` lies on an anti-aliased edge, `image2`
/// being the other image of the comparison (see [`antialiased_spec`]).
#[verifier::rlimit(40)]
pub fn is_antialiased(image1: &Image, image2: &Image, x: u32, y: u32) -> (r: bool)
    requires
        image1.wf(),
        image2.wf(),
        image1.width == image2.width,
        image1.height == image2.height,
        x < image1.width,
        y < image1.height,
    ensures
        r == antialiased_spec(
            image1.data@,
            image2.data@,
            image1.width as int,
            image1.height as int,
            x as int,
            y as int,
        ),
{
    let w = image1.width;
    let h = image1.height;
    let ghost a = image1.data@;
    let ghost (xi, yi, wi, hi) = (x as int, y as int, w as int, h as int);
    let center = pixel_of(image1, x, y);
    let mut zeroes: u32 = if x == 0 || x == w - 1 || y == 0 || y == h - 1 {
        1
    } else {
        0
    };
    let mut min_delta: i64 = 0;
    let mut min_k: u32 = 8;
    let mut max_delta: i64 = 0;
    let mut max_k: u32 = 8;
    let mut k: u32 = 0;
    while k < 8
        invariant
            image1.wf(),
            a == image1.data@,
            w == image1.width,
            h == image1.height,
            xi == x,
            yi == y,
            wi == w,
            hi == h,
            x < w,
            y < h,
            k <= 8,
            min_k <= 8,
            max_k <= 8,
            min_delta <= 0 <= max_delta,
            center == pixel_xy(a, wi, xi, yi),
            zeroes == equal_neighbors(a, wi, hi, xi, yi, k as int),
            zeroes <= 2,
            darkest(a, wi, hi, xi, yi, k as int) == (min_delta as int, slot(min_k)),
            brightest(a, wi, hi, xi, yi, k as int) == (max_delta as int, slot(max_k)),
            min_k < 8 ==> has_neighbor(xi, yi, wi, hi, min_k as int),
            max_k < 8 ==> has_neighbor(xi, yi, wi, hi, max_k as int),
        decreases 8 - k,
    {
        let (zeroes2, min2, max2) = scan_neighbor(image1, x, y, k, center, zeroes, (min_delta, min_k), (max_delta, max_k));
        if zeroes2 > 2 {
            proof {
                lemma_equal_neighbors_grow(a, wi, hi, xi, yi, k as int + 1, 8);
            }
            return false;
        }
        zeroes = zeroes2;
        min_delta = min2.0;
        min_k = min2.1;
        max_delta = max2.0;
        max_k = max2.1;
        k = k + 1;
    }
    if min_delta == 0 || max_delta == 0 {
        return false;
    }
    solid_neighbor(image1, image2, x, y, min_k) || solid_neighbor(image1, image2, x, y, max_k)
}

/// One step of the neighbourhood scan of [`is_antialiased`]: takes the
/// state after `k` neighbours and returns it after `k + 1`.
fn scan_neighbor(
    img: &Image,
    x: u32,
    y: u32,
    k: u32,
    center: u32,
    zeroes: u32,
    dark: (i64, u32),
    bright: (i64, u32),
) -> (r: (u32, (i64, u32), (i64, u32)))
    requires
        img.wf(),
        x < img.width,
        y < img.height,
        k < 8,
        dark.1 <= 8,
        bright.1 <= 8,
        dark.0 <= 0 <= bright.0,
        center == pixel_xy(img.data@, img.width as int, x as int, y as int),
        zeroes == equal_neighbors(img.data@, img.width as int, img.height as int, x as int, y as int, k as int),
        zeroes <= 2,
        darkest(img.data@, img.width as int, img.height as int, x as int, y as int, k as int) == (dark.0 as int, slot(dark.1)),
        brightest(img.data@, img.width as int, img.height as int, x as int, y as int, k as int) == (bright.0 as int, slot(bright.1)),
        dark.1 < 8 ==> has_neighbor(x as int, y as int, img.width as int, img.height as int, dark.1 as int),
        bright.1 < 8 ==> has_neighbor(x as int, y as int, img.width as int, img.height as int, bright.1 as int),
    ensures
        r.0 == equal_neighbors(img.data@, img.width as int, img.height as int, x as int, y as int, k + 1),
        r.0 <= 3,
        darkest(img.data@, img.width as int, img.height as int, x as int, y as int, k + 1) == (r.1.0 as int, slot(r.1.1)),
        brightest(img.data@, img.width as int, img.height as int, x as int, y as int, k + 1) == (r.2.0 as int, slot(r.2.1)),
        r.1.1 <= 8,
        r.2.1 <= 8,
        r.1.0 <= 0 <= r.2.0,
        r.1.1 < 8 ==> has_neighbor(x as int, y as int, img.width as int, img.height as int, r.1.1 as int),
        r.2.1 < 8 ==> has_neighbor(x as int, y as int, img.width as int, img.height as int, r.2.1 as int),
{
    match neighbor_at(x, y, img.width, img.height, k) {
        Some((nx, ny)) => {
            let n = pixel_of(img, nx, ny);
            if n == center {
                (zeroes + 1, dark, bright)
            } else {
                let d = luminance_delta(center, n);
                if d < dark.0 {
                    (zeroes, (d, k), bright)
                } else if d > bright.0 {
                    (zeroes, dark, (d, k))
                } else {
                    (zeroes, dark, bright)
                }
            }
        },
        None => (zeroes, dark, bright),
    }
}

/// Whether neighbour `k` of `(x, y)` sits in a solid region of both images;
/// false for the empty slot 8.
fn solid_neighbor(image1: &Image, image2: &Image, x: u32, y: u32, k: u32) -> (r: bool)
    requires
        image1.wf(),
        image2.wf(),
        image1.width == image2.width,
        image1.height == image2.height,
        x < image1.width,
        y < image1.height,
        k <= 8,
        k < 8 ==> has_neighbor(x as int, y as int, image1.width as int, image1.height as int, k as int),
    ensures
        r == solid_in_both(
            image1.data@,
            image2.data@,
            image1.width as int,
            image1.height as int,
            x as int,
            y as int,
            slot(k),
        ),
{
    if k < 8 {
        match neighbor_at(x, y, image1.width, image1.height, k) {
            Some((nx, ny)) => has_many_siblings(image1, nx, ny) && has_many_siblings(image2, nx, ny),
            None => false,
        }
    } else {
        false
    }
}

} // verus!
