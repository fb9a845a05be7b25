//! The in-memory image: a flat row-major RGB byte buffer with its
//! dimensions, and the normalization step that rounds both axes up to a
//! multiple of 64 pixels (at least 128) with a nearest-neighbor rescale.

use vstd::prelude::*;

verus! {

/// An 8-bit RGB image, rows stored top to bottom, three bytes per pixel.
#[derive(Debug)]
pub struct Image {
    pub width: u32,
    pub height: u32,
    pub data: Vec<u8>,
}

impl Image {
    /// The buffer holds exactly three bytes for each pixel.
    pub open spec fn wf(&self) -> bool {
        self.data@.len() == self.width as int * self.height as int * 3
    }

    /// The color of the pixel at column `x`, row `y` (row 0 at the top).
    pub open spec fn pixel(&self, x: int, y: int) -> (u8, u8, u8) {
        color_at(self.data@, y * self.width as int + x)
    }

    /// All pixel colors in row-major top-to-bottom order.
    pub open spec fn pixel_colors(&self) -> Seq<(u8, u8, u8)> {
        colors_of(self.data@)
    }

    /// Builds an image from its parts, checking the buffer length.
    pub fn new(width: u32, height: u32, data: Vec<u8>) -> (r: Option<Image>)
        ensures
            r is Some <==> data@.len() == width as int * height as int * 3,
            r is Some ==> r->0.width == width && r->0.height == height && r->0.data@ == data@
                && r->0.wf(),
    {
        proof {
            assert((width as int) * (height as int) * 3 < u128::MAX) by (nonlinear_arith)
                requires
                    width <= u32::MAX,
                    height <= u32::MAX,
            ;
        }
        let px3: u128 = (width as u128) * (height as u128) * 3;
        if (data.len() as u128) == px3 {
            Some(Image { width, height, data })
        } else {
            None
        }
    }

    /// Reads the pixel at column `x`, row `y`.
    pub fn get_pixel(&self, x: u32, y: u32) -> (c: (u8, u8, u8))
        requires
            self.wf(),
            x < self.width,
            y < self.height,
        ensures
            c == self.pixel(x as int, y as int),
    {
        let total = self.data.len();
        proof {
            lemma_pixel_offset(self.width as int, self.height as int, x as int, y as int);
            assert((y as int * self.width as int + x as int) * 3 + 3 <= total);
        }
        let i: usize = (y as usize * self.width as usize + x as usize) * 3;
        (self.data[i], self.data[i + 1], self.data[i + 2])
    }
}

/// The color starting at pixel slot `i` of a flat RGB buffer.
pub open spec fn color_at(data: Seq<u8>, i: int) -> (u8, u8, u8) {
    (data[3 * i], data[3 * i + 1], data[3 * i + 2])
}

/// The pixel colors of a flat RGB buffer, in buffer order.
pub open spec fn colors_of(data: Seq<u8>) -> Seq<(u8, u8, u8)> {
    Seq::new((data.len() / 3) as nat, |i: int| color_at(data, i))
}

proof fn lemma_pixel_offset(w: int, h: int, x: int, y: int)
    by (nonlinear_arith)
    requires
        0 <= x < w,
        0 <= y < h,
    ensures
        0 <= (y * w + x) * 3,
        (y * w + x) * 3 + 3 <= w * h * 3,
{
}

/// The dimension the normalization step yields: the smallest multiple of 64
/// that is at least the input and at least 128.
pub open spec fn norm_dim(d: int) -> int {
    let k = if (d + 63) / 64 >= 2 {
        (d + 63) / 64
    } else {
        2
    };
    k * 64
}

/// What `image::imageops::resize` with the nearest-neighbor filter returns
/// for a given flat RGB buffer and the old and new dimensions. The result
/// depends on these arguments alone.
pub uninterp spec fn resize_nearest_of(data: Seq<u8>, w: int, h: int, nw: int, nh: int) -> Seq<u8>;

/// Relies on `image::imageops::resize` with `FilterType::Nearest`: the
/// result is an `nw` by `nh` RGB image, resampled from the input without
/// interpolation. When the target size equals the current size the
/// function copies the buffer unchanged instead of resampling.
#[verifier::external_body]
fn resize_nearest_raw(data: Vec<u8>, w: u32, h: u32, nw: u32, nh: u32) -> (r: Vec<u8>)
    requires
        data@.len() == w as int * h as int * 3,
        w > 0,
        h > 0,
        0 < nw as int * nh as int * 3 <= usize::MAX as int,
    ensures
        r@ == resize_nearest_of(data@, w as int, h as int, nw as int, nh as int),
        r@.len() == nw as int * nh as int * 3,
        w == nw && h == nh ==> r@ == data@,
{
    let buf: image::ImageBuffer<image::Rgb<u8>, Vec<u8>> =
        image::ImageBuffer::from_raw(w, h, data).unwrap();
    image::imageops::resize(&buf, nw, nh, image::imageops::FilterType::Nearest).into_raw()
}

/// Rounds both axes of `img` up to the nearest multiple of 64, at least
/// 128 each, rescaling the pixels with the nearest-neighbor filter.
pub fn normalize(img: Image) -> (r: Image)
    requires
        img.wf(),
        img.width > 0,
        img.height > 0,
        img.width as int + 63 <= u32::MAX,
        img.height as int + 63 <= u32::MAX,
        norm_dim(img.width as int) * norm_dim(img.height as int) * 3 <= usize::MAX as int,
    ensures
        r.wf(),
        r.width as int == norm_dim(img.width as int),
        r.height as int == norm_dim(img.height as int),
        r.width as int % 64 == 0 && r.height as int % 64 == 0,
        r.width >= 128 && r.height >= 128,
        r.data@ == resize_nearest_of(
            img.data@,
            img.width as int,
            img.height as int,
            norm_dim(img.width as int),
            norm_dim(img.height as int),
        ),
        img.width as int == norm_dim(img.width as int) && img.height as int == norm_dim(
            img.height as int,
        ) ==> r.data@ == img.data@,
{
    let kw0 = (img.width + 63) / 64;
    let kw = if kw0 >= 2 {
        kw0
    } else {
        2
    };
    let kh0 = (img.height + 63) / 64;
    let kh = if kh0 >= 2 {
        kh0
    } else {
        2
    };
    proof {
        assert(kw0 as int <= 67108863 && kh0 as int <= 67108863) by (nonlinear_arith)
            requires
                kw0 as int == (img.width as int + 63) / 64,
                kh0 as int == (img.height as int + 63) / 64,
                img.width as int + 63 <= u32::MAX,
                img.height as int + 63 <= u32::MAX,
        ;
        assert(kw as int * 64 <= u32::MAX && kh as int * 64 <= u32::MAX) by (nonlinear_arith)
            requires
                2 <= kw as int <= 67108863,
                2 <= kh as int <= 67108863,
        ;
    }
    let nw = kw * 64;
    let nh = kh * 64;
    proof {
        assert(nw as int == norm_dim(img.width as int));
        assert(nh as int == norm_dim(img.height as int));
        assert(nw as int % 64 == 0 && nh as int % 64 == 0) by (nonlinear_arith)
            requires
                nw as int == kw as int * 64,
                nh as int == kh as int * 64,
        ;
        assert(nw >= 128 && nh >= 128) by (nonlinear_arith)
            requires
                nw as int == kw as int * 64,
                nh as int == kh as int * 64,
                kw >= 2,
                kh >= 2,
        ;
        assert(nw as int * nh as int * 3 > 0) by (nonlinear_arith)
            requires
                nw >= 128,
                nh >= 128,
        ;
    }
    let data = resize_nearest_raw(img.data, img.width, img.height, nw, nh);
    Image { width: nw, height: nh, data }
}

/// A dimension that is already a multiple of 64 and at least 128 is its
/// own normalization. Together with `normalize`'s guarantees on its
/// result this makes normalization idempotent: a second pass computes the
/// same target size, and the resampler at equal size hands the buffer
/// back unchanged.
pub proof fn lemma_norm_dim_fixed(d: int)
    requires
        d >= 128,
        d % 64 == 0,
    ensures
        norm_dim(d) == d,
{
    let k = d / 64;
    assert(d == k * 64 && (d + 63) / 64 == k && k >= 2) by (nonlinear_arith)
        requires
            d >= 128,
            d % 64 == 0,
            k == d / 64,
    ;
}

} // verus!
