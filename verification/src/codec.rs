//! Decoding and resizing, which the `image` crate does.
//!
//! Both are functions of their arguments alone, and long ones: what they
//! return gets a name here, and the calls are believed to return what the
//! names stand for. Nothing is proved about the names themselves.

use crate::frame::{Frame, Raster};
use image::imageops::FilterType;
use image::{DynamicImage, ImageError, RgbImage};
use vstd::prelude::*;

verus! {

/// `image::ImageError`, what a failed decoding returns. Nothing inside it is
/// seen here: that there is one is all that the loader goes by.
#[verifier::external_type_specification]
#[verifier::external_body]
pub struct ExImageError(image::ImageError);

/// What the bytes of a still are, once decoded.
pub enum Decoded {
    /// Not an image that the decoder can read.
    Malformed,
    /// An image, but not one of 8-bit red, green and blue samples.
    NotRgb,
    /// An image of 8-bit red, green and blue samples.
    Rgb(Raster),
}

/// What `image::load_from_memory` makes of the bytes of a still.
pub uninterp spec fn decoded_still(data: Seq<u8>) -> Decoded;

/// The size that `DynamicImage::resize` gives an image of `width` by `height`
/// pixels when asked to fit it into `nwidth` by `nheight`, keeping its aspect
/// ratio. The crate works it out from these four numbers before it looks at
/// any pixel, so it has a name of its own.
pub uninterp spec fn fitted_size(width: nat, height: nat, nwidth: u32, nheight: u32) -> (nat, nat);

/// The samples that `DynamicImage::resize` gives an image of 8-bit RGB samples
/// with the nearest-neighbour filter, three for each pixel, row after row.
pub uninterp spec fn nearest_samples(source: Raster, nwidth: u32, nheight: u32) -> Seq<u8>;

/// A target length, or 1 where it is 0: no resized image is narrower or
/// lower than one pixel.
pub open spec fn at_least_one(n: u32) -> nat {
    if n == 0 {
        1
    } else {
        n as nat
    }
}

/// Whether the buffers that a resize allocates can be had: an intermediate
/// one of 16 bytes for each pixel, as wide as the source and as high as the
/// target, and the result of 3 bytes for each pixel.
pub open spec fn resize_fits(width: nat, nwidth: u32, nheight: u32) -> bool {
    &&& 16 * (width * at_least_one(nheight)) <= isize::MAX
    &&& 3 * (at_least_one(nwidth) * at_least_one(nheight)) <= isize::MAX
}

/// What a resize can be asked of: a well-formed image with at least one pixel,
/// of a size that the `image` crate can hold, and a target that `resize_fits`.
pub open spec fn resizable(source: Raster, nwidth: u32, nheight: u32) -> bool {
    &&& source.wf()
    &&& 1 <= source.width <= u32::MAX
    &&& 1 <= source.height <= u32::MAX
    &&& resize_fits(source.width, nwidth, nheight)
}

/// The raster that a resize returns.
pub open spec fn resized(source: Raster, nwidth: u32, nheight: u32) -> Raster {
    Raster {
        width: fitted_size(source.width, source.height, nwidth, nheight).0,
        height: fitted_size(source.width, source.height, nwidth, nheight).1,
        samples: nearest_samples(source, nwidth, nheight),
    }
}

/// Tells whether a resize can be asked of the image.
pub fn is_resizable(img: &Frame, nwidth: u32, nheight: u32) -> (r: bool)
    ensures
        r == resizable(img@, nwidth, nheight),
{
    if !img.is_wf() || img.width < 1 || img.height < 1 {
        return false;
    }
    if img.width > u32::MAX as usize || img.height > u32::MAX as usize {
        return false;
    }
    let limit: u64 = isize::MAX as u64;
    let across: u64 = if nwidth == 0 {
        1
    } else {
        nwidth as u64
    };
    let down: u64 = if nheight == 0 {
        1
    } else {
        nheight as u64
    };
    assert(img.width * at_least_one(nheight) <= 0xffff_ffff * 0xffff_ffff) by (nonlinear_arith)
        requires
            0 <= img.width <= 0xffff_ffff,
            0 <= at_least_one(nheight) <= 0xffff_ffff,
    ;
    assert(at_least_one(nwidth) * at_least_one(nheight) <= 0xffff_ffff * 0xffff_ffff)
        by (nonlinear_arith)
        requires
            0 <= at_least_one(nwidth) <= 0xffff_ffff,
            0 <= at_least_one(nheight) <= 0xffff_ffff,
    ;
    let between: u64 = img.width as u64 * down;
    let result: u64 = across * down;
    between <= limit / 16 && result <= limit / 3
}

/// `image::load_from_memory`, which guesses the format from the bytes and
/// decodes them. An error is handed on; of an image that is not
/// `DynamicImage::ImageRgb8` only that much is told; of one that is, the size
/// and the samples are moved out.
#[verifier::external_body]
pub(crate) fn decode_still(data: &Vec<u8>) -> (r: Result<Option<Frame>, ImageError>)
    ensures
        match r {
            Ok(Some(frame)) => decoded_still(data@) == Decoded::Rgb(frame@),
            Ok(None) => decoded_still(data@) == Decoded::NotRgb,
            Err(_) => decoded_still(data@) == Decoded::Malformed,
        },
{
    match image::load_from_memory(data)? {
        DynamicImage::ImageRgb8(buf) => {
            let (width, height) = (buf.width() as usize, buf.height() as usize);
            Ok(Some(Frame { width, height, pixels: buf.into_raw() }))
        },
        _ => Ok(None),
    }
}

/// `DynamicImage::resize` with `FilterType::Nearest`, on an image of 8-bit
/// RGB samples. The result is of the size and has the samples that the names
/// above stand for. Two more things are taken from the crate: the result holds
/// three samples for each of its pixels, and, as the documentation of `resize`
/// says, it fits within the target.
#[verifier::external_body]
pub(crate) fn resize_nearest(img: &Frame, nwidth: u32, nheight: u32) -> (r: Frame)
    requires
        resizable(img@, nwidth, nheight),
    ensures
        r@.width == fitted_size(img@.width, img@.height, nwidth, nheight).0,
        r@.height == fitted_size(img@.width, img@.height, nwidth, nheight).1,
        r@.samples == nearest_samples(img@, nwidth, nheight),
        r.wf(),
        r.width <= at_least_one(nwidth),
        r.height <= at_least_one(nheight),
{
    let source = DynamicImage::ImageRgb8(
        RgbImage::from_raw(img.width as u32, img.height as u32, img.pixels.clone()).unwrap(),
    );
    let scaled = source.resize(nwidth, nheight, FilterType::Nearest).into_rgb8();
    let (width, height) = (scaled.width() as usize, scaled.height() as usize);
    Frame { width, height, pixels: scaled.into_raw() }
}

} // verus!
