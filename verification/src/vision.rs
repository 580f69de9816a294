//! What the library takes from the `image` and `imageproc` crates: the
//! grey-scale conversion and the contour tracer. Nothing here is proved; each
//! function names the result of the call it makes.

use vstd::prelude::*;

verus! {

/// The grey values that `image::DynamicImage::to_luma8` gives for an RGB
/// image of the given size and buffer, row by row.
pub uninterp spec fn luma_of(width: u32, height: u32, pixels: Seq<u8>) -> Seq<u8>;

/// The number of points of each contour that
/// `imageproc::contours::find_contours` finds in a grey image of the given
/// size and buffer, in the order in which it finds them.
pub uninterp spec fn contour_lengths(width: u32, height: u32, pixels: Seq<u8>) -> Seq<usize>;

/// Calls `image::DynamicImage::to_luma8` on the RGB image with the given
/// buffer. The result is the grey image's buffer: one value for each pixel.
#[verifier::external_body]
pub(crate) fn to_luma(width: u32, height: u32, pixels: &Vec<u8>) -> (gray: Vec<u8>)
    requires
        pixels@.len() == width as int * height as int * 3,
    ensures
        gray@ == luma_of(width, height, pixels@),
        gray@.len() == width as int * height as int,
{
    let rgb = image::RgbImage::from_raw(width, height, pixels.clone()).unwrap();
    image::DynamicImage::ImageRgb8(rgb).to_luma8().into_raw()
}

/// Calls `imageproc::contours::find_contours` on the grey image with the
/// given buffer, and hands out the number of points of each contour. The
/// tracer numbers pixels and borders with 32-bit signed integers, so the
/// image may not have more pixels than those can count. It scans the pixels
/// once and starts at most one contour at each, so there are no more
/// contours than pixels.
#[verifier::external_body]
pub(crate) fn find_contour_lengths(width: u32, height: u32, pixels: &Vec<u8>) -> (lengths: Vec<usize>)
    requires
        pixels@.len() == width as int * height as int,
        width as int * height as int <= i32::MAX,
    ensures
        lengths@ == contour_lengths(width, height, pixels@),
        lengths@.len() <= width as int * height as int,
{
    let gray = image::GrayImage::from_raw(width, height, pixels.clone()).unwrap();
    imageproc::contours::find_contours::<u32>(&gray).iter().map(|c| c.points.len()).collect()
}

} // verus!
