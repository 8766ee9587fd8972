//! Trusted boundary around the image codec's pixel buffers.
//!
//! A decoded image is opaque to the verified code: all it reads are the
//! image's dimensions, named below as uninterpreted functions of the image
//! value, and the sub-images that cropping returns. Decoding from disk and
//! encoding back to files stay outside the library.

use vstd::prelude::*;

verus! {

#[verifier::external_type_specification]
#[verifier::external_body]
pub struct ExDynamicImage(image::DynamicImage);

/// Width in pixels of a decoded image, a function of the image value alone.
pub uninterp spec fn image_width(img: image::DynamicImage) -> u32;

/// Height in pixels of a decoded image, a function of the image value alone.
pub uninterp spec fn image_height(img: image::DynamicImage) -> u32;

/// Relies on image's `GenericImageView::dimensions` for `DynamicImage`,
/// which returns the width and height of the underlying pixel buffer.
#[verifier::external_body]
pub(crate) fn dimensions_of(img: &image::DynamicImage) -> (r: (u32, u32))
    ensures
        r.0 == image_width(*img),
        r.1 == image_height(*img),
{
    image::GenericImageView::dimensions(img)
}

/// Relies on image's `DynamicImage::crop_imm`, which copies the rectangle
/// at `(x, y)` of size `w` by `h` out of the image; the rectangle is
/// clamped to the image bounds, so one that lies fully inside keeps its
/// exact size.
#[verifier::external_body]
pub(crate) fn crop_region(img: &image::DynamicImage, x: u32, y: u32, w: u32, h: u32) -> (r:
    image::DynamicImage)
    requires
        x + w <= image_width(*img),
        y + h <= image_height(*img),
    ensures
        image_width(r) == w,
        image_height(r) == h,
{
    img.crop_imm(x, y, w, h)
}

/// Runtime access to the width of a patch, for callers and tests.
pub fn width_of(img: &image::DynamicImage) -> (r: u32)
    ensures
        r == image_width(*img),
{
    let d = dimensions_of(img);
    d.0
}

/// Runtime access to the height of a patch, for callers and tests.
pub fn height_of(img: &image::DynamicImage) -> (r: u32)
    ensures
        r == image_height(*img),
{
    let d = dimensions_of(img);
    d.1
}

} // verus!
