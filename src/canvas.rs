//! Access to the pixels of an RGBA image buffer from the `image` crate.
//!
//! The buffer is modelled by its dimensions and by its pixels in row-major
//! order, each pixel four channel values (red, green, blue, alpha).
use vstd::prelude::*;

use image::RgbaImage;

verus! {

/// A pixel buffer: an RGBA image of the `image` crate, read and written only
/// through the functions below. Verus cannot take `ImageBuffer` as a declared
/// type (its `Pixel` bound is a trait of the `image` crate), so the buffer is
/// held here, opaque, and modelled by `image_dims` and `image_pixels`.
#[verifier::external_body]
pub struct PixelBuffer {
    pub image: RgbaImage,
}

/// The width and height that an image buffer was made with.
pub uninterp spec fn image_dims(buf: PixelBuffer) -> (u32, u32);

/// The `width * height` pixels of an image buffer in row-major order: pixel
/// `(x, y)` at position `y * width + x`, each as its four channel values.
pub uninterp spec fn image_pixels(buf: PixelBuffer) -> Seq<Seq<u8>>;

/// Relies on `ImageBuffer::dimensions`: it returns the buffer's width and
/// height, and the buffer holds `width * height` pixels of four channels.
#[verifier::external_body]
pub(crate) fn dimensions(buf: &PixelBuffer) -> (r: (u32, u32))
    ensures
        r == image_dims(*buf),
        image_pixels(*buf).len() == r.0 as int * r.1 as int,
        forall|k: int| 0 <= k < r.0 as int * r.1 as int ==> (#[trigger] image_pixels(*buf)[k]).len() == 4,
{
    buf.image.dimensions()
}

/// Relies on `ImageBuffer::get_pixel`: for `(x, y)` inside the image it returns
/// the pixel stored at row-major position `y * width + x` (it panics outside).
#[verifier::external_body]
pub(crate) fn get_pixel(buf: &PixelBuffer, x: u32, y: u32) -> (r: [u8; 4])
    requires
        x < image_dims(*buf).0,
        y < image_dims(*buf).1,
    ensures
        r@ == image_pixels(*buf)[y as int * image_dims(*buf).0 as int + x as int],
{
    buf.image.get_pixel(x, y).0
}

/// Relies on `ImageBuffer::put_pixel`: for `(x, y)` inside the image it
/// replaces the pixel at row-major position `y * width + x` and nothing else
/// (it panics outside).
#[verifier::external_body]
pub(crate) fn put_pixel(buf: &mut PixelBuffer, x: u32, y: u32, pixel: [u8; 4])
    requires
        x < image_dims(*old(buf)).0,
        y < image_dims(*old(buf)).1,
    ensures
        image_dims(*final(buf)) == image_dims(*old(buf)),
        image_pixels(*final(buf)) == image_pixels(*old(buf)).update(
            y as int * image_dims(*old(buf)).0 as int + x as int,
            pixel@,
        ),
{
    buf.image.put_pixel(x, y, image::Rgba(pixel))
}

} // verus!
