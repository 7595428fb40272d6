//! The `image` crate's RGB image buffer, as the verified code sees it: a
//! size it was made with and the bytes it holds. What is stated here of the
//! crate's functions is trusted, not proved.
use vstd::prelude::*;

verus! {

/// An RGB image of the `image` crate (`ImageBuffer<Rgb<u8>, Vec<u8>>`).
/// Verus is not shown the buffer: the names below stand for what it holds.
#[verifier::external_body]
pub struct RgbCanvas {
    image: image::RgbImage,
}

/// The bytes an RGB image holds, row-major, three per pixel (the buffer
/// it was made from, as later pixel writes left it).
pub uninterp spec fn rgb_buffer(img: RgbCanvas) -> Seq<u8>;

/// The width and height an RGB image was made with.
pub uninterp spec fn rgb_size(img: RgbCanvas) -> (u32, u32);

/// Where pixel `(x, y)` of a `w`-wide RGB buffer starts: three bytes per
/// pixel, row-major.
pub open spec fn pixel_start(w: int, x: int, y: int) -> int {
    3 * (y * w + x)
}

/// `raw` with the three bytes of pixel `(x, y)` (width `w`) set to `color`.
pub open spec fn paint_pixel(raw: Seq<u8>, w: int, x: int, y: int, color: Seq<u8>) -> Seq<u8> {
    let i = pixel_start(w, x, y);
    raw.update(i, color[0]).update(i + 1, color[1]).update(i + 2, color[2])
}

/// `ImageBuffer::from_raw` for RGB pixels: an image over `raw` when it
/// holds at least `3 * width * height` bytes (the crate's own length check,
/// which also fails when that product overflows), `None` otherwise. The
/// crate keeps `raw` as the image's buffer, unchanged.
#[verifier::external_body]
pub(crate) fn rgb_from_raw(width: u32, height: u32, raw: Vec<u8>) -> (r: Option<RgbCanvas>)
    ensures
        r is Some <==> 3 * width * height <= raw@.len(),
        r matches Some(c) ==> rgb_size(c) == (width, height) && rgb_buffer(c) == raw@,
{
    match image::RgbImage::from_raw(width, height, raw) {
        Some(image) => Some(RgbCanvas { image }),
        None => None,
    }
}

/// `ImageBuffer::into_raw`: hands back the image's buffer as it is.
#[verifier::external_body]
pub(crate) fn rgb_into_raw(img: RgbCanvas) -> (r: Vec<u8>)
    ensures
        r@ == rgb_buffer(img),
{
    img.image.into_raw()
}

/// `ImageBuffer::dimensions`: returns the width and height the image was
/// made with (the crate returns its two size fields as they are).
#[verifier::external_body]
pub(crate) fn rgb_dimensions(img: &RgbCanvas) -> (r: (u32, u32))
    ensures
        r == rgb_size(*img),
{
    img.image.dimensions()
}

/// `ImageBuffer::put_pixel` with an `Rgb` pixel: the three bytes of pixel
/// `(x, y)`, at `3 * (y * width + x)`, become `color`; the size and every
/// other byte stay as they were. The crate panics for a position outside
/// the image, which `requires` rules out.
#[verifier::external_body]
pub(crate) fn put_rgb(img: &mut RgbCanvas, x: u32, y: u32, color: [u8; 3])
    requires
        x < rgb_size(*old(img)).0,
        y < rgb_size(*old(img)).1,
        pixel_start(rgb_size(*old(img)).0 as int, x as int, y as int) + 3 <= rgb_buffer(
            *old(img),
        ).len(),
    ensures
        rgb_size(*final(img)) == rgb_size(*old(img)),
        rgb_buffer(*final(img)) == paint_pixel(
            rgb_buffer(*old(img)),
            rgb_size(*old(img)).0 as int,
            x as int,
            y as int,
            color@,
        ),
{
    img.image.put_pixel(x, y, image::Rgb(color));
}

} // verus!
