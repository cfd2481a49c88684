use vstd::prelude::*;

use image::{imageops, Rgba, RgbaImage};

verus! {

/// An RGBA image with 8 bits per channel, held by the `image` crate. Verus
/// does not take a declaration of `ImageBuffer` (its bound on the outside
/// trait `Pixel`), so the buffer is kept behind this opaque holder; what it
/// holds is named by `image_size` and `image_pixels`.
#[verifier::external_body]
pub struct Image {
    inner: RgbaImage,
}

/// Width and height the image was made with.
pub uninterp spec fn image_size(img: Image) -> (u32, u32);

/// The image's pixels, keyed by `(x, y)`.
pub uninterp spec fn image_pixels(img: Image) -> Map<(u32, u32), [u8; 4]>;

pub open spec fn width_of(img: Image) -> u32 {
    image_size(img).0
}

pub open spec fn height_of(img: Image) -> u32 {
    image_size(img).1
}

pub open spec fn in_bounds(img: Image, x: int, y: int) -> bool {
    0 <= x < width_of(img) && 0 <= y < height_of(img)
}

pub open spec fn pixel_at(img: Image, x: int, y: int) -> [u8; 4] {
    image_pixels(img)[(x as u32, y as u32)]
}

/// The pixel buffer of a `width` x `height` image, four bytes a pixel, can
/// be a `Vec` (at most `isize::MAX` bytes).
pub open spec fn buffer_fits(width: int, height: int) -> bool {
    4 * width * height <= isize::MAX
}

/// The pixel is not fully transparent.
pub open spec fn visible(p: [u8; 4]) -> bool {
    p[3] > 0
}

pub open spec fn transparent_pixel() -> [u8; 4] {
    [0u8, 0u8, 0u8, 0u8]
}

/// Two images have the same size and the same pixels.
pub open spec fn same_image(a: Image, b: Image) -> bool {
    &&& image_size(a) == image_size(b)
    &&& forall|x: int, y: int| in_bounds(a, x, y) ==> #[trigger] pixel_at(a, x, y) == pixel_at(b, x, y)
}

/// The four bytes of pixel `(x, y)` in a row-by-row RGBA byte buffer of the
/// given width.
pub open spec fn raw_pixel(data: Seq<u8>, width: int, x: int, y: int) -> [u8; 4] {
    [
        data[4 * (y * width + x)],
        data[4 * (y * width + x) + 1],
        data[4 * (y * width + x) + 2],
        data[4 * (y * width + x) + 3],
    ]
}

/// `ImageBuffer::from_pixel`: every pixel of the new image is `pixel`.
/// It panics when the buffer cannot be allocated as a `Vec`.
#[verifier::external_body]
fn raw_from_pixel(width: u32, height: u32, pixel: [u8; 4]) -> (img: Image)
    requires
        buffer_fits(width as int, height as int),
    ensures
        image_size(img) == (width, height),
        forall|x: int, y: int| in_bounds(img, x, y) ==> #[trigger] pixel_at(img, x, y) == pixel,
{
    Image { inner: RgbaImage::from_pixel(width, height, Rgba(pixel)) }
}

/// `ImageBuffer::dimensions`. Every `ImageBuffer` over a `Vec` holds at
/// least four bytes a pixel (its constructors check it), and a `Vec` holds
/// at most `isize::MAX` bytes.
#[verifier::external_body]
fn raw_dimensions(img: &Image) -> (r: (u32, u32))
    ensures
        r == image_size(*img),
        buffer_fits(r.0 as int, r.1 as int),
{
    img.inner.dimensions()
}

/// `ImageBuffer::get_pixel`, which panics outside the image.
#[verifier::external_body]
fn raw_get_pixel(img: &Image, x: u32, y: u32) -> (p: [u8; 4])
    requires
        in_bounds(*img, x as int, y as int),
    ensures
        p == pixel_at(*img, x as int, y as int),
{
    img.inner.get_pixel(x, y).0
}

/// `ImageBuffer::put_pixel`, which panics outside the image and changes
/// only the one pixel.
#[verifier::external_body]
fn raw_put_pixel(img: &mut Image, x: u32, y: u32, pixel: [u8; 4])
    requires
        in_bounds(*old(img), x as int, y as int),
    ensures
        image_size(*final(img)) == image_size(*old(img)),
        image_pixels(*final(img)) == image_pixels(*old(img)).insert((x, y), pixel),
{
    img.inner.put_pixel(x, y, Rgba(pixel))
}

/// `Clone` of `ImageBuffer`: copies the size and the pixel data.
#[verifier::external_body]
fn raw_clone(img: &Image) -> (c: Image)
    ensures
        image_size(c) == image_size(*img),
        image_pixels(c) == image_pixels(*img),
{
    Image { inner: img.inner.clone() }
}

/// The crop window `imageops::crop_imm` uses: clamped to the image.
pub open spec fn crop_window(img: Image, x: u32, y: u32, width: u32, height: u32) -> (
    u32,
    u32,
    u32,
    u32,
) {
    let cx = if x <= width_of(img) { x } else { width_of(img) };
    let cy = if y <= height_of(img) { y } else { height_of(img) };
    let cw = if width <= width_of(img) - cx { width } else { (width_of(img) - cx) as u32 };
    let ch = if height <= height_of(img) - cy { height } else { (height_of(img) - cy) as u32 };
    (cx, cy, cw, ch)
}

/// `imageops::crop_imm(..).to_image()`: the crop window is first clamped to
/// the image, then copied out (so the copy is never larger than the image).
#[verifier::external_body]
fn raw_crop(img: &Image, x: u32, y: u32, width: u32, height: u32) -> (c: Image)
    ensures
        image_size(c) == (
            crop_window(*img, x, y, width, height).2,
            crop_window(*img, x, y, width, height).3,
        ),
        forall|px: int, py: int|
            in_bounds(c, px, py) ==> #[trigger] pixel_at(c, px, py) == pixel_at(
                *img,
                px + crop_window(*img, x, y, width, height).0,
                py + crop_window(*img, x, y, width, height).1,
            ),
{
    Image { inner: imageops::crop_imm(&img.inner, x, y, width, height).to_image() }
}

/// `imageops::rotate90`: a quarter turn clockwise; source pixel `(x, y)`
/// lands at `(height - 1 - y, x)`.
#[verifier::external_body]
fn raw_rotate90(img: &Image) -> (r: Image)
    requires
        buffer_fits(width_of(*img) as int, height_of(*img) as int),
    ensures
        image_size(r) == (height_of(*img), width_of(*img)),
        forall|x: int, y: int|
            in_bounds(r, x, y) ==> #[trigger] pixel_at(r, x, y) == pixel_at(
                *img,
                y,
                height_of(*img) - 1 - x,
            ),
{
    Image { inner: imageops::rotate90(&img.inner) }
}

/// `ImageBuffer::from_raw`: `None` when the buffer is shorter than the
/// image needs; pixels are read row by row, four bytes each.
#[verifier::external_body]
fn raw_from_bytes(width: u32, height: u32, data: Vec<u8>) -> (img: Option<Image>)
    ensures
        img is Some <==> (buffer_fits(width as int, height as int) && 4 * width * height
            <= data@.len()),
        img matches Some(i) ==> {
            &&& image_size(i) == (width, height)
            &&& forall|x: int, y: int|
                in_bounds(i, x, y) ==> #[trigger] pixel_at(i, x, y) == raw_pixel(data@, width as int, x, y)
        },
{
    RgbaImage::from_raw(width, height, data).map(|inner| Image { inner })
}

/// `ImageBuffer::as_raw`, copied: the row-by-row pixel bytes.
#[verifier::external_body]
fn raw_bytes(img: &Image) -> (data: Vec<u8>)
    ensures
        data@.len() >= 4 * width_of(*img) * height_of(*img),
        forall|x: int, y: int|
            in_bounds(*img, x, y) ==> raw_pixel(data@, width_of(*img) as int, x, y) == #[trigger] pixel_at(
                *img,
                x,
                y,
            ),
{
    img.inner.as_raw().clone()
}

impl Image {
    /// A `width` x `height` image filled with `pixel`.
    pub fn from_pixel(width: u32, height: u32, pixel: [u8; 4]) -> (img: Image)
        requires
            buffer_fits(width as int, height as int),
        ensures
            image_size(img) == (width, height),
            forall|x: int, y: int| in_bounds(img, x, y) ==> #[trigger] pixel_at(img, x, y) == pixel,
    {
        raw_from_pixel(width, height, pixel)
    }

    /// A fully transparent `width` x `height` image.
    pub fn new(width: u32, height: u32) -> (img: Image)
        requires
            buffer_fits(width as int, height as int),
        ensures
            image_size(img) == (width, height),
            forall|x: int, y: int|
                in_bounds(img, x, y) ==> #[trigger] pixel_at(img, x, y) == transparent_pixel(),
    {
        raw_from_pixel(width, height, [0u8, 0u8, 0u8, 0u8])
    }

    pub fn dimensions(&self) -> (r: (u32, u32))
        ensures
            r == image_size(*self),
            buffer_fits(r.0 as int, r.1 as int),
    {
        raw_dimensions(self)
    }

    pub fn width(&self) -> (r: u32)
        ensures
            r == width_of(*self),
            buffer_fits(width_of(*self) as int, height_of(*self) as int),
    {
        raw_dimensions(self).0
    }

    pub fn height(&self) -> (r: u32)
        ensures
            r == height_of(*self),
            buffer_fits(width_of(*self) as int, height_of(*self) as int),
    {
        raw_dimensions(self).1
    }

    /// The `width` x `height` window at `(x, y)`, first clamped to the image.
    pub fn crop(&self, x: u32, y: u32, width: u32, height: u32) -> (c: Image)
        ensures
            image_size(c) == (crop_window(*self, x, y, width, height).2, crop_window(*self, x, y, width, height).3),
            forall|px: int, py: int|
                in_bounds(c, px, py) ==> #[trigger] pixel_at(c, px, py) == pixel_at(
                    *self,
                    px + crop_window(*self, x, y, width, height).0,
                    py + crop_window(*self, x, y, width, height).1,
                ),
    {
        raw_crop(self, x, y, width, height)
    }

    /// The image turned a quarter clockwise: pixel `(x, y)` of the result is
    /// pixel `(y, height - 1 - x)` of this one.
    pub fn rotated(&self) -> (r: Image)
        ensures
            image_size(r) == (height_of(*self), width_of(*self)),
            forall|x: int, y: int|
                in_bounds(r, x, y) ==> #[trigger] pixel_at(r, x, y) == pixel_at(
                    *self,
                    y,
                    height_of(*self) - 1 - x,
                ),
    {
        let _ = raw_dimensions(self);
        raw_rotate90(self)
    }

    pub fn get_pixel(&self, x: u32, y: u32) -> (p: [u8; 4])
        requires
            in_bounds(*self, x as int, y as int),
        ensures
            p == pixel_at(*self, x as int, y as int),
    {
        raw_get_pixel(self, x, y)
    }

    pub fn put_pixel(&mut self, x: u32, y: u32, pixel: [u8; 4])
        requires
            in_bounds(*old(self), x as int, y as int),
        ensures
            image_size(*final(self)) == image_size(*old(self)),
            image_pixels(*final(self)) == image_pixels(*old(self)).insert((x, y), pixel),
    {
        raw_put_pixel(self, x, y, pixel)
    }

    pub fn copy(&self) -> (c: Image)
        ensures
            same_image(c, *self),
    {
        raw_clone(self)
    }

    /// The image made of `width` x `height` pixels given row by row, four
    /// bytes (red, green, blue, alpha) each; `None` when `data` is too short.
    pub fn from_raw(width: u32, height: u32, data: Vec<u8>) -> (img: Option<Image>)
        ensures
            img is Some <==> (buffer_fits(width as int, height as int) && 4 * width * height
                <= data@.len()),
            img matches Some(i) ==> {
                &&& image_size(i) == (width, height)
                &&& forall|x: int, y: int|
                    in_bounds(i, x, y) ==> #[trigger] pixel_at(i, x, y) == raw_pixel(data@, width as int, x, y)
            },
    {
        raw_from_bytes(width, height, data)
    }

    /// The pixel bytes, row by row, four bytes per pixel.
    pub fn to_raw(&self) -> (data: Vec<u8>)
        ensures
            data@.len() >= 4 * width_of(*self) * height_of(*self),
            forall|x: int, y: int|
                in_bounds(*self, x, y) ==> raw_pixel(data@, width_of(*self) as int, x, y) == #[trigger] pixel_at(
                    *self,
                    x,
                    y,
                ),
    {
        raw_bytes(self)
    }
}


/// After `put_pixel(x, y, p)` the pixel at `(x, y)` is `p` and every other
/// pixel is as before.
pub proof fn lemma_put_pixel_effect(before: Image, after: Image, x: u32, y: u32, p: [u8; 4], a: int, b: int)
    requires
        image_pixels(after) == image_pixels(before).insert((x, y), p),
        0 <= a <= u32::MAX,
        0 <= b <= u32::MAX,
    ensures
        pixel_at(after, a, b) == if a == x && b == y {
            p
        } else {
            pixel_at(before, a, b)
        },
{
    if a != x || b != y {
        assert((a as u32, b as u32) != (x, y));
    }
}

} // verus!
