use vstd::prelude::*;

use crate::atlas::pixels::{
    buffer_fits, height_of, image_size, in_bounds, pixel_at, same_image, transparent_pixel, visible,
    width_of, Image,
};

verus! {

/// An image cut down to its visible pixels, with where the cut came from.
pub struct TrimResult {
    pub image: Image,
    pub trim_x: u32,
    pub trim_y: u32,
    pub trim_width: u32,
    pub trim_height: u32,
    pub source_width: u32,
    pub source_height: u32,
    pub trimmed: bool,
    pub fully_transparent: bool,
}

/// The pixel at `(x, y)` exists and is not fully transparent.
pub open spec fn visible_at(img: Image, x: int, y: int) -> bool {
    in_bounds(img, x, y) && visible(pixel_at(img, x, y))
}

pub open spec fn has_visible(img: Image) -> bool {
    exists|x: int, y: int| #[trigger] visible_at(img, x, y)
}

/// `[x0, x1] x [y0, y1]` is the smallest box that holds every visible pixel.
pub open spec fn visible_bounds(img: Image, x0: int, y0: int, x1: int, y1: int) -> bool {
    &&& forall|x: int, y: int| #[trigger] visible_at(img, x, y) ==> x0 <= x <= x1 && y0 <= y <= y1
    &&& exists|y: int| #[trigger] visible_at(img, x0, y)
    &&& exists|y: int| #[trigger] visible_at(img, x1, y)
    &&& exists|x: int| #[trigger] visible_at(img, x, y0)
    &&& exists|x: int| #[trigger] visible_at(img, x, y1)
}

/// `4 * a * b` grows with `a` and `b`.
pub proof fn lemma_buffer_fits_smaller(a: int, b: int, c: int, d: int)
    requires
        0 <= a <= c,
        0 <= b <= d,
        buffer_fits(c, d),
    ensures
        buffer_fits(a, b),
{
    assert(4 * a * b <= 4 * c * d) by (nonlinear_arith)
        requires
            0 <= a <= c,
            0 <= b <= d,
    ;
}

/// Cuts the image down to the box around its visible pixels. With trimming
/// off the image is kept whole; an image without visible pixels becomes one
/// transparent pixel.
pub fn trim_transparent(image: &Image, enabled: bool) -> (r: TrimResult)
    ensures
        r.source_width == width_of(*image),
        r.source_height == height_of(*image),
        !enabled ==> {
            &&& same_image(r.image, *image)
            &&& r.trim_x == 0 && r.trim_y == 0
            &&& r.trim_width == width_of(*image) && r.trim_height == height_of(*image)
            &&& !r.trimmed && !r.fully_transparent
        },
        enabled && !has_visible(*image) ==> {
            &&& image_size(r.image) == (1u32, 1u32)
            &&& pixel_at(r.image, 0, 0) == transparent_pixel()
            &&& r.trim_x == 0 && r.trim_y == 0 && r.trim_width == 1 && r.trim_height == 1
            &&& r.trimmed && r.fully_transparent
        },
        enabled && has_visible(*image) ==> {
            &&& r.trim_width >= 1 && r.trim_height >= 1
            &&& visible_bounds(
                *image,
                r.trim_x as int,
                r.trim_y as int,
                r.trim_x + r.trim_width - 1,
                r.trim_y + r.trim_height - 1,
            )
            &&& image_size(r.image) == (r.trim_width, r.trim_height)
            &&& forall|x: int, y: int|
                in_bounds(r.image, x, y) ==> #[trigger] pixel_at(r.image, x, y) == pixel_at(
                    *image,
                    r.trim_x + x,
                    r.trim_y + y,
                )
            &&& r.trimmed == (r.trim_x != 0 || r.trim_y != 0 || r.trim_width != width_of(*image)
                || r.trim_height != height_of(*image))
            &&& !r.fully_transparent
        },
{
    let source_width = image.width();
    let source_height = image.height();

    if !enabled {
        return TrimResult {
            image: image.copy(),
            trim_x: 0,
            trim_y: 0,
            trim_width: source_width,
            trim_height: source_height,
            source_width,
            source_height,
            trimmed: false,
            fully_transparent: false,
        };
    }

    let mut min_x = source_width;
    let mut min_y = source_height;
    let mut max_x: u32 = 0;
    let mut max_y: u32 = 0;
    let mut found = false;
    let ghost mut wx0: int = 0;
    let ghost mut wy0: int = 0;
    let ghost mut wx1: int = 0;
    let ghost mut wy1: int = 0;

    let mut y: u32 = 0;
    while y < source_height
        invariant
            source_width == width_of(*image),
            source_height == height_of(*image),
            y <= source_height,
            found <==> exists|a: int, b: int| #[trigger] visible_at(*image, a, b) && b < y,
            !found ==> min_x == source_width && min_y == source_height && max_x == 0 && max_y == 0,
            found ==> {
                &&& forall|a: int, b: int|
                    #[trigger] visible_at(*image, a, b) && b < y ==> min_x <= a <= max_x && min_y
                        <= b <= max_y
                &&& visible_at(*image, min_x as int, wy0)
                &&& visible_at(*image, max_x as int, wy1)
                &&& visible_at(*image, wx0, min_y as int)
                &&& visible_at(*image, wx1, max_y as int)
            },
        decreases source_height - y,
    {
        let mut x: u32 = 0;
        while x < source_width
            invariant
                source_width == width_of(*image),
                source_height == height_of(*image),
                y < source_height,
                x <= source_width,
                found <==> exists|a: int, b: int|
                    #[trigger] visible_at(*image, a, b) && (b < y || (b == y && a < x)),
                !found ==> min_x == source_width && min_y == source_height && max_x == 0 && max_y
                    == 0,
                found ==> {
                    &&& forall|a: int, b: int|
                        #[trigger] visible_at(*image, a, b) && (b < y || (b == y && a < x))
                            ==> min_x <= a <= max_x && min_y <= b <= max_y
                    &&& visible_at(*image, min_x as int, wy0)
                    &&& visible_at(*image, max_x as int, wy1)
                    &&& visible_at(*image, wx0, min_y as int)
                    &&& visible_at(*image, wx1, max_y as int)
                },
            decreases source_width - x,
        {
            let pixel = image.get_pixel(x, y);
            if pixel[3] > 0 {
                assert(visible_at(*image, x as int, y as int));
                if !found || x < min_x {
                    min_x = x;
                    proof {
                        wy0 = y as int;
                    }
                }
                if !found || y < min_y {
                    min_y = y;
                    proof {
                        wx0 = x as int;
                    }
                }
                if !found || x > max_x {
                    max_x = x;
                    proof {
                        wy1 = y as int;
                    }
                }
                if !found || y > max_y {
                    max_y = y;
                    proof {
                        wx1 = x as int;
                    }
                }
                found = true;
            }
            x += 1;
        }
        y += 1;
    }

    if !found {
        return TrimResult {
            image: Image::from_pixel(1, 1, [0u8, 0u8, 0u8, 0u8]),
            trim_x: 0,
            trim_y: 0,
            trim_width: 1,
            trim_height: 1,
            source_width,
            source_height,
            trimmed: true,
            fully_transparent: true,
        };
    }

    let trim_width = max_x - min_x + 1;
    let trim_height = max_y - min_y + 1;
    proof {
        lemma_buffer_fits_smaller(
            trim_width as int,
            trim_height as int,
            source_width as int,
            source_height as int,
        );
    }
    let mut cropped = Image::new(trim_width, trim_height);
    let mut cy: u32 = 0;
    while cy < trim_height
        invariant
            source_width == width_of(*image),
            source_height == height_of(*image),
            min_x + trim_width <= source_width,
            min_y + trim_height <= source_height,
            cy <= trim_height,
            image_size(cropped) == (trim_width, trim_height),
            forall|a: int, b: int|
                #![trigger pixel_at(cropped, a, b)]
                0 <= a < trim_width && 0 <= b < cy ==> pixel_at(cropped, a, b) == pixel_at(
                    *image,
                    min_x + a,
                    min_y + b,
                ),
        decreases trim_height - cy,
    {
        let mut cx: u32 = 0;
        while cx < trim_width
            invariant
                source_width == width_of(*image),
                source_height == height_of(*image),
                min_x + trim_width <= source_width,
                min_y + trim_height <= source_height,
                cy < trim_height,
                cx <= trim_width,
                image_size(cropped) == (trim_width, trim_height),
                forall|a: int, b: int|
                    #![trigger pixel_at(cropped, a, b)]
                    0 <= a < trim_width && 0 <= b < trim_height && (b < cy || (b == cy && a < cx))
                        ==> pixel_at(cropped, a, b) == pixel_at(*image, min_x + a, min_y + b),
            decreases trim_width - cx,
        {
            let pixel = image.get_pixel(min_x + cx, min_y + cy);
            let ghost before = cropped;
            cropped.put_pixel(cx, cy, pixel);
            proof {
                assert forall|a: int, b: int|
                    0 <= a < trim_width && 0 <= b < trim_height && (b < cy || (b == cy && a < cx
                        + 1)) implies #[trigger] pixel_at(cropped, a, b) == pixel_at(
                    *image,
                    min_x + a,
                    min_y + b,
                ) by {
                    if a != cx || b != cy {
                        assert((a as u32, b as u32) != (cx, cy));
                        assert(pixel_at(cropped, a, b) == pixel_at(before, a, b));
                    }
                }
            }
            cx += 1;
        }
        cy += 1;
    }

    TrimResult {
        image: cropped,
        trim_x: min_x,
        trim_y: min_y,
        trim_width,
        trim_height,
        source_width,
        source_height,
        trimmed: min_x != 0 || min_y != 0 || trim_width != source_width || trim_height
            != source_height,
        fully_transparent: false,
    }
}

} // verus!
