use vstd::prelude::*;

use crate::atlas::pixels::{
    buffer_fits, height_of, image_size, in_bounds, lemma_put_pixel_effect, pixel_at, same_image,
    width_of, Image,
};

verus! {

/// The source row or column that extruded position `v` copies: positions in
/// the margin repeat the nearest edge.
pub open spec fn edge_source(v: int, amount: int, len: int) -> int {
    let shifted = if v >= amount { v - amount } else { 0 };
    if shifted <= len - 1 {
        shifted
    } else {
        len - 1
    }
}

/// Grows the image by `amount` pixels on every side, repeating the edge
/// pixels outwards.
pub fn extrude_image(image: &Image, amount: u32) -> (out: Image)
    requires
        amount == 0 || (width_of(*image) > 0 && height_of(*image) > 0),
        width_of(*image) + 2 * amount <= u32::MAX,
        height_of(*image) + 2 * amount <= u32::MAX,
        buffer_fits(width_of(*image) + 2 * amount, height_of(*image) + 2 * amount),
    ensures
        amount == 0 ==> same_image(out, *image),
        amount > 0 ==> {
            &&& image_size(out) == ((width_of(*image) + 2 * amount) as u32, (height_of(*image) + 2
                * amount) as u32)
            &&& forall|x: int, y: int|
                in_bounds(out, x, y) ==> #[trigger] pixel_at(out, x, y) == pixel_at(
                    *image,
                    edge_source(x, amount as int, width_of(*image) as int),
                    edge_source(y, amount as int, height_of(*image) as int),
                )
        },
{
    if amount == 0 {
        return image.copy();
    }
    let width = image.width();
    let height = image.height();
    let out_width = width + amount * 2;
    let out_height = height + amount * 2;
    let mut out = Image::new(out_width, out_height);
    let mut y: u32 = 0;
    while y < out_height
        invariant
            width == width_of(*image),
            height == height_of(*image),
            width > 0 && height > 0,
            out_width == width + 2 * amount,
            out_height == height + 2 * amount,
            y <= out_height,
            image_size(out) == (out_width, out_height),
            forall|a: int, b: int|
                #![trigger pixel_at(out, a, b)]
                0 <= a < out_width && 0 <= b < y ==> pixel_at(out, a, b) == pixel_at(
                    *image,
                    edge_source(a, amount as int, width as int),
                    edge_source(b, amount as int, height as int),
                ),
        decreases out_height - y,
    {
        let mut x: u32 = 0;
        while x < out_width
            invariant
                width == width_of(*image),
                height == height_of(*image),
                width > 0 && height > 0,
                out_width == width + 2 * amount,
                out_height == height + 2 * amount,
                y < out_height,
                x <= out_width,
                image_size(out) == (out_width, out_height),
                forall|a: int, b: int|
                    #![trigger pixel_at(out, a, b)]
                    0 <= a < out_width && 0 <= b < out_height && (b < y || (b == y && a < x))
                        ==> pixel_at(out, a, b) == pixel_at(
                        *image,
                        edge_source(a, amount as int, width as int),
                        edge_source(b, amount as int, height as int),
                    ),
            decreases out_width - x,
        {
            let sx = if x >= amount { x - amount } else { 0 };
            let source_x = if sx <= width - 1 { sx } else { width - 1 };
            let sy = if y >= amount { y - amount } else { 0 };
            let source_y = if sy <= height - 1 { sy } else { height - 1 };
            let pixel = image.get_pixel(source_x, source_y);
            let ghost before = out;
            out.put_pixel(x, y, pixel);
            proof {
                assert forall|a: int, b: int|
                    0 <= a < out_width && 0 <= b < out_height && (b < y || (b == y && a < x + 1))
                        implies #[trigger] pixel_at(out, a, b) == pixel_at(
                    *image,
                    edge_source(a, amount as int, width as int),
                    edge_source(b, amount as int, height as int),
                ) by {
                    lemma_put_pixel_effect(before, out, x, y, pixel, a, b);
                }
            }
            x += 1;
        }
        y += 1;
    }
    out
}

} // verus!
