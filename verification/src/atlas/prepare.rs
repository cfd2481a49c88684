use vstd::prelude::*;

use crate::atlas::pixels::{
    buffer_fits, crop_window, height_of, image_pixels, image_size, in_bounds, lemma_put_pixel_effect, pixel_at,
    transparent_pixel, visible, width_of, Image,
};
use crate::atlas::trim::{has_visible, lemma_buffer_fits_smaller, trim_transparent, visible_at, visible_bounds};
use crate::atlas::extrude::{edge_source, extrude_image};
use crate::atlas::packer::sizes::{align_up, align_up_spec, ceil_div, div_ceil_u32};
use crate::atlas::text::{chars_of, decimal, push_decimal, push_str_chars, string_from_chars};
use crate::atlas::types::{max_u32, GridSlice, LogMessage, PackConfig, PreparedSprite, SourceImage};
use crate::atlas::packer::plan::{info_level, lemma_logged_push, lemma_logged_start, logged, note, warning_level};
use crate::atlas::packer::sizes::PackError;

verus! {

// ---------------------------------------------------------------------------
// Grid cells of an image
// ---------------------------------------------------------------------------

/// Some pixel of the `cell` x `cell` square at `(sx, sy)` is visible.
pub open spec fn cell_visible(img: Image, sx: int, sy: int, cell: int) -> bool {
    exists|x: int, y: int| sx <= x < sx + cell && sy <= y < sy + cell && #[trigger] visible_at(img, x, y)
}

/// Whether some pixel of the `cell_size` square at `(start_x, start_y)` is
/// visible (the square is cut at the image's edges).
pub fn cell_has_visible_pixels(image: &Image, start_x: u32, start_y: u32, cell_size: u32) -> (r: bool)
    requires
        start_x + cell_size <= u32::MAX,
        start_y + cell_size <= u32::MAX,
    ensures
        r == cell_visible(*image, start_x as int, start_y as int, cell_size as int),
{
    let width = image.width();
    let height = image.height();
    let end_x = if start_x + cell_size <= width {
        start_x + cell_size
    } else {
        width
    };
    let end_y = if start_y + cell_size <= height {
        start_y + cell_size
    } else {
        height
    };
    let mut y = start_y;
    while y < end_y
        invariant
            start_y <= y,
            width == width_of(*image),
            height == height_of(*image),
            end_x == if start_x + cell_size <= width { start_x + cell_size } else { width as int },
            end_y == if start_y + cell_size <= height { start_y + cell_size } else { height as int },
            forall|px: int, py: int|
                start_x <= px < start_x + cell_size && start_y <= py < y ==> !#[trigger] visible_at(
                    *image,
                    px,
                    py,
                ),
        decreases end_y - y,
    {
        let mut x = start_x;
        while x < end_x
            invariant
                start_x <= x,
                start_y <= y < end_y,
                width == width_of(*image),
                height == height_of(*image),
                end_x == if start_x + cell_size <= width { start_x + cell_size } else { width as int },
                end_y == if start_y + cell_size <= height { start_y + cell_size } else { height as int },
                forall|px: int, py: int|
                    start_x <= px < start_x + cell_size && start_y <= py < y ==> !#[trigger] visible_at(
                        *image,
                        px,
                        py,
                    ),
                forall|px: int| start_x <= px < x ==> !#[trigger] visible_at(*image, px, y as int),
            decreases end_x - x,
        {
            if image.get_pixel(x, y)[3] > 0 {
                assert(visible_at(*image, x as int, y as int));
                return true;
            }
            x += 1;
        }
        y += 1;
    }
    false
}

/// The cell in column `c`, row `r` of a grid of `cell` x `cell` squares has
/// a visible pixel.
pub open spec fn occupied(img: Image, cell: int, c: int, r: int) -> bool {
    cell_visible(img, c * cell, r * cell, cell)
}

/// `[c0, c1) x [r0, r1)` is the smallest range of cells that holds every
/// occupied cell.
pub open spec fn occupied_bounds(img: Image, cell: int, c0: int, r0: int, c1: int, r1: int) -> bool {
    &&& forall|c: int, r: int| 0 <= c && 0 <= r && #[trigger] occupied(img, cell, c, r) ==> c0 <= c < c1 && r0 <= r < r1
    &&& exists|r: int| 0 <= r && #[trigger] occupied(img, cell, c0, r)
    &&& exists|r: int| 0 <= r && #[trigger] occupied(img, cell, c1 - 1, r)
    &&& exists|c: int| 0 <= c && #[trigger] occupied(img, cell, c, r0)
    &&& exists|c: int| 0 <= c && #[trigger] occupied(img, cell, c, r1 - 1)
}

/// The grid of `cell` squares over the image fits in `u32`.
pub open spec fn grid_fits(img: Image, cell: int) -> bool {
    &&& cell >= 1
    &&& ceil_div(width_of(img) as int, cell) * cell <= u32::MAX
    &&& ceil_div(height_of(img) as int, cell) * cell <= u32::MAX
}

/// A cell beyond the grid has no pixel of the image.
proof fn lemma_outside_grid(img: Image, cell: int, c: int, r: int)
    requires
        cell >= 1,
        0 <= c,
        0 <= r,
        c >= ceil_div(width_of(img) as int, cell) || r >= ceil_div(height_of(img) as int, cell),
    ensures
        !occupied(img, cell, c, r),
{
    let w = width_of(img) as int;
    let h = height_of(img) as int;
    assert(ceil_div(w, cell) * cell >= w) by (nonlinear_arith)
        requires
            cell >= 1,
            w >= 0,
            ceil_div(w, cell) == (w + cell - 1) / cell,
    ;
    assert(ceil_div(h, cell) * cell >= h) by (nonlinear_arith)
        requires
            cell >= 1,
            h >= 0,
            ceil_div(h, cell) == (h + cell - 1) / cell,
    ;
    if c >= ceil_div(w, cell) {
        assert(c * cell >= ceil_div(w, cell) * cell) by (nonlinear_arith)
            requires
                c >= ceil_div(w, cell),
                cell >= 1,
        ;
    } else {
        assert(r * cell >= ceil_div(h, cell) * cell) by (nonlinear_arith)
            requires
                r >= ceil_div(h, cell),
                cell >= 1,
        ;
    }
}

} // verus!

verus! {

/// Cells before `(row, column)` in row-major order.
pub open spec fn seen_before(row: int, column: int, r: int, c: int) -> bool {
    r < row || (r == row && c < column)
}

/// What the scan of the cells has found so far.
spec fn bounds_so_far(
    img: Image,
    cell: int,
    columns: int,
    row: int,
    column: int,
    found: bool,
    b: (u32, u32, u32, u32),
) -> bool {
    &&& found <==> exists|c: int, r: int|
        0 <= c < columns && 0 <= r && seen_before(row, column, r, c) && #[trigger] occupied(img, cell, c, r)
    &&& found ==> {
        &&& forall|c: int, r: int|
            0 <= c < columns && 0 <= r && seen_before(row, column, r, c) && #[trigger] occupied(img, cell, c, r)
                ==> b.0 <= c < b.2 && b.1 <= r < b.3
        &&& exists|r: int| 0 <= r && #[trigger] occupied(img, cell, b.0 as int, r)
        &&& exists|r: int| 0 <= r && #[trigger] occupied(img, cell, b.2 - 1, r)
        &&& exists|c: int| 0 <= c && #[trigger] occupied(img, cell, c, b.1 as int)
        &&& exists|c: int| 0 <= c && #[trigger] occupied(img, cell, c, b.3 - 1)
    }
}

/// The range of cells with visible pixels in the grid of `cell_size`
/// squares: first column, first row, and one past the last column and row;
/// `None` when no cell has a visible pixel.
/// The side of a grid cell: the configured size, at least one pixel.
pub open spec fn cell_side(cell_size: u32) -> int {
    if cell_size >= 1 {
        cell_size as int
    } else {
        1
    }
}

#[verifier::rlimit(30)]
pub fn occupied_grid_bounds(image: &Image, cell_size: u32) -> (r: Option<(u32, u32, u32, u32)>)
    requires
        grid_fits(*image, cell_side(cell_size)),
    ensures
        r is None <==> forall|c: int, r: int|
            0 <= c && 0 <= r ==> !#[trigger] occupied(*image, cell_side(cell_size), c, r),
        r matches Some(b) ==> occupied_bounds(
            *image,
            cell_side(cell_size),
            b.0 as int,
            b.1 as int,
            b.2 as int,
            b.3 as int,
        ),
{
    let cell = if cell_size >= 1 {
        cell_size
    } else {
        1
    };
    let columns = div_ceil_u32(image.width(), cell);
    let rows = div_ceil_u32(image.height(), cell);
    let ghost g = cell as int;
    let mut min_col = columns;
    let mut min_row = rows;
    let mut max_col: u32 = 0;
    let mut max_row: u32 = 0;
    let mut found = false;
    let mut row: u32 = 0;
    while row < rows
        invariant
            row <= rows,
            g == cell as int,
            cell >= 1,
            columns == ceil_div(width_of(*image) as int, g),
            rows == ceil_div(height_of(*image) as int, g),
            grid_fits(*image, g),
            max_col <= columns,
            max_row <= rows,
            !found ==> min_col == columns && min_row == rows && max_col == 0 && max_row == 0,
            bounds_so_far(*image, g, columns as int, row as int, 0, found, (min_col, min_row, max_col, max_row)),
        decreases rows - row,
    {
        let mut column: u32 = 0;
        while column < columns
            invariant
                column <= columns,
                row < rows,
                g == cell as int,
                cell >= 1,
                columns == ceil_div(width_of(*image) as int, g),
                rows == ceil_div(height_of(*image) as int, g),
                grid_fits(*image, g),
                max_col <= columns,
                max_row <= rows,
                !found ==> min_col == columns && min_row == rows && max_col == 0 && max_row == 0,
                bounds_so_far(
                    *image,
                    g,
                    columns as int,
                    row as int,
                    column as int,
                    found,
                    (min_col, min_row, max_col, max_row),
                ),
            decreases columns - column,
        {
            assert(column * cell + cell <= columns * cell) by (nonlinear_arith)
                requires
                    column < columns,
                    cell >= 1,
            ;
            assert(row * cell + cell <= rows * cell) by (nonlinear_arith)
                requires
                    row < rows,
                    cell >= 1,
            ;
            let x = column * cell;
            let y = row * cell;
            let visible_cell = cell_has_visible_pixels(image, x, y, cell);
            let ghost before = (min_col, min_row, max_col, max_row);
            let ghost was_found = found;
            if visible_cell {
                found = true;
                if column < min_col {
                    min_col = column;
                }
                if row < min_row {
                    min_row = row;
                }
                if column + 1 > max_col {
                    max_col = column + 1;
                }
                if row + 1 > max_row {
                    max_row = row + 1;
                }
            }
            proof {
                assert(visible_cell == occupied(*image, g, column as int, row as int));
                let b = (min_col, min_row, max_col, max_row);
                assert forall|c: int, r: int|
                    0 <= c < columns && 0 <= r && seen_before(row as int, column + 1, r, c) && #[trigger] occupied(
                        *image,
                        g,
                        c,
                        r,
                    ) implies b.0 <= c < b.2 && b.1 <= r < b.3 by {
                    if !(c == column && r == row) {
                        assert(seen_before(row as int, column as int, r, c));
                    }
                }
                if visible_cell {
                    if !was_found || column < before.0 {
                        assert(occupied(*image, g, b.0 as int, row as int));
                    }
                    if !was_found || column + 1 > before.2 {
                        assert(occupied(*image, g, b.2 - 1, row as int));
                    }
                    if !was_found || row < before.1 {
                        assert(occupied(*image, g, column as int, b.1 as int));
                    }
                    if !was_found || row + 1 > before.3 {
                        assert(occupied(*image, g, column as int, b.3 - 1));
                    }
                    assert(seen_before(row as int, column + 1, row as int, column as int));
                } else if was_found {
                    let (c, r) = choose|c: int, r: int|
                        0 <= c < columns && 0 <= r && seen_before(row as int, column as int, r, c) && #[trigger] occupied(
                            *image,
                            g,
                            c,
                            r,
                        );
                    assert(seen_before(row as int, column + 1, r, c));
                }
                if exists|c: int, r: int|
                    0 <= c < columns && 0 <= r && seen_before(row as int, column + 1, r, c) && #[trigger] occupied(
                        *image,
                        g,
                        c,
                        r,
                    ) {
                    let (c, r) = choose|c: int, r: int|
                        0 <= c < columns && 0 <= r && seen_before(row as int, column + 1, r, c) && #[trigger] occupied(
                            *image,
                            g,
                            c,
                            r,
                        );
                    if !(c == column && r == row) {
                        assert(seen_before(row as int, column as int, r, c));
                    }
                }
            }
            column += 1;
        }
        proof {
            let b = (min_col, min_row, max_col, max_row);
            assert forall|c: int, r: int|
                0 <= c < columns && 0 <= r && seen_before(row + 1, 0, r, c) && #[trigger] occupied(*image, g, c, r)
                    implies b.0 <= c < b.2 && b.1 <= r < b.3 by {
                assert(seen_before(row as int, columns as int, r, c));
            }
            if exists|c: int, r: int|
                0 <= c < columns && 0 <= r && seen_before(row + 1, 0, r, c) && #[trigger] occupied(*image, g, c, r) {
                let (c, r) = choose|c: int, r: int|
                    0 <= c < columns && 0 <= r && seen_before(row + 1, 0, r, c) && #[trigger] occupied(*image, g, c, r);
                assert(seen_before(row as int, columns as int, r, c));
            }
            if found {
                let (c, r) = choose|c: int, r: int|
                    0 <= c < columns && 0 <= r && seen_before(row as int, columns as int, r, c) && #[trigger] occupied(
                        *image,
                        g,
                        c,
                        r,
                    );
                assert(seen_before(row + 1, 0, r, c));
            }
        }
        row += 1;
    }
    proof {
        assert forall|c: int, r: int| 0 <= c && 0 <= r && #[trigger] occupied(*image, g, c, r) implies c < columns
            && seen_before(rows as int, 0, r, c) by {
            if c >= columns || r >= rows {
                lemma_outside_grid(*image, g, c, r);
            }
        }
    }
    if found {
        Some((min_col, min_row, max_col, max_row))
    } else {
        None
    }
}

} // verus!

verus! {

// ---------------------------------------------------------------------------
// Padding to the grid
// ---------------------------------------------------------------------------

proof fn lemma_align_up_covers(v: u32, step: u32)
    ensures
        align_up_spec(v, step) >= v,
{
    let s = max_u32(step, 1) as int;
    let m = max_u32(v, 1) as int;
    assert(ceil_div(m, s) * s >= m) by (nonlinear_arith)
        requires
            s >= 1,
            m >= 0,
            ceil_div(m, s) == (m + s - 1) / s,
    ;
    assert(ceil_div(m, s) <= m) by (nonlinear_arith)
        requires
            s >= 1,
            m >= 1,
            ceil_div(m, s) == (m + s - 1) / s,
    ;
}

/// The image grown with transparent pixels to whole cells on the right and
/// at the bottom, and whether it grew.
pub fn pad_image_to_grid(image: Image, cell_size: u32) -> (r: (Image, bool))
    requires
        buffer_fits(
            align_up_spec(width_of(image), cell_size) as int,
            align_up_spec(height_of(image), cell_size) as int,
        ),
    ensures
        image_size(r.0) == (align_up_spec(width_of(image), cell_size), align_up_spec(height_of(image), cell_size)),
        r.1 == (image_size(r.0) != image_size(image)),
        forall|x: int, y: int|
            in_bounds(r.0, x, y) ==> #[trigger] pixel_at(r.0, x, y) == if in_bounds(image, x, y) {
                pixel_at(image, x, y)
            } else {
                transparent_pixel()
            },
{
    let cell = if cell_size >= 1 {
        cell_size
    } else {
        1
    };
    let width = image.width();
    let height = image.height();
    let padded_width = align_up(width, cell);
    let padded_height = align_up(height, cell);
    proof {
        assert(align_up_spec(width, cell) == align_up_spec(width, cell_size));
        assert(align_up_spec(height, cell) == align_up_spec(height, cell_size));
        lemma_align_up_covers(width, cell_size);
        lemma_align_up_covers(height, cell_size);
    }
    if padded_width == width && padded_height == height {
        return (image, false);
    }
    let mut padded = Image::from_pixel(padded_width, padded_height, [0u8, 0u8, 0u8, 0u8]);
    let mut y: u32 = 0;
    while y < height
        invariant
            y <= height,
            width == width_of(image),
            height == height_of(image),
            width <= padded_width,
            height <= padded_height,
            image_size(padded) == (padded_width, padded_height),
            forall|px: int, py: int|
                in_bounds(padded, px, py) ==> #[trigger] pixel_at(padded, px, py) == if px < width && py < y {
                    pixel_at(image, px, py)
                } else {
                    transparent_pixel()
                },
        decreases height - y,
    {
        let mut x: u32 = 0;
        while x < width
            invariant
                x <= width,
                y < height,
                width == width_of(image),
                height == height_of(image),
                width <= padded_width,
                height <= padded_height,
                image_size(padded) == (padded_width, padded_height),
                forall|px: int, py: int|
                    in_bounds(padded, px, py) ==> #[trigger] pixel_at(padded, px, py) == if (px < width && py < y)
                        || (py == y && px < x) {
                        pixel_at(image, px, py)
                    } else {
                        transparent_pixel()
                    },
            decreases width - x,
        {
            let pixel = image.get_pixel(x, y);
            let ghost before = padded;
            padded.put_pixel(x, y, pixel);
            proof {
                assert forall|px: int, py: int| in_bounds(padded, px, py) implies #[trigger] pixel_at(padded, px, py)
                    == if (px < width && py < y) || (py == y && px < x + 1) {
                    pixel_at(image, px, py)
                } else {
                    transparent_pixel()
                } by {
                    lemma_put_pixel_effect(before, padded, x, y, pixel, px, py);
                }
            }
            x += 1;
        }
        y += 1;
    }
    (padded, true)
}

// ---------------------------------------------------------------------------
// Labels of grid cells
// ---------------------------------------------------------------------------

/// `i` is the index of the last '.' in `s`.
pub open spec fn is_last_dot(s: Seq<char>, i: int) -> bool {
    &&& 0 <= i < s.len()
    &&& s[i] == '.'
    &&& forall|j: int| i < j < s.len() ==> s[j] != '.'
}

/// The row and column tag of a cell label.
pub open spec fn cell_tag(row: u32, column: u32) -> Seq<char> {
    "__r"@ + decimal(row as nat) + "_c"@ + decimal(column as nat)
}

/// The label of the cell at `row`, `column`: the tag goes before the
/// extension (after the last '.'), or at the end when there is none.
pub open spec fn cell_label(label: Seq<char>, row: u32, column: u32) -> Seq<char> {
    if exists|i: int| is_last_dot(label, i) {
        let i = choose|i: int| is_last_dot(label, i);
        label.take(i) + cell_tag(row, column) + "."@ + label.skip(i + 1)
    } else {
        label + cell_tag(row, column)
    }
}

/// The label of a grid cell of an image, from the image's label.
pub fn build_grid_cell_label(label: &str, row: u32, column: u32) -> (r: String)
    ensures
        r@ == cell_label(label@, row, column),
{
    let chars = chars_of(label);
    let mut i: usize = chars.len();
    while i > 0 && chars[i - 1] != '.'
        invariant
            i <= chars@.len(),
            chars@ == label@,
            forall|j: int| i <= j < chars@.len() ==> chars@[j] != '.',
        decreases i,
    {
        i -= 1;
    }
    let mut out: Vec<char> = Vec::new();
    if i > 0 {
        let dot = i - 1;
        proof {
            assert(is_last_dot(label@, dot as int));
            let c = choose|c: int| is_last_dot(label@, c);
            if c < dot {
                assert(label@[dot as int] == '.');
            } else if c > dot {
                assert(label@[c] != '.');
            }
        }
        let mut k: usize = 0;
        while k < dot
            invariant
                k <= dot < chars@.len(),
                out@ == chars@.take(k as int),
            decreases dot - k,
        {
            out.push(chars[k]);
            assert(chars@.take(k + 1) == chars@.take(k as int).push(chars@[k as int]));
            k += 1;
        }
        push_str_chars(&mut out, "__r");
        push_decimal(&mut out, row as u64);
        push_str_chars(&mut out, "_c");
        push_decimal(&mut out, column as u64);
        push_str_chars(&mut out, ".");
        let ghost mid = out@;
        let mut k = dot + 1;
        while k < chars.len()
            invariant
                dot < k <= chars@.len(),
                out@ == mid + chars@.subrange(dot + 1, k as int),
            decreases chars@.len() - k,
        {
            out.push(chars[k]);
            assert(chars@.subrange(dot + 1, k + 1) == chars@.subrange(dot + 1, k as int).push(chars@[k as int]));
            k += 1;
        }
        assert(chars@.subrange(dot + 1, chars@.len() as int) == chars@.skip(dot + 1));
    } else {
        proof {
            if exists|c: int| is_last_dot(label@, c) {
                let c = choose|c: int| is_last_dot(label@, c);
                assert(chars@[c] != '.');
            }
        }
        push_str_chars(&mut out, label);
        push_str_chars(&mut out, "__r");
        push_decimal(&mut out, row as u64);
        push_str_chars(&mut out, "_c");
        push_decimal(&mut out, column as u64);
    }
    string_from_chars(&out)
}

} // verus!

verus! {

// ---------------------------------------------------------------------------
// Sprites from images
// ---------------------------------------------------------------------------

/// An image `w` x `h` can be extruded by `e` without overflow.
pub open spec fn extrude_fits(w: int, h: int, e: int) -> bool {
    &&& (e == 0 || (w > 0 && h > 0))
    &&& w + 2 * e <= u32::MAX
    &&& h + 2 * e <= u32::MAX
    &&& buffer_fits(w + 2 * e, h + 2 * e)
}

/// `out` is the `w` x `h` window of `src` at `(x0, y0)`, extruded by `e`.
pub open spec fn extruded_window(out: Image, src: Image, x0: int, y0: int, w: int, h: int, e: int) -> bool {
    &&& image_size(out) == ((w + 2 * e) as u32, (h + 2 * e) as u32)
    &&& forall|x: int, y: int|
        in_bounds(out, x, y) ==> #[trigger] pixel_at(out, x, y) == pixel_at(
            src,
            x0 + edge_source(x, e, w),
            y0 + edge_source(y, e, h),
        )
}

/// `img` is the `w` x `h` window of `src` at `(x0, y0)`.
pub open spec fn window_of(img: Image, src: Image, x0: int, y0: int, w: int, h: int) -> bool {
    &&& image_size(img) == (w as u32, h as u32)
    &&& forall|x: int, y: int| in_bounds(img, x, y) ==> #[trigger] pixel_at(img, x, y) == pixel_at(src, x0 + x, y0 + y)
}

/// Extrudes a window of `src`.
fn extrude_window(img: &Image, amount: u32, Ghost(src): Ghost<Image>, Ghost(x0): Ghost<int>, Ghost(y0): Ghost<int>) -> (out: Image)
    requires
        extrude_fits(width_of(*img) as int, height_of(*img) as int, amount as int),
        window_of(*img, src, x0, y0, width_of(*img) as int, height_of(*img) as int),
    ensures
        extruded_window(out, src, x0, y0, width_of(*img) as int, height_of(*img) as int, amount as int),
{
    let out = extrude_image(img, amount);
    proof {
        let w = width_of(*img) as int;
        let h = height_of(*img) as int;
        assert forall|x: int, y: int| in_bounds(out, x, y) implies #[trigger] pixel_at(out, x, y) == pixel_at(
            src,
            x0 + edge_source(x, amount as int, w),
            y0 + edge_source(y, amount as int, h),
        ) by {
            if amount == 0 {
                assert(in_bounds(*img, x, y));
            } else {
                assert(in_bounds(*img, edge_source(x, amount as int, w), edge_source(y, amount as int, h)));
            }
        }
    }
    out
}

/// The fields a sprite takes from its source and the configuration.
pub open spec fn sprite_of_source(s: PreparedSprite, source: SourceImage, config: PackConfig) -> bool {
    &&& s.id == source.id
    &&& s.name@ == source.name@
    &&& s.abs_path@ == source.abs_path@
    &&& s.rel_path@ == source.rel_path@
    &&& s.padding == config.padding
    &&& s.extrude == config.extrude
}

/// What `prepare_standard_sprite` needs: the trimmed image can be extruded.
pub open spec fn standard_ok(img: Image, config: PackConfig) -> bool {
    if config.trim {
        extrude_fits(max_u32(width_of(img), 1) as int, max_u32(height_of(img), 1) as int, config.extrude as int)
    } else {
        extrude_fits(width_of(img) as int, height_of(img) as int, config.extrude as int)
    }
}

/// The sprite and warning `prepare_standard_sprite` gives for the image.
pub open spec fn standard_prepared(
    source: SourceImage,
    image: Image,
    config: PackConfig,
    s: PreparedSprite,
    warning: Option<String>,
) -> bool {
    let e = config.extrude as int;
    &&& sprite_of_source(s, source, config)
    &&& s.grid_slices@.len() == 0
    &&& s.source_width == width_of(image)
    &&& s.source_height == height_of(image)
    &&& !config.trim ==> {
        &&& s.trim_x == 0 && s.trim_y == 0
        &&& s.trim_width == width_of(image) && s.trim_height == height_of(image)
        &&& !s.trimmed
        &&& extruded_window(s.image, image, 0, 0, width_of(image) as int, height_of(image) as int, e)
    }
    &&& config.trim && !has_visible(image) ==> {
        &&& s.trim_x == 0 && s.trim_y == 0 && s.trim_width == 1 && s.trim_height == 1
        &&& s.trimmed
        &&& image_size(s.image) == ((1 + 2 * e) as u32, (1 + 2 * e) as u32)
        &&& forall|x: int, y: int|
            in_bounds(s.image, x, y) ==> #[trigger] pixel_at(s.image, x, y) == transparent_pixel()
    }
    &&& config.trim && has_visible(image) ==> {
        &&& s.trim_width >= 1 && s.trim_height >= 1
        &&& visible_bounds(
            image,
            s.trim_x as int,
            s.trim_y as int,
            s.trim_x + s.trim_width - 1,
            s.trim_y + s.trim_height - 1,
        )
        &&& s.trimmed == (s.trim_x != 0 || s.trim_y != 0 || s.trim_width != width_of(image)
            || s.trim_height != height_of(image))
        &&& extruded_window(s.image, image, s.trim_x as int, s.trim_y as int, s.trim_width as int, s.trim_height as int, e)
    }
    &&& (warning is Some <==> config.trim && !has_visible(image))
    &&& warning matches Some(m) ==> m@ == source.rel_path@ + " is fully transparent; packed as a 1x1 transparent sprite."@
}

/// A sprite of a whole image: trimmed as configured (an image without
/// visible pixels becomes one transparent pixel, with a warning), then
/// extruded.
pub fn prepare_standard_sprite(source: &SourceImage, image: Image, config: PackConfig) -> (r: (
    PreparedSprite,
    Option<String>,
))
    requires
        standard_ok(image, config),
    ensures
        standard_prepared(*source, image, config, r.0, r.1),
{
    let _ = image.width();
    let trim = trim_transparent(&image, config.trim);
    proof {
        let w = width_of(image) as int;
        let h = height_of(image) as int;
        if config.trim && has_visible(image) {
            assert(trim.trim_x + trim.trim_width <= w && trim.trim_y + trim.trim_height <= h) by {
                let y0 = choose|y: int| #[trigger] visible_at(image, trim.trim_x + trim.trim_width - 1, y);
                let x0 = choose|x: int| #[trigger] visible_at(image, x, trim.trim_y + trim.trim_height - 1);
            }
            lemma_buffer_fits_smaller(
                trim.trim_width + 2 * config.extrude,
                trim.trim_height + 2 * config.extrude,
                max_u32(width_of(image), 1) + 2 * config.extrude,
                max_u32(height_of(image), 1) + 2 * config.extrude,
            );
        }
        if config.trim && !has_visible(image) {
            lemma_buffer_fits_smaller(
                1 + 2 * config.extrude,
                1 + 2 * config.extrude,
                max_u32(width_of(image), 1) + 2 * config.extrude,
                max_u32(height_of(image), 1) + 2 * config.extrude,
            );
        }
    }
    let extruded = if config.trim && trim.fully_transparent {
        let out = extrude_image(&trim.image, config.extrude);
        proof {
            assert forall|x: int, y: int| in_bounds(out, x, y) implies #[trigger] pixel_at(out, x, y) == transparent_pixel() by {
                if config.extrude == 0 {
                    assert(in_bounds(trim.image, x, y));
                } else {
                    assert(in_bounds(
                        trim.image,
                        edge_source(x, config.extrude as int, 1),
                        edge_source(y, config.extrude as int, 1),
                    ));
                }
            }
        }
        out
    } else {
        extrude_window(&trim.image, config.extrude, Ghost(image), Ghost(trim.trim_x as int), Ghost(trim.trim_y as int))
    };
    let warning = if trim.fully_transparent {
        let mut text: Vec<char> = Vec::new();
        push_str_chars(&mut text, source.rel_path.as_str());
        push_str_chars(&mut text, " is fully transparent; packed as a 1x1 transparent sprite.");
        Some(string_from_chars(&text))
    } else {
        None
    };
    (
        PreparedSprite {
            id: source.id,
            name: source.name.clone(),
            abs_path: source.abs_path.clone(),
            rel_path: source.rel_path.clone(),
            source_width: trim.source_width,
            source_height: trim.source_height,
            trim_x: trim.trim_x,
            trim_y: trim.trim_y,
            trim_width: trim.trim_width,
            trim_height: trim.trim_height,
            image: extruded,
            padding: config.padding,
            extrude: config.extrude,
            trimmed: trim.trimmed,
            grid_slices: Vec::new(),
        },
        warning,
    )
}

} // verus!

verus! {

/// Some cell of the grid over the image has a visible pixel.
pub open spec fn any_occupied(img: Image, cell: int) -> bool {
    exists|c: int, r: int| 0 <= c && 0 <= r && #[trigger] occupied(img, cell, c, r)
}

/// What the grid preparations need: the grid fits in `u32` and the image,
/// or any part of it, can be extruded.
pub open spec fn grid_ok(img: Image, config: PackConfig) -> bool {
    &&& grid_fits(img, cell_side(config.grid_cell_size))
    &&& extrude_fits(width_of(img) as int, height_of(img) as int, config.extrude as int)
}

/// The sprite is cut to the cells `[c0, c1) x [r0, r1)` of the image: its
/// crop rectangle in pixels, and its image the crop (clamped to the image)
/// extruded.
pub open spec fn cut_to_cells(
    s: PreparedSprite,
    img: Image,
    cell: int,
    c0: int,
    r0: int,
    c1: int,
    r1: int,
    e: int,
) -> bool {
    let win = crop_window(img, s.trim_x, s.trim_y, s.trim_width, s.trim_height);
    &&& s.trim_x == c0 * cell
    &&& s.trim_y == r0 * cell
    &&& s.trim_width == (c1 - c0) * cell
    &&& s.trim_height == (r1 - r0) * cell
    &&& s.trimmed == (s.trim_x != 0 || s.trim_y != 0 || s.trim_width != width_of(img) || s.trim_height
        != height_of(img))
    &&& extruded_window(s.image, img, win.0 as int, win.1 as int, win.2 as int, win.3 as int, e)
}

/// The crop of the occupied cells is at least one pixel each way.
proof fn lemma_crop_not_empty(img: Image, cell: int, b: (u32, u32, u32, u32))
    requires
        cell >= 1,
        grid_fits(img, cell),
        occupied_bounds(img, cell, b.0 as int, b.1 as int, b.2 as int, b.3 as int),
        b.0 * cell <= u32::MAX,
        b.1 * cell <= u32::MAX,
        (b.2 - b.0) * cell <= u32::MAX,
        (b.3 - b.1) * cell <= u32::MAX,
    ensures
        b.0 < b.2,
        b.1 < b.3,
        crop_window(img, (b.0 * cell) as u32, (b.1 * cell) as u32, ((b.2 - b.0) * cell) as u32, ((b.3 - b.1) * cell) as u32).2 >= 1,
        crop_window(img, (b.0 * cell) as u32, (b.1 * cell) as u32, ((b.2 - b.0) * cell) as u32, ((b.3 - b.1) * cell) as u32).3 >= 1,
{
    let r = choose|r: int| 0 <= r && #[trigger] occupied(img, cell, b.0 as int, r);
    let c = choose|c: int| 0 <= c && #[trigger] occupied(img, cell, c, b.1 as int);
    let (x, y) = choose|x: int, y: int|
        b.0 * cell <= x < b.0 * cell + cell && r * cell <= y < r * cell + cell && #[trigger] visible_at(img, x, y);
    let (x2, y2) = choose|x: int, y: int|
        c * cell <= x < c * cell + cell && b.1 * cell <= y < b.1 * cell + cell && #[trigger] visible_at(img, x, y);
    assert((b.2 - b.0) * cell >= cell) by (nonlinear_arith)
        requires
            b.2 - b.0 >= 1,
            cell >= 1,
    ;
    assert((b.3 - b.1) * cell >= cell) by (nonlinear_arith)
        requires
            b.3 - b.1 >= 1,
            cell >= 1,
    ;
}

/// The sprite and warnings `prepare_grid_aligned_sprite` gives for the image.
pub open spec fn aligned_prepared(
    source: SourceImage,
    image: Image,
    config: PackConfig,
    s: PreparedSprite,
    warnings: Seq<String>,
) -> bool {
    let cell = cell_side(config.grid_cell_size);
    let e = config.extrude as int;
    &&& sprite_of_source(s, source, config)
    &&& s.grid_slices@.len() == 0
    &&& s.source_width == width_of(image)
    &&& s.source_height == height_of(image)
    &&& !any_occupied(image, cell) ==> {
        &&& s.trim_x == 0 && s.trim_y == 0
        &&& s.trim_width == width_of(image) && s.trim_height == height_of(image)
        &&& !s.trimmed
        &&& extruded_window(s.image, image, 0, 0, width_of(image) as int, height_of(image) as int, e)
        &&& warnings.len() == 1
        &&& warnings[0]@ == source.rel_path@ + " is fully transparent; kept original grid footprint."@
    }
    &&& any_occupied(image, cell) ==> {
        &&& exists|c0: int, r0: int, c1: int, r1: int|
            {
                &&& #[trigger] occupied_bounds(image, cell, c0, r0, c1, r1)
                &&& cut_to_cells(s, image, cell, c0, r0, c1, r1, e)
            }
        &&& warnings.len() == 0
    }
}

/// A sprite of a grid-aligned image, cut to the cells with visible pixels
/// (kept whole, with a warning, when there are none), then extruded.
pub fn prepare_grid_aligned_sprite(source: &SourceImage, image: &Image, config: PackConfig) -> (r: (
    PreparedSprite,
    Vec<String>,
))
    requires
        grid_ok(*image, config),
    ensures
        aligned_prepared(*source, *image, config, r.0, r.1@),
{
    let cell = if config.grid_cell_size >= 1 {
        config.grid_cell_size
    } else {
        1
    };
    let original_width = image.width();
    let original_height = image.height();
    let ghost g = cell as int;
    let bounds = occupied_grid_bounds(image, cell);
    let mut warnings: Vec<String> = Vec::new();
    let (crop_x, crop_y, crop_width, crop_height, trimmed) = match bounds {
        Some((min_col, min_row, max_col, max_row)) => {
            proof {
                let columns = ceil_div(original_width as int, g);
                let rows = ceil_div(original_height as int, g);
                let rr = choose|r: int| 0 <= r && #[trigger] occupied(*image, g, max_col - 1, r);
                let cc = choose|c: int| 0 <= c && #[trigger] occupied(*image, g, c, max_row - 1);
                if max_col > columns {
                    lemma_outside_grid(*image, g, max_col - 1, rr);
                }
                if max_row > rows {
                    lemma_outside_grid(*image, g, cc, max_row - 1);
                }
                let r0 = choose|r: int| 0 <= r && #[trigger] occupied(*image, g, min_col as int, r);
                assert(occupied(*image, g, min_col as int, r0));
                assert(min_col <= max_col - 1);
                assert(min_row <= max_row - 1) by {
                    let c1 = choose|c: int| 0 <= c && #[trigger] occupied(*image, g, c, min_row as int);
                }
                assert(max_col * g <= columns * g) by (nonlinear_arith)
                    requires
                        max_col <= columns,
                        g >= 1,
                ;
                assert(max_row * g <= rows * g) by (nonlinear_arith)
                    requires
                        max_row <= rows,
                        g >= 1,
                ;
                assert(min_col * g <= max_col * g && (max_col - min_col) * g <= max_col * g) by (nonlinear_arith)
                    requires
                        min_col <= max_col,
                        g >= 1,
                ;
                assert(min_row * g <= max_row * g && (max_row - min_row) * g <= max_row * g) by (nonlinear_arith)
                    requires
                        min_row <= max_row,
                        g >= 1,
                ;
            }
            let crop_x = min_col * cell;
            let crop_y = min_row * cell;
            let crop_width = (max_col - min_col) * cell;
            let crop_height = (max_row - min_row) * cell;
            let trimmed = crop_x != 0 || crop_y != 0 || crop_width != original_width || crop_height
                != original_height;
            proof {
                lemma_crop_not_empty(*image, g, (min_col, min_row, max_col, max_row));
            }
            (crop_x, crop_y, crop_width, crop_height, trimmed)
        },
        None => {
            let mut text: Vec<char> = Vec::new();
            push_str_chars(&mut text, source.rel_path.as_str());
            push_str_chars(&mut text, " is fully transparent; kept original grid footprint.");
            warnings.push(string_from_chars(&text));
            (0, 0, original_width, original_height, false)
        },
    };
    let cropped = image.crop(crop_x, crop_y, crop_width, crop_height);
    let ghost win = crop_window(*image, crop_x, crop_y, crop_width, crop_height);
    proof {
        lemma_buffer_fits_smaller(
            win.2 + 2 * config.extrude,
            win.3 + 2 * config.extrude,
            original_width + 2 * config.extrude,
            original_height + 2 * config.extrude,
        );
    }
    let extruded = extrude_window(&cropped, config.extrude, Ghost(*image), Ghost(win.0 as int), Ghost(win.1 as int));
    let sprite = PreparedSprite {
        id: source.id,
        name: source.name.clone(),
        abs_path: source.abs_path.clone(),
        rel_path: source.rel_path.clone(),
        source_width: original_width,
        source_height: original_height,
        trim_x: crop_x,
        trim_y: crop_y,
        trim_width: crop_width,
        trim_height: crop_height,
        image: extruded,
        padding: config.padding,
        extrude: config.extrude,
        trimmed,
        grid_slices: Vec::new(),
    };
    proof {
        match bounds {
            Some(b) => {
                assert(occupied_bounds(*image, g, b.0 as int, b.1 as int, b.2 as int, b.3 as int));
                assert(any_occupied(*image, g)) by {
                    let r0 = choose|r: int| 0 <= r && #[trigger] occupied(*image, g, b.0 as int, r);
                }
                assert(cut_to_cells(sprite, *image, g, b.0 as int, b.1 as int, b.2 as int, b.3 as int, config.extrude as int));
                assert(warnings@.len() == 0);
                assert(exists|c0: int, r0: int, c1: int, r1: int|
                    {
                        &&& #[trigger] occupied_bounds(*image, g, c0, r0, c1, r1)
                        &&& cut_to_cells(sprite, *image, g, c0, r0, c1, r1, config.extrude as int)
                    });
            },
            None => {
                assert(win == (0u32, 0u32, original_width, original_height));
            },
        }
    }
    (sprite, warnings)
}

} // verus!

verus! {

/// The occupied cells among the first `n` cells of row `r` from column
/// `c0`, left to right.
pub open spec fn row_cells(img: Image, cell: int, r: int, c0: int, n: nat) -> Seq<(int, int)>
    decreases n,
{
    if n == 0 {
        Seq::empty()
    } else {
        let prev = row_cells(img, cell, r, c0, (n - 1) as nat);
        if occupied(img, cell, c0 + n - 1, r) {
            prev.push((c0 + n - 1, r))
        } else {
            prev
        }
    }
}

/// The occupied cells of columns `[c0, c1)` in the first `m` rows from
/// `r0`, row by row.
pub open spec fn block_cells(img: Image, cell: int, c0: int, c1: int, r0: int, m: nat) -> Seq<(int, int)>
    decreases m,
{
    if m == 0 {
        Seq::empty()
    } else {
        block_cells(img, cell, c0, c1, r0, (m - 1) as nat) + row_cells(img, cell, r0 + m - 1, c0, (c1 - c0) as nat)
    }
}

/// The slices stand for the cells, in order: their place in the sprite's
/// box of cells and their labels.
pub open spec fn slices_match(
    slices: Seq<GridSlice>,
    cells: Seq<(int, int)>,
    c0: int,
    r0: int,
    name: Seq<char>,
    rel_path: Seq<char>,
) -> bool {
    &&& slices.len() == cells.len()
    &&& forall|k: int|
        0 <= k < slices.len() ==> {
            &&& (#[trigger] slices[k]).x == cells[k].0 - c0
            &&& slices[k].y == cells[k].1 - r0
            &&& slices[k].name@ == cell_label(name, cells[k].1 as u32, cells[k].0 as u32)
            &&& slices[k].rel_path@ == cell_label(rel_path, cells[k].1 as u32, cells[k].0 as u32)
        }
}

/// One more slice for one more cell.
proof fn lemma_slices_push(
    slices: Seq<GridSlice>,
    cells: Seq<(int, int)>,
    s: GridSlice,
    c: int,
    r: int,
    c0: int,
    r0: int,
    name: Seq<char>,
    rel_path: Seq<char>,
)
    requires
        slices_match(slices, cells, c0, r0, name, rel_path),
        s.x == c - c0,
        s.y == r - r0,
        s.name@ == cell_label(name, r as u32, c as u32),
        s.rel_path@ == cell_label(rel_path, r as u32, c as u32),
    ensures
        slices_match(slices.push(s), cells.push((c, r)), c0, r0, name, rel_path),
{
    assert forall|k: int| 0 <= k < slices.push(s).len() implies {
        &&& (#[trigger] slices.push(s)[k]).x == cells.push((c, r))[k].0 - c0
        &&& slices.push(s)[k].y == cells.push((c, r))[k].1 - r0
        &&& slices.push(s)[k].name@ == cell_label(name, cells.push((c, r))[k].1 as u32, cells.push((c, r))[k].0 as u32)
        &&& slices.push(s)[k].rel_path@ == cell_label(rel_path, cells.push((c, r))[k].1 as u32, cells.push((c, r))[k].0 as u32)
    } by {
        if k < slices.len() {
            assert(slices.push(s)[k] == slices[k]);
            assert(cells.push((c, r))[k] == cells[k]);
        }
    }
}

/// The slices for the occupied cells of `[c0, c1) x [r0, r1)`.
fn collect_slices(
    source: &SourceImage,
    image: &Image,
    cell: u32,
    c0: u32,
    r0: u32,
    c1: u32,
    r1: u32,
) -> (slices: Vec<GridSlice>)
    requires
        cell >= 1,
        c0 <= c1,
        r0 <= r1,
        c1 * cell <= u32::MAX,
        r1 * cell <= u32::MAX,
    ensures
        slices_match(
            slices@,
            block_cells(*image, cell as int, c0 as int, c1 as int, r0 as int, (r1 - r0) as nat),
            c0 as int,
            r0 as int,
            source.name@,
            source.rel_path@,
        ),
{
    let mut slices: Vec<GridSlice> = Vec::new();
    let ghost g = cell as int;
    let mut row = r0;
    while row < r1
        invariant
            r0 <= row <= r1,
            c0 <= c1,
            cell >= 1,
            g == cell as int,
            c1 * cell <= u32::MAX,
            r1 * cell <= u32::MAX,
            slices_match(
                slices@,
                block_cells(*image, g, c0 as int, c1 as int, r0 as int, (row - r0) as nat),
                c0 as int,
                r0 as int,
                source.name@,
                source.rel_path@,
            ),
        decreases r1 - row,
    {
        let ghost done = block_cells(*image, g, c0 as int, c1 as int, r0 as int, (row - r0) as nat);
        let mut column = c0;
        while column < c1
            invariant
                c0 <= column <= c1,
                r0 <= row < r1,
                cell >= 1,
                g == cell as int,
                c1 * cell <= u32::MAX,
                r1 * cell <= u32::MAX,
                done == block_cells(*image, g, c0 as int, c1 as int, r0 as int, (row - r0) as nat),
                slices_match(
                    slices@,
                    done + row_cells(*image, g, row as int, c0 as int, (column - c0) as nat),
                    c0 as int,
                    r0 as int,
                    source.name@,
                    source.rel_path@,
                ),
            decreases c1 - column,
        {
            assert(column * cell + cell <= c1 * cell && row * cell + cell <= r1 * cell) by (nonlinear_arith)
                requires
                    column < c1,
                    row < r1,
                    cell >= 1,
            ;
            let visible_cell = cell_has_visible_pixels(image, column * cell, row * cell, cell);
            let ghost cells = done + row_cells(*image, g, row as int, c0 as int, (column - c0) as nat);
            if visible_cell {
                let s = GridSlice {
                    x: column - c0,
                    y: row - r0,
                    name: build_grid_cell_label(source.name.as_str(), row, column),
                    rel_path: build_grid_cell_label(source.rel_path.as_str(), row, column),
                };
                let ghost before = slices@;
                slices.push(s);
                proof {
                    lemma_slices_push(before, cells, s, column as int, row as int, c0 as int, r0 as int, source.name@, source.rel_path@);
                    assert(done + row_cells(*image, g, row as int, c0 as int, (column + 1 - c0) as nat) == cells.push(
                        (column as int, row as int),
                    ));
                }
            } else {
                assert(done + row_cells(*image, g, row as int, c0 as int, (column + 1 - c0) as nat) == cells);
            }
            column += 1;
        }
        assert(block_cells(*image, g, c0 as int, c1 as int, r0 as int, (row + 1 - r0) as nat) == done + row_cells(
            *image,
            g,
            row as int,
            c0 as int,
            (c1 - c0) as nat,
        ));
        row += 1;
    }
    slices
}

} // verus!

verus! {

/// The sprites and warnings `prepare_grid_region_sprites` gives for the image.
pub open spec fn region_prepared(
    source: SourceImage,
    image: Image,
    config: PackConfig,
    sprites: Seq<PreparedSprite>,
    warnings: Seq<String>,
) -> bool {
    let cell = cell_side(config.grid_cell_size);
    let e = config.extrude as int;
    let skipped = source.rel_path@ + " is fully transparent; skipped in grid slicing mode."@;
    &&& !any_occupied(image, cell) ==> {
        &&& sprites.len() == 0
        &&& warnings.len() == 1
        &&& warnings[0]@ == skipped
    }
    &&& any_occupied(image, cell) ==> {
        &&& sprites.len() == 1
        &&& sprite_of_source(sprites[0], source, config)
        &&& sprites[0].source_width == width_of(image)
        &&& sprites[0].source_height == height_of(image)
        &&& exists|c0: int, r0: int, c1: int, r1: int|
            {
                &&& #[trigger] occupied_bounds(image, cell, c0, r0, c1, r1)
                &&& cut_to_cells(sprites[0], image, cell, c0, r0, c1, r1, e)
                &&& slices_match(
                    sprites[0].grid_slices@,
                    block_cells(image, cell, c0, c1, r0, (r1 - r0) as nat),
                    c0,
                    r0,
                    source.name@,
                    source.rel_path@,
                )
            }
        &&& warnings.len() == (if sprites[0].grid_slices@.len() == 0 { 1int } else { 0int })
        &&& warnings.len() == 1 ==> warnings[0]@ == skipped
    }
}

/// A sprite cut into grid cells: the box of the cells with visible pixels,
/// extruded, with one slice per such cell; none, with a warning, when no
/// cell has a visible pixel.
#[verifier::rlimit(40)]
pub fn prepare_grid_region_sprites(source: &SourceImage, image: &Image, config: PackConfig) -> (r: (
    Vec<PreparedSprite>,
    Vec<String>,
))
    requires
        grid_ok(*image, config),
    ensures
        region_prepared(*source, *image, config, r.0@, r.1@),
{
    let cell = if config.grid_cell_size >= 1 {
        config.grid_cell_size
    } else {
        1
    };
    let ghost g = cell as int;
    let width = image.width();
    let height = image.height();
    let bounds = occupied_grid_bounds(image, cell);
    let (min_col, min_row, max_col, max_row) = match bounds {
        Some(b) => b,
        None => {
            let mut text: Vec<char> = Vec::new();
            push_str_chars(&mut text, source.rel_path.as_str());
            push_str_chars(&mut text, " is fully transparent; skipped in grid slicing mode.");
            let mut warnings: Vec<String> = Vec::new();
            warnings.push(string_from_chars(&text));
            return (Vec::new(), warnings);
        },
    };
    proof {
        let columns = ceil_div(width as int, g);
        let rows = ceil_div(height as int, g);
        let rr = choose|r: int| 0 <= r && #[trigger] occupied(*image, g, max_col - 1, r);
        let cc = choose|c: int| 0 <= c && #[trigger] occupied(*image, g, c, max_row - 1);
        if max_col > columns {
            lemma_outside_grid(*image, g, max_col - 1, rr);
        }
        if max_row > rows {
            lemma_outside_grid(*image, g, cc, max_row - 1);
        }
        let r0 = choose|r: int| 0 <= r && #[trigger] occupied(*image, g, min_col as int, r);
        assert(occupied(*image, g, min_col as int, r0));
        assert(min_row <= max_row - 1) by {
            let c1 = choose|c: int| 0 <= c && #[trigger] occupied(*image, g, c, min_row as int);
        }
        assert(max_col * g <= columns * g) by (nonlinear_arith)
            requires
                max_col <= columns,
                g >= 1,
        ;
        assert(max_row * g <= rows * g) by (nonlinear_arith)
            requires
                max_row <= rows,
                g >= 1,
        ;
        assert(min_col * g <= max_col * g && (max_col - min_col) * g <= max_col * g) by (nonlinear_arith)
            requires
                min_col <= max_col,
                g >= 1,
        ;
        assert(min_row * g <= max_row * g && (max_row - min_row) * g <= max_row * g) by (nonlinear_arith)
            requires
                min_row <= max_row,
                g >= 1,
        ;
        lemma_crop_not_empty(*image, g, (min_col, min_row, max_col, max_row));
    }
    let crop_x = min_col * cell;
    let crop_y = min_row * cell;
    let crop_width = (max_col - min_col) * cell;
    let crop_height = (max_row - min_row) * cell;
    let cropped = image.crop(crop_x, crop_y, crop_width, crop_height);
    let ghost win = crop_window(*image, crop_x, crop_y, crop_width, crop_height);
    proof {
        lemma_buffer_fits_smaller(
            win.2 + 2 * config.extrude,
            win.3 + 2 * config.extrude,
            width + 2 * config.extrude,
            height + 2 * config.extrude,
        );
    }
    let extruded = extrude_window(&cropped, config.extrude, Ghost(*image), Ghost(win.0 as int), Ghost(win.1 as int));
    let grid_slices = collect_slices(source, image, cell, min_col, min_row, max_col, max_row);
    let trimmed = crop_x != 0 || crop_y != 0 || crop_width != width || crop_height != height;
    let sprite = PreparedSprite {
        id: source.id,
        name: source.name.clone(),
        abs_path: source.abs_path.clone(),
        rel_path: source.rel_path.clone(),
        source_width: width,
        source_height: height,
        trim_x: crop_x,
        trim_y: crop_y,
        trim_width: crop_width,
        trim_height: crop_height,
        image: extruded,
        padding: config.padding,
        extrude: config.extrude,
        trimmed,
        grid_slices,
    };
    let mut warnings: Vec<String> = Vec::new();
    if sprite.grid_slices.len() == 0 {
        let mut text: Vec<char> = Vec::new();
        push_str_chars(&mut text, source.rel_path.as_str());
        push_str_chars(&mut text, " is fully transparent; skipped in grid slicing mode.");
        warnings.push(string_from_chars(&text));
    }
    proof {
        let b = (min_col, min_row, max_col, max_row);
        assert(any_occupied(*image, g)) by {
            let r0 = choose|r: int| 0 <= r && #[trigger] occupied(*image, g, b.0 as int, r);
        }
        assert(occupied_bounds(*image, g, b.0 as int, b.1 as int, b.2 as int, b.3 as int));
        assert(cut_to_cells(sprite, *image, g, b.0 as int, b.1 as int, b.2 as int, b.3 as int, config.extrude as int));
    }
    let mut sprites: Vec<PreparedSprite> = Vec::new();
    sprites.push(sprite);
    (sprites, warnings)
}

} // verus!

verus! {

// ---------------------------------------------------------------------------
// Sprites of a source image
// ---------------------------------------------------------------------------

/// `padded` is `image` grown to whole cells of `cell_size` with transparent
/// pixels.
pub open spec fn padded_from(padded: Image, image: Image, cell_size: u32) -> bool {
    &&& image_size(padded) == (align_up_spec(width_of(image), cell_size), align_up_spec(height_of(image), cell_size))
    &&& forall|x: int, y: int|
        in_bounds(padded, x, y) ==> #[trigger] pixel_at(padded, x, y) == if in_bounds(image, x, y) {
            pixel_at(image, x, y)
        } else {
            transparent_pixel()
        }
}

/// What `prepare_source_sprites` needs of the image: what the preparation
/// for the configured mode needs, after padding to the grid when aligning.
pub open spec fn prepare_ok(image: Image, config: PackConfig) -> bool {
    if !config.align_to_grid {
        standard_ok(image, config)
    } else {
        let pw = align_up_spec(width_of(image), config.grid_cell_size) as int;
        let ph = align_up_spec(height_of(image), config.grid_cell_size) as int;
        let cell = cell_side(config.grid_cell_size);
        &&& buffer_fits(pw, ph)
        &&& ceil_div(pw, cell) * cell <= u32::MAX
        &&& ceil_div(ph, cell) * cell <= u32::MAX
        &&& extrude_fits(pw, ph, config.extrude as int)
    }
}

/// The note on an image padded to the grid.
pub open spec fn padded_note(source: SourceImage, padded: Image, slicing: bool) -> Seq<char> {
    source.rel_path@ + " padded to "@ + decimal(width_of(padded) as nat) + "x"@ + decimal(height_of(padded) as nat)
        + if slicing {
        " for grid slicing."@
    } else {
        " for grid alignment."@
    }
}

/// The warnings are `rest`, after the padding note when the image grew.
pub open spec fn notes_after_padding(
    warnings: Seq<String>,
    rest: Seq<String>,
    source: SourceImage,
    padded: Image,
    image: Image,
    slicing: bool,
) -> bool {
    let note = padded_note(source, padded, slicing);
    if image_size(padded) != image_size(image) {
        &&& warnings.len() == rest.len() + 1
        &&& warnings[0]@ == note
        &&& warnings.skip(1) == rest
    } else {
        warnings == rest
    }
}

/// The sprites and warnings `prepare_source_sprites` gives for the image.
pub open spec fn source_prepared(
    source: SourceImage,
    image: Image,
    config: PackConfig,
    sprites: Seq<PreparedSprite>,
    warnings: Seq<String>,
) -> bool {
    &&& !config.align_to_grid ==> {
        &&& sprites.len() == 1
        &&& warnings.len() <= 1
        &&& standard_prepared(source, image, config, sprites[0], if warnings.len() == 0 { None } else { Some(warnings[0]) })
    }
    &&& config.align_to_grid ==> exists|padded: Image, rest: Seq<String>|
        {
            &&& padded_from(padded, image, config.grid_cell_size)
            &&& #[trigger] notes_after_padding(warnings, rest, source, padded, image, config.slice_grid_cells)
            &&& config.slice_grid_cells ==> region_prepared(source, padded, config, sprites, rest)
            &&& !config.slice_grid_cells ==> sprites.len() == 1 && aligned_prepared(source, padded, config, sprites[0], rest)
        }
}

/// The sprites of a decoded source image and the warnings on them: one
/// whole sprite without grid alignment; otherwise the image is padded to
/// whole cells and becomes one grid-aligned sprite, or with cutting into
/// cells the sprite of its occupied cells.
pub fn prepare_source_sprites(source: &SourceImage, image: Image, config: PackConfig) -> (r: (
    Vec<PreparedSprite>,
    Vec<String>,
))
    requires
        prepare_ok(image, config),
    ensures
        source_prepared(*source, image, config, r.0@, r.1@),
{
    if !config.align_to_grid {
        let (sprite, warning) = prepare_standard_sprite(source, image, config);
        let mut sprites: Vec<PreparedSprite> = Vec::new();
        sprites.push(sprite);
        let mut warnings: Vec<String> = Vec::new();
        match warning {
            Some(w) => {
                warnings.push(w);
            },
            None => {},
        }
        return (sprites, warnings);
    }
    let ghost original = image;
    let (aligned_image, was_padded) = pad_image_to_grid(image, config.grid_cell_size);
    let padded_width = aligned_image.width();
    let padded_height = aligned_image.height();
    proof {
        assert(grid_ok(aligned_image, config));
    }
    let (sprites, rest) = if config.slice_grid_cells {
        prepare_grid_region_sprites(source, &aligned_image, config)
    } else {
        let (sprite, warnings) = prepare_grid_aligned_sprite(source, &aligned_image, config);
        let mut sprites: Vec<PreparedSprite> = Vec::new();
        sprites.push(sprite);
        assert(sprites@[0] == sprite);
        (sprites, warnings)
    };
    let mut warnings = rest;
    let ghost rest_view = warnings@;
    if was_padded {
        let mut text: Vec<char> = Vec::new();
        push_str_chars(&mut text, source.rel_path.as_str());
        push_str_chars(&mut text, " padded to ");
        push_decimal(&mut text, padded_width as u64);
        push_str_chars(&mut text, "x");
        push_decimal(&mut text, padded_height as u64);
        if config.slice_grid_cells {
            push_str_chars(&mut text, " for grid slicing.");
        } else {
            push_str_chars(&mut text, " for grid alignment.");
        }
        warnings.insert(0, string_from_chars(&text));
        assert(warnings@.skip(1) =~= rest_view);
    }
    proof {
        assert(padded_from(aligned_image, original, config.grid_cell_size));
        assert(notes_after_padding(warnings@, rest_view, *source, aligned_image, original, config.slice_grid_cells));
        assert(source_prepared(*source, original, config, sprites@, warnings@));
    }
    (sprites, warnings)
}

} // verus!

verus! {

// ---------------------------------------------------------------------------
// All the sprites
// ---------------------------------------------------------------------------

/// Why an image could not be read.
pub enum ReadFailure {
    Open,
    Decode,
}

/// The warning on an image that could not be read.
pub open spec fn read_failure_text(f: ReadFailure, rel_path: Seq<char>) -> Seq<char> {
    match f {
        ReadFailure::Open => "Failed to open "@ + rel_path,
        ReadFailure::Decode => "Failed to decode "@ + rel_path,
    }
}

/// What one source gave: its sprites and warnings as the preparation makes
/// them, or no sprite and the read failure.
pub open spec fn item_outcome(
    source: SourceImage,
    decoded: Result<Image, ReadFailure>,
    config: PackConfig,
    sprites: Seq<PreparedSprite>,
    warnings: Seq<String>,
) -> bool {
    match decoded {
        Ok(img) => source_prepared(source, img, config, sprites, warnings),
        Err(f) => sprites.len() == 0 && warnings.len() == 1 && warnings[0]@ == read_failure_text(f, source.rel_path@),
    }
}

/// A decoded image can be prepared.
pub open spec fn decoded_ok(item: (SourceImage, Result<Image, ReadFailure>), config: PackConfig) -> bool {
    match item.1 {
        Ok(img) => prepare_ok(img, config),
        Err(_) => true,
    }
}

/// The sprites of all the outcomes, in order.
pub open spec fn flat_sprites(outs: Seq<(Seq<PreparedSprite>, Seq<String>)>) -> Seq<PreparedSprite>
    decreases outs.len(),
{
    if outs.len() == 0 {
        Seq::empty()
    } else {
        flat_sprites(outs.drop_last()) + outs.last().0
    }
}

/// The warnings of all the outcomes, in order, as log notes.
pub open spec fn flat_warnings(outs: Seq<(Seq<PreparedSprite>, Seq<String>)>) -> Seq<(Seq<char>, Seq<char>)>
    decreases outs.len(),
{
    if outs.len() == 0 {
        Seq::empty()
    } else {
        flat_warnings(outs.drop_last()) + outs.last().1.map_values(|w: String| (warning_level(), w@))
    }
}

/// The cells of all the sprites.
pub open spec fn slices_total(sprites: Seq<PreparedSprite>) -> int
    decreases sprites.len(),
{
    if sprites.len() == 0 {
        0
    } else {
        slices_total(sprites.drop_last()) + sprites.last().grid_slices@.len()
    }
}

/// A count as reported, capped at `u64::MAX`.
pub open spec fn capped(n: int) -> nat {
    if n > u64::MAX {
        u64::MAX as nat
    } else if n < 0 {
        0
    } else {
        n as nat
    }
}

/// The note on the cells kept when cutting into cells.
pub open spec fn slicing_note(cells: nat, sources: nat) -> Seq<char> {
    "Grid slicing kept "@ + decimal(cells) + " occupied tile cells from "@ + decimal(sources)
        + " source images."@
}

proof fn lemma_slices_total_concat(a: Seq<PreparedSprite>, b: Seq<PreparedSprite>)
    ensures
        slices_total(a + b) == slices_total(a) + slices_total(b),
    decreases b.len(),
{
    if b.len() == 0 {
        assert(a + b == a);
    } else {
        assert((a + b).drop_last() == a + b.drop_last());
        lemma_slices_total_concat(a, b.drop_last());
    }
}

/// Prepares the sprites of every decoded source in order, logging the
/// warnings and the images that could not be read; fails when no sprite
/// comes out.
pub fn prepare_sprites(
    decoded: Vec<(SourceImage, Result<Image, ReadFailure>)>,
    config: PackConfig,
    logs: &mut Vec<LogMessage>,
) -> (r: Result<Vec<PreparedSprite>, PackError>)
    requires
        forall|i: int|
            0 <= i < decoded@.len() ==> decoded_ok(#[trigger] decoded@[i], config),
    ensures
        exists|outs: Seq<(Seq<PreparedSprite>, Seq<String>)>|
            {
                &&& outs.len() == decoded@.len()
                &&& forall|i: int|
                    0 <= i < outs.len() ==> item_outcome(
                        decoded@[i].0,
                        decoded@[i].1,
                        config,
                        (#[trigger] outs[i]).0,
                        outs[i].1,
                    )
                &&& (r is Err <==> flat_sprites(outs).len() == 0)
                &&& r matches Ok(v) ==> v@ == flat_sprites(outs)
                &&& logged(
                    old(logs)@,
                    final(logs)@,
                    flat_warnings(outs) + if config.align_to_grid && config.slice_grid_cells {
                        seq![(info_level(), slicing_note(capped(slices_total(flat_sprites(outs))), decoded@.len()))]
                    } else {
                        Seq::empty()
                    },
                )
            },
        r matches Err(e) ==> e is NoPreparedImages,
{
    let ghost items = decoded@;
    let ghost start = logs@;
    let count = decoded.len();
    let mut rest = decoded;
    let mut sprites: Vec<PreparedSprite> = Vec::new();
    let mut cells: u64 = 0;
    let ghost mut outs: Seq<(Seq<PreparedSprite>, Seq<String>)> = Seq::empty();
    proof {
        lemma_logged_start(logs@);
        reveal_strlit("warning");
        assert(warning_level() =~= "warning"@);
        assert(rest@ == items.skip(0));
    }
    while rest.len() > 0
        invariant
            count == items.len(),
            outs.len() + rest@.len() == items.len(),
            rest@ == items.skip(outs.len() as int),
            forall|i: int|
                0 <= i < items.len() ==> decoded_ok(#[trigger] items[i], config),
            forall|i: int|
                0 <= i < outs.len() ==> item_outcome(items[i].0, items[i].1, config, (#[trigger] outs[i]).0, outs[i].1),
            sprites@ == flat_sprites(outs),
            cells == capped(slices_total(sprites@)),
            warning_level() == "warning"@,
            start == old(logs)@,
            logged(start, logs@, flat_warnings(outs)),
        decreases rest@.len(),
    {
        let ghost k = outs.len() as int;
        let (source, result) = rest.remove(0);
        proof {
            assert(items[k] == (source, result));
        }
        let (mut new_sprites, warnings) = match result {
            Ok(image) => prepare_source_sprites(&source, image, config),
            Err(failure) => {
                let mut text: Vec<char> = Vec::new();
                match failure {
                    ReadFailure::Open => push_str_chars(&mut text, "Failed to open "),
                    ReadFailure::Decode => push_str_chars(&mut text, "Failed to decode "),
                }
                push_str_chars(&mut text, source.rel_path.as_str());
                let mut warnings: Vec<String> = Vec::new();
                warnings.push(string_from_chars(&text));
                (Vec::new(), warnings)
            },
        };
        let ghost out = (new_sprites@, warnings@);
        let ghost before_logs = logs@;
        let ghost before_notes = flat_warnings(outs);
        let mut w: usize = 0;
        while w < warnings.len()
            invariant
                w <= warnings@.len(),
                warning_level() == "warning"@,
                logged(
                    start,
                    logs@,
                    before_notes + warnings@.take(w as int).map_values(|m: String| (warning_level(), m@)),
                ),
            decreases warnings@.len() - w,
        {
            let ghost mid = logs@;
            note(logs, "warning", warnings[w].clone());
            proof {
                let notes = before_notes + warnings@.take(w as int).map_values(|m: String| (warning_level(), m@));
                lemma_logged_push(start, mid, notes, logs@.last(), warning_level(), warnings@[w as int]@);
                assert(notes.push((warning_level(), warnings@[w as int]@)) =~= before_notes + warnings@.take(w + 1).map_values(
                    |m: String| (warning_level(), m@),
                ));
            }
            w += 1;
        }
        let ghost before_sprites = sprites@;
        let mut n: usize = 0;
        proof {
            lemma_slices_total_nonneg(before_sprites);
            assert(before_sprites + new_sprites@.take(0) == before_sprites);
        }
        while n < new_sprites.len()
            invariant
                n <= new_sprites@.len(),
                cells == capped(slices_total(before_sprites + new_sprites@.take(n as int))),
                slices_total(before_sprites + new_sprites@.take(n as int)) >= 0,
            decreases new_sprites@.len() - n,
        {
            proof {
                let t = before_sprites + new_sprites@.take(n as int);
                assert(before_sprites + new_sprites@.take(n + 1) == t.push(new_sprites@[n as int]));
                assert(t.push(new_sprites@[n as int]).drop_last() == t);
            }
            cells = cells.saturating_add(new_sprites[n].grid_slices.len() as u64);
            n += 1;
        }
        assert(new_sprites@.take(new_sprites@.len() as int) == new_sprites@);
        sprites.append(&mut new_sprites);
        proof {
            assert(warnings@.take(warnings@.len() as int) == warnings@);
            let outs2 = outs.push(out);
            assert(outs2.drop_last() == outs);
            assert(flat_sprites(outs2) == flat_sprites(outs) + out.0);
            assert(flat_warnings(outs2) == flat_warnings(outs) + out.1.map_values(|m: String| (warning_level(), m@)));
            assert(items.skip(k + 1) == items.skip(k).drop_first());
            outs = outs2;
        }
    }
    proof {
        assert(items.skip(outs.len() as int).len() == 0);
    }
    if config.align_to_grid && config.slice_grid_cells {
        let mut text: Vec<char> = Vec::new();
        push_str_chars(&mut text, "Grid slicing kept ");
        push_decimal(&mut text, cells);
        push_str_chars(&mut text, " occupied tile cells from ");
        push_decimal(&mut text, count as u64);
        push_str_chars(&mut text, " source images.");
        let ghost mid = logs@;
        note(logs, "info", string_from_chars(&text));
        proof {
            reveal_strlit("info");
            assert(info_level() =~= "info"@);
            lemma_logged_push(start, mid, flat_warnings(outs), logs@.last(), info_level(), slicing_note(cells as nat, count as nat));
            assert(flat_warnings(outs).push((info_level(), slicing_note(cells as nat, count as nat))) =~= flat_warnings(outs)
                + seq![(info_level(), slicing_note(capped(slices_total(flat_sprites(outs))), items.len()))]);
        }
    } else {
        assert(flat_warnings(outs) + Seq::<(Seq<char>, Seq<char>)>::empty() =~= flat_warnings(outs));
    }
    if sprites.len() == 0 {
        return Err(PackError::NoPreparedImages);
    }
    Ok(sprites)
}

proof fn lemma_slices_total_nonneg(s: Seq<PreparedSprite>)
    ensures
        slices_total(s) >= 0,
    decreases s.len(),
{
    if s.len() > 0 {
        lemma_slices_total_nonneg(s.drop_last());
    }
}

} // verus!

verus! {

/// Whether an image `w` x `h` can be extruded by `e`.
fn extrude_fits_check(w: u32, h: u32, e: u32) -> (r: bool)
    ensures
        r == extrude_fits(w as int, h as int, e as int),
{
    if e > 0 && (w == 0 || h == 0) {
        return false;
    }
    let ow = w as u64 + 2 * e as u64;
    let oh = h as u64 + 2 * e as u64;
    if ow > u32::MAX as u64 || oh > u32::MAX as u64 {
        return false;
    }
    let bw = ow as u128;
    let bh = oh as u128;
    assert(4 * bw * bh <= 4 * 0xFFFF_FFFFu128 * 0xFFFF_FFFFu128) by (nonlinear_arith)
        requires
            bw <= 0xFFFF_FFFFu128,
            bh <= 0xFFFF_FFFFu128,
    ;
    4 * bw * bh <= isize::MAX as u128
}

/// Whether `prepare_source_sprites` can prepare the image under the
/// configuration without overflow.
pub fn prepare_fits(image: &Image, config: PackConfig) -> (r: bool)
    ensures
        r == prepare_ok(*image, config),
{
    let (w, h) = image.dimensions();
    if !config.align_to_grid {
        if config.trim {
            let tw = if w >= 1 {
                w
            } else {
                1
            };
            let th = if h >= 1 {
                h
            } else {
                1
            };
            return extrude_fits_check(tw, th, config.extrude);
        }
        return extrude_fits_check(w, h, config.extrude);
    }
    let cell = if config.grid_cell_size >= 1 {
        config.grid_cell_size
    } else {
        1
    };
    let pw = align_up(w, config.grid_cell_size);
    let ph = align_up(h, config.grid_cell_size);
    let bw = pw as u128;
    let bh = ph as u128;
    assert(4 * bw * bh <= 4 * 0xFFFF_FFFFu128 * 0xFFFF_FFFFu128) by (nonlinear_arith)
        requires
            bw <= 0xFFFF_FFFFu128,
            bh <= 0xFFFF_FFFFu128,
    ;
    if 4 * bw * bh > isize::MAX as u128 {
        return false;
    }
    let qw = div_ceil_u32(pw, cell);
    let qh = div_ceil_u32(ph, cell);
    proof {
        crate::atlas::types::lemma_u32_product_fits_u64(qw, cell);
        crate::atlas::types::lemma_u32_product_fits_u64(qh, cell);
    }
    let cw = qw as u64 * cell as u64;
    let ch = qh as u64 * cell as u64;
    if cw > u32::MAX as u64 || ch > u32::MAX as u64 {
        return false;
    }
    extrude_fits_check(pw, ph, config.extrude)
}

} // verus!
