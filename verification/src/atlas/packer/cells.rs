use vstd::prelude::*;
use vstd::arithmetic::power2::pow2;
use vstd::multiset::Multiset;

use crate::atlas::pixels::{height_of, width_of};
use crate::atlas::text::{decimal, decimal_string};
use crate::atlas::maxrects::{free_after, insert_choice, on_grid, MaxRectsPacker};
use crate::atlas::types::{same_slice, same_sprite, AtlasBuild, GridSlice, 
    lemma_u32_product_fits_u64, max_u32, saturating_mul_u32, saturating_product, PackConfig,
    Placement, PreparedSprite, Rect,
};

use crate::atlas::packer::finish::{content_sum, sprites_content};
use crate::atlas::packer::onebin::{lemma_split_step, maxrects_outcomes, on_grid_bin, pack_partial_maxrects, split_by_outcome};
use crate::atlas::packer::order::{lemma_ids_empty, lemma_ids_step, placement_ids, sprite_ids};
use crate::atlas::packer::sizes::{reach_within, sides_bound, all_padded_fit, ceil_div, div_ceil_u32, grid_cell, required_dims, required_pack_dimensions, slicing};

verus! {

// ---------------------------------------------------------------------------
// Packing one bin cell by cell
// ---------------------------------------------------------------------------

/// Whole cells along the bin's width (at least one).
pub open spec fn grid_columns(width: u32, config: PackConfig) -> u32 {
    max_u32(width / grid_cell(config), 1)
}

/// Whole cells along the bin's height (at least one).
pub open spec fn grid_rows(height: u32, config: PackConfig) -> u32 {
    max_u32(height / grid_cell(config), 1)
}

/// The sprite's bounding box in cells (at least one by one).
pub open spec fn bbox_cells(sprite: PreparedSprite, config: PackConfig) -> (u32, u32) {
    let cell = grid_cell(config) as int;
    (
        max_u32(ceil_div(required_dims(sprite, config).0 as int, cell) as u32, 1),
        max_u32(ceil_div(required_dims(sprite, config).1 as int, cell) as u32, 1),
    )
}

/// The occupancy entry of cell `(x, y)` in a grid `columns` cells wide.
pub open spec fn cell_index(columns: u32, x: int, y: int) -> int {
    y * columns + x
}

/// The shape's cells, put with its box at `(x, y)`, are all free.
pub open spec fn shape_fits(slices: Seq<GridSlice>, occupied: Seq<bool>, columns: u32, x: int, y: int) -> bool {
    &&& slices.len() > 0
    &&& forall|k: int|
        0 <= k < slices.len() ==> !occupied[cell_index(
            columns,
            x + (#[trigger] slices[k]).x,
            y + slices[k].y,
        )]
}

/// The occupancy after the shape's cells at `(x, y)` are taken.
pub open spec fn mark_cells(occupied: Seq<bool>, slices: Seq<GridSlice>, columns: u32, x: int, y: int) -> Seq<
    bool,
>
    decreases slices.len(),
{
    if slices.len() == 0 {
        occupied
    } else {
        mark_cells(occupied, slices.drop_last(), columns, x, y).update(
            cell_index(columns, x + slices.last().x, y + slices.last().y),
            true,
        )
    }
}

/// The order in which cell positions are preferred: smallest used area,
/// then smallest used bottom, then smallest used right, then top-most, then
/// left-most.
pub open spec fn grid_key(x: int, y: int, bw: int, bh: int, used_right: int, used_bottom: int) -> (
    int,
    int,
    int,
    int,
    int,
) {
    let right = if used_right >= x + bw { used_right } else { x + bw };
    let bottom = if used_bottom >= y + bh { used_bottom } else { y + bh };
    (right * bottom, bottom, right, y, x)
}

pub open spec fn key_less(a: (int, int, int, int, int), b: (int, int, int, int, int)) -> bool {
    ||| a.0 < b.0
    ||| (a.0 == b.0 && a.1 < b.1)
    ||| (a.0 == b.0 && a.1 == b.1 && a.2 < b.2)
    ||| (a.0 == b.0 && a.1 == b.1 && a.2 == b.2 && (a.3 < b.3 || (a.3 == b.3 && a.4 < b.4)))
}

/// The shape's box fits the grid at `(x, y)` and its cells are free there.
pub open spec fn grid_spot(
    slices: Seq<GridSlice>,
    occupied: Seq<bool>,
    columns: u32,
    rows: u32,
    bw: u32,
    bh: u32,
    x: int,
    y: int,
) -> bool {
    &&& bw <= columns
    &&& bh <= rows
    &&& 0 <= x <= columns - bw
    &&& 0 <= y <= rows - bh
    &&& shape_fits(slices, occupied, columns, x, y)
}

/// `(x, y)` is the spot with the smallest key.
pub open spec fn best_grid_spot(
    slices: Seq<GridSlice>,
    occupied: Seq<bool>,
    columns: u32,
    rows: u32,
    bw: u32,
    bh: u32,
    used_right: u32,
    used_bottom: u32,
    x: int,
    y: int,
) -> bool {
    &&& grid_spot(slices, occupied, columns, rows, bw, bh, x, y)
    &&& forall|x2: int, y2: int|
        #[trigger] grid_spot(slices, occupied, columns, rows, bw, bh, x2, y2) && (x2 != x || y2 != y)
            ==> key_less(
            grid_key(x, y, bw as int, bh as int, used_right as int, used_bottom as int),
            grid_key(x2, y2, bw as int, bh as int, used_right as int, used_bottom as int),
        )
}

/// Where `find_grid_shape_position` puts the shape, if anywhere.
pub open spec fn grid_choice(
    slices: Seq<GridSlice>,
    occupied: Seq<bool>,
    columns: u32,
    rows: u32,
    bw: u32,
    bh: u32,
    used_right: u32,
    used_bottom: u32,
) -> Option<(u32, u32)> {
    if exists|x: int, y: int| grid_spot(slices, occupied, columns, rows, bw, bh, x, y) {
        let (x, y) = choose|x: int, y: int|
            best_grid_spot(slices, occupied, columns, rows, bw, bh, used_right, used_bottom, x, y);
        Some((x as u32, y as u32))
    } else {
        None
    }
}

pub(crate) proof fn lemma_best_grid_spot_unique(
    slices: Seq<GridSlice>,
    occupied: Seq<bool>,
    columns: u32,
    rows: u32,
    bw: u32,
    bh: u32,
    used_right: u32,
    used_bottom: u32,
    x1: int,
    y1: int,
    x2: int,
    y2: int,
)
    requires
        best_grid_spot(slices, occupied, columns, rows, bw, bh, used_right, used_bottom, x1, y1),
        best_grid_spot(slices, occupied, columns, rows, bw, bh, used_right, used_bottom, x2, y2),
    ensures
        x1 == x2 && y1 == y2,
{
    assert(grid_spot(slices, occupied, columns, rows, bw, bh, x1, y1));
    assert(grid_spot(slices, occupied, columns, rows, bw, bh, x2, y2));
}

/// The shape's cells lie within its bounding box.
pub open spec fn slices_in_bbox(sprite: PreparedSprite, config: PackConfig) -> bool {
    forall|k: int|
        0 <= k < sprite.grid_slices@.len() ==> (#[trigger] sprite.grid_slices@[k]).x < bbox_cells(
            sprite,
            config,
        ).0 && sprite.grid_slices@[k].y < bbox_cells(sprite, config).1
}

/// Every cell of the shape at `(x, y)` lies in a `columns` x `rows` grid.
pub open spec fn shape_in_grid(slices: Seq<GridSlice>, columns: u32, rows: u32, x: int, y: int) -> bool {
    forall|k: int|
        0 <= k < slices.len() ==> 0 <= x + (#[trigger] slices[k]).x < columns && 0 <= y
            + slices[k].y < rows
}

pub(crate) proof fn lemma_cell_index_bounds(columns: u32, rows: u32, x: int, y: int)
    requires
        0 <= x < columns,
        0 <= y < rows,
    ensures
        0 <= cell_index(columns, x, y) < columns * rows,
{
    assert(0 <= y * columns + x < columns * rows) by (nonlinear_arith)
        requires
            0 <= x < columns,
            0 <= y < rows,
    ;
}

pub(crate) fn grid_shape_fits(sprite: &PreparedSprite, occupied: &Vec<bool>, atlas_columns: u32, atlas_rows: u32, x: u32, y: u32) -> (r: bool)
    requires
        occupied@.len() == atlas_columns * atlas_rows,
        atlas_columns * atlas_rows <= u32::MAX,
        shape_in_grid(sprite.grid_slices@, atlas_columns, atlas_rows, x as int, y as int),
    ensures
        r == shape_fits(sprite.grid_slices@, occupied@, atlas_columns, x as int, y as int),
{
    if sprite.grid_slices.len() == 0 {
        return false;
    }
    let mut k: usize = 0;
    while k < sprite.grid_slices.len()
        invariant
            k <= sprite.grid_slices@.len(),
            occupied@.len() == atlas_columns * atlas_rows,
            atlas_columns * atlas_rows <= u32::MAX,
            shape_in_grid(sprite.grid_slices@, atlas_columns, atlas_rows, x as int, y as int),
            forall|m: int|
                0 <= m < k ==> !occupied@[cell_index(
                    atlas_columns,
                    x + (#[trigger] sprite.grid_slices@[m]).x,
                    y + sprite.grid_slices@[m].y,
                )],
        decreases sprite.grid_slices@.len() - k,
    {
        let slice = &sprite.grid_slices[k];
        let atlas_x = x + slice.x;
        let atlas_y = y + slice.y;
        proof {
            lemma_cell_index_bounds(atlas_columns, atlas_rows, atlas_x as int, atlas_y as int);
        }
        let index = (atlas_y * atlas_columns + atlas_x) as usize;
        if occupied[index] {
            return false;
        }
        k += 1;
    }
    true
}

pub(crate) fn mark_grid_shape_occupied(sprite: &PreparedSprite, occupied: &mut Vec<bool>, atlas_columns: u32, atlas_rows: u32, x: u32, y: u32)
    requires
        old(occupied)@.len() == atlas_columns * atlas_rows,
        atlas_columns * atlas_rows <= u32::MAX,
        shape_in_grid(sprite.grid_slices@, atlas_columns, atlas_rows, x as int, y as int),
    ensures
        final(occupied)@ == mark_cells(old(occupied)@, sprite.grid_slices@, atlas_columns, x as int, y as int),
{
    let ghost slices = sprite.grid_slices@;
    let mut k: usize = 0;
    while k < sprite.grid_slices.len()
        invariant
            k <= slices.len(),
            slices == sprite.grid_slices@,
            occupied@.len() == atlas_columns * atlas_rows,
            atlas_columns * atlas_rows <= u32::MAX,
            shape_in_grid(slices, atlas_columns, atlas_rows, x as int, y as int),
            occupied@ == mark_cells(old(occupied)@, slices.take(k as int), atlas_columns, x as int, y as int),
        decreases slices.len() - k,
    {
        let slice = &sprite.grid_slices[k];
        let atlas_x = x + slice.x;
        let atlas_y = y + slice.y;
        proof {
            lemma_cell_index_bounds(atlas_columns, atlas_rows, atlas_x as int, atlas_y as int);
            assert(slices.take(k + 1).drop_last() == slices.take(k as int));
        }
        let index = (atlas_y * atlas_columns + atlas_x) as usize;
        occupied.set(index, true);
        k += 1;
    }
    assert(slices.take(slices.len() as int) == slices);
}

pub(crate) proof fn lemma_mark_cells_len(occupied: Seq<bool>, slices: Seq<GridSlice>, columns: u32, rows: u32, x: int, y: int)
    requires
        occupied.len() == columns * rows,
        shape_in_grid(slices, columns, rows, x, y),
    ensures
        mark_cells(occupied, slices, columns, x, y).len() == occupied.len(),
    decreases slices.len(),
{
    if slices.len() > 0 {
        let init = slices.drop_last();
        assert(shape_in_grid(init, columns, rows, x, y)) by {
            assert forall|k: int| 0 <= k < init.len() implies 0 <= x + (#[trigger] init[k]).x < columns && 0 <= y
                + init[k].y < rows by {
                assert(init[k] == slices[k]);
            }
        }
        lemma_mark_cells_len(occupied, init, columns, rows, x, y);
        let last = slices[slices.len() - 1];
        lemma_cell_index_bounds(columns, rows, x + last.x, y + last.y);
    }
}

/// The grid search state after the spots before `(cx, cy)` are seen.
pub open spec fn grid_search_state(
    slices: Seq<GridSlice>,
    occupied: Seq<bool>,
    columns: u32,
    rows: u32,
    bw: u32,
    bh: u32,
    used_right: u32,
    used_bottom: u32,
    cx: int,
    cy: int,
    best: Option<(u32, u32)>,
) -> bool {
    let seen = |x2: int, y2: int| y2 < cy || (y2 == cy && x2 < cx);
    &&& best is None ==> forall|x2: int, y2: int|
        #[trigger] grid_spot(slices, occupied, columns, rows, bw, bh, x2, y2) ==> !seen(x2, y2)
    &&& best matches Some((bx, by)) ==> {
        &&& grid_spot(slices, occupied, columns, rows, bw, bh, bx as int, by as int)
        &&& seen(bx as int, by as int)
        &&& forall|x2: int, y2: int|
            #[trigger] grid_spot(slices, occupied, columns, rows, bw, bh, x2, y2) && seen(x2, y2) && (
            x2 != bx || y2 != by) ==> key_less(
                grid_key(bx as int, by as int, bw as int, bh as int, used_right as int, used_bottom as int),
                grid_key(x2, y2, bw as int, bh as int, used_right as int, used_bottom as int),
            )
    }
}

pub(crate) fn find_grid_shape_position(
    sprite: &PreparedSprite,
    occupied: &Vec<bool>,
    atlas_columns: u32,
    atlas_rows: u32,
    bbox_columns: u32,
    bbox_rows: u32,
    used_right: u32,
    used_bottom: u32,
) -> (r: Option<(u32, u32)>)
    requires
        occupied@.len() == atlas_columns * atlas_rows,
        atlas_columns * atlas_rows <= u32::MAX,
        forall|k: int|
            0 <= k < sprite.grid_slices@.len() ==> (#[trigger] sprite.grid_slices@[k]).x < bbox_columns
                && sprite.grid_slices@[k].y < bbox_rows,
        bbox_columns >= 1,
        bbox_rows >= 1,
    ensures
        r == grid_choice(
            sprite.grid_slices@,
            occupied@,
            atlas_columns,
            atlas_rows,
            bbox_columns,
            bbox_rows,
            used_right,
            used_bottom,
        ),
        r matches Some((x, y)) ==> best_grid_spot(
            sprite.grid_slices@,
            occupied@,
            atlas_columns,
            atlas_rows,
            bbox_columns,
            bbox_rows,
            used_right,
            used_bottom,
            x as int,
            y as int,
        ),
{
    let ghost slices = sprite.grid_slices@;
    if bbox_columns > atlas_columns || bbox_rows > atlas_rows {
        return None;
    }
    let mut best: Option<(u32, u32)> = None;
    let mut best_area: u64 = 0;
    let mut best_bottom: u32 = 0;
    let mut best_right: u32 = 0;
    let last_y = atlas_rows - bbox_rows;
    let last_x = atlas_columns - bbox_columns;
    let mut y: u32 = 0;
    while y <= last_y
        invariant
            slices == sprite.grid_slices@,
            occupied@.len() == atlas_columns * atlas_rows,
            atlas_columns * atlas_rows <= u32::MAX,
            forall|k: int| 0 <= k < slices.len() ==> (#[trigger] slices[k]).x < bbox_columns && slices[k].y < bbox_rows,
            1 <= bbox_columns <= atlas_columns,
            1 <= bbox_rows <= atlas_rows,
            last_y == atlas_rows - bbox_rows,
            last_x == atlas_columns - bbox_columns,
            y <= last_y + 1,
            grid_search_state(slices, occupied@, atlas_columns, atlas_rows, bbox_columns, bbox_rows, used_right, used_bottom, 0, y as int, best),
            best matches Some((bx, by)) ==> {
                let key = grid_key(bx as int, by as int, bbox_columns as int, bbox_rows as int, used_right as int, used_bottom as int);
                &&& best_area == key.0
                &&& best_bottom == key.1
                &&& best_right == key.2
            },
        decreases last_y + 1 - y,
    {
        let mut x: u32 = 0;
        while x <= last_x
            invariant
                slices == sprite.grid_slices@,
                occupied@.len() == atlas_columns * atlas_rows,
                atlas_columns * atlas_rows <= u32::MAX,
                forall|k: int| 0 <= k < slices.len() ==> (#[trigger] slices[k]).x < bbox_columns && slices[k].y < bbox_rows,
                1 <= bbox_columns <= atlas_columns,
                1 <= bbox_rows <= atlas_rows,
                last_y == atlas_rows - bbox_rows,
                last_x == atlas_columns - bbox_columns,
                y <= last_y,
                x <= last_x + 1,
                grid_search_state(slices, occupied@, atlas_columns, atlas_rows, bbox_columns, bbox_rows, used_right, used_bottom, x as int, y as int, best),
                best matches Some((bx, by)) ==> {
                    let key = grid_key(bx as int, by as int, bbox_columns as int, bbox_rows as int, used_right as int, used_bottom as int);
                    &&& best_area == key.0
                    &&& best_bottom == key.1
                    &&& best_right == key.2
                },
            decreases last_x + 1 - x,
        {
            proof {
                assert(shape_in_grid(slices, atlas_columns, atlas_rows, x as int, y as int));
            }
            if !grid_shape_fits(sprite, occupied, atlas_columns, atlas_rows, x, y) {
                x += 1;
                continue;
            }
            let right = if used_right >= x + bbox_columns {
                used_right
            } else {
                x + bbox_columns
            };
            let bottom = if used_bottom >= y + bbox_rows {
                used_bottom
            } else {
                y + bbox_rows
            };
            proof {
                lemma_u32_product_fits_u64(right, bottom);
            }
            let area = right as u64 * bottom as u64;
            let ghost key = grid_key(x as int, y as int, bbox_columns as int, bbox_rows as int, used_right as int, used_bottom as int);
            assert(key == (area as int, bottom as int, right as int, y as int, x as int));
            match best {
                None => {
                    best = Some((x, y));
                    best_area = area;
                    best_bottom = bottom;
                    best_right = right;
                },
                Some((best_x, best_y)) => {
                    if area < best_area || (area == best_area && bottom < best_bottom) || (area
                        == best_area && bottom == best_bottom && right < best_right) || (area
                        == best_area && bottom == best_bottom && right == best_right && (y < best_y
                        || (y == best_y && x < best_x))) {
                        best = Some((x, y));
                        best_area = area;
                        best_bottom = bottom;
                        best_right = right;
                    }
                },
            }
            x += 1;
        }
        y += 1;
    }
    match best {
        None => {
            proof {
                assert forall|x2: int, y2: int| !grid_spot(slices, occupied@, atlas_columns, atlas_rows, bbox_columns, bbox_rows, x2, y2) by {
                    if grid_spot(slices, occupied@, atlas_columns, atlas_rows, bbox_columns, bbox_rows, x2, y2) {
                        assert(y2 < y);
                    }
                }
            }
            None
        },
        Some((bx, by)) => {
            proof {
                assert(best_grid_spot(slices, occupied@, atlas_columns, atlas_rows, bbox_columns, bbox_rows, used_right, used_bottom, bx as int, by as int));
                let (x3, y3) = choose|x3: int, y3: int|
                    best_grid_spot(slices, occupied@, atlas_columns, atlas_rows, bbox_columns, bbox_rows, used_right, used_bottom, x3, y3);
                lemma_best_grid_spot_unique(slices, occupied@, atlas_columns, atlas_rows, bbox_columns, bbox_rows, used_right, used_bottom, bx as int, by as int, x3, y3);
            }
            Some((bx, by))
        },
    }
}


/// A grid with no cell taken.
pub open spec fn empty_occupancy(n: nat) -> Seq<bool> {
    Seq::new(n, |i: int| false)
}

/// The occupancy and used extent (in cells) after the first `n` sprites were
/// offered to the grid packer.
pub open spec fn grid_state_after(
    sprites: Seq<PreparedSprite>,
    config: PackConfig,
    columns: u32,
    rows: u32,
    n: nat,
) -> (Seq<bool>, u32, u32)
    decreases n,
{
    if n == 0 {
        (empty_occupancy((columns * rows) as nat), 0u32, 0u32)
    } else {
        let (occupied, used_right, used_bottom) = grid_state_after(
            sprites,
            config,
            columns,
            rows,
            (n - 1) as nat,
        );
        let sprite = sprites[n - 1];
        let (bw, bh) = bbox_cells(sprite, config);
        match grid_choice(sprite.grid_slices@, occupied, columns, rows, bw, bh, used_right, used_bottom) {
            Some((x, y)) => (
                mark_cells(occupied, sprite.grid_slices@, columns, x as int, y as int),
                max_u32(used_right, (x + bw) as u32),
                max_u32(used_bottom, (y + bh) as u32),
            ),
            None => (occupied, used_right, used_bottom),
        }
    }
}

/// The pixel rectangle of a box of `bw` x `bh` cells at cell `(x, y)`.
pub open spec fn cell_rect(x: u32, y: u32, bw: u32, bh: u32, cell: u32) -> Rect {
    Rect { x: (x * cell) as u32, y: (y * cell) as u32, w: (bw * cell) as u32, h: (bh * cell) as u32 }
}

/// Where the grid packer puts each sprite, offered one after another into an
/// empty `width` x `height` bin.
pub open spec fn grid_outcomes(
    sprites: Seq<PreparedSprite>,
    width: u32,
    height: u32,
    config: PackConfig,
) -> Seq<Option<(Rect, bool)>> {
    let columns = grid_columns(width, config);
    let rows = grid_rows(height, config);
    Seq::new(
        sprites.len(),
        |i: int|
            {
                let (occupied, used_right, used_bottom) = grid_state_after(
                    sprites,
                    config,
                    columns,
                    rows,
                    i as nat,
                );
                let (bw, bh) = bbox_cells(sprites[i], config);
                match grid_choice(
                    sprites[i].grid_slices@,
                    occupied,
                    columns,
                    rows,
                    bw,
                    bh,
                    used_right,
                    used_bottom,
                ) {
                    Some((x, y)) => Some((cell_rect(x, y, bw, bh, grid_cell(config)), false)),
                    None => None,
                }
            },
    )
}

/// Where `pack_partial` puts each sprite.
pub open spec fn pack_outcomes(
    sprites: Seq<PreparedSprite>,
    width: u32,
    height: u32,
    config: PackConfig,
) -> Seq<Option<(Rect, bool)>> {
    if slicing(config) {
        grid_outcomes(sprites, width, height, config)
    } else {
        maxrects_outcomes(sprites, width, height, config)
    }
}

/// The grid packer can run on these sprites without overflow or
/// out-of-range cells.
pub open spec fn grid_pack_ok(sprites: Seq<PreparedSprite>, width: u32, height: u32, config: PackConfig) -> bool {
    &&& grid_columns(width, config) * grid_rows(height, config) <= u32::MAX
    &&& forall|i: int| 0 <= i < sprites.len() ==> slices_in_bbox(#[trigger] sprites[i], config)
}

pub(crate) proof fn lemma_grid_span_fits(side: u32, cell: u32)
    requires
        cell >= 1,
    ensures
        max_u32(side / cell, 1) * cell <= max_u32(side, cell),
        max_u32(side / cell, 1) >= 1,
{
    assert((side / cell) * cell <= side) by (nonlinear_arith)
        requires
            cell >= 1,
    ;
    let q = side / cell;
    if q >= 1 {
        assert(max_u32(q, 1) == q);
    } else {
        assert(max_u32(q, 1) == 1);
    }
}

/// A box of `bw` x `bh` cells at cell `(x, y)` inside the grid has pixel
/// coordinates within the grid's pixel extent.
pub(crate) proof fn lemma_cell_box_fits(x: u32, y: u32, bw: u32, bh: u32, columns: u32, rows: u32, cell: u32, span_w: u32, span_h: u32)
    requires
        x + bw <= columns,
        y + bh <= rows,
        columns * cell <= span_w,
        rows * cell <= span_h,
    ensures
        x * cell + bw * cell <= span_w,
        y * cell + bh * cell <= span_h,
        0 <= x * cell,
        0 <= y * cell,
        0 <= bw * cell,
        0 <= bh * cell,
{
    assert(x * cell + bw * cell <= columns * cell && 0 <= x * cell && 0 <= bw * cell) by (nonlinear_arith)
        requires
            x + bw <= columns,
    ;
    assert(y * cell + bh * cell <= rows * cell && 0 <= y * cell && 0 <= bh * cell) by (nonlinear_arith)
        requires
            y + bh <= rows,
    ;
}

/// Offers the sprites one after another to a cell-by-cell packer over an
/// empty `width` x `height` bin: each sprite goes to the free spot with the
/// smallest used area, where all its occupied cells are still free.
#[verifier::rlimit(60)]
#[verifier::spinoff_prover]
pub(crate) fn pack_partial_grid_shapes(
    sprites: &[PreparedSprite],
    width: u32,
    height: u32,
    config: PackConfig,
) -> (r: (Vec<Placement>, Vec<PreparedSprite>))
    requires
        all_padded_fit(sprites@),
        grid_pack_ok(sprites@, width, height, config),
    ensures
        split_by_outcome(sprites@, grid_outcomes(sprites@, width, height, config), r.0@, r.1@),
        placements_within(r.0@, max_u32(width, grid_cell(config)), max_u32(height, grid_cell(config))),
        placement_ids(r.0@).add(sprite_ids(r.1@)) == sprite_ids(sprites@),
        content_sum(r.0@, config) + sprites_content(r.1@, config) == sprites_content(sprites@, config),
        forall|i: int| 0 <= i < r.0@.len() ==> on_grid((#[trigger] r.0@[i]).rect, grid_cell(config) as int),
{
    let ghost outcomes = grid_outcomes(sprites@, width, height, config);
    let cell = if config.grid_cell_size >= 1 {
        config.grid_cell_size
    } else {
        1
    };
    let c = width / cell;
    let columns = if c >= 1 {
        c
    } else {
        1
    };
    let r = height / cell;
    let rows = if r >= 1 {
        r
    } else {
        1
    };
    let span_w = if width >= cell {
        width
    } else {
        cell
    };
    let span_h = if height >= cell {
        height
    } else {
        cell
    };
    proof {
        lemma_grid_span_fits(width, cell);
        lemma_grid_span_fits(height, cell);
    }
    let mut occupied = vec![false; (columns * rows) as usize];
    proof {
        assert forall|k: int| 0 <= k < occupied@.len() implies occupied@[k] == false by {
            assert(vstd::pervasive::cloned(false, occupied@[k]));
        }
        assert(occupied@ == empty_occupancy((columns * rows) as nat));
    }
    let mut placements: Vec<Placement> = Vec::new();
    let mut leftover: Vec<PreparedSprite> = Vec::new();
    proof {
        lemma_ids_empty();
        assert(sprites@.take(0) == Seq::<PreparedSprite>::empty());
    }
    let mut used_right: u32 = 0;
    let mut used_bottom: u32 = 0;
    let mut i: usize = 0;
    while i < sprites.len()
        invariant
            i <= sprites@.len(),
            all_padded_fit(sprites@),
            grid_pack_ok(sprites@, width, height, config),
            cell == grid_cell(config),
            columns == grid_columns(width, config),
            rows == grid_rows(height, config),
            span_w == max_u32(width, cell),
            span_h == max_u32(height, cell),
            columns * cell <= span_w,
            rows * cell <= span_h,
            outcomes == grid_outcomes(sprites@, width, height, config),
            (occupied@, used_right, used_bottom) == grid_state_after(sprites@, config, columns, rows, i as nat),
            occupied@.len() == columns * rows,
            used_right <= columns,
            used_bottom <= rows,
            split_by_outcome(sprites@, outcomes.take(i as int), placements@, leftover@),
            placement_ids(placements@).add(sprite_ids(leftover@)) == sprite_ids(sprites@.take(i as int)),
            content_sum(placements@, config) + sprites_content(leftover@, config) == sprites_content(sprites@.take(i as int), config),
            placements_within(placements@, span_w, span_h),
            forall|k: int| 0 <= k < placements@.len() ==> on_grid((#[trigger] placements@[k]).rect, cell as int),
        decreases sprites@.len() - i,
    {
        let sprite = &sprites[i];
        assert(sprites@[i as int].padded_fits());
        assert(slices_in_bbox(sprites@[i as int], config));
        let (bbox_width, bbox_height) = required_pack_dimensions(sprite, config);
        let bw = div_ceil_u32(bbox_width, cell);
        let bbox_columns = if bw >= 1 {
            bw
        } else {
            1
        };
        let bh = div_ceil_u32(bbox_height, cell);
        let bbox_rows = if bh >= 1 {
            bh
        } else {
            1
        };
        assert((bbox_columns, bbox_rows) == bbox_cells(sprites@[i as int], config));
        let ghost before_placements = placements@;
        let ghost before_leftover = leftover@;
        match find_grid_shape_position(
            sprite,
            &occupied,
            columns,
            rows,
            bbox_columns,
            bbox_rows,
            used_right,
            used_bottom,
        ) {
            None => {
                leftover.push(sprite.clone());
                assert(leftover@.take(before_leftover.len() as int) == before_leftover);
            },
            Some((cell_x, cell_y)) => {
                proof {
                    let slices = sprite.grid_slices@;
                    assert(grid_spot(slices, occupied@, columns, rows, bbox_columns, bbox_rows, cell_x as int, cell_y as int));
                    assert(shape_in_grid(slices, columns, rows, cell_x as int, cell_y as int));
                    lemma_mark_cells_len(occupied@, slices, columns, rows, cell_x as int, cell_y as int);
                    lemma_cell_box_fits(cell_x, cell_y, bbox_columns, bbox_rows, columns, rows, cell, span_w, span_h);
                }
                mark_grid_shape_occupied(sprite, &mut occupied, columns, rows, cell_x, cell_y);
                used_right = if used_right >= cell_x + bbox_columns {
                    used_right
                } else {
                    cell_x + bbox_columns
                };
                used_bottom = if used_bottom >= cell_y + bbox_rows {
                    used_bottom
                } else {
                    cell_y + bbox_rows
                };
                let rect = Rect {
                    x: cell_x * cell,
                    y: cell_y * cell,
                    w: bbox_columns * cell,
                    h: bbox_rows * cell,
                };
                placements.push(Placement { sprite: sprite.clone(), rect, rotated: false });
                assert(placements@.take(before_placements.len() as int) == before_placements);
                proof {
                    assert forall|k: int| 0 <= k < placements@.len() implies (#[trigger] placements@[k]).rect.edges_fit()
                        && placements@[k].rect.within(span_w as int, span_h as int) by {
                        if k < before_placements.len() {
                            assert(placements@[k] == before_placements[k]);
                        }
                    }
                    vstd::arithmetic::div_mod::lemma_mod_multiples_basic(cell_x as int, cell as int);
                    vstd::arithmetic::div_mod::lemma_mod_multiples_basic(cell_y as int, cell as int);
                    vstd::arithmetic::div_mod::lemma_mod_multiples_basic(bbox_columns as int, cell as int);
                    vstd::arithmetic::div_mod::lemma_mod_multiples_basic(bbox_rows as int, cell as int);
                    assert forall|k: int| 0 <= k < placements@.len() implies on_grid((#[trigger] placements@[k]).rect, cell as int) by {
                        if k < before_placements.len() {
                            assert(placements@[k] == before_placements[k]);
                        }
                    }
                }
            },
        }
        proof {
            lemma_split_step(
                sprites@,
                outcomes,
                i as int,
                before_placements,
                before_leftover,
                placements@,
                leftover@,
            );
            lemma_ids_step(sprites@, config, i as int, before_placements, before_leftover, placements@, leftover@);
        }
        i += 1;
    }
    assert(outcomes.take(sprites@.len() as int) == outcomes);
    assert(sprites@.take(sprites@.len() as int) == sprites@);
    (placements, leftover)
}

/// The placed rectangles lie in a `width` x `height` area.
pub open spec fn placements_within(ps: Seq<Placement>, width: u32, height: u32) -> bool {
    forall|i: int|
        0 <= i < ps.len() ==> (#[trigger] ps[i]).rect.edges_fit() && ps[i].rect.within(
            width as int,
            height as int,
        )
}

/// How far placements in a bin with side `side` reach: cell boxes may
/// stick out of a bin narrower than one cell.
pub open spec fn bin_extent(side: u32, config: PackConfig) -> u32 {
    if slicing(config) {
        max_u32(side, grid_cell(config))
    } else {
        side
    }
}

/// The placed rectangles lie in a `width` x `height` bin and no two meet.
pub open spec fn placements_disjoint_in(ps: Seq<Placement>, width: u32, height: u32) -> bool {
    &&& forall|i: int| 0 <= i < ps.len() ==> (#[trigger] ps[i]).rect.within(width as int, height as int)
    &&& forall|i: int, j: int|
        0 <= i < j < ps.len() ==> !(#[trigger] ps[i]).rect.overlaps((#[trigger] ps[j]).rect)
}

/// Packs as many of the sprites as fit into one `width` x `height` bin, in
/// order; returns the placements, the sprites left over and the bin size.
pub fn pack_partial(
    sprites: &[PreparedSprite],
    width: u32,
    height: u32,
    config: PackConfig,
) -> (r: (Vec<Placement>, Vec<PreparedSprite>, u32, u32))
    requires
        all_padded_fit(sprites@),
        slicing(config) ==> grid_pack_ok(sprites@, width, height, config),
        !slicing(config) ==> width > 0 && height > 0,
    ensures
        split_by_outcome(sprites@, pack_outcomes(sprites@, width, height, config), r.0@, r.1@),
        placement_ids(r.0@).add(sprite_ids(r.1@)) == sprite_ids(sprites@),
        content_sum(r.0@, config) + sprites_content(r.1@, config) == sprites_content(sprites@, config),
        !slicing(config) ==> placements_disjoint_in(r.0@, width, height),
        placements_within(r.0@, bin_extent(width, config), bin_extent(height, config)),
        r.2 == width,
        r.3 == height,
        slicing(config) || on_grid_bin(width, height, config) ==> forall|i: int|
            0 <= i < r.0@.len() ==> on_grid((#[trigger] r.0@[i]).rect, grid_cell(config) as int),
        !slicing(config) ==> reach_within(r.0@, sprites@.len() * sides_bound(sprites@, config)),
{
    if config.align_to_grid && config.slice_grid_cells {
        let (placements, leftover) = pack_partial_grid_shapes(sprites, width, height, config);
        return (placements, leftover, width, height);
    }
    let (placements, leftover) = pack_partial_maxrects(sprites, width, height, config);
    proof {
        assert forall|i: int| 0 <= i < placements@.len() implies (#[trigger] placements@[i]).rect.edges_fit()
            && placements@[i].rect.within(width as int, height as int) by {
            assert(placements@[i].rect.within(width as int, height as int));
        }
    }
    (placements, leftover, width, height)
}

} // verus!
