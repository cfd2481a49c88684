use vstd::prelude::*;
use vstd::arithmetic::power2::pow2;
use vstd::multiset::Multiset;

use crate::atlas::pixels::{height_of, width_of};
use crate::atlas::text::{decimal, decimal_string};
use crate::atlas::maxrects::{free_after, grid_side, insert_choice, MaxRectsPacker};
use crate::atlas::types::{same_slice, same_sprite, AtlasBuild, GridSlice, 
    lemma_u32_product_fits_u64, max_u32, saturating_mul_u32, saturating_product, PackConfig,
    Placement, PreparedSprite, Rect,
};

use crate::atlas::packer::sizes::{ceil_div, ceil_pow2, div_ceil_u32, lemma_ceil_pow2_unique, grid_cell, next_power_of_two, slicing};

verus! {

// ---------------------------------------------------------------------------
// Final atlas size
// ---------------------------------------------------------------------------

/// The largest right edge among the placements (0 for none).
pub open spec fn max_right(ps: Seq<Placement>) -> int
    decreases ps.len(),
{
    if ps.len() == 0 {
        0
    } else {
        let m = max_right(ps.drop_last());
        let r = ps.last().rect.right_edge();
        if r > m {
            r
        } else {
            m
        }
    }
}

/// The largest bottom edge among the placements (0 for none).
pub open spec fn max_bottom(ps: Seq<Placement>) -> int
    decreases ps.len(),
{
    if ps.len() == 0 {
        0
    } else {
        let m = max_bottom(ps.drop_last());
        let b = ps.last().rect.bottom_edge();
        if b > m {
            b
        } else {
            m
        }
    }
}

/// A used extent rounded the way the configuration asks: to whole grid
/// cells (a power of two of them with `power_of_two`), or to a power of two.
pub open spec fn round_side(v: u32, config: PackConfig) -> u32 {
    let cell = grid_cell(config);
    if config.align_to_grid {
        let cells = max_u32(ceil_div(v as int, cell as int) as u32, 1);
        if config.power_of_two {
            saturating_product(ceil_pow2(cells as nat) as u32, cell)
        } else {
            saturating_product(cells, cell)
        }
    } else if config.power_of_two {
        ceil_pow2(max_u32(v, 1) as nat) as u32
    } else {
        v
    }
}

/// Rounding `v` up to a power of two stays within `u32`.
pub open spec fn round_side_ok(v: u32, config: PackConfig) -> bool {
    config.power_of_two ==> if config.align_to_grid {
        max_u32(ceil_div(v as int, grid_cell(config) as int) as u32, 1) <= 0x8000_0000
    } else {
        v <= 0x8000_0000
    }
}

pub open spec fn clamp_side(v: u32, bin: u32) -> u32 {
    if v < 1 {
        1
    } else if v > bin {
        bin
    } else {
        v
    }
}

/// The pixels of content a sprite brings: its cells when it is cut into
/// cells, else its trimmed image.
pub open spec fn sprite_content(s: PreparedSprite, config: PackConfig) -> int {
    if slicing(config) && s.grid_slices@.len() > 0 {
        s.grid_slices@.len() * grid_cell(config) * grid_cell(config)
    } else {
        s.trim_width * s.trim_height
    }
}

/// The pixels of content a placement holds.
pub open spec fn placement_content(p: Placement, config: PackConfig) -> int {
    sprite_content(p.sprite, config)
}

/// The pixels of content of all the sprites.
pub open spec fn sprites_content(s: Seq<PreparedSprite>, config: PackConfig) -> int
    decreases s.len(),
{
    if s.len() == 0 {
        0
    } else {
        sprites_content(s.drop_last(), config) + sprite_content(s.last(), config)
    }
}

pub proof fn lemma_sprite_content_nonneg(s: PreparedSprite, config: PackConfig)
    ensures
        sprite_content(s, config) >= 0,
{
    assert(s.grid_slices@.len() * grid_cell(config) * grid_cell(config) >= 0) by (nonlinear_arith);
    assert(s.trim_width * s.trim_height >= 0) by (nonlinear_arith);
}

pub(crate) proof fn lemma_sprites_content_concat(a: Seq<PreparedSprite>, b: Seq<PreparedSprite>, config: PackConfig)
    ensures
        sprites_content(a + b, config) == sprites_content(a, config) + sprites_content(b, config),
    decreases b.len(),
{
    if b.len() == 0 {
        assert(a + b == a);
    } else {
        assert((a + b).drop_last() == a + b.drop_last());
        lemma_sprites_content_concat(a, b.drop_last(), config);
    }
}

pub(crate) proof fn lemma_sprites_content_nonneg(s: Seq<PreparedSprite>, config: PackConfig)
    ensures
        sprites_content(s, config) >= 0,
    decreases s.len(),
{
    if s.len() > 0 {
        lemma_sprites_content_nonneg(s.drop_last(), config);
        lemma_sprite_content_nonneg(s.last(), config);
    }
}

pub open spec fn content_sum(ps: Seq<Placement>, config: PackConfig) -> int
    decreases ps.len(),
{
    if ps.len() == 0 {
        0
    } else {
        content_sum(ps.drop_last(), config) + placement_content(ps.last(), config)
    }
}

/// The used width and height: the largest edges, or 1 when nothing is placed.
pub open spec fn used_extent(ps: Seq<Placement>) -> (u32, u32) {
    if ps.len() == 0 {
        (1, 1)
    } else {
        (max_right(ps) as u32, max_bottom(ps) as u32)
    }
}


/// No placement reaches past `max_right` or `max_bottom`.
pub proof fn lemma_max_edges(ps: Seq<Placement>)
    ensures
        forall|i: int| 0 <= i < ps.len() ==> (#[trigger] ps[i]).rect.right_edge() <= max_right(ps),
        forall|i: int| 0 <= i < ps.len() ==> (#[trigger] ps[i]).rect.bottom_edge() <= max_bottom(ps),
        max_right(ps) >= 0,
        max_bottom(ps) >= 0,
        ps.len() > 0 ==> exists|i: int| 0 <= i < ps.len() && max_right(ps) == (#[trigger] ps[i]).rect.right_edge(),
        ps.len() > 0 ==> exists|i: int| 0 <= i < ps.len() && max_bottom(ps) == (#[trigger] ps[i]).rect.bottom_edge(),
    decreases ps.len(),
{
    if ps.len() > 0 {
        let init = ps.drop_last();
        lemma_max_edges(init);
        assert forall|i: int| 0 <= i < ps.len() implies (#[trigger] ps[i]).rect.right_edge() <= max_right(ps)
            && ps[i].rect.bottom_edge() <= max_bottom(ps) by {
            if i < init.len() {
                assert(init[i] == ps[i]);
            }
        }
        if max_right(ps) != ps.last().rect.right_edge() {
            let i = choose|i: int| 0 <= i < init.len() && max_right(init) == (#[trigger] init[i]).rect.right_edge();
            assert(ps[i] == init[i]);
        }
        if max_bottom(ps) != ps.last().rect.bottom_edge() {
            let i = choose|i: int| 0 <= i < init.len() && max_bottom(init) == (#[trigger] init[i]).rect.bottom_edge();
            assert(ps[i] == init[i]);
        }
    }
}

proof fn lemma_ceil_pow2_at_least(v: nat)
    ensures
        ceil_pow2(v) >= v,
        ceil_pow2(v) >= 1,
    decreases v,
{
    if v > 1 {
        lemma_ceil_pow2_at_least(((v + 1) / 2) as nat);
    }
}

proof fn lemma_ceil_pow2_monotone(a: nat, b: nat)
    requires
        a <= b,
    ensures
        ceil_pow2(a) <= ceil_pow2(b),
    decreases b,
{
    if a <= 1 {
        lemma_ceil_pow2_at_least(b);
    } else {
        lemma_ceil_pow2_monotone(((a + 1) / 2) as nat, ((b + 1) / 2) as nat);
    }
}

pub(crate) proof fn lemma_ceil_pow2_bound(v: nat)
    requires
        v <= 0x8000_0000,
    ensures
        ceil_pow2(v) <= 0x8000_0000,
{
    vstd::arithmetic::power2::lemma2_to64();
    lemma_ceil_pow2_unique(0x8000_0000, 31);
    lemma_ceil_pow2_monotone(v, 0x8000_0000);
}

/// Rounding a side never makes it shorter.
pub proof fn lemma_round_side_at_least(v: u32, config: PackConfig)
    requires
        round_side_ok(v, config),
    ensures
        round_side(v, config) >= v,
{
    let cell = grid_cell(config);
    if config.align_to_grid {
        let q = ceil_div(v as int, cell as int);
        assert(q * cell >= v && q <= v + cell) by (nonlinear_arith)
            requires
                q == (v + cell - 1) / (cell as int),
                cell >= 1,
                v >= 0,
        ;
        assert(0 <= q <= u32::MAX) by (nonlinear_arith)
            requires
                q == (v + cell - 1) / (cell as int),
                cell >= 1,
                v >= 0,
                v <= u32::MAX,
        ;
        let cells = max_u32(q as u32, 1);
        assert(cells * cell >= v) by (nonlinear_arith)
            requires
                cells >= q,
                q * cell >= v,
                cell >= 1,
        ;
        if config.power_of_two {
            lemma_ceil_pow2_at_least(cells as nat);
            lemma_ceil_pow2_bound(cells as nat);
            let c2 = ceil_pow2(cells as nat);
            assert(c2 * cell >= v) by (nonlinear_arith)
                requires
                    c2 >= cells,
                    cells * cell >= v,
                    cell >= 1,
            ;
        }
    } else if config.power_of_two {
        lemma_ceil_pow2_at_least(max_u32(v, 1) as nat);
        lemma_ceil_pow2_bound(max_u32(v, 1) as nat);
    }
}


/// With grid alignment a rounded side is a whole number of cells (or the
/// largest `u32`, where it saturated), and at least one pixel.
pub proof fn lemma_round_side_grid(v: u32, config: PackConfig)
    requires
        config.align_to_grid,
        round_side_ok(v, config),
    ensures
        grid_side(round_side(v, config), grid_cell(config) as int),
        round_side(v, config) >= 1,
{
    let cell = grid_cell(config);
    let q = ceil_div(v as int, cell as int);
    assert(0 <= q <= u32::MAX) by (nonlinear_arith)
        requires
            q == (v + cell - 1) / (cell as int),
            cell >= 1,
            v >= 0,
            v <= u32::MAX,
    ;
    let cells = max_u32(q as u32, 1);
    let k: u32 = if config.power_of_two {
        lemma_ceil_pow2_at_least(cells as nat);
        lemma_ceil_pow2_bound(cells as nat);
        ceil_pow2(cells as nat) as u32
    } else {
        cells
    };
    assert(k >= 1);
    assert(round_side(v, config) == saturating_product(k, cell));
    if k * cell <= u32::MAX {
        vstd::arithmetic::div_mod::lemma_mod_multiples_basic(k as int, cell as int);
        assert(k * cell >= 1) by (nonlinear_arith)
            requires
                k >= 1,
                cell >= 1,
        ;
    }
}

/// With grid alignment, a side clamped to a bin of whole cells is a whole
/// number of cells.
pub proof fn lemma_clamp_side_grid(v: u32, bin: u32, config: PackConfig)
    requires
        config.align_to_grid,
        round_side_ok(v, config),
        (bin as int) % (grid_cell(config) as int) == 0,
    ensures
        (clamp_side(round_side(v, config), bin) as int) % (grid_cell(config) as int) == 0,
{
    lemma_round_side_grid(v, config);
}

/// The atlas size before clamping to the bin: each used extent rounded, and
/// with `square` both set to the rounded larger one.
pub open spec fn unclamped_size(ps: Seq<Placement>, config: PackConfig) -> (u32, u32) {
    let w = round_side(used_extent(ps).0, config);
    let h = round_side(used_extent(ps).1, config);
    if config.square {
        let side = round_side(max_u32(w, h), config);
        (side, side)
    } else {
        (w, h)
    }
}

/// The size `finalize_atlas_size` works out can be computed without overflow.
pub open spec fn finalize_ok(ps: Seq<Placement>, config: PackConfig) -> bool {
    let w = round_side(used_extent(ps).0, config);
    let h = round_side(used_extent(ps).1, config);
    &&& forall|i: int| 0 <= i < ps.len() ==> (#[trigger] ps[i]).rect.edges_fit()
    &&& round_side_ok(used_extent(ps).0, config)
    &&& round_side_ok(used_extent(ps).1, config)
    &&& config.square ==> round_side_ok(max_u32(w, h), config)
    &&& content_sum(ps, config) <= u64::MAX
}

pub(crate) proof fn lemma_content_sum_monotone(ps: Seq<Placement>, config: PackConfig, n: int)
    requires
        0 <= n <= ps.len(),
    ensures
        content_sum(ps.take(n), config) <= content_sum(ps, config),
        content_sum(ps.take(n), config) >= 0,
    decreases ps.len(),
{
    if ps.len() > 0 {
        lemma_sprite_content_nonneg(ps.last().sprite, config);
        if n == ps.len() {
            assert(ps.take(n) == ps);
            lemma_content_sum_monotone(ps.drop_last(), config, n - 1);
            assert(ps.drop_last().take(n - 1) == ps.drop_last());
        } else {
            assert(ps.drop_last().take(n) == ps.take(n));
            lemma_content_sum_monotone(ps.drop_last(), config, n);
        }
    }
}

pub(crate) fn round_side_exec(v: u32, config: PackConfig) -> (r: u32)
    requires
        round_side_ok(v, config),
    ensures
        r == round_side(v, config),
{
    let cell = if config.grid_cell_size >= 1 {
        config.grid_cell_size
    } else {
        1
    };
    if config.align_to_grid {
        let c = div_ceil_u32(v, cell);
        let cells = if c >= 1 {
            c
        } else {
            1
        };
        if config.power_of_two {
            saturating_mul_u32(next_power_of_two(cells), cell)
        } else {
            saturating_mul_u32(cells, cell)
        }
    } else if config.power_of_two {
        next_power_of_two(v)
    } else {
        v
    }
}

/// The atlas size for the placements (rounded as configured and clamped to
/// the bin) and the pixels of content they hold.
pub fn finalize_atlas_size(
    placements: &[Placement],
    bin_width: u32,
    bin_height: u32,
    config: PackConfig,
) -> (r: (u32, u32, u64))
    requires
        bin_width >= 1,
        bin_height >= 1,
        finalize_ok(placements@, config),
    ensures
        r.0 == clamp_side(unclamped_size(placements@, config).0, bin_width),
        r.1 == clamp_side(unclamped_size(placements@, config).1, bin_height),
        r.2 == content_sum(placements@, config),
{
    let ghost ps = placements@;
    let mut used_width: u32 = 0;
    let mut used_height: u32 = 0;
    let mut content_area: u64 = 0;
    let mut i: usize = 0;
    while i < placements.len()
        invariant
            i <= ps.len(),
            ps == placements@,
            finalize_ok(ps, config),
            used_width == max_right(ps.take(i as int)),
            used_height == max_bottom(ps.take(i as int)),
            content_area == content_sum(ps.take(i as int), config),
        decreases ps.len() - i,
    {
        let placement = &placements[i];
        assert(ps.take(i + 1).drop_last() == ps.take(i as int));
        assert(ps[i as int].rect.edges_fit());
        let right = placement.rect.right();
        let bottom = placement.rect.bottom();
        if right > used_width {
            used_width = right;
        }
        if bottom > used_height {
            used_height = bottom;
        }
        proof {
            lemma_content_sum_monotone(ps, config, i + 1);
        }
        let area: u64 = if config.align_to_grid && config.slice_grid_cells
            && placement.sprite.grid_slices.len() > 0 {
            let cell: u64 = if config.grid_cell_size >= 1 {
                config.grid_cell_size as u64
            } else {
                1
            };
            let n = placement.sprite.grid_slices.len() as u64;
            proof {
                assert(n * cell <= n * cell * cell) by (nonlinear_arith)
                    requires
                        cell >= 1,
                        n >= 0,
                ;
            }
            n * cell * cell
        } else {
            proof {
                lemma_u32_product_fits_u64(placement.sprite.trim_width, placement.sprite.trim_height);
            }
            placement.sprite.trim_width as u64 * placement.sprite.trim_height as u64
        };
        content_area = content_area + area;
        i += 1;
    }
    assert(ps.take(ps.len() as int) == ps);
    if placements.len() == 0 {
        used_width = 1;
        used_height = 1;
    }
    let mut width = round_side_exec(used_width, config);
    let mut height = round_side_exec(used_height, config);
    if config.square {
        let larger = if width >= height {
            width
        } else {
            height
        };
        let side = round_side_exec(larger, config);
        width = side;
        height = side;
    }
    width = if width < 1 {
        1
    } else if width > bin_width {
        bin_width
    } else {
        width
    };
    height = if height < 1 {
        1
    } else if height > bin_height {
        bin_height
    } else {
        height
    };
    (width, height, content_area)
}

/// The atlas positions of the grid cells that a placement's cut sprite
/// fills: each cell at its column and row inside the placement's rectangle.
pub open spec fn cells_of(p: Placement, config: PackConfig) -> Seq<(int, int)> {
    Seq::new(
        p.sprite.grid_slices@.len(),
        |k: int|
            (
                p.rect.x + p.sprite.grid_slices@[k].x * grid_cell(config),
                p.rect.y + p.sprite.grid_slices@[k].y * grid_cell(config),
            ),
    )
}

/// The grid cells the placements fill, placement after placement.
pub open spec fn filled_cells(ps: Seq<Placement>, config: PackConfig) -> Seq<(int, int)>
    decreases ps.len(),
{
    if ps.len() == 0 {
        Seq::empty()
    } else {
        filled_cells(ps.drop_last(), config) + cells_of(ps.last(), config)
    }
}

proof fn lemma_content_is_cells(ps: Seq<Placement>, config: PackConfig)
    requires
        slicing(config),
        forall|i: int| 0 <= i < ps.len() ==> (#[trigger] ps[i]).sprite.grid_slices@.len() > 0,
    ensures
        content_sum(ps, config) == filled_cells(ps, config).len() * grid_cell(config) * grid_cell(config),
    decreases ps.len(),
{
    if ps.len() > 0 {
        let init = ps.drop_last();
        assert forall|i: int| 0 <= i < init.len() implies (#[trigger] init[i]).sprite.grid_slices@.len() > 0 by {
            assert(init[i] == ps[i]);
        }
        lemma_content_is_cells(init, config);
        assert(ps.last() == ps[ps.len() - 1]);
        let a = filled_cells(init, config).len();
        let b = ps.last().sprite.grid_slices@.len();
        let c = grid_cell(config);
        assert((a + b) * c * c == a * c * c + b * c * c) by (nonlinear_arith);
    }
}

/// With cells packed, the content area an atlas reports is the area of the
/// grid cells its sprites fill, each filled cell counted once: a cell left
/// empty inside a sprite's box adds nothing.
pub proof fn lemma_content_counts_filled_cells(ps: Seq<Placement>, config: PackConfig)
    requires
        slicing(config),
        forall|i: int| 0 <= i < ps.len() ==> (#[trigger] ps[i]).sprite.grid_slices@.len() > 0,
        filled_cells(ps, config).no_duplicates(),
    ensures
        content_sum(ps, config) == filled_cells(ps, config).to_set().len() * grid_cell(config) * grid_cell(
            config,
        ),
{
    lemma_content_is_cells(ps, config);
    filled_cells(ps, config).unique_seq_to_set();
}

} // verus!
