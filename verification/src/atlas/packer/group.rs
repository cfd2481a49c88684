use vstd::prelude::*;
use vstd::arithmetic::power2::pow2;
use vstd::multiset::Multiset;

use crate::atlas::pixels::{height_of, width_of};
use crate::atlas::text::{decimal, decimal_string};
use crate::atlas::maxrects::{free_after, insert_choice, on_grid, MaxRectsPacker};
use crate::atlas::types::{same_slice, same_sprite, AtlasBuild, GridSlice, 
    lemma_u32_product_fits_u64, max_u32, saturating_mul_u32, saturating_product, PackConfig,
    Placement, PreparedSprite, Rect,
};

use crate::atlas::packer::cells::{bbox_cells, bin_extent, cell_index, empty_occupancy, grid_columns, grid_rows, grid_spot, lemma_grid_span_fits, pack_outcomes, pack_partial, placements_disjoint_in, placements_within, shape_fits, slices_in_bbox};
use crate::atlas::packer::finish::{clamp_side, content_sum, finalize_atlas_size, finalize_ok, lemma_clamp_side_grid, lemma_content_sum_monotone, lemma_max_edges, lemma_round_side_at_least, lemma_sprites_content_nonneg, max_bottom, max_right, round_side, round_side_ok, sprite_content, sprites_content, unclamped_size, used_extent};
use crate::atlas::packer::onebin::{empty_bin, frees_after, leftover_indices, on_grid_bin, lemma_indices_in_range, pack_dims, placed_indices, split_by_outcome};
use crate::atlas::packer::order::{sprite_key, all_sizes_fit, by_area_desc, count_at_least, lemma_no_leftover, lemma_sprite_ids_empty, pack_ok, packs_all, placement_ids, sort_by_area_desc, sprite_ids, try_pack_all_smallest};
use crate::atlas::packer::sizes::{PackError, lemma_sides_bound, reach_within, sides_bound, all_padded_fit, at_most, bin_sides, ceil_div, ceil_pow2, doublings, ensure_sprites_fit_max_size, fits_max_size, grid_cell, grid_max_cells, lemma_at_most_bounded, required_area, required_dims, slicing, sprite_sizes_fit, standard_sizes};

verus! {

// ---------------------------------------------------------------------------
// Atlases for a group
// ---------------------------------------------------------------------------

/// The sprite's cell shape can be placed in an empty atlas of the largest size.
pub open spec fn fits_empty_grid(sprite: PreparedSprite, config: PackConfig) -> bool {
    let columns = grid_columns(config.max_size, config);
    let rows = grid_rows(config.max_size, config);
    let (bw, bh) = bbox_cells(sprite, config);
    exists|x: int, y: int|
        #[trigger] grid_spot(
            sprite.grid_slices@,
            empty_occupancy((columns * rows) as nat),
            columns,
            rows,
            bw,
            bh,
            x,
            y,
        )
}

/// Some sprite of `whole` says the same as `s`.
pub open spec fn matched_in(s: PreparedSprite, whole: Seq<PreparedSprite>) -> bool {
    exists|j: int| 0 <= j < whole.len() && #[trigger] same_sprite(s, whole[j])
}

/// Every sprite of `part` says the same as some sprite of `whole`.
pub open spec fn descends(part: Seq<PreparedSprite>, whole: Seq<PreparedSprite>) -> bool {
    forall|k: int| 0 <= k < part.len() ==> matched_in(#[trigger] part[k], whole)
}

/// The ids of all placements of the builds.
pub open spec fn builds_ids(builds: Seq<AtlasBuild>) -> Multiset<(usize, nat)>
    decreases builds.len(),
{
    if builds.len() == 0 {
        Multiset::empty()
    } else {
        builds_ids(builds.drop_last()).add(placement_ids(builds.last().placements@))
    }
}

/// A bin side that a round can use: a candidate bin, or the largest size.
pub open spec fn atlas_bin(bin: u32, config: PackConfig) -> bool {
    bin == config.max_size || bin_sides(config).contains(bin)
}

/// The build's placements lie in a `bin` x `bin` bin (without overlap,
/// unless cells are packed) and its size is theirs, rounded and clamped to
/// the bin (a size that is worked out without overflow).
pub open spec fn packed_in_bin(b: AtlasBuild, bin: u32, config: PackConfig) -> bool {
    &&& atlas_bin(bin, config)
    &&& placements_within(b.placements@, bin_extent(bin, config), bin_extent(bin, config))
    &&& !slicing(config) ==> placements_disjoint_in(b.placements@, bin, bin)
    &&& b.width == clamp_side(unclamped_size(b.placements@, config).0, bin)
    &&& b.height == clamp_side(unclamped_size(b.placements@, config).1, bin)
    &&& finalize_ok(b.placements@, config)
}


/// With grid alignment and a size limit of whole cells (as a normalized
/// configuration has), atlases snap to cells.
pub open spec fn grid_snaps(config: PackConfig) -> bool {
    &&& config.align_to_grid
    &&& (config.max_size as int) % (grid_cell(config) as int) == 0
}

/// The atlas has whole cells for sides, and every placement lies on cell
/// boundaries with whole cells for sides.
pub open spec fn build_on_grid(b: AtlasBuild, config: PackConfig) -> bool {
    &&& (b.width as int) % (grid_cell(config) as int) == 0
    &&& (b.height as int) % (grid_cell(config) as int) == 0
    &&& forall|i: int|
        0 <= i < b.placements@.len() ==> on_grid((#[trigger] b.placements@[i]).rect, grid_cell(config) as int)
}

/// A build in a bin of whole cells, whose placements lie on cell
/// boundaries, is on the grid.
pub proof fn lemma_build_on_grid(b: AtlasBuild, bin: u32, config: PackConfig)
    requires
        config.align_to_grid,
        packed_in_bin(b, bin, config),
        (bin as int) % (grid_cell(config) as int) == 0,
        forall|i: int|
            0 <= i < b.placements@.len() ==> on_grid((#[trigger] b.placements@[i]).rect, grid_cell(config) as int),
    ensures
        build_on_grid(b, config),
{
    let ps = b.placements@;
    let w = round_side(used_extent(ps).0, config);
    let h = round_side(used_extent(ps).1, config);
    if config.square {
        lemma_clamp_side_grid(max_u32(w, h), bin, config);
    } else {
        lemma_clamp_side_grid(used_extent(ps).0, bin, config);
        lemma_clamp_side_grid(used_extent(ps).1, bin, config);
    }
}

/// A build as `build_atlases_for_group` makes it: numbered in turn, named
/// after the group, not empty, with its content counted, packed in a bin.
pub open spec fn build_ok(b: AtlasBuild, index: int, group_name: Seq<char>, config: PackConfig) -> bool {
    &&& b.atlas_index == index
    &&& b.group_name@ == group_name
    &&& b.placements@.len() > 0
    &&& b.content_area == content_sum(b.placements@, config)
    &&& exists|bin: u32| #[trigger] packed_in_bin(b, bin, config)
}

/// What `build_atlases_for_group` needs to run without overflow.
pub open spec fn group_pack_ok(sprites: Seq<PreparedSprite>, config: PackConfig) -> bool {
    &&& config.max_size >= 1
    &&& all_padded_fit(sprites)
    &&& all_sizes_fit(sprites, config)
    &&& !(config.align_to_grid && config.power_of_two && grid_max_cells(config) == u32::MAX)
    &&& slicing(config) ==> grid_max_cells(config) * grid_max_cells(config) <= u32::MAX
        && forall|i: int| 0 <= i < sprites.len() ==> slices_in_bbox(#[trigger] sprites[i], config)
    &&& rounding_fits(sprites, config)
    &&& sprites_content(sprites, config) <= u64::MAX
}

/// Sizes are rounded to a power of two of pixels: `power_of_two`, without
/// grid cells of at least two pixels.
pub open spec fn pixel_pow2(config: PackConfig) -> bool {
    config.power_of_two && !(config.align_to_grid && grid_cell(config) >= 2)
}

/// Rounding the used extent of an atlas up to a power of two stays within
/// `u32`: where sizes are rounded to a power of two of pixels, either the size
/// limit is at most 2^31, or as many sprites as there are, each as large as
/// the largest, reach at most 2^31.
pub open spec fn rounding_fits(sprites: Seq<PreparedSprite>, config: PackConfig) -> bool {
    pixel_pow2(config) ==> config.max_size <= 0x8000_0000 || sprites.len() * sides_bound(sprites, config)
        <= 0x8000_0000
}

/// Sprites that say the same have the same sizes, content and fit.
pub proof fn lemma_same_sprite_alike(a: PreparedSprite, b: PreparedSprite, config: PackConfig)
    requires
        same_sprite(a, b),
    ensures
        same_sprite(b, a),
        a.id == b.id,
        a.rel_path@ == b.rel_path@,
        required_dims(a, config) == required_dims(b, config),
        a.padded_fits() == b.padded_fits(),
        sprite_sizes_fit(a, config) == sprite_sizes_fit(b, config),
        fits_max_size(a, config) == fits_max_size(b, config),
        slices_in_bbox(a, config) == slices_in_bbox(b, config),
        fits_empty_grid(a, config) == fits_empty_grid(b, config),
        sprite_content(a, config) == sprite_content(b, config),
{
    let sa = a.grid_slices@;
    let sb = b.grid_slices@;
    assert forall|k: int| 0 <= k < sb.len() implies same_slice(#[trigger] sb[k], sa[k]) by {
        assert(same_slice(sa[k], sb[k]));
    }
    assert forall|x: int, y: int| in_bounds_of(b, x, y) implies #[trigger] crate::atlas::pixels::pixel_at(b.image, x, y)
        == crate::atlas::pixels::pixel_at(a.image, x, y) by {
        assert(crate::atlas::pixels::in_bounds(a.image, x, y));
    }
    if slices_in_bbox(a, config) {
        assert forall|k: int| 0 <= k < sb.len() implies (#[trigger] sb[k]).x < bbox_cells(b, config).0
            && sb[k].y < bbox_cells(b, config).1 by {
            assert(sa[k].x == sb[k].x);
        }
    }
    if slices_in_bbox(b, config) {
        assert forall|k: int| 0 <= k < sa.len() implies (#[trigger] sa[k]).x < bbox_cells(a, config).0
            && sa[k].y < bbox_cells(a, config).1 by {
            assert(sb[k].x == sa[k].x);
        }
    }
    let columns = grid_columns(config.max_size, config);
    let rows = grid_rows(config.max_size, config);
    let occ = empty_occupancy((columns * rows) as nat);
    let (bw, bh) = bbox_cells(a, config);
    assert forall|x: int, y: int| grid_spot(sa, occ, columns, rows, bw, bh, x, y) == grid_spot(sb, occ, columns, rows, bw, bh, x, y) by {
        if shape_fits(sa, occ, columns, x, y) {
            assert forall|k: int| 0 <= k < sb.len() implies !occ[cell_index(columns, x + (#[trigger] sb[k]).x, y + sb[k].y)] by {
                assert(sa[k].x == sb[k].x && sa[k].y == sb[k].y);
            }
        }
        if shape_fits(sb, occ, columns, x, y) {
            assert forall|k: int| 0 <= k < sa.len() implies !occ[cell_index(columns, x + (#[trigger] sa[k]).x, y + sa[k].y)] by {
                assert(sa[k].x == sb[k].x && sa[k].y == sb[k].y);
            }
        }
    }
    if fits_empty_grid(a, config) {
        let (x, y) = choose|x: int, y: int| grid_spot(sa, occ, columns, rows, bw, bh, x, y);
        assert(grid_spot(sb, occ, columns, rows, bw, bh, x, y));
    }
    if fits_empty_grid(b, config) {
        let (x, y) = choose|x: int, y: int| grid_spot(sb, occ, columns, rows, bw, bh, x, y);
        assert(grid_spot(sa, occ, columns, rows, bw, bh, x, y));
    }
}

pub open spec fn in_bounds_of(s: PreparedSprite, x: int, y: int) -> bool {
    crate::atlas::pixels::in_bounds(s.image, x, y)
}

/// Saying the same is transitive.
pub proof fn lemma_same_sprite_trans(a: PreparedSprite, b: PreparedSprite, c: PreparedSprite)
    requires
        same_sprite(a, b),
        same_sprite(b, c),
    ensures
        same_sprite(a, c),
{
    assert forall|k: int| 0 <= k < a.grid_slices@.len() implies same_slice(
        #[trigger] a.grid_slices@[k],
        c.grid_slices@[k],
    ) by {
        assert(same_slice(a.grid_slices@[k], b.grid_slices@[k]));
        assert(same_slice(b.grid_slices@[k], c.grid_slices@[k]));
    }
    assert forall|x: int, y: int| crate::atlas::pixels::in_bounds(a.image, x, y) implies #[trigger] crate::atlas::pixels::pixel_at(a.image, x, y)
        == crate::atlas::pixels::pixel_at(c.image, x, y) by {
        assert(crate::atlas::pixels::in_bounds(b.image, x, y));
    }
}

/// A copy of every sprite, in order.
pub fn clone_sprites(sprites: &[PreparedSprite]) -> (c: Vec<PreparedSprite>)
    ensures
        c@.len() == sprites@.len(),
        forall|k: int| 0 <= k < c@.len() ==> same_sprite(#[trigger] c@[k], sprites@[k]),
        sprite_ids(c@) == sprite_ids(sprites@),
{
    let mut c: Vec<PreparedSprite> = Vec::new();
    let mut i: usize = 0;
    while i < sprites.len()
        invariant
            i <= sprites@.len(),
            c@.len() == i,
            forall|k: int| 0 <= k < i ==> same_sprite(#[trigger] c@[k], sprites@[k]),
            c@.map_values(|s: PreparedSprite| sprite_key(s)) == sprites@.take(i as int).map_values(|s: PreparedSprite| sprite_key(s)),
        decreases sprites@.len() - i,
    {
        c.push(sprites[i].clone());
        assert(c@.map_values(|s: PreparedSprite| sprite_key(s)) =~= sprites@.take(i + 1).map_values(|s: PreparedSprite| sprite_key(s)));
        i += 1;
    }
    assert(sprites@.take(sprites@.len() as int) == sprites@);
    c
}


/// The largest extent a placement can reach in any bin that is tried.
pub open spec fn extent_limit(config: PackConfig) -> u32 {
    if config.align_to_grid {
        max_u32(config.max_size, grid_cell(config))
    } else {
        config.max_size
    }
}

pub(crate) proof fn lemma_pow2_within_doublings(m: nat, i: nat)
    requires
        i < doublings(m),
    ensures
        pow2(i) <= m,
    decreases i,
{
    vstd::arithmetic::power2::lemma_pow2_pos(i);
    if i == 0 {
        vstd::arithmetic::power2::lemma2_to64();
    } else {
        vstd::arithmetic::power2::lemma_pow2_unfold(i);
        lemma_pow2_within_doublings(m / 2, (i - 1) as nat);
    }
}

pub(crate) proof fn lemma_at_most_positive(s: Seq<u32>, max: u32)
    requires
        forall|k: int| 0 <= k < s.len() ==> #[trigger] s[k] >= 1,
    ensures
        forall|k: int| 0 <= k < at_most(s, max).len() ==> #[trigger] at_most(s, max)[k] >= 1,
    decreases s.len(),
{
    if s.len() > 0 {
        let init = s.drop_last();
        assert(forall|k: int| 0 <= k < init.len() ==> init[k] == s[k]);
        lemma_at_most_positive(init, max);
        let prev = at_most(init, max);
        if s.last() <= max {
            assert forall|k: int| 0 <= k < at_most(s, max).len() implies #[trigger] at_most(s, max)[k] >= 1 by {
                if k < prev.len() {
                    assert(at_most(s, max)[k] == prev[k]);
                }
            }
        }
    }
}

/// Every bin side tried is positive, within the extent limit and, with grid
/// alignment, at most the largest number of cells wide.
pub(crate) proof fn lemma_bin_sides_bounds(config: PackConfig)
    requires
        config.max_size >= 1,
    ensures
        forall|b: int|
            0 <= b < bin_sides(config).len() ==> {
                &&& 1 <= #[trigger] bin_sides(config)[b] <= extent_limit(config)
                &&& config.align_to_grid ==> grid_columns(bin_sides(config)[b], config) <= grid_max_cells(config)
                &&& config.align_to_grid ==> (bin_sides(config)[b] as int) % (grid_cell(config) as int) == 0
            },
{
    let cell = grid_cell(config);
    let m = grid_max_cells(config);
    lemma_grid_span_fits(config.max_size, cell);
    if config.align_to_grid {
        assert forall|b: int| 0 <= b < bin_sides(config).len() implies {
            &&& 1 <= #[trigger] bin_sides(config)[b] <= extent_limit(config)
            &&& grid_columns(bin_sides(config)[b], config) <= grid_max_cells(config)
            &&& (bin_sides(config)[b] as int) % (grid_cell(config) as int) == 0
        } by {
            let k: int = if config.power_of_two {
                lemma_pow2_within_doublings(m as nat, b as nat);
                vstd::arithmetic::power2::lemma_pow2_pos(b as nat);
                pow2(b as nat) as int
            } else {
                b + 1
            };
            assert(1 <= k <= m);
            assert(k * cell <= m * cell && k * cell >= 1 && (k * cell) / (cell as int) == k) by (nonlinear_arith)
                requires
                    1 <= k <= m,
                    cell >= 1,
            ;
            assert(bin_sides(config)[b] == k * cell);
            vstd::arithmetic::div_mod::lemma_mod_multiples_basic(k, cell as int);
        }
    } else if config.power_of_two {
        lemma_at_most_bounded(standard_sizes(), config.max_size);
        lemma_at_most_positive(standard_sizes(), config.max_size);
    }
}

pub(crate) proof fn lemma_ceil_pow2_bounds(v: nat, k: nat)
    requires
        v <= pow2(k),
    ensures
        1 <= ceil_pow2(v) <= pow2(k),
        v <= ceil_pow2(v),
    decreases v,
{
    vstd::arithmetic::power2::lemma_pow2_pos(k);
    if v > 1 {
        if k == 0 {
            vstd::arithmetic::power2::lemma2_to64();
        } else {
            vstd::arithmetic::power2::lemma_pow2_unfold(k);
            lemma_ceil_pow2_bounds(((v + 1) / 2) as nat, (k - 1) as nat);
        }
    }
}

pub(crate) proof fn lemma_extent_bounded(ps: Seq<Placement>, bound: u32)
    requires
        placements_within(ps, bound, bound),
    ensures
        0 <= max_right(ps) <= bound,
        0 <= max_bottom(ps) <= bound,
    decreases ps.len(),
{
    if ps.len() > 0 {
        let init = ps.drop_last();
        assert(placements_within(init, bound, bound)) by {
            assert forall|i: int| 0 <= i < init.len() implies (#[trigger] init[i]).rect.edges_fit()
                && init[i].rect.within(bound as int, bound as int) by {
                assert(init[i] == ps[i]);
            }
        }
        lemma_extent_bounded(init, bound);
        assert(ps.last() == ps[ps.len() - 1]);
    }
}

/// Rounding an extent of at most `2^31` stays where the square rounding can
/// follow it.
pub(crate) proof fn lemma_round_side_ok(v: u32, config: PackConfig)
    requires
        v <= 0x8000_0000 || (config.align_to_grid && grid_cell(config) >= 2),
    ensures
        round_side_ok(v, config),
        round_side(v, config) <= u32::MAX,
        config.power_of_two ==> round_side_ok(round_side(v, config), config),
{
    let cell = grid_cell(config);
    vstd::arithmetic::power2::lemma2_to64();
    vstd::arithmetic::power2::lemma2_to64_rest();
    if config.align_to_grid {
        let c = ceil_div(v as int, cell as int);
        assert(c <= v && c >= 0) by (nonlinear_arith)
            requires
                c == (v + cell - 1) / (cell as int),
                cell >= 1,
        ;
        assert(c <= 0x8000_0000) by (nonlinear_arith)
            requires
                c == (v + cell - 1) / (cell as int),
                c <= v,
                v <= 0xffff_ffff,
                v <= 0x8000_0000 || cell >= 2,
                cell >= 1,
        ;
        let cells = max_u32(c as u32, 1);
        if config.power_of_two {
            assert(pow2(31) == 0x8000_0000);
            lemma_ceil_pow2_bounds(cells as nat, 31);
            let p = ceil_pow2(cells as nat);
            let w = saturating_product(p as u32, cell);
            assert(w <= p * cell) by (nonlinear_arith)
                requires
                    w == (if p * cell > u32::MAX { u32::MAX as int } else { p * cell }),
                    p >= 1,
                    cell >= 1,
            ;
            let c2 = ceil_div(w as int, cell as int);
            assert(0 <= c2 <= p) by (nonlinear_arith)
                requires
                    c2 == (w + cell - 1) / (cell as int),
                    w <= p * cell,
                    w >= 0,
                    cell >= 1,
            ;
        }
    } else if config.power_of_two {
        assert(pow2(31) == 0x8000_0000);
        lemma_ceil_pow2_bounds(max_u32(v, 1) as nat, 31);
    }
}

/// Placements within `bound` (at most `2^31` where rounding to powers of two)
/// can be sized by `finalize_atlas_size`.
pub(crate) proof fn lemma_finalize_ok(ps: Seq<Placement>, config: PackConfig, bound: u32)
    requires
        bound >= 1,
        placements_within(ps, bound, bound),
        pixel_pow2(config) ==> bound <= 0x8000_0000 || reach_within(ps, 0x8000_0000),
        content_sum(ps, config) <= u64::MAX,
    ensures
        finalize_ok(ps, config),
{
    lemma_extent_bounded(ps, bound);
    lemma_max_edges(ps);
    let (uw, uh) = used_extent(ps);
    if ps.len() > 0 && pixel_pow2(config) && reach_within(ps, 0x8000_0000) {
        let ir = choose|i: int| 0 <= i < ps.len() && max_right(ps) == (#[trigger] ps[i]).rect.right_edge();
        let ib = choose|i: int| 0 <= i < ps.len() && max_bottom(ps) == (#[trigger] ps[i]).rect.bottom_edge();
        assert(ps[ir].rect.right_edge() <= 0x8000_0000);
        assert(ps[ib].rect.bottom_edge() <= 0x8000_0000);
    }
    if config.power_of_two {
        lemma_round_side_ok(uw, config);
        lemma_round_side_ok(uh, config);
        let w = round_side(uw, config);
        let h = round_side(uh, config);
        if w >= h {
            assert(max_u32(w, h) == w);
        } else {
            assert(max_u32(w, h) == h);
        }
    }
}


pub(crate) proof fn lemma_builds_ids_push(builds: Seq<AtlasBuild>, b: AtlasBuild)
    ensures
        builds_ids(builds.push(b)) == builds_ids(builds).add(placement_ids(b.placements@)),
{
    assert(builds.push(b).drop_last() == builds);
}

/// Some sprite of `part` says the same as `w`.
pub open spec fn found_in(part: Seq<PreparedSprite>, w: PreparedSprite) -> bool {
    exists|k: int| 0 <= k < part.len() && #[trigger] same_sprite(part[k], w)
}

/// Each sprite of `whole` has a counterpart in `part`.
pub open spec fn covers(part: Seq<PreparedSprite>, whole: Seq<PreparedSprite>) -> bool {
    forall|j: int| 0 <= j < whole.len() ==> found_in(part, #[trigger] whole[j])
}

/// A reordering keeps descent and coverage.
pub(crate) proof fn lemma_permuted(a: Seq<PreparedSprite>, b: Seq<PreparedSprite>, whole: Seq<PreparedSprite>)
    requires
        a.to_multiset() == b.to_multiset(),
    ensures
        a.len() == b.len(),
        descends(b, whole) ==> descends(a, whole),
        covers(b, whole) ==> covers(a, whole),
{
    a.to_multiset_ensures();
    b.to_multiset_ensures();
    if descends(b, whole) {
        assert forall|k: int| 0 <= k < a.len() implies matched_in(#[trigger] a[k], whole) by {
            assert(a.contains(a[k]));
            assert(b.to_multiset().count(a[k]) > 0);
            assert(b.contains(a[k]));
            let m = choose|m: int| 0 <= m < b.len() && b[m] == a[k];
            assert(matched_in(b[m], whole));
        }
    }
    if covers(b, whole) {
        assert forall|j: int| 0 <= j < whole.len() implies found_in(a, #[trigger] whole[j]) by {
            assert(found_in(b, whole[j]));
            let m = choose|m: int| 0 <= m < b.len() && #[trigger] same_sprite(b[m], whole[j]);
            assert(b.contains(b[m]));
            assert(a.to_multiset().count(b[m]) > 0);
            assert(a.contains(b[m]));
            let k = choose|k: int| 0 <= k < a.len() && a[k] == b[m];
            assert(same_sprite(a[k], whole[j]));
        }
    }
}

/// A copy, element by element, descends from and covers the original.
pub(crate) proof fn lemma_copy_descends(c: Seq<PreparedSprite>, whole: Seq<PreparedSprite>)
    requires
        c.len() == whole.len(),
        forall|k: int| 0 <= k < c.len() ==> same_sprite(#[trigger] c[k], whole[k]),
    ensures
        descends(c, whole),
        covers(c, whole),
{
    assert forall|k: int| 0 <= k < c.len() implies matched_in(#[trigger] c[k], whole) by {
        assert(same_sprite(c[k], whole[k]));
    }
    assert forall|j: int| 0 <= j < whole.len() implies found_in(c, #[trigger] whole[j]) by {
        assert(same_sprite(c[j], whole[j]));
    }
}

/// Descent is transitive.
pub(crate) proof fn lemma_descends_trans(a: Seq<PreparedSprite>, b: Seq<PreparedSprite>, c: Seq<PreparedSprite>)
    requires
        descends(a, b),
        descends(b, c),
    ensures
        descends(a, c),
{
    assert forall|k: int| 0 <= k < a.len() implies matched_in(#[trigger] a[k], c) by {
        assert(matched_in(a[k], b));
        let j = choose|j: int| 0 <= j < b.len() && #[trigger] same_sprite(a[k], b[j]);
        assert(matched_in(b[j], c));
        let i = choose|i: int| 0 <= i < c.len() && #[trigger] same_sprite(b[j], c[i]);
        lemma_same_sprite_trans(a[k], b[j], c[i]);
    }
}

/// Sprites that descend from a group's sprites, with no more content, can be
/// packed as the group's can.
pub(crate) proof fn lemma_descends_ok(part: Seq<PreparedSprite>, whole: Seq<PreparedSprite>, config: PackConfig)
    requires
        group_pack_ok(whole, config),
        descends(part, whole),
        part.len() <= whole.len(),
        sprites_content(part, config) <= sprites_content(whole, config),
    ensures
        group_pack_ok(part, config),
{
    lemma_sides_bound(whole, config, 0);
    assert forall|i: int| 0 <= i < part.len() implies required_dims(#[trigger] part[i], config).0
        + required_dims(part[i], config).1 <= sides_bound(whole, config) by {
        assert(matched_in(part[i], whole));
        let j = choose|j: int| 0 <= j < whole.len() && #[trigger] same_sprite(part[i], whole[j]);
        lemma_same_sprite_alike(part[i], whole[j], config);
    }
    lemma_sides_bound(part, config, sides_bound(whole, config));
    assert(part.len() * sides_bound(part, config) <= whole.len() * sides_bound(whole, config)) by (nonlinear_arith)
        requires
            0 <= part.len() <= whole.len(),
            0 <= sides_bound(part, config) <= sides_bound(whole, config),
    ;
    assert forall|i: int| 0 <= i < part.len() implies sprite_sizes_fit(#[trigger] part[i], config)
        && part[i].padded_fits() && (slicing(config) ==> slices_in_bbox(part[i], config)) by {
        assert(matched_in(part[i], whole));
        let j = choose|j: int| 0 <= j < whole.len() && #[trigger] same_sprite(part[i], whole[j]);
        lemma_same_sprite_alike(part[i], whole[j], config);
        assert(whole[j].padded_fits());
        assert(sprite_sizes_fit(whole[j], config));
    }
}

/// A group's sprites can be packed in every bin that is tried, and every bin
/// tried reaches at most the extent limit.
pub(crate) proof fn lemma_round_ok(round: Seq<PreparedSprite>, config: PackConfig)
    requires
        group_pack_ok(round, config),
    ensures
        forall|b: int|
            0 <= b < bin_sides(config).len() ==> pack_ok(
                round,
                #[trigger] bin_sides(config)[b],
                bin_sides(config)[b],
                config,
            ),
        pack_ok(round, config.max_size, config.max_size, config),
        forall|b: int|
            0 <= b < bin_sides(config).len() ==> 1 <= bin_extent(#[trigger] bin_sides(config)[b], config) <= extent_limit(config),
        1 <= bin_extent(config.max_size, config) <= extent_limit(config),
{
    lemma_bin_sides_bounds(config);
    lemma_grid_span_fits(config.max_size, grid_cell(config));
    let m = grid_max_cells(config);
    if slicing(config) {
        assert forall|b: int| 0 <= b < bin_sides(config).len() implies pack_ok(
            round,
            #[trigger] bin_sides(config)[b],
            bin_sides(config)[b],
            config,
        ) by {
            let c = grid_columns(bin_sides(config)[b], config);
            assert(c * c <= m * m) by (nonlinear_arith)
                requires
                    c <= m,
                    c >= 0,
            ;
        }
        assert(grid_columns(config.max_size, config) == m);
    }
}

/// When a round places nothing in the largest bin, the first sprite's cell
/// shape does not fit an empty grid (and that happens only with slicing).
pub(crate) proof fn lemma_nothing_placed(round: Seq<PreparedSprite>, config: PackConfig)
    requires
        round.len() > 0,
        forall|i: int| 0 <= i < round.len() ==> fits_max_size(#[trigger] round[i], config),
        placed_indices(pack_outcomes(round, config.max_size, config.max_size, config)).len() == 0,
    ensures
        slicing(config),
        !fits_empty_grid(round[0], config),
{
    let o = pack_outcomes(round, config.max_size, config.max_size, config);
    lemma_no_leftover(o);
    assert(o[0] is None);
    let s0 = round[0];
    assert(fits_max_size(s0, config));
    if !slicing(config) {
        let cands = crate::atlas::maxrects::orientations(
            required_dims(s0, config).0,
            required_dims(s0, config).1,
            config.allow_rotation,
        );
        let dims = pack_dims(round, config);
        assert(dims[0] == required_dims(s0, config));
        assert(frees_after(empty_bin(config.max_size, config.max_size), dims, config.allow_rotation, 0)
            == empty_bin(config.max_size, config.max_size));
        assert(crate::atlas::maxrects::is_slot(empty_bin(config.max_size, config.max_size), cands, 0, 0));
    }
}

/// The sprites left over from a round descend from the round's sprites.
pub(crate) proof fn lemma_leftover_descends(
    round: Seq<PreparedSprite>,
    leftover: Seq<PreparedSprite>,
    placements: Seq<Placement>,
    config: PackConfig,
)
    requires
        split_by_outcome(round, pack_outcomes(round, config.max_size, config.max_size, config), placements, leftover),
    ensures
        descends(leftover, round),
        placements.len() + leftover.len() == round.len(),
{
    let o = pack_outcomes(round, config.max_size, config.max_size, config);
    lemma_indices_in_range(o);
    let li = leftover_indices(o);
    assert forall|k: int| 0 <= k < leftover.len() implies matched_in(#[trigger] leftover[k], round) by {
        assert(same_sprite(leftover[k], round[li[k]]));
        assert(0 <= li[k] < round.len());
    }
}

/// One round of a group. Every sprite must fit the largest atlas; then all of
/// them go into the smallest candidate bin that holds them all, or else as
/// many as fit go into the largest bin and the rest, sorted again, is left
/// for the next round.
#[verifier::spinoff_prover]
pub(crate) fn pack_round(round: Vec<PreparedSprite>, config: PackConfig) -> (r: Result<
    (Vec<Placement>, u32, Vec<PreparedSprite>),
    PackError,
>)
    requires
        round@.len() > 0,
        group_pack_ok(round@, config),
    ensures
        (exists|j: int| 0 <= j < round@.len() && !fits_max_size(#[trigger] round@[j], config))
            ==> r matches Err(PackError::TooLarge { .. }),
        r matches Err(e) ==> match e {
            PackError::TooLarge { rel_path, width, height, max_size } => exists|j: int|
                {
                    &&& 0 <= j < round@.len()
                    &&& !fits_max_size(#[trigger] round@[j], config)
                    &&& rel_path@ == round@[j].rel_path@
                    &&& width == required_dims(round@[j], config).0
                    &&& height == required_dims(round@[j], config).1
                    &&& max_size == config.max_size
                },
            PackError::Unpackable { rel_path, max_size } => {
                &&& slicing(config)
                &&& max_size == config.max_size
                &&& !fits_empty_grid(round@[0], config)
                &&& rel_path@ == round@[0].rel_path@
            },
            _ => false,
        },
        r matches Ok((ps, bin, rest)) ==> {
            &&& forall|j: int| 0 <= j < round@.len() ==> fits_max_size(#[trigger] round@[j], config)
            &&& ps@.len() > 0
            &&& rest@.len() < round@.len()
            &&& descends(rest@, round@)
            &&& placement_ids(ps@).add(sprite_ids(rest@)) == sprite_ids(round@)
            &&& content_sum(ps@, config) + sprites_content(rest@, config) == sprites_content(round@, config)
            &&& 1 <= bin
            &&& atlas_bin(bin, config)
            &&& 1 <= bin_extent(bin, config) <= extent_limit(config)
            &&& placements_within(ps@, bin_extent(bin, config), bin_extent(bin, config))
            &&& !slicing(config) ==> placements_disjoint_in(ps@, bin, bin)
            &&& !slicing(config) ==> reach_within(ps@, round@.len() * sides_bound(round@, config))
        },
        r matches Ok((ps, bin, rest)) ==> round_result(round@, ps@, bin, rest@, config),
        r matches Err(e) ==> round_failure(round@, e, config),
        r matches Ok((ps, bin, rest)) ==> grid_snaps(config) ==> {
            &&& (bin as int) % (grid_cell(config) as int) == 0
            &&& forall|i: int| 0 <= i < ps@.len() ==> on_grid((#[trigger] ps@[i]).rect, grid_cell(config) as int)
        },
{
    proof {
        lemma_round_ok(round@, config);
        lemma_bin_sides_bounds(config);
    }
    match ensure_sprites_fit_max_size(round.as_slice(), config) {
        Err(e) => {
            return Err(e);
        },
        Ok(()) => {},
    }
    match try_pack_all_smallest(round.as_slice(), config) {
        Some((placements, bin, _)) => {
            let rest: Vec<PreparedSprite> = Vec::new();
            proof {
                broadcast use vstd::multiset::group_multiset_axioms;
                let b = choose|b: int|
                    {
                        &&& 0 <= b < bin_sides(config).len()
                        &&& bin == bin_sides(config)[b]
                        &&& packs_all(round@, bin, config)
                        &&& forall|b2: int| 0 <= b2 < b ==> !packs_all(round@, #[trigger] bin_sides(config)[b2], config)
                        &&& split_by_outcome(round@, pack_outcomes(round@, bin, bin, config), placements@, Seq::empty())
                    };
                assert(bin_sides(config).contains(bin));
                lemma_sprite_ids_empty();
                assert(rest@ == Seq::<PreparedSprite>::empty());
                assert(placement_ids(placements@).add(sprite_ids(rest@)) =~= sprite_ids(round@));
                assert(packs_all(round@, bin_sides(config)[b], config));
                assert(round_result(round@, placements@, bin, rest@, config));
                if grid_snaps(config) {
                    assert((bin as int) % (grid_cell(config) as int) == 0);
                    assert(on_grid_bin(bin, bin, config));
                }
            }
            return Ok((placements, bin, rest));
        },
        None => {},
    }
    let (placements, leftover, bin, _) = pack_partial(
        round.as_slice(),
        config.max_size,
        config.max_size,
        config,
    );
    if placements.len() == 0 {
        proof {
            lemma_nothing_placed(round@, config);
            assert(round@.len() > 0);
        }
        return Err(
            PackError::Unpackable { rel_path: round[0].rel_path.clone(), max_size: config.max_size },
        );
    }
    proof {
        lemma_leftover_descends(round@, leftover@, placements@, config);
        lemma_content_sum_monotone(placements@, config, 0);
        lemma_descends_ok(leftover@, round@, config);
    }
    let ghost left = leftover@;
    let rest = sort_by_area_desc(leftover, config);
    proof {
        lemma_permuted(rest@, leftover@, round@);
        assert(split_by_outcome(round@, pack_outcomes(round@, bin, bin, config), placements@, left));
        assert(rest@ == by_area_desc(left, config));
    }
    Ok((placements, bin, rest))
}

/// Why packing the group's sprites failed: a sprite larger than the size
/// limit, or with cut cells, one whose cell shape fits no empty atlas.
pub open spec fn group_error(e: PackError, sprites: Seq<PreparedSprite>, config: PackConfig) -> bool {
    match e {
        PackError::TooLarge { rel_path, width, height, max_size } => exists|j: int|
            {
                &&& 0 <= j < sprites.len()
                &&& !fits_max_size(#[trigger] sprites[j], config)
                &&& rel_path@ == sprites[j].rel_path@
                &&& width == required_dims(sprites[j], config).0
                &&& height == required_dims(sprites[j], config).1
                &&& max_size == config.max_size
            },
        PackError::Unpackable { rel_path, max_size } => {
            &&& slicing(config)
            &&& max_size == config.max_size
            &&& exists|j: int|
                {
                    &&& 0 <= j < sprites.len()
                    &&& !fits_empty_grid(#[trigger] sprites[j], config)
                    &&& rel_path@ == sprites[j].rel_path@
                }
        },
        _ => false,
    }
}


// ---------------------------------------------------------------------------
// The rounds of a group, exactly
// ---------------------------------------------------------------------------

/// Two sequences of sprites say the same, element by element.
pub open spec fn alike(a: Seq<PreparedSprite>, b: Seq<PreparedSprite>) -> bool {
    &&& a.len() == b.len()
    &&& forall|k: int| 0 <= k < a.len() ==> same_sprite(#[trigger] a[k], b[k])
}

/// What one round gives for the sprites still to pack, `round`: when every
/// sprite fits the size limit, either all of them go into the smallest
/// candidate bin that holds them all, and nothing is left; or, when no
/// candidate bin holds them all, those that fit go into the largest bin (at
/// least one), and the others, sorted again, are left for the next round.
pub open spec fn round_result(
    round: Seq<PreparedSprite>,
    placements: Seq<Placement>,
    bin: u32,
    next: Seq<PreparedSprite>,
    config: PackConfig,
) -> bool {
    let sides = bin_sides(config);
    &&& forall|j: int| 0 <= j < round.len() ==> fits_max_size(#[trigger] round[j], config)
    &&& if exists|b: int| 0 <= b < sides.len() && #[trigger] packs_all(round, sides[b], config) {
        &&& exists|b: int|
            {
                &&& 0 <= b < sides.len()
                &&& bin == sides[b]
                &&& #[trigger] packs_all(round, sides[b], config)
                &&& forall|b2: int| 0 <= b2 < b ==> !packs_all(round, #[trigger] sides[b2], config)
            }
        &&& split_by_outcome(round, pack_outcomes(round, bin, bin, config), placements, Seq::empty())
        &&& next.len() == 0
    } else {
        &&& bin == config.max_size
        &&& placements.len() > 0
        &&& exists|leftover: Seq<PreparedSprite>|
            {
                &&& split_by_outcome(round, pack_outcomes(round, bin, bin, config), placements, leftover)
                &&& next == #[trigger] by_area_desc(leftover, config)
            }
    }
}

/// The error a round stops with: the first sprite (in the round's order)
/// that exceeds the size limit; or, when all fit but no candidate bin holds
/// them all and nothing fits in the largest bin, the round's first sprite.
pub open spec fn round_failure(round: Seq<PreparedSprite>, e: PackError, config: PackConfig) -> bool {
    let sides = bin_sides(config);
    match e {
        PackError::TooLarge { rel_path, width, height, max_size } => exists|i: int|
            {
                &&& 0 <= i < round.len()
                &&& !fits_max_size(#[trigger] round[i], config)
                &&& forall|j: int| 0 <= j < i ==> fits_max_size(#[trigger] round[j], config)
                &&& rel_path@ == round[i].rel_path@
                &&& width == required_dims(round[i], config).0
                &&& height == required_dims(round[i], config).1
                &&& max_size == config.max_size
            },
        PackError::Unpackable { rel_path, max_size } => {
            &&& forall|j: int| 0 <= j < round.len() ==> fits_max_size(#[trigger] round[j], config)
            &&& forall|b: int| 0 <= b < sides.len() ==> !packs_all(round, #[trigger] sides[b], config)
            &&& placed_indices(pack_outcomes(round, config.max_size, config.max_size, config)).len() == 0
            &&& round.len() > 0
            &&& rel_path@ == round[0].rel_path@
            &&& max_size == config.max_size
        },
        _ => false,
    }
}

/// The build is what a round gives for `round`, leaving `next`.
pub open spec fn round_build(
    round: Seq<PreparedSprite>,
    b: AtlasBuild,
    next: Seq<PreparedSprite>,
    config: PackConfig,
) -> bool {
    exists|bin: u32| #[trigger] packed_in_bin(b, bin, config) && round_result(round, b.placements@, bin, next, config)
}

/// The builds are the rounds that go through `stages`: build `k` is what
/// a round gives for `stages[k]`, leaving `stages[k + 1]`.
pub open spec fn rounds_through(stages: Seq<Seq<PreparedSprite>>, builds: Seq<AtlasBuild>, config: PackConfig) -> bool {
    &&& stages.len() == builds.len() + 1
    &&& forall|k: int| 0 <= k < builds.len() ==> round_build(stages[k], #[trigger] builds[k], stages[k + 1], config)
}

/// The builds are the rounds that start from `start` and leave `end`.
pub open spec fn rounds_from(
    start: Seq<PreparedSprite>,
    builds: Seq<AtlasBuild>,
    end: Seq<PreparedSprite>,
    config: PackConfig,
) -> bool {
    exists|stages: Seq<Seq<PreparedSprite>>|
        {
            &&& #[trigger] rounds_through(stages, builds, config)
            &&& stages[0] == start
            &&& stages.last() == end
        }
}

/// The outcome of packing a group: its sprites, largest first, go round by
/// round into atlases until none is left (`Ok`), or a round fails (`Err`).
pub open spec fn group_outcome(
    sprites: Seq<PreparedSprite>,
    config: PackConfig,
    r: Result<Seq<AtlasBuild>, PackError>,
) -> bool {
    exists|start: Seq<PreparedSprite>|
        {
            &&& #[trigger] alike(start, by_area_desc(sprites, config))
            &&& match r {
                Ok(builds) => rounds_from(start, builds, Seq::empty(), config),
                Err(e) => exists|done: Seq<AtlasBuild>, mid: Seq<PreparedSprite>|
                    {
                        &&& #[trigger] rounds_from(start, done, mid, config)
                        &&& mid.len() > 0
                        &&& round_failure(mid, e, config)
                    },
            }
        }
}

/// A round continues the rounds before it.
pub proof fn lemma_rounds_step(
    stages: Seq<Seq<PreparedSprite>>,
    builds: Seq<AtlasBuild>,
    b: AtlasBuild,
    end: Seq<PreparedSprite>,
    config: PackConfig,
)
    requires
        rounds_through(stages, builds, config),
        round_build(stages.last(), b, end, config),
    ensures
        rounds_through(stages.push(end), builds.push(b), config),
        stages.push(end)[0] == stages[0],
        stages.push(end).last() == end,
{
    let ns = stages.push(end);
    let nb = builds.push(b);
    assert forall|k: int| 0 <= k < nb.len() implies round_build(ns[k], #[trigger] nb[k], ns[k + 1], config) by {
        if k < builds.len() {
            assert(nb[k] == builds[k]);
        }
    }
}

/// Sprites that say the same need the same area.
proof fn lemma_same_area(a: PreparedSprite, b: PreparedSprite, config: PackConfig)
    requires
        same_sprite(a, b),
    ensures
        required_area(a, config) == required_area(b, config),
{
    lemma_same_sprite_alike(a, b, config);
}

proof fn lemma_alike_count(a: Seq<PreparedSprite>, b: Seq<PreparedSprite>, key: int, config: PackConfig)
    requires
        alike(a, b),
    ensures
        count_at_least(a, key, config) == count_at_least(b, key, config),
        count_at_least(a, key, config) <= a.len(),
    decreases a.len(),
{
    if a.len() > 0 {
        lemma_alike_count(a.drop_last(), b.drop_last(), key, config);
        lemma_same_area(a.last(), b.last(), config);
    }
}

/// Sorting sprites that say the same gives sprites that say the same.
pub proof fn lemma_alike_by_area(a: Seq<PreparedSprite>, b: Seq<PreparedSprite>, config: PackConfig)
    requires
        alike(a, b),
    ensures
        alike(by_area_desc(a, config), by_area_desc(b, config)),
        by_area_desc(a, config).len() == a.len(),
    decreases a.len(),
{
    if a.len() > 0 {
        let sa = by_area_desc(a.drop_last(), config);
        let sb = by_area_desc(b.drop_last(), config);
        lemma_alike_by_area(a.drop_last(), b.drop_last(), config);
        lemma_same_area(a.last(), b.last(), config);
        let key = required_area(a.last(), config);
        lemma_alike_count(sa, sb, key, config);
        let p = count_at_least(sa, key, config) as int;
        sa.insert_ensures(p, a.last());
        sb.insert_ensures(p, b.last());
        let ra = sa.insert(p, a.last());
        let rb = sb.insert(p, b.last());
        assert forall|k: int| 0 <= k < ra.len() implies same_sprite(#[trigger] ra[k], rb[k]) by {
            if k > p {
                assert(ra[k] == sa[k - 1]);
                assert(rb[k] == sb[k - 1]);
            } else if k < p {
                assert(ra[k] == sa[k]);
            }
        }
    }
}


/// An atlas is large enough for what was placed in it: every placed
/// rectangle lies within the atlas image (unless, with cut cells, the bin is
/// narrower than one cell, so that cell boxes stick out of it).
pub proof fn lemma_build_holds_placements(b: AtlasBuild, bin: u32, config: PackConfig)
    requires
        packed_in_bin(b, bin, config),
        slicing(config) ==> bin >= grid_cell(config),
    ensures
        forall|i: int|
            0 <= i < b.placements@.len() ==> (#[trigger] b.placements@[i]).rect.within(b.width as int, b.height as int),
{
    let ps = b.placements@;
    lemma_max_edges(ps);
    assert(bin_extent(bin, config) == bin);
    if ps.len() > 0 {
        let ir = choose|i: int| 0 <= i < ps.len() && max_right(ps) == (#[trigger] ps[i]).rect.right_edge();
        let ib = choose|i: int| 0 <= i < ps.len() && max_bottom(ps) == (#[trigger] ps[i]).rect.bottom_edge();
        assert(ps[ir].rect.within(bin as int, bin as int));
        assert(ps[ib].rect.within(bin as int, bin as int));
        let ext = used_extent(ps);
        assert(ext.0 == max_right(ps) && ext.1 == max_bottom(ps));
        let w = round_side(ext.0, config);
        let h = round_side(ext.1, config);
        lemma_round_side_at_least(ext.0, config);
        lemma_round_side_at_least(ext.1, config);
        if config.square {
            lemma_round_side_at_least(max_u32(w, h), config);
        }
        assert forall|i: int| 0 <= i < ps.len() implies (#[trigger] ps[i]).rect.within(b.width as int, b.height as int) by {
            assert(ps[i].rect.within(bin as int, bin as int));
        }
    }
}

/// Lays a group's sprites out over as many atlases as needed, numbered from
/// `start_index`: each round packs everything into the smallest candidate
/// bin that holds it all, or else as much as fits in the largest bin.
#[verifier::spinoff_prover]
pub fn build_atlases_for_group(
    group_name: &str,
    sprites: &[PreparedSprite],
    config: PackConfig,
    start_index: usize,
) -> (r: Result<Vec<AtlasBuild>, PackError>)
    requires
        group_pack_ok(sprites@, config),
        start_index + sprites@.len() <= usize::MAX,
    ensures
        (exists|j: int| 0 <= j < sprites@.len() && !fits_max_size(#[trigger] sprites@[j], config))
            ==> r matches Err(PackError::TooLarge { .. }),
        r matches Err(e) ==> group_error(e, sprites@, config),
        r matches Ok(builds) ==> {
            &&& forall|j: int| 0 <= j < sprites@.len() ==> fits_max_size(#[trigger] sprites@[j], config)
            &&& builds@.len() <= sprites@.len()
            &&& builds_ids(builds@) == sprite_ids(sprites@)
            &&& forall|k: int|
                0 <= k < builds@.len() ==> build_ok(
                    #[trigger] builds@[k],
                    start_index + k,
                    group_name@,
                    config,
                )
        },
        group_outcome(
            sprites@,
            config,
            match r {
                Ok(builds) => Ok(builds@),
                Err(e) => Err(e),
            },
        ),
        r matches Ok(builds) ==> grid_snaps(config) ==> forall|k: int|
            0 <= k < builds@.len() ==> build_on_grid(#[trigger] builds@[k], config),
{
    let mut remaining = sorted_copies(sprites, config);
    let mut builds: Vec<AtlasBuild> = Vec::new();
    let mut local_index: usize = 0;
    let ghost start = remaining@;
    let ghost mut stages: Seq<Seq<PreparedSprite>> = seq![remaining@];
    assert(builds_ids(builds@).add(sprite_ids(remaining@)) == sprite_ids(sprites@)) by {
        broadcast use vstd::multiset::group_multiset_axioms;
        assert(builds_ids(builds@) =~= Multiset::empty());
        assert(builds_ids(builds@).add(sprite_ids(remaining@)) =~= sprite_ids(sprites@));
    }
    while remaining.len() > 0
        invariant
            group_pack_ok(sprites@, config),
            start_index + sprites@.len() <= usize::MAX,
            local_index == builds@.len(),
            builds@.len() + remaining@.len() <= sprites@.len(),
            descends(remaining@, sprites@),
            builds@.len() == 0 ==> covers(remaining@, sprites@),
            builds@.len() > 0 ==> forall|j: int|
                0 <= j < sprites@.len() ==> fits_max_size(#[trigger] sprites@[j], config),
            sprites_content(remaining@, config) <= sprites_content(sprites@, config),
            builds_ids(builds@).add(sprite_ids(remaining@)) == sprite_ids(sprites@),
            alike(start, by_area_desc(sprites@, config)),
            rounds_through(stages, builds@, config),
            stages[0] == start,
            stages.last() == remaining@,
            grid_snaps(config) ==> forall|k: int| 0 <= k < builds@.len() ==> build_on_grid(#[trigger] builds@[k], config),
            forall|k: int|
                0 <= k < builds@.len() ==> build_ok(
                    #[trigger] builds@[k],
                    start_index + k,
                    group_name@,
                    config,
                ),
        decreases remaining@.len(),
    {
        proof {
            lemma_descends_ok(remaining@, sprites@, config);
        }
        let ghost round = remaining@;
        let (placements, bin, rest) = match pack_round(remaining, config) {
            Ok(t) => t,
            Err(e) => {
                proof {
                    lemma_round_error(round, sprites@, config, e, builds@.len() == 0);
                    assert(rounds_from(start, builds@, round, config));
                    let rr: Result<Seq<AtlasBuild>, PackError> = Err(e);
                    assert(alike(start, by_area_desc(sprites@, config)));
                    assert(group_outcome(sprites@, config, rr));
                }
                return Err(e);
            },
        };
        proof {
            lemma_round_done(round, rest@, placements@, sprites@, config, builds@.len() == 0);
            lemma_content_sum_monotone(placements@, config, 0);
            lemma_sprites_content_nonneg(rest@, config);
        }
        proof {
            lemma_rounding_fits_build(round, placements@, bin, config);
        }
        let ghost before = builds@;
        let ghost rest_seq = rest@;
        let build = finish_build(group_name, placements, bin, config, start_index + local_index);
        proof {
            if grid_snaps(config) {
                assert(build_on_grid(build, config));
            }
            assert(round_build(round, build, rest_seq, config));
            lemma_rounds_step(stages, before, build, rest_seq, config);
            stages = stages.push(rest_seq);
        }
        builds.push(build);
        local_index += 1;
        remaining = rest;
        proof {
            broadcast use vstd::multiset::group_multiset_axioms;
            lemma_builds_ids_push(before, build);
            assert(builds_ids(builds@).add(sprite_ids(remaining@)) =~= sprite_ids(sprites@));
            assert forall|k: int| 0 <= k < builds@.len() implies build_ok(
                #[trigger] builds@[k],
                start_index + k,
                group_name@,
                config,
            ) by {
                if k < before.len() {
                    assert(builds@[k] == before[k]);
                }
            }
            if grid_snaps(config) {
                assert forall|k: int| 0 <= k < builds@.len() implies build_on_grid(#[trigger] builds@[k], config) by {
                    if k < before.len() {
                        assert(builds@[k] == before[k]);
                    }
                }
            }
        }
    }
    assert(builds_ids(builds@) == sprite_ids(sprites@)) by {
        broadcast use vstd::multiset::group_multiset_axioms;
        lemma_sprite_ids_empty();
        assert(remaining@ == Seq::<PreparedSprite>::empty());
        assert(builds_ids(builds@) =~= sprite_ids(sprites@));
    }
    proof {
        assert(remaining@ == Seq::<PreparedSprite>::empty());
        assert(rounds_from(start, builds@, Seq::empty(), config));
        let rr: Result<Seq<AtlasBuild>, PackError> = Ok(builds@);
        assert(group_outcome(sprites@, config, rr));
    }
    Ok(builds)
}

/// Sprites that say the same, in order, bring the same content.
pub(crate) proof fn lemma_alike_content(a: Seq<PreparedSprite>, b: Seq<PreparedSprite>, config: PackConfig)
    requires
        a.len() == b.len(),
        forall|k: int| 0 <= k < a.len() ==> same_sprite(#[trigger] a[k], b[k]),
    ensures
        sprites_content(a, config) == sprites_content(b, config),
    decreases a.len(),
{
    if a.len() > 0 {
        let ia = a.drop_last();
        let ib = b.drop_last();
        assert forall|k: int| 0 <= k < ia.len() implies same_sprite(#[trigger] ia[k], ib[k]) by {
            assert(same_sprite(a[k], b[k]));
        }
        lemma_alike_content(ia, ib, config);
        assert(same_sprite(a[a.len() - 1], b[b.len() - 1]));
        lemma_same_sprite_alike(a.last(), b.last(), config);
    }
}

/// Copies of the group's sprites, largest required area first.
fn sorted_copies(sprites: &[PreparedSprite], config: PackConfig) -> (r: Vec<PreparedSprite>)
    requires
        group_pack_ok(sprites@, config),
    ensures
        r@.len() == sprites@.len(),
        descends(r@, sprites@),
        covers(r@, sprites@),
        sprite_ids(r@) == sprite_ids(sprites@),
        sprites_content(r@, config) == sprites_content(sprites@, config),
        alike(r@, by_area_desc(sprites@, config)),
{
    let copies = clone_sprites(sprites);
    proof {
        lemma_copy_descends(copies@, sprites@);
        lemma_alike_content(copies@, sprites@, config);
        assert forall|i: int| 0 <= i < copies@.len() implies sprite_sizes_fit(#[trigger] copies@[i], config) by {
            lemma_same_sprite_alike(copies@[i], sprites@[i], config);
        }
    }
    let ghost copied = copies@;
    let sorted = sort_by_area_desc(copies, config);
    proof {
        assert(alike(copied, sprites@));
        lemma_alike_by_area(copied, sprites@, config);
    }
    proof {
        lemma_permuted(sorted@, copies@, sprites@);
    }
    sorted
}

/// A round's placements can have their size rounded: where sizes are
/// rounded to a power of two of pixels, the bin reaches at most 2^31, or the
/// placements do.
proof fn lemma_rounding_fits_build(round: Seq<PreparedSprite>, ps: Seq<Placement>, bin: u32, config: PackConfig)
    requires
        group_pack_ok(round, config),
        1 <= bin_extent(bin, config) <= extent_limit(config),
        !slicing(config) ==> reach_within(ps, round.len() * sides_bound(round, config)),
    ensures
        pixel_pow2(config) ==> bin_extent(bin, config) <= 0x8000_0000 || reach_within(ps, 0x8000_0000),
{
    if pixel_pow2(config) {
        if config.align_to_grid {
            assert(grid_cell(config) == 1);
            assert(grid_max_cells(config) == config.max_size);
        }
        if config.max_size > 0x8000_0000 {
            if slicing(config) {
                let m = config.max_size;
                assert(m * m > 0xffff_ffff) by (nonlinear_arith)
                    requires
                        m > 0x8000_0000,
                ;
            }
            assert forall|i: int| 0 <= i < ps.len() implies (#[trigger] ps[i]).rect.right_edge() <= 0x8000_0000
                && ps[i].rect.bottom_edge() <= 0x8000_0000 by {
                assert(ps[i].rect.right_edge() <= round.len() * sides_bound(round, config));
            }
        }
    }
}

/// The build for a round's placements in a `bin` x `bin` bin: its size
/// rounded and clamped to the bin, and its content counted.
fn finish_build(
    group_name: &str,
    placements: Vec<Placement>,
    bin: u32,
    config: PackConfig,
    atlas_index: usize,
) -> (b: AtlasBuild)
    requires
        pixel_pow2(config) ==> bin_extent(bin, config) <= 0x8000_0000 || reach_within(placements@, 0x8000_0000),
        placements@.len() > 0,
        1 <= bin,
        atlas_bin(bin, config),
        1 <= bin_extent(bin, config) <= extent_limit(config),
        placements_within(placements@, bin_extent(bin, config), bin_extent(bin, config)),
        !slicing(config) ==> placements_disjoint_in(placements@, bin, bin),
        content_sum(placements@, config) <= u64::MAX,
    ensures
        build_ok(b, atlas_index as int, group_name@, config),
        b.placements@ == placements@,
        packed_in_bin(b, bin, config),
        config.align_to_grid && (bin as int) % (grid_cell(config) as int) == 0 && (forall|i: int|
            0 <= i < placements@.len() ==> on_grid((#[trigger] placements@[i]).rect, grid_cell(config) as int))
            ==> build_on_grid(b, config),
{
    proof {
        lemma_finalize_ok(placements@, config, bin_extent(bin, config));
    }
    let (width, height, content_area) = finalize_atlas_size(placements.as_slice(), bin, bin, config);
    let b = AtlasBuild {
        atlas_index,
        group_name: String::from_str(group_name),
        width,
        height,
        placements,
        content_area,
    };
    assert(packed_in_bin(b, bin, config));
    proof {
        if config.align_to_grid && (bin as int) % (grid_cell(config) as int) == 0 && (forall|i: int|
            0 <= i < placements@.len() ==> on_grid((#[trigger] placements@[i]).rect, grid_cell(config) as int)) {
            lemma_build_on_grid(b, bin, config);
        }
    }
    b
}

/// A failed round fails the group, for a sprite of the group.
pub(crate) proof fn lemma_round_error(
    round: Seq<PreparedSprite>,
    sprites: Seq<PreparedSprite>,
    config: PackConfig,
    e: PackError,
    first: bool,
)
    requires
        round.len() > 0,
        descends(round, sprites),
        first ==> covers(round, sprites),
        !first ==> forall|j: int| 0 <= j < sprites.len() ==> fits_max_size(#[trigger] sprites[j], config),
        (exists|j: int| 0 <= j < round.len() && !fits_max_size(#[trigger] round[j], config)) ==> e is TooLarge,
        match e {
            PackError::TooLarge { rel_path, width, height, max_size } => exists|j: int|
                {
                    &&& 0 <= j < round.len()
                    &&& !fits_max_size(#[trigger] round[j], config)
                    &&& rel_path@ == round[j].rel_path@
                    &&& width == required_dims(round[j], config).0
                    &&& height == required_dims(round[j], config).1
                    &&& max_size == config.max_size
                },
            PackError::Unpackable { rel_path, max_size } => {
                &&& slicing(config)
                &&& max_size == config.max_size
                &&& !fits_empty_grid(round[0], config)
                &&& rel_path@ == round[0].rel_path@
            },
            _ => false,
        },
    ensures
        !(e is TooLarge) ==> forall|j: int| 0 <= j < sprites.len() ==> fits_max_size(#[trigger] sprites[j], config),
        group_error(e, sprites, config),
{
    match e {
        PackError::TooLarge { rel_path, width, height, max_size } => {
            let i = choose|i: int|
                {
                    &&& 0 <= i < round.len()
                    &&& !fits_max_size(#[trigger] round[i], config)
                    &&& rel_path@ == round[i].rel_path@
                    &&& width == required_dims(round[i], config).0
                    &&& height == required_dims(round[i], config).1
                    &&& max_size == config.max_size
                };
            assert(matched_in(round[i], sprites));
            let j = choose|j: int| 0 <= j < sprites.len() && #[trigger] same_sprite(round[i], sprites[j]);
            lemma_same_sprite_alike(round[i], sprites[j], config);
        },
        PackError::Unpackable { rel_path, max_size } => {
            assert(matched_in(round[0], sprites));
            let j = choose|j: int| 0 <= j < sprites.len() && #[trigger] same_sprite(round[0], sprites[j]);
            lemma_same_sprite_alike(round[0], sprites[j], config);
        },
        _ => {},
    }
    if !(e is TooLarge) && first {
        assert forall|j: int| 0 <= j < sprites.len() implies fits_max_size(#[trigger] sprites[j], config) by {
            assert(found_in(round, sprites[j]));
            let k = choose|k: int| 0 <= k < round.len() && #[trigger] same_sprite(round[k], sprites[j]);
            lemma_same_sprite_alike(round[k], sprites[j], config);
        }
    }
}

/// After a round, every sprite of the group fits the largest atlas and the
/// sprites left descend from the group's.
pub(crate) proof fn lemma_round_done(
    round: Seq<PreparedSprite>,
    rest: Seq<PreparedSprite>,
    placements: Seq<Placement>,
    sprites: Seq<PreparedSprite>,
    config: PackConfig,
    first: bool,
)
    requires
        descends(round, sprites),
        descends(rest, round),
        first ==> covers(round, sprites),
        !first ==> forall|j: int| 0 <= j < sprites.len() ==> fits_max_size(#[trigger] sprites[j], config),
        forall|j: int| 0 <= j < round.len() ==> fits_max_size(#[trigger] round[j], config),
    ensures
        descends(rest, sprites),
        forall|j: int| 0 <= j < sprites.len() ==> fits_max_size(#[trigger] sprites[j], config),
{
    lemma_descends_trans(rest, round, sprites);
    if first {
        assert forall|j: int| 0 <= j < sprites.len() implies fits_max_size(#[trigger] sprites[j], config) by {
            assert(found_in(round, sprites[j]));
            let k = choose|k: int| 0 <= k < round.len() && #[trigger] same_sprite(round[k], sprites[j]);
            lemma_same_sprite_alike(round[k], sprites[j], config);
        }
    }
}

} // verus!
