use vstd::prelude::*;
use vstd::arithmetic::power2::pow2;
use vstd::multiset::Multiset;

use crate::atlas::pixels::{height_of, width_of};
use crate::atlas::text::{decimal, decimal_string};
use crate::atlas::maxrects::{sides_total, all_on_grid, free_after, grid_side, insert_choice, is_best_slot, lemma_free_after_on_grid, lemma_orientations_on_grid, lemma_placed_on_grid, on_grid, orientations, placed_at, MaxRectsPacker};
use crate::atlas::types::{same_slice, same_sprite, AtlasBuild, GridSlice, 
    lemma_u32_product_fits_u64, max_u32, saturating_mul_u32, saturating_product, PackConfig,
    Placement, PreparedSprite, Rect,
};

use crate::atlas::packer::finish::{content_sum, sprites_content};
use crate::atlas::packer::order::{lemma_ids_empty, lemma_ids_step, placement_ids, sprite_ids};
use crate::atlas::packer::sizes::{all_padded_fit, ceil_div, grid_cell, lemma_sides_bound, reach_within, required_dims, required_pack_dimensions, sides_bound};

verus! {

// ---------------------------------------------------------------------------
// Packing one bin
// ---------------------------------------------------------------------------

/// The required box of every sprite, in order.
pub open spec fn pack_dims(sprites: Seq<PreparedSprite>, config: PackConfig) -> Seq<(u32, u32)> {
    Seq::new(sprites.len(), |i: int| required_dims(sprites[i], config))
}

/// The free space of an empty `width` x `height` bin.
pub open spec fn empty_bin(width: u32, height: u32) -> Seq<Rect> {
    seq![Rect { x: 0, y: 0, w: width, h: height }]
}

/// The free rectangles after the first `n` items were offered to the packer.
pub open spec fn frees_after(frees0: Seq<Rect>, dims: Seq<(u32, u32)>, allow_rotation: bool, n: nat) -> Seq<
    Rect,
>
    decreases n,
{
    if n == 0 {
        frees0
    } else {
        let prev = frees_after(frees0, dims, allow_rotation, (n - 1) as nat);
        match insert_choice(prev, dims[n - 1].0, dims[n - 1].1, allow_rotation) {
            Some((r, _)) => free_after(prev, r),
            None => prev,
        }
    }
}

/// Where the rectangle packer puts each sprite, offered one after another
/// into an empty `width` x `height` bin.
pub open spec fn maxrects_outcomes(
    sprites: Seq<PreparedSprite>,
    width: u32,
    height: u32,
    config: PackConfig,
) -> Seq<Option<(Rect, bool)>> {
    let dims = pack_dims(sprites, config);
    Seq::new(
        sprites.len(),
        |i: int|
            insert_choice(
                frees_after(empty_bin(width, height), dims, config.allow_rotation, i as nat),
                dims[i].0,
                dims[i].1,
                config.allow_rotation,
            ),
    )
}

/// The positions of the placed items, in order.
pub open spec fn placed_indices(outcomes: Seq<Option<(Rect, bool)>>) -> Seq<int>
    decreases outcomes.len(),
{
    if outcomes.len() == 0 {
        Seq::empty()
    } else if outcomes.last() is Some {
        placed_indices(outcomes.drop_last()).push(outcomes.len() - 1)
    } else {
        placed_indices(outcomes.drop_last())
    }
}

/// The positions of the items left over, in order.
pub open spec fn leftover_indices(outcomes: Seq<Option<(Rect, bool)>>) -> Seq<int>
    decreases outcomes.len(),
{
    if outcomes.len() == 0 {
        Seq::empty()
    } else if outcomes.last() is None {
        leftover_indices(outcomes.drop_last()).push(outcomes.len() - 1)
    } else {
        leftover_indices(outcomes.drop_last())
    }
}

/// `placements` are the placed sprites with their outcomes, `leftover` the
/// others, both in the sprites' order.
pub open spec fn split_by_outcome(
    sprites: Seq<PreparedSprite>,
    outcomes: Seq<Option<(Rect, bool)>>,
    placements: Seq<Placement>,
    leftover: Seq<PreparedSprite>,
) -> bool {
    let pi = placed_indices(outcomes);
    let li = leftover_indices(outcomes);
    &&& placements.len() == pi.len()
    &&& forall|k: int|
        0 <= k < pi.len() ==> same_sprite(#[trigger] placements[k].sprite, sprites[pi[k]])
            && outcomes[pi[k]] == Some((placements[k].rect, placements[k].rotated))
    &&& leftover.len() == li.len()
    &&& forall|k: int| 0 <= k < li.len() ==> same_sprite(#[trigger] leftover[k], sprites[li[k]])
}

pub(crate) proof fn lemma_indices_in_range(outcomes: Seq<Option<(Rect, bool)>>)
    ensures
        forall|k: int|
            0 <= k < placed_indices(outcomes).len() ==> 0 <= #[trigger] placed_indices(outcomes)[k]
                < outcomes.len() && outcomes[placed_indices(outcomes)[k]] is Some,
        forall|k: int|
            0 <= k < leftover_indices(outcomes).len() ==> 0 <= #[trigger] leftover_indices(
                outcomes,
            )[k] < outcomes.len() && outcomes[leftover_indices(outcomes)[k]] is None,
        placed_indices(outcomes).len() + leftover_indices(outcomes).len() == outcomes.len(),
    decreases outcomes.len(),
{
    if outcomes.len() > 0 {
        let init = outcomes.drop_last();
        lemma_indices_in_range(init);
        assert forall|k: int|
            0 <= k < placed_indices(outcomes).len() implies 0 <= #[trigger] placed_indices(
            outcomes,
        )[k] < outcomes.len() && outcomes[placed_indices(outcomes)[k]] is Some by {
            if k < placed_indices(init).len() {
                assert(placed_indices(outcomes)[k] == placed_indices(init)[k]);
                assert(outcomes[placed_indices(init)[k]] == init[placed_indices(init)[k]]);
            }
        }
        assert forall|k: int|
            0 <= k < leftover_indices(outcomes).len() implies 0 <= #[trigger] leftover_indices(
            outcomes,
        )[k] < outcomes.len() && outcomes[leftover_indices(outcomes)[k]] is None by {
            if k < leftover_indices(init).len() {
                assert(leftover_indices(outcomes)[k] == leftover_indices(init)[k]);
                assert(outcomes[leftover_indices(init)[k]] == init[leftover_indices(init)[k]]);
            }
        }
    }
}

/// The prefix `outcomes.take(i + 1)` extends the split of `outcomes.take(i)`.
pub(crate) proof fn lemma_split_step(
    sprites: Seq<PreparedSprite>,
    outcomes: Seq<Option<(Rect, bool)>>,
    i: int,
    placements: Seq<Placement>,
    leftover: Seq<PreparedSprite>,
    new_placements: Seq<Placement>,
    new_leftover: Seq<PreparedSprite>,
)
    requires
        0 <= i < outcomes.len(),
        outcomes.len() == sprites.len(),
        split_by_outcome(sprites, outcomes.take(i), placements, leftover),
        outcomes[i] is Some ==> {
            &&& new_leftover == leftover
            &&& new_placements.len() == placements.len() + 1
            &&& new_placements.take(placements.len() as int) == placements
            &&& same_sprite(new_placements.last().sprite, sprites[i])
            &&& outcomes[i] == Some((new_placements.last().rect, new_placements.last().rotated))
        },
        outcomes[i] is None ==> {
            &&& new_placements == placements
            &&& new_leftover.len() == leftover.len() + 1
            &&& new_leftover.take(leftover.len() as int) == leftover
            &&& same_sprite(new_leftover.last(), sprites[i])
        },
    ensures
        split_by_outcome(sprites, outcomes.take(i + 1), new_placements, new_leftover),
{
    let o0 = outcomes.take(i);
    let o1 = outcomes.take(i + 1);
    assert(o1.drop_last() == o0);
    lemma_indices_in_range(o0);
    let pi = placed_indices(o1);
    let li = leftover_indices(o1);
    if outcomes[i] is Some {
        assert forall|k: int| 0 <= k < pi.len() implies same_sprite(
            #[trigger] new_placements[k].sprite,
            sprites[pi[k]],
        ) && o1[pi[k]] == Some((new_placements[k].rect, new_placements[k].rotated)) by {
            assert(pi == placed_indices(o0).push(i));
            if k < placements.len() {
                assert(new_placements[k] == placements[k]);
                assert(pi[k] == placed_indices(o0)[k]);
                assert(o1[pi[k]] == o0[pi[k]]);
            } else {
                assert(k == placements.len());
                assert(pi[k] == i);
                assert(new_placements[k] == new_placements.last());
                assert(o1[i] == outcomes[i]);
            }
        }
        assert forall|k: int| 0 <= k < li.len() implies same_sprite(
            #[trigger] new_leftover[k],
            sprites[li[k]],
        ) by {
            assert(li[k] == leftover_indices(o0)[k]);
        }
    } else {
        assert forall|k: int| 0 <= k < pi.len() implies same_sprite(
            #[trigger] new_placements[k].sprite,
            sprites[pi[k]],
        ) && o1[pi[k]] == Some((new_placements[k].rect, new_placements[k].rotated)) by {
            assert(pi[k] == placed_indices(o0)[k]);
            assert(o1[pi[k]] == o0[pi[k]]);
        }
        assert forall|k: int| 0 <= k < li.len() implies same_sprite(
            #[trigger] new_leftover[k],
            sprites[li[k]],
        ) by {
            if k < leftover.len() {
                assert(li[k] == leftover_indices(o0)[k]);
                assert(new_leftover[k] == leftover[k]);
            }
        }
    }
}


/// With grid alignment, a bin whose sides are whole cells.
pub open spec fn on_grid_bin(width: u32, height: u32, config: PackConfig) -> bool {
    &&& config.align_to_grid
    &&& (width as int) % (grid_cell(config) as int) == 0
    &&& (height as int) % (grid_cell(config) as int) == 0
}

/// With grid alignment, the box a sprite needs has whole cells for sides (or,
/// where rounding up saturated, the largest `u32`).
pub proof fn lemma_required_dims_grid(sprite: PreparedSprite, config: PackConfig)
    requires
        config.align_to_grid,
    ensures
        grid_side(required_dims(sprite, config).0, grid_cell(config) as int),
        grid_side(required_dims(sprite, config).1, grid_cell(config) as int),
{
    let g = grid_cell(config);
    let w = sprite.packed_width_spec() as u32;
    let h = sprite.packed_height_spec() as u32;
    let qw = ceil_div(max_u32(w, 1) as int, g as int) as u32;
    let qh = ceil_div(max_u32(h, 1) as int, g as int) as u32;
    if qw * g <= u32::MAX {
        vstd::arithmetic::div_mod::lemma_mod_multiples_basic(qw as int, g as int);
    }
    if qh * g <= u32::MAX {
        vstd::arithmetic::div_mod::lemma_mod_multiples_basic(qh as int, g as int);
    }
}

/// Offers the sprites one after another to a rectangle packer over an
/// empty `width` x `height` bin.
pub(crate) fn pack_partial_maxrects(
    sprites: &[PreparedSprite],
    width: u32,
    height: u32,
    config: PackConfig,
) -> (r: (Vec<Placement>, Vec<PreparedSprite>))
    requires
        width > 0,
        height > 0,
        all_padded_fit(sprites@),
    ensures
        split_by_outcome(sprites@, maxrects_outcomes(sprites@, width, height, config), r.0@, r.1@),
        placement_ids(r.0@).add(sprite_ids(r.1@)) == sprite_ids(sprites@),
        content_sum(r.0@, config) + sprites_content(r.1@, config) == sprites_content(sprites@, config),
        forall|i: int|
            0 <= i < r.0@.len() ==> (#[trigger] r.0@[i]).rect.within(width as int, height as int),
        forall|i: int, j: int|
            0 <= i < j < r.0@.len() ==> !(#[trigger] r.0@[i]).rect.overlaps((#[trigger] r.0@[j]).rect),
        on_grid_bin(width, height, config) ==> forall|i: int|
            0 <= i < r.0@.len() ==> on_grid((#[trigger] r.0@[i]).rect, grid_cell(config) as int),
        reach_within(r.0@, sprites@.len() * sides_bound(sprites@, config)),
{
    let ghost dims = pack_dims(sprites@, config);
    let ghost bound = sides_bound(sprites@, config);
    proof {
        lemma_sides_bound(sprites@, config, 0);
    }
    let ghost g = grid_cell(config) as int;
    let ghost snap = on_grid_bin(width, height, config);
    let ghost outcomes = maxrects_outcomes(sprites@, width, height, config);
    let mut packer = MaxRectsPacker::new(width, height);
    let mut placements: Vec<Placement> = Vec::new();
    let mut leftover: Vec<PreparedSprite> = Vec::new();
    proof {
        lemma_ids_empty();
        assert(sprites@.take(0) == Seq::<PreparedSprite>::empty());
    }
    proof {
        if snap {
            assert(packer.free_rects@ == empty_bin(width, height));
            assert(on_grid(empty_bin(width, height)[0], g));
        }
    }
    let mut i: usize = 0;
    while i < sprites.len()
        invariant
            i <= sprites@.len(),
            all_padded_fit(sprites@),
            dims == pack_dims(sprites@, config),
            outcomes == maxrects_outcomes(sprites@, width, height, config),
            packer.wf(),
            packer.width == width,
            packer.height == height,
            packer.free_rects@ == frees_after(empty_bin(width, height), dims, config.allow_rotation, i as nat),
            packer.used_rects@.len() == placements@.len(),
            forall|k: int| 0 <= k < placements@.len() ==> (#[trigger] placements@[k]).rect == packer.used_rects@[k],
            split_by_outcome(sprites@, outcomes.take(i as int), placements@, leftover@),
            placement_ids(placements@).add(sprite_ids(leftover@)) == sprite_ids(sprites@.take(i as int)),
            content_sum(placements@, config) + sprites_content(leftover@, config) == sprites_content(sprites@.take(i as int), config),
            g == grid_cell(config) as int,
            snap == on_grid_bin(width, height, config),
            snap ==> all_on_grid(packer.free_rects@, g),
            snap ==> forall|k: int| 0 <= k < placements@.len() ==> on_grid((#[trigger] placements@[k]).rect, g),
            bound == sides_bound(sprites@, config),
            bound >= 0,
            forall|k: int|
                0 <= k < sprites@.len() ==> required_dims(#[trigger] sprites@[k], config).0 + required_dims(
                    sprites@[k],
                    config,
                ).1 <= bound,
            placements@.len() <= i,
            sides_total(packer.used_rects@) <= placements@.len() * bound,
        decreases sprites@.len() - i,
    {
        let sprite = &sprites[i];
        assert(sprites@[i as int].padded_fits());
        let (required_width, required_height) = required_pack_dimensions(sprite, config);
        assert(dims[i as int] == (required_width, required_height));
        let ghost frees_before = packer.free_rects@;
        proof {
            if snap {
                lemma_required_dims_grid(sprites@[i as int], config);
                lemma_orientations_on_grid(required_width, required_height, config.allow_rotation, g);
            }
        }
        let ghost before_placements = placements@;
        let ghost before_leftover = leftover@;
        let ghost used_before = packer.used_rects@;
        match packer.insert(sprite.id, required_width, required_height, config.allow_rotation) {
            Some(result) => {
                proof {
                    let cands = orientations(required_width, required_height, config.allow_rotation);
                    let (fi, fk) = choose|fi: int, fk: int|
                        {
                            &&& is_best_slot(frees_before, cands, fi, fk)
                            &&& result.rect == placed_at(frees_before[fi], cands[fk])
                            &&& result.rotated == cands[fk].2
                        };
                    assert(result.rect.w + result.rect.h == required_width + required_height);
                    assert(packer.used_rects@.drop_last() == used_before);
                    let n = used_before.len();
                    let d = result.rect.w + result.rect.h;
                    assert(d <= bound);
                    assert(sides_total(used_before) + d <= (n + 1) * bound) by (nonlinear_arith)
                        requires
                            sides_total(used_before) <= n * bound,
                            d <= bound,
                    ;
                    if snap {
                        let cands = orientations(required_width, required_height, config.allow_rotation);
                        let (fi, fk) = choose|fi: int, fk: int|
                            {
                                &&& is_best_slot(frees_before, cands, fi, fk)
                                &&& result.rect == placed_at(frees_before[fi], cands[fk])
                                &&& result.rotated == cands[fk].2
                            };
                        assert(on_grid(frees_before[fi], g));
                        lemma_placed_on_grid(frees_before[fi], cands[fk], g);
                        assert forall|m: int| 0 <= m < frees_before.len() implies (#[trigger] frees_before[m]).edges_fit() by {
                            assert(frees_before[m].within(width as int, height as int));
                        }
                        lemma_free_after_on_grid(frees_before, result.rect, g);
                    }
                }
                placements.push(
                    Placement { sprite: sprite.clone(), rect: result.rect, rotated: result.rotated },
                );
                proof {
                    assert(placements@.take(before_placements.len() as int) == before_placements);
                    assert forall|k: int| 0 <= k < placements@.len() implies (
                    #[trigger] placements@[k]).rect == packer.used_rects@[k] by {
                        if k < before_placements.len() {
                            assert(placements@[k] == before_placements[k]);
                        }
                    }
                    if snap {
                        assert forall|k: int| 0 <= k < placements@.len() implies on_grid(
                            (#[trigger] placements@[k]).rect,
                            g,
                        ) by {
                            if k < before_placements.len() {
                                assert(placements@[k] == before_placements[k]);
                            }
                        }
                    }
                }
            },
            None => {
                leftover.push(sprite.clone());
                assert(leftover@.take(before_leftover.len() as int) == before_leftover);
            },
        }
        proof {
            lemma_split_step(
                sprites@,
                outcomes,
                i as int,
                before_placements,
                before_leftover,
                placements@,
                leftover@,
            );
            lemma_ids_step(sprites@, config, i as int, before_placements, before_leftover, placements@, leftover@);
        }
        i += 1;
    }
    assert(outcomes.take(sprites@.len() as int) == outcomes);
    assert(sprites@.take(sprites@.len() as int) == sprites@);
    proof {
        crate::atlas::maxrects::lemma_placements_in_bin_and_disjoint(packer);
        let n = placements@.len();
        assert(n * bound <= sprites@.len() * bound) by (nonlinear_arith)
            requires
                n <= sprites@.len(),
                bound >= 0,
        ;
        assert forall|k: int| 0 <= k < placements@.len() implies (#[trigger] placements@[k]).rect.right_edge()
            <= sprites@.len() * bound && placements@[k].rect.bottom_edge() <= sprites@.len() * bound by {
            assert(placements@[k].rect == packer.used_rects@[k]);
        }
    }
    (placements, leftover)
}

} // verus!
