use vstd::prelude::*;
use vstd::arithmetic::power2::pow2;
use vstd::multiset::Multiset;

use crate::atlas::pixels::{height_of, width_of};
use crate::atlas::text::{decimal, decimal_string};
use crate::atlas::maxrects::{free_after, insert_choice, on_grid, MaxRectsPacker};
use crate::atlas::types::{same_slice, same_sprite, AtlasBuild, GridSlice, 
    lemma_u32_product_fits_u64, max_u32, saturating_mul_u32, saturating_product, PackConfig,
    Placement, PreparedSprite, Rect,
};

use crate::atlas::packer::cells::{bin_extent, grid_pack_ok, pack_outcomes, pack_partial, placements_disjoint_in, placements_within};
use crate::atlas::packer::finish::{content_sum, lemma_sprites_content_concat, sprites_content};
use crate::atlas::packer::onebin::{leftover_indices, lemma_indices_in_range, on_grid_bin, placed_indices, split_by_outcome};
use crate::atlas::packer::sizes::{reach_within, sides_bound, all_padded_fit, bin_sides, grid_cell, candidate_bins, grid_max_cells, required_area, required_pack_area, slicing, sprite_sizes_fit};

verus! {

// ---------------------------------------------------------------------------
// Ordering sprites
// ---------------------------------------------------------------------------

pub open spec fn all_sizes_fit(sprites: Seq<PreparedSprite>, config: PackConfig) -> bool {
    forall|i: int| 0 <= i < sprites.len() ==> sprite_sizes_fit(#[trigger] sprites[i], config)
}

/// Largest required area first.
pub open spec fn area_descending(sprites: Seq<PreparedSprite>, config: PackConfig) -> bool {
    forall|i: int, j: int|
        0 <= i < j < sprites.len() ==> required_area(#[trigger] sprites[i], config) >= required_area(
            #[trigger] sprites[j],
            config,
        )
}

/// What identifies a sprite in an atlas: its id, with the number of grid
/// cells it was cut into.
pub open spec fn sprite_key(s: PreparedSprite) -> (usize, nat) {
    (s.id, s.grid_slices@.len())
}

/// The keys of the sprites, as a multiset.
pub open spec fn sprite_ids(sprites: Seq<PreparedSprite>) -> Multiset<(usize, nat)> {
    sprites.map_values(|s: PreparedSprite| sprite_key(s)).to_multiset()
}

/// The keys of the placed sprites, as a multiset.
pub open spec fn placement_ids(placements: Seq<Placement>) -> Multiset<(usize, nat)> {
    placements.map_values(|p: Placement| sprite_key(p.sprite)).to_multiset()
}

pub(crate) proof fn lemma_ids_empty()
    ensures
        placement_ids(Seq::<Placement>::empty()).add(sprite_ids(Seq::<PreparedSprite>::empty()))
            == sprite_ids(Seq::<PreparedSprite>::empty()),
{
    broadcast use vstd::multiset::group_multiset_axioms;
    let f = |s: PreparedSprite| sprite_key(s);
    let g = |p: Placement| sprite_key(p.sprite);
    assert(Seq::<PreparedSprite>::empty().map_values(f) =~= Seq::<(usize, nat)>::empty());
    assert(Seq::<Placement>::empty().map_values(g) =~= Seq::<(usize, nat)>::empty());
    Seq::<(usize, nat)>::empty().to_multiset_ensures();
    assert(Seq::<(usize, nat)>::empty().to_multiset() =~= Multiset::empty());
    assert(placement_ids(Seq::<Placement>::empty()).add(sprite_ids(Seq::<PreparedSprite>::empty()))
        =~= sprite_ids(Seq::<PreparedSprite>::empty()));
}

pub(crate) proof fn lemma_sprite_ids_push(s: Seq<PreparedSprite>, x: PreparedSprite)
    ensures
        sprite_ids(s.push(x)) == sprite_ids(s).insert(sprite_key(x)),
{
    let f = |s: PreparedSprite| sprite_key(s);
    assert(s.push(x).map_values(f) =~= s.map_values(f).push(sprite_key(x)));
    s.map_values(f).to_multiset_ensures();
}

pub(crate) proof fn lemma_placement_ids_push(ps: Seq<Placement>, p: Placement)
    ensures
        placement_ids(ps.push(p)) == placement_ids(ps).insert(sprite_key(p.sprite)),
{
    let f = |p: Placement| sprite_key(p.sprite);
    assert(ps.push(p).map_values(f) =~= ps.map_values(f).push(sprite_key(p.sprite)));
    ps.map_values(f).to_multiset_ensures();
}

/// The bookkeeping of one packing step: the sprite at `i` went to the
/// placements or to the leftover; ids and content add up.
pub(crate) proof fn lemma_ids_step(
    sprites: Seq<PreparedSprite>,
    config: PackConfig,
    i: int,
    placements: Seq<Placement>,
    leftover: Seq<PreparedSprite>,
    new_placements: Seq<Placement>,
    new_leftover: Seq<PreparedSprite>,
)
    requires
        0 <= i < sprites.len(),
        placement_ids(placements).add(sprite_ids(leftover)) == sprite_ids(sprites.take(i)),
        content_sum(placements, config) + sprites_content(leftover, config) == sprites_content(
            sprites.take(i),
            config,
        ),
        (new_leftover == leftover && new_placements.len() == placements.len() + 1
            && new_placements.take(placements.len() as int) == placements && same_sprite(
            new_placements.last().sprite,
            sprites[i],
        )) || (new_placements == placements && new_leftover.len() == leftover.len() + 1
            && new_leftover.take(leftover.len() as int) == leftover && same_sprite(
            new_leftover.last(),
            sprites[i],
        )),
    ensures
        placement_ids(new_placements).add(sprite_ids(new_leftover)) == sprite_ids(sprites.take(i + 1)),
        content_sum(new_placements, config) + sprites_content(new_leftover, config) == sprites_content(
            sprites.take(i + 1),
            config,
        ),
{
    broadcast use vstd::multiset::group_multiset_axioms;
    assert(sprites.take(i + 1) == sprites.take(i).push(sprites[i]));
    assert(sprites.take(i + 1).drop_last() == sprites.take(i));
    lemma_sprite_ids_push(sprites.take(i), sprites[i]);
    if new_leftover == leftover && new_placements.len() == placements.len() + 1 {
        assert(new_placements == placements.push(new_placements.last()));
        assert(new_placements.drop_last() == placements);
        lemma_placement_ids_push(placements, new_placements.last());
    } else {
        assert(new_leftover == leftover.push(new_leftover.last()));
        assert(new_leftover.drop_last() == leftover);
        lemma_sprite_ids_push(leftover, new_leftover.last());
    }
    assert(placement_ids(new_placements).add(sprite_ids(new_leftover)) =~= sprite_ids(sprites.take(i + 1)));
}

/// Sorts the sprites by required area, largest first; sprites of equal area
/// keep their order.
/// How many of the sprites need at least `key` pixels of atlas area.
pub open spec fn count_at_least(sprites: Seq<PreparedSprite>, key: int, config: PackConfig) -> nat
    decreases sprites.len(),
{
    if sprites.len() == 0 {
        0
    } else {
        count_at_least(sprites.drop_last(), key, config) + if required_area(sprites.last(), config) >= key {
            1nat
        } else {
            0nat
        }
    }
}

/// The sprites ordered by the atlas area they need, largest first; sprites
/// that need the same area keep their order (a stable sort).
pub open spec fn by_area_desc(items: Seq<PreparedSprite>, config: PackConfig) -> Seq<PreparedSprite>
    decreases items.len(),
{
    if items.len() == 0 {
        Seq::empty()
    } else {
        let sorted = by_area_desc(items.drop_last(), config);
        let item = items.last();
        sorted.insert(count_at_least(sorted, required_area(item, config), config) as int, item)
    }
}

/// In a sequence whose first `p` sprites need at least `key` and the others
/// less, `count_at_least` is `p`.
proof fn lemma_count_at_least_prefix(sprites: Seq<PreparedSprite>, key: int, config: PackConfig, p: int)
    requires
        0 <= p <= sprites.len(),
        forall|k: int| 0 <= k < p ==> required_area(#[trigger] sprites[k], config) >= key,
        forall|k: int| p <= k < sprites.len() ==> required_area(#[trigger] sprites[k], config) < key,
    ensures
        count_at_least(sprites, key, config) == p,
    decreases sprites.len(),
{
    if sprites.len() > 0 {
        let init = sprites.drop_last();
        if p == sprites.len() {
            assert(required_area(sprites[sprites.len() - 1], config) >= key);
            assert forall|k: int| 0 <= k < p - 1 implies required_area(#[trigger] init[k], config) >= key by {
                assert(init[k] == sprites[k]);
            }
            lemma_count_at_least_prefix(init, key, config, p - 1);
        } else {
            assert(required_area(sprites[sprites.len() - 1], config) < key);
            assert forall|k: int| 0 <= k < p implies required_area(#[trigger] init[k], config) >= key by {
                assert(init[k] == sprites[k]);
            }
            assert forall|k: int| p <= k < init.len() implies required_area(#[trigger] init[k], config) < key by {
                assert(init[k] == sprites[k]);
            }
            lemma_count_at_least_prefix(init, key, config, p);
        }
    }
}

#[verifier::rlimit(60)]
#[verifier::spinoff_prover]
pub fn sort_by_area_desc(items: Vec<PreparedSprite>, config: PackConfig) -> (sorted: Vec<PreparedSprite>)
    requires
        all_sizes_fit(items@, config),
    ensures
        sorted@.to_multiset() == items@.to_multiset(),
        sorted@.len() == items@.len(),
        sprite_ids(sorted@) == sprite_ids(items@),
        sprites_content(sorted@, config) == sprites_content(items@, config),
        all_sizes_fit(sorted@, config),
        area_descending(sorted@, config),
        sorted@ == by_area_desc(items@, config),
{
    broadcast use vstd::seq_lib::group_to_multiset_ensures;

    let mut rest = items;
    let mut sorted: Vec<PreparedSprite> = Vec::new();
    let mut keys: Vec<u64> = Vec::new();
    let ghost mut done: int = 0;
    proof {
        broadcast use vstd::multiset::group_multiset_axioms;
        lemma_sprite_ids_empty();
        assert(sprite_ids(sorted@).add(sprite_ids(rest@)) =~= sprite_ids(items@));
        Seq::<PreparedSprite>::empty().to_multiset_ensures();
        assert(sorted@.to_multiset().add(rest@.to_multiset()) =~= items@.to_multiset());
    }
    while rest.len() > 0
        invariant
            sorted@.to_multiset().add(rest@.to_multiset()) == items@.to_multiset(),
            sprite_ids(sorted@).add(sprite_ids(rest@)) == sprite_ids(items@),
            sprites_content(sorted@, config) + sprites_content(rest@, config) == sprites_content(items@, config),
            sorted@.len() + rest@.len() == items@.len(),
            all_sizes_fit(rest@, config),
            all_sizes_fit(sorted@, config),
            area_descending(sorted@, config),
            keys@.len() == sorted@.len(),
            forall|k: int| 0 <= k < keys@.len() ==> keys@[k] == required_area(#[trigger] sorted@[k], config),
            0 <= done <= items@.len(),
            rest@ == items@.skip(done),
            sorted@ == by_area_desc(items@.take(done), config),
        decreases rest@.len(),
    {
        let ghost rest_before = rest@;
        let item = rest.remove(0);
        assert(sprite_sizes_fit(rest_before[0], config));
        assert(all_sizes_fit(rest@, config)) by {
            assert forall|k: int| 0 <= k < rest@.len() implies sprite_sizes_fit(#[trigger] rest@[k], config) by {
                assert(rest@[k] == rest_before[k + 1]);
            }
        }
        let key = required_pack_area(&item, config);
        let mut p: usize = 0;
        while p < sorted.len() && keys[p] >= key
            invariant
                p <= sorted@.len(),
                keys@.len() == sorted@.len(),
                forall|k: int| 0 <= k < p ==> keys@[k] >= key,
            decreases sorted@.len() - p,
        {
            p += 1;
        }
        let ghost sorted_before = sorted@;
        let ghost keys_before = keys@;
        proof {
            sorted_before.insert_ensures(p as int, item);
            keys_before.insert_ensures(p as int, key);
            assert forall|k: int| 0 <= k < p implies required_area(#[trigger] sorted_before[k], config) >= key by {
                assert(keys_before[k] == required_area(sorted_before[k], config));
            }
            assert forall|k: int| p <= k < sorted_before.len() implies required_area(#[trigger] sorted_before[k], config)
                < key by {
                assert(keys_before[p as int] == required_area(sorted_before[p as int], config));
                if k > p {
                    assert(required_area(sorted_before[p as int], config) >= required_area(sorted_before[k], config));
                }
            }
            lemma_count_at_least_prefix(sorted_before, key as int, config, p as int);
            assert(items@.take(done + 1).drop_last() == items@.take(done));
            assert(items@.take(done + 1).last() == item) by {
                assert(rest_before[0] == items@[done]);
            }
            assert(items@.skip(done + 1) == rest_before.remove(0));
            done = done + 1;
        }
        sorted.insert(p, item);
        keys.insert(p, key);
        proof {
            assert(p < sorted_before.len() ==> keys_before[p as int] < key);
            assert forall|k: int| 0 <= k < keys@.len() implies keys@[k] == required_area(#[trigger] sorted@[k], config) by {
                if k > p {
                    assert(keys@[k] == keys_before[k - 1]);
                    assert(sorted@[k] == sorted_before[k - 1]);
                }
            }
            assert forall|a: int, b: int| 0 <= a < b < sorted@.len() implies required_area(#[trigger] sorted@[a], config)
                >= required_area(#[trigger] sorted@[b], config) by {
                assert(keys@[a] == required_area(sorted@[a], config));
                assert(keys@[b] == required_area(sorted@[b], config));
                if a < p && b > p {
                    assert(keys@[b] == keys_before[b - 1]);
                    assert(keys_before[b - 1] <= keys_before[p as int]) by {
                        if b - 1 > p {
                            assert(required_area(sorted_before[p as int], config) >= required_area(sorted_before[b - 1], config));
                        }
                    }
                } else if a > p {
                    assert(keys@[a] == keys_before[a - 1]);
                    assert(keys@[b] == keys_before[b - 1]);
                    assert(required_area(sorted_before[a - 1], config) >= required_area(sorted_before[b - 1], config));
                } else if a < p && b < p {
                    assert(required_area(sorted_before[a], config) >= required_area(sorted_before[b], config));
                } else if a == p && b > p {
                    assert(keys@[b] == keys_before[b - 1]);
                    assert(keys_before[b - 1] <= keys_before[p as int]) by {
                        if b - 1 > p {
                            assert(required_area(sorted_before[p as int], config) >= required_area(sorted_before[b - 1], config));
                        }
                    }
                }
            }
            assert forall|k: int| 0 <= k < sorted@.len() implies sprite_sizes_fit(#[trigger] sorted@[k], config) by {
                if k > p {
                    assert(sorted@[k] == sorted_before[k - 1]);
                } else if k < p {
                    assert(sorted@[k] == sorted_before[k]);
                }
            }
            broadcast use vstd::multiset::group_multiset_axioms;
            rest_before.to_multiset_ensures();
            sorted_before.to_multiset_ensures();
            assert(rest_before.remove(0) == rest@);
            assert(rest_before.remove(0).to_multiset() == rest_before.to_multiset().remove(rest_before[0]));
            assert(rest_before.contains(item)) by {
                assert(rest_before[0] == item);
            }
            assert(rest_before.to_multiset().count(item) > 0);
            assert(rest_before.to_multiset() =~= rest@.to_multiset().insert(item));
            vstd::seq_lib::to_multiset_insert(sorted_before, p as int, item);
            assert(rest_before == seq![item] + rest@);
            lemma_sprites_content_concat(seq![item], rest@, config);
            assert(seq![item].drop_last() == Seq::<PreparedSprite>::empty());
            let front = sorted_before.take(p as int);
            let back = sorted_before.skip(p as int);
            assert(sorted_before == front + back);
            assert(sorted@ == front.push(item) + back);
            assert(front.push(item) == front + seq![item]);
            lemma_sprites_content_concat(front, back, config);
            lemma_sprites_content_concat(front.push(item), back, config);
            lemma_sprites_content_concat(front, seq![item], config);
            let f = |s: PreparedSprite| sprite_key(s);
            assert(rest_before.map_values(f) =~= seq![sprite_key(item)] + rest@.map_values(f));
            vstd::seq_lib::lemma_multiset_commutative(seq![sprite_key(item)], rest@.map_values(f));
            seq![sprite_key(item)].to_multiset_ensures();
            Seq::<(usize, nat)>::empty().to_multiset_ensures();
            assert(seq![sprite_key(item)] == Seq::<(usize, nat)>::empty().push(sprite_key(item)));
            assert(Seq::<(usize, nat)>::empty().to_multiset() =~= Multiset::empty());
            assert(sprite_ids(rest_before) =~= sprite_ids(rest@).insert(sprite_key(item)));
            assert(sorted@.map_values(f) =~= sorted_before.map_values(f).insert(p as int, sprite_key(item)));
            vstd::seq_lib::to_multiset_insert(sorted_before.map_values(f), p as int, sprite_key(item));
            assert(sprite_ids(sorted@) =~= sprite_ids(sorted_before).insert(sprite_key(item)));
            assert(sprite_ids(sorted@).add(sprite_ids(rest@)) =~= sprite_ids(items@));
            assert(sorted@.to_multiset() == sorted_before.to_multiset().insert(item));
            assert(sorted@.to_multiset().add(rest@.to_multiset()) =~= items@.to_multiset());
        }
    }
    assert(items@.take(done) == items@) by {
        assert(items@.skip(done).len() == 0);
    }
    sorted
}


/// `pack_partial` can run on these sprites in a `width` x `height` bin.
pub open spec fn pack_ok(sprites: Seq<PreparedSprite>, width: u32, height: u32, config: PackConfig) -> bool {
    &&& slicing(config) ==> grid_pack_ok(sprites, width, height, config)
    &&& !slicing(config) ==> width > 0 && height > 0
}

/// Every sprite goes into a `side` x `side` bin.
pub open spec fn packs_all(sprites: Seq<PreparedSprite>, side: u32, config: PackConfig) -> bool {
    &&& sprites.len() > 0
    &&& forall|i: int| 0 <= i < sprites.len() ==> (#[trigger] pack_outcomes(sprites, side, side, config)[i]) is Some
}

pub(crate) proof fn lemma_no_leftover(outcomes: Seq<Option<(Rect, bool)>>)
    ensures
        leftover_indices(outcomes).len() == 0 <==> forall|i: int| 0 <= i < outcomes.len() ==> (#[trigger] outcomes[i]) is Some,
        placed_indices(outcomes).len() == 0 <==> forall|i: int| 0 <= i < outcomes.len() ==> (#[trigger] outcomes[i]) is None,
    decreases outcomes.len(),
{
    if outcomes.len() > 0 {
        let init = outcomes.drop_last();
        lemma_no_leftover(init);
        assert(forall|i: int| 0 <= i < init.len() ==> init[i] == outcomes[i]);
        if forall|i: int| 0 <= i < outcomes.len() ==> (#[trigger] outcomes[i]) is Some {
            assert(forall|i: int| 0 <= i < init.len() ==> (#[trigger] init[i]) is Some);
        }
        if forall|i: int| 0 <= i < outcomes.len() ==> (#[trigger] outcomes[i]) is None {
            assert(forall|i: int| 0 <= i < init.len() ==> (#[trigger] init[i]) is None);
        }
    }
}

pub(crate) proof fn lemma_sprite_ids_empty()
    ensures
        sprite_ids(Seq::<PreparedSprite>::empty()) == Multiset::<(usize, nat)>::empty(),
{
    let f = |s: PreparedSprite| sprite_key(s);
    assert(Seq::<PreparedSprite>::empty().map_values(f) =~= Seq::<(usize, nat)>::empty());
    Seq::<(usize, nat)>::empty().to_multiset_ensures();
    assert(Seq::<(usize, nat)>::empty().to_multiset() =~= Multiset::empty());
}

/// Tries the candidate bins, smallest first, and gives the first in which
/// every sprite fits, with the placements.
pub fn try_pack_all_smallest(sprites: &[PreparedSprite], config: PackConfig) -> (r: Option<
    (Vec<Placement>, u32, u32),
>)
    requires
        all_padded_fit(sprites@),
        !(config.align_to_grid && config.power_of_two && grid_max_cells(config) == u32::MAX),
        forall|b: int|
            0 <= b < bin_sides(config).len() ==> pack_ok(
                sprites@,
                #[trigger] bin_sides(config)[b],
                bin_sides(config)[b],
                config,
            ),
    ensures
        r is None <==> forall|b: int|
            0 <= b < bin_sides(config).len() ==> !packs_all(sprites@, #[trigger] bin_sides(config)[b], config),
        r matches Some((ps, w, h)) ==> exists|b: int|
            {
                &&& 0 <= b < bin_sides(config).len()
                &&& w == bin_sides(config)[b]
                &&& h == w
                &&& packs_all(sprites@, w, config)
                &&& forall|b2: int| 0 <= b2 < b ==> !packs_all(sprites@, #[trigger] bin_sides(config)[b2], config)
                &&& split_by_outcome(sprites@, pack_outcomes(sprites@, w, w, config), ps@, Seq::empty())
            },
        r matches Some((ps, w, h)) ==> {
            &&& placement_ids(ps@) == sprite_ids(sprites@)
            &&& content_sum(ps@, config) == sprites_content(sprites@, config)
            &&& !slicing(config) ==> placements_disjoint_in(ps@, w, h)
            &&& placements_within(ps@, bin_extent(w, config), bin_extent(h, config))
            &&& ps@.len() > 0
            &&& slicing(config) || on_grid_bin(w, h, config) ==> forall|i: int|
                0 <= i < ps@.len() ==> on_grid((#[trigger] ps@[i]).rect, grid_cell(config) as int)
            &&& !slicing(config) ==> reach_within(ps@, sprites@.len() * sides_bound(sprites@, config))
        },
{
    let bins = candidate_bins(config);
    let mut b: usize = 0;
    while b < bins.len()
        invariant
            b <= bins@.len(),
            bins@.len() == bin_sides(config).len(),
            forall|i: int| 0 <= i < bins@.len() ==> #[trigger] bins@[i] == (bin_sides(config)[i], bin_sides(config)[i]),
            forall|b2: int| 0 <= b2 < b ==> !packs_all(sprites@, #[trigger] bin_sides(config)[b2], config),
            all_padded_fit(sprites@),
            forall|b2: int|
                0 <= b2 < bin_sides(config).len() ==> pack_ok(
                    sprites@,
                    #[trigger] bin_sides(config)[b2],
                    bin_sides(config)[b2],
                    config,
                ),
        decreases bins@.len() - b,
    {
        let (width, height) = bins[b];
        assert(pack_ok(sprites@, bin_sides(config)[b as int], bin_sides(config)[b as int], config));
        let (placements, leftover, _, _) = pack_partial(sprites, width, height, config);
        proof {
            let o = pack_outcomes(sprites@, width, width, config);
            lemma_no_leftover(o);
            lemma_indices_in_range(o);
            assert(o.len() == sprites@.len());
        }
        if leftover.len() == 0 && placements.len() > 0 {
            proof {
                broadcast use vstd::multiset::group_multiset_axioms;
                lemma_sprite_ids_empty();
                assert(leftover@ == Seq::<PreparedSprite>::empty());
                assert(sprites_content(leftover@, config) == 0);
                assert(placement_ids(placements@).add(Multiset::empty()) =~= placement_ids(placements@));
            }
            return Some((placements, width, height));
        }
        b += 1;
    }
    None
}

} // verus!
