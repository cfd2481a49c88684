use vstd::prelude::*;

use crate::atlas::compose::{all_frames, frames_view, placement_frames};
use crate::atlas::packer::group::builds_ids;
use crate::atlas::packer::order::{placement_ids, sprite_ids, sprite_key};
use crate::atlas::packer::plan::{frames_total, plan_counted};
use crate::atlas::packer::sizes::{slicing, sprite_frames};
use crate::atlas::types::{AtlasBuild, PackConfig, PackedSprite, Placement, PreparedSprite};
use vstd::multiset::Multiset;

verus! {

// ---------------------------------------------------------------------------
// Counting frames by sprite key
// ---------------------------------------------------------------------------

/// The frames a sprite with key `k` becomes on the sheet: one per grid cell
/// when cells are packed, else one.
pub open spec fn key_frames(k: (usize, nat), config: PackConfig) -> int {
    if slicing(config) && k.1 > 0 {
        k.1 as int
    } else {
        1
    }
}

/// The frames of sprites with the keys `ks`.
pub open spec fn keys_frames(ks: Seq<(usize, nat)>, config: PackConfig) -> int
    decreases ks.len(),
{
    if ks.len() == 0 {
        0
    } else {
        keys_frames(ks.drop_last(), config) + key_frames(ks.last(), config)
    }
}

/// The keys of all placements of the builds, build after build.
pub open spec fn builds_keys(builds: Seq<AtlasBuild>) -> Seq<(usize, nat)>
    decreases builds.len(),
{
    if builds.len() == 0 {
        Seq::empty()
    } else {
        builds_keys(builds.drop_last()) + builds.last().placements@.map_values(
            |p: Placement| sprite_key(p.sprite),
        )
    }
}

/// The number of frames that composing the builds emits, over all builds.
pub open spec fn builds_frames(builds: Seq<AtlasBuild>, config: PackConfig) -> int
    decreases builds.len(),
{
    if builds.len() == 0 {
        0
    } else {
        builds_frames(builds.drop_last(), config) + all_frames(
            builds.last().placements@,
            builds.last().atlas_index,
            config,
        ).len()
    }
}

proof fn lemma_keys_frames_concat(a: Seq<(usize, nat)>, b: Seq<(usize, nat)>, config: PackConfig)
    ensures
        keys_frames(a + b, config) == keys_frames(a, config) + keys_frames(b, config),
    decreases b.len(),
{
    if b.len() == 0 {
        assert(a + b == a);
    } else {
        lemma_keys_frames_concat(a, b.drop_last(), config);
        assert((a + b).drop_last() == a + b.drop_last());
        assert((a + b).last() == b.last());
    }
}

proof fn lemma_keys_frames_remove(ks: Seq<(usize, nat)>, j: int, config: PackConfig)
    requires
        0 <= j < ks.len(),
    ensures
        keys_frames(ks, config) == keys_frames(ks.remove(j), config) + key_frames(ks[j], config),
{
    let a = ks.take(j);
    let b = ks.skip(j + 1);
    assert(ks == a + seq![ks[j]] + b);
    assert(ks.remove(j) == a + b);
    lemma_keys_frames_concat(a + seq![ks[j]], b, config);
    lemma_keys_frames_concat(a, seq![ks[j]], config);
    lemma_keys_frames_concat(a, b, config);
    assert(seq![ks[j]].drop_last() == Seq::<(usize, nat)>::empty());
    assert(keys_frames(seq![ks[j]], config) == key_frames(ks[j], config)) by {
        let one = seq![ks[j]];
        assert(one.last() == ks[j]);
        assert(keys_frames(one.drop_last(), config) == 0);
    }
}

/// Keys with the same multiset give the same number of frames.
proof fn lemma_keys_frames_perm(a: Seq<(usize, nat)>, b: Seq<(usize, nat)>, config: PackConfig)
    requires
        a.to_multiset() == b.to_multiset(),
    ensures
        keys_frames(a, config) == keys_frames(b, config),
    decreases a.len(),
{
    a.to_multiset_ensures();
    b.to_multiset_ensures();
    if a.len() == 0 {
        assert(b.len() == 0);
        assert(b == Seq::<(usize, nat)>::empty());
    } else {
        let x = a.last();
        let init = a.drop_last();
        assert(a == init.push(x));
        init.to_multiset_ensures();
        assert(a.contains(x)) by {
            assert(a[a.len() - 1] == x);
        }
        assert(a.to_multiset().count(x) > 0);
        assert(b.to_multiset().count(x) > 0);
        assert(b.contains(x));
        let j = choose|j: int| 0 <= j < b.len() && b[j] == x;
        assert(b.remove(j).to_multiset() == b.to_multiset().remove(x));
        assert(init.to_multiset() == a.to_multiset().remove(x)) by {
            assert(a.to_multiset() == init.to_multiset().insert(x));
        }
        lemma_keys_frames_perm(init, b.remove(j), config);
        lemma_keys_frames_remove(b, j, config);
    }
}

proof fn lemma_sprites_keys_frames(sprites: Seq<PreparedSprite>, config: PackConfig)
    ensures
        frames_total(sprites, config) == keys_frames(
            sprites.map_values(|s: PreparedSprite| sprite_key(s)),
            config,
        ),
    decreases sprites.len(),
{
    let f = |s: PreparedSprite| sprite_key(s);
    if sprites.len() > 0 {
        lemma_sprites_keys_frames(sprites.drop_last(), config);
        assert(sprites.map_values(f).drop_last() == sprites.drop_last().map_values(f));
        assert(sprite_frames(sprites.last(), config) == key_frames(sprite_key(sprites.last()), config));
    } else {
        assert(sprites.map_values(f) == Seq::<(usize, nat)>::empty());
    }
}

proof fn lemma_placements_keys_frames(ps: Seq<Placement>, atlas_index: usize, config: PackConfig)
    ensures
        all_frames(ps, atlas_index, config).len() == keys_frames(
            ps.map_values(|p: Placement| sprite_key(p.sprite)),
            config,
        ),
    decreases ps.len(),
{
    let f = |p: Placement| sprite_key(p.sprite);
    if ps.len() > 0 {
        lemma_placements_keys_frames(ps.drop_last(), atlas_index, config);
        assert(ps.map_values(f).drop_last() == ps.drop_last().map_values(f));
        assert(placement_frames(ps.last(), atlas_index, config).len() == key_frames(
            sprite_key(ps.last().sprite),
            config,
        ));
    } else {
        assert(ps.map_values(f) == Seq::<(usize, nat)>::empty());
    }
}

proof fn lemma_builds_keys(builds: Seq<AtlasBuild>, config: PackConfig)
    ensures
        builds_ids(builds) == builds_keys(builds).to_multiset(),
        builds_frames(builds, config) == keys_frames(builds_keys(builds), config),
    decreases builds.len(),
{
    if builds.len() == 0 {
        assert(builds_keys(builds).to_multiset() =~= Multiset::empty()) by {
            builds_keys(builds).to_multiset_ensures();
        }
    } else {
        let init = builds.drop_last();
        let last = builds.last();
        let tail = last.placements@.map_values(|p: Placement| sprite_key(p.sprite));
        lemma_builds_keys(init, config);
        vstd::seq_lib::lemma_multiset_commutative(builds_keys(init), tail);
        assert(placement_ids(last.placements@) == tail.to_multiset());
        lemma_placements_keys_frames(last.placements@, last.atlas_index, config);
        lemma_keys_frames_concat(builds_keys(init), tail, config);
    }
}

/// Builds that hold every prepared sprite once emit, over all builds, as many
/// frames as the sprite sheet counts for the prepared sprites: one per grid
/// cell of a sprite cut into cells, else one per sprite.
pub proof fn lemma_plan_frames(prepared: Seq<PreparedSprite>, builds: Seq<AtlasBuild>, config: PackConfig)
    requires
        builds_ids(builds) == sprite_ids(prepared),
    ensures
        builds_frames(builds, config) == frames_total(prepared, config),
{
    lemma_builds_keys(builds, config);
    lemma_sprites_keys_frames(prepared, config);
    lemma_keys_frames_perm(
        builds_keys(builds),
        prepared.map_values(|s: PreparedSprite| sprite_key(s)),
        config,
    );
}

/// The number of frames in all the composed frame lists.
pub open spec fn composed_count(composed: Seq<Seq<PackedSprite>>) -> int
    decreases composed.len(),
{
    if composed.len() == 0 {
        0
    } else {
        composed_count(composed.drop_last()) + composed.last().len()
    }
}

proof fn lemma_builds_frames_composed(builds: Seq<AtlasBuild>, composed: Seq<Seq<PackedSprite>>, config: PackConfig)
    requires
        composed.len() == builds.len(),
        forall|k: int|
            0 <= k < builds.len() ==> frames_view(#[trigger] composed[k]) == all_frames(
                builds[k].placements@,
                builds[k].atlas_index,
                config,
            ),
    ensures
        builds_frames(builds, config) == composed_count(composed),
    decreases builds.len(),
{
    if builds.len() > 0 {
        let n = builds.len() - 1;
        assert forall|k: int| 0 <= k < n implies frames_view(#[trigger] composed.drop_last()[k]) == all_frames(
            builds.drop_last()[k].placements@,
            builds.drop_last()[k].atlas_index,
            config,
        ) by {
            assert(composed.drop_last()[k] == composed[k]);
            assert(builds.drop_last()[k] == builds[k]);
        }
        lemma_builds_frames_composed(builds.drop_last(), composed.drop_last(), config);
        assert(frames_view(composed[n]) == all_frames(builds[n].placements@, builds[n].atlas_index, config));
        assert(frames_view(composed[n]).len() == composed[n].len());
    }
}

/// The atlases of a plan are numbered 0, 1, ... in order across its groups,
/// and the number of frames the sprite sheet counts is the number of frames
/// that composing its atlases gives, over all atlases.
pub proof fn lemma_plan_numbered_and_composed(
    prepared: Seq<PreparedSprite>,
    config: PackConfig,
    builds: Seq<AtlasBuild>,
    total: int,
    composed: Seq<Seq<PackedSprite>>,
)
    requires
        plan_counted(prepared, config, builds, total),
        composed.len() == builds.len(),
        forall|k: int|
            0 <= k < builds.len() ==> frames_view(#[trigger] composed[k]) == all_frames(
                builds[k].placements@,
                builds[k].atlas_index,
                config,
            ),
    ensures
        forall|k: int| 0 <= k < builds.len() ==> (#[trigger] builds[k]).atlas_index == k,
        total == composed_count(composed),
{
    lemma_plan_frames(prepared, builds, config);
    lemma_builds_frames_composed(builds, composed, config);
}

} // verus!
