use vstd::prelude::*;

use crate::atlas::text::{chars_eq, chars_less, chars_of, decimal, lemma_text_less_total, push_decimal,
    push_str_chars, string_from_chars, text_less,
};
use crate::atlas::types::{lemma_normalized_whole_cells, max_u32, normalized_config, normalized_max_size, same_source, same_sprite, LogMessage, OutputFormat,
    PackConfig, PreparedSprite, ScanResult, SourceImage, SplitMode,
};
use crate::atlas::packer::sizes::PackError;
use crate::atlas::packer::order::{all_sizes_fit, area_descending, by_area_desc, sort_by_area_desc};
use crate::atlas::packer::group::{build_on_grid, grid_snaps, group_outcome, build_atlases_for_group, build_ok, builds_ids, descends, fits_empty_grid,
    group_error, group_pack_ok, lemma_alike_content, lemma_copy_descends, lemma_descends_ok,
    lemma_descends_trans, lemma_same_sprite_alike, matched_in,
};
use crate::atlas::packer::sizes::{sides_bound, div_ceil_u32, fits_max_size, grid_cell, grid_max_cells, output_sprite_count,
    required_dims, required_pack_dimensions, sprite_frames, sprite_sizes_fit,
};
use crate::atlas::packer::finish::{lemma_sprite_content_nonneg, sprite_content, sprites_content};
use crate::atlas::packer::cells::{bbox_cells, slices_in_bbox};
use crate::atlas::types::AtlasBuild;
use crate::atlas::packer::order::{lemma_sprite_ids_empty, lemma_sprite_ids_push, sprite_ids, sprite_key};
use crate::atlas::packer::frames::{builds_frames, lemma_plan_frames};
use vstd::multiset::Multiset;

verus! {

broadcast use vstd::string::group_string_axioms;

// ---------------------------------------------------------------------------
// Groups
// ---------------------------------------------------------------------------

/// `i` is the index of the first '/' in `s`.
pub open spec fn is_first_slash(s: Seq<char>, i: int) -> bool {
    &&& 0 <= i < s.len()
    &&& s[i] == '/'
    &&& forall|j: int| 0 <= j < i ==> s[j] != '/'
}

/// The group of sprites at the top of the input folder.
pub open spec fn root_group() -> Seq<char> {
    seq!['_', 'r', 'o', 'o', 't']
}

/// The one group when everything goes into one set of atlases.
pub open spec fn all_group() -> Seq<char> {
    seq!['a', 'l', 'l']
}

/// The group of a relative path: its first folder, or the root group for a
/// file at the top.
pub open spec fn group_key(rel_path: Seq<char>) -> Seq<char> {
    if exists|i: int| is_first_slash(rel_path, i) {
        rel_path.take(choose|i: int| is_first_slash(rel_path, i))
    } else {
        root_group()
    }
}

/// The sprites of a group, in their order.
pub open spec fn with_key(sprites: Seq<PreparedSprite>, key: Seq<char>) -> Seq<PreparedSprite> {
    sprites.filter(|s: PreparedSprite| group_key(s.rel_path@) == key)
}

/// Copies, element by element.
pub open spec fn copies_of(a: Seq<PreparedSprite>, b: Seq<PreparedSprite>) -> bool {
    &&& a.len() == b.len()
    &&& forall|k: int| 0 <= k < a.len() ==> same_sprite(#[trigger] a[k], b[k])
}

/// The sprites split by group: one group per key that occurs, in increasing
/// order of key, each with copies of its sprites in their order.
pub open spec fn grouped_by_key(
    sprites: Seq<PreparedSprite>,
    groups: Seq<(String, Vec<PreparedSprite>)>,
) -> bool {
    &&& forall|i: int|
        0 <= i && i + 1 < groups.len() ==> text_less(#[trigger] groups[i].0@, groups[i + 1].0@)
    &&& forall|i: int, j: int| 0 <= i < j < groups.len() ==> (#[trigger] groups[i]).0@ != (#[trigger] groups[j]).0@
    &&& forall|i: int|
        0 <= i < groups.len() ==> {
            &&& (#[trigger] groups[i]).1@.len() > 0
            &&& copies_of(groups[i].1@, with_key(sprites, groups[i].0@))
        }
    &&& forall|j: int|
        0 <= j < sprites.len() ==> exists|i: int|
            0 <= i < groups.len() && (#[trigger] groups[i]).0@ == group_key((#[trigger] sprites[j]).rel_path@)
}

/// The ids of the sprites of all groups.
pub open spec fn groups_ids(groups: Seq<(String, Vec<PreparedSprite>)>) -> Multiset<(usize, nat)>
    decreases groups.len(),
{
    if groups.len() == 0 {
        Multiset::empty()
    } else {
        groups_ids(groups.drop_last()).add(sprite_ids(groups.last().1@))
    }
}

pub proof fn lemma_groups_ids_concat(
    a: Seq<(String, Vec<PreparedSprite>)>,
    b: Seq<(String, Vec<PreparedSprite>)>,
)
    ensures
        groups_ids(a + b) == groups_ids(a).add(groups_ids(b)),
    decreases b.len(),
{
    broadcast use vstd::multiset::group_multiset_axioms;
    if b.len() == 0 {
        assert(a + b == a);
        assert(groups_ids(a).add(groups_ids(b)) =~= groups_ids(a));
    } else {
        assert((a + b).drop_last() == a + b.drop_last());
        lemma_groups_ids_concat(a, b.drop_last());
        assert(groups_ids(a + b) =~= groups_ids(a).add(groups_ids(b)));
    }
}

proof fn lemma_groups_ids_single(g: (String, Vec<PreparedSprite>))
    ensures
        groups_ids(seq![g]) == sprite_ids(g.1@),
{
    broadcast use vstd::multiset::group_multiset_axioms;
    let e = Seq::<(String, Vec<PreparedSprite>)>::empty();
    assert(groups_ids(e) == Multiset::<(usize, nat)>::empty());
    assert(seq![g].drop_last() == e);
    assert(seq![g].last() == g);
    assert(groups_ids(seq![g]) =~= sprite_ids(g.1@));
}

/// Replacing the group at `q` changes the ids by what it held.
proof fn lemma_groups_ids_replace(
    before: Seq<(String, Vec<PreparedSprite>)>,
    after: Seq<(String, Vec<PreparedSprite>)>,
    q: int,
)
    requires
        0 <= q < before.len(),
        after.len() == before.len(),
        forall|i: int| 0 <= i < after.len() && i != q ==> #[trigger] after[i] == before[i],
    ensures
        groups_ids(after).add(sprite_ids(before[q].1@)) == groups_ids(before).add(sprite_ids(after[q].1@)),
{
    broadcast use vstd::multiset::group_multiset_axioms;
    let front = before.take(q);
    let back = before.skip(q + 1);
    assert(before == front + seq![before[q]] + back);
    assert(after == front + seq![after[q]] + back);
    lemma_groups_ids_concat(front + seq![before[q]], back);
    lemma_groups_ids_concat(front, seq![before[q]]);
    lemma_groups_ids_concat(front + seq![after[q]], back);
    lemma_groups_ids_concat(front, seq![after[q]]);
    lemma_groups_ids_single(before[q]);
    lemma_groups_ids_single(after[q]);
    assert(groups_ids(after).add(sprite_ids(before[q].1@)) =~= groups_ids(before).add(sprite_ids(after[q].1@)));
}

/// Inserting a group at `p` adds what it holds.
proof fn lemma_groups_ids_insert(
    before: Seq<(String, Vec<PreparedSprite>)>,
    p: int,
    g: (String, Vec<PreparedSprite>),
)
    requires
        0 <= p <= before.len(),
    ensures
        groups_ids(before.insert(p, g)) == groups_ids(before).add(sprite_ids(g.1@)),
{
    broadcast use vstd::multiset::group_multiset_axioms;
    let front = before.take(p);
    let back = before.skip(p);
    assert(before == front + back);
    assert(before.insert(p, g) == front + seq![g] + back);
    lemma_groups_ids_concat(front + seq![g], back);
    lemma_groups_ids_concat(front, seq![g]);
    lemma_groups_ids_concat(front, back);
    lemma_groups_ids_single(g);
    assert(groups_ids(front + seq![g]) =~= groups_ids(front).add(sprite_ids(g.1@)));
    assert(groups_ids(before) =~= groups_ids(front).add(groups_ids(back)));
    assert(groups_ids(before.insert(p, g)) =~= groups_ids(before).add(sprite_ids(g.1@)));
}

/// The groups of the sprites as `split_groups` makes them.
pub open spec fn split_ok(
    sprites: Seq<PreparedSprite>,
    mode: SplitMode,
    groups: Seq<(String, Vec<PreparedSprite>)>,
) -> bool {
    &&& mode == SplitMode::AllInOne ==> {
        &&& groups.len() == 1
        &&& groups[0].0@ == all_group()
        &&& copies_of(groups[0].1@, sprites)
    }
    &&& mode == SplitMode::ByFirstLevelFolder ==> grouped_by_key(sprites, groups)
    &&& groups_ids(groups) == sprite_ids(sprites)
}

/// The group of a relative path.
pub fn group_of(rel_path: &str) -> (key: String)
    ensures
        key@ == group_key(rel_path@),
{
    let chars = chars_of(rel_path);
    let mut i: usize = 0;
    while i < chars.len() && chars[i] != '/'
        invariant
            i <= chars@.len(),
            chars@ == rel_path@,
            forall|j: int| 0 <= j < i ==> chars@[j] != '/',
        decreases chars@.len() - i,
    {
        i += 1;
    }
    if i < chars.len() {
        let mut prefix: Vec<char> = Vec::new();
        let mut k: usize = 0;
        while k < i
            invariant
                k <= i < chars@.len(),
                prefix@ == chars@.take(k as int),
            decreases i - k,
        {
            prefix.push(chars[k]);
            assert(chars@.take(k + 1) == chars@.take(k as int).push(chars@[k as int]));
            k += 1;
        }
        proof {
            let s = rel_path@;
            assert(is_first_slash(s, i as int));
            let c = choose|c: int| is_first_slash(s, c);
            if c < i {
                assert(s[c] == '/');
            } else if c > i {
                assert(s[i as int] != '/');
            }
        }
        string_from_chars(&prefix)
    } else {
        proof {
            if exists|c: int| is_first_slash(rel_path@, c) {
                let c = choose|c: int| is_first_slash(rel_path@, c);
                assert(chars@[c] != '/');
            }
        }
        let r = String::from_str("_root");
        proof {
            reveal_strlit("_root");
        }
        r
    }
}

/// One more sprite adds to its own group only.
proof fn lemma_with_key_step(sprites: Seq<PreparedSprite>, j: int, key: Seq<char>)
    requires
        0 <= j < sprites.len(),
    ensures
        with_key(sprites.take(j + 1), key) == if group_key(sprites[j].rel_path@) == key {
            with_key(sprites.take(j), key).push(sprites[j])
        } else {
            with_key(sprites.take(j), key)
        },
{
    reveal(Seq::filter);
    assert(sprites.take(j + 1).drop_last() == sprites.take(j));
}

/// Splits the sprites into groups by the first folder of their relative
/// paths, in increasing order of group name; or all into one group "all".
pub fn split_groups(sprites: &[PreparedSprite], split_mode: SplitMode) -> (groups: Vec<
    (String, Vec<PreparedSprite>),
>)
    ensures
        split_ok(sprites@, split_mode, groups@),
{
    match split_mode {
        SplitMode::AllInOne => {
            let mut all: Vec<PreparedSprite> = Vec::new();
            let mut k: usize = 0;
            proof {
                lemma_sprite_ids_empty();
                assert(sprites@.take(0) == Seq::<PreparedSprite>::empty());
            }
            while k < sprites.len()
                invariant
                    k <= sprites@.len(),
                    copies_of(all@, sprites@.take(k as int)),
                    sprite_ids(all@) == sprite_ids(sprites@.take(k as int)),
                decreases sprites@.len() - k,
            {
                let c = sprites[k].clone();
                let ghost before = all@;
                all.push(c);
                proof {
                    lemma_sprite_ids_push(before, c);
                    lemma_sprite_ids_push(sprites@.take(k as int), sprites@[k as int]);
                    assert(sprites@.take(k + 1) == sprites@.take(k as int).push(sprites@[k as int]));
                    assert(all@ == before.push(c));
                }
                k += 1;
            }
            assert(sprites@.take(sprites@.len() as int) == sprites@);
            let name = String::from_str("all");
            proof {
                reveal_strlit("all");
            }
            let ghost members = all@;
            let mut groups: Vec<(String, Vec<PreparedSprite>)> = Vec::new();
            groups.push((name, all));
            proof {
                broadcast use vstd::multiset::group_multiset_axioms;
                assert(groups@ == seq![groups@[0]]);
                lemma_groups_ids_single(groups@[0]);
                assert(groups@[0].1@ == members);
                assert(copies_of(groups@[0].1@, sprites@));
                assert(groups_ids(groups@) == sprite_ids(sprites@));
                assert(groups@[0].0@ == all_group());
            }
            groups
        },
        SplitMode::ByFirstLevelFolder => split_by_folder(sprites),
    }
}

/// Where a new group goes: after every smaller name.
fn insert_position(keys: &Vec<Vec<char>>, key: &Vec<char>) -> (p: usize)
    ensures
        p <= keys@.len(),
        forall|i: int| 0 <= i < p ==> text_less(#[trigger] keys@[i]@, key@),
        p < keys@.len() ==> !text_less(keys@[p as int]@, key@),
{
    let mut p: usize = 0;
    while p < keys.len() && chars_less(&keys[p], key)
        invariant
            p <= keys@.len(),
            forall|i: int| 0 <= i < p ==> text_less(#[trigger] keys@[i]@, key@),
        decreases keys@.len() - p,
    {
        p += 1;
    }
    p
}

/// Where the group named `key` is, if there is one.
fn find_key(keys: &Vec<Vec<char>>, key: &Vec<char>) -> (r: Option<usize>)
    ensures
        r matches Some(q) ==> q < keys@.len() && keys@[q as int]@ == key@,
        r is None ==> forall|i: int| 0 <= i < keys@.len() ==> (#[trigger] keys@[i])@ != key@,
{
    let mut q: usize = 0;
    while q < keys.len()
        invariant
            q <= keys@.len(),
            forall|i: int| 0 <= i < q ==> (#[trigger] keys@[i])@ != key@,
        decreases keys@.len() - q,
    {
        if chars_eq(&keys[q], key) {
            return Some(q);
        }
        q += 1;
    }
    None
}

/// What the groups built so far hold after `n` sprites.
spec fn groups_so_far(
    sprites: Seq<PreparedSprite>,
    n: int,
    keys: Seq<Vec<char>>,
    groups: Seq<(String, Vec<PreparedSprite>)>,
) -> bool {
    &&& keys.len() == groups.len()
    &&& forall|i: int| 0 <= i < keys.len() ==> (#[trigger] keys[i])@ == groups[i].0@
    &&& grouped_by_key(sprites.take(n), groups)
}

#[verifier::rlimit(40)]
fn split_by_folder(sprites: &[PreparedSprite]) -> (groups: Vec<(String, Vec<PreparedSprite>)>)
    ensures
        grouped_by_key(sprites@, groups@),
        groups_ids(groups@) == sprite_ids(sprites@),
{
    let mut groups: Vec<(String, Vec<PreparedSprite>)> = Vec::new();
    let mut keys: Vec<Vec<char>> = Vec::new();
    let mut n: usize = 0;
    proof {
        lemma_sprite_ids_empty();
        assert(sprites@.take(0) == Seq::<PreparedSprite>::empty());
    }
    while n < sprites.len()
        invariant
            n <= sprites@.len(),
            groups_so_far(sprites@, n as int, keys@, groups@),
            groups_ids(groups@) == sprite_ids(sprites@.take(n as int)),
        decreases sprites@.len() - n,
    {
        let sprite = &sprites[n];
        let name = group_of(sprite.rel_path.as_str());
        let key = chars_of(name.as_str());
        let ghost before = groups@;
        let ghost old_keys = keys@;
        let ghost s = sprites@;
        proof {
            assert forall|k: Seq<char>| true implies with_key(s.take(n + 1), k) == if group_key(s[n as int].rel_path@) == k {
                with_key(s.take(n as int), k).push(s[n as int])
            } else {
                with_key(s.take(n as int), k)
            } by {
                lemma_with_key_step(s, n as int, k);
            }
        }
        proof {
            lemma_sprite_ids_push(s.take(n as int), s[n as int]);
            assert(s.take(n + 1) == s.take(n as int).push(s[n as int]));
        }
        match find_key(&keys, &key) {
            Some(q) => {
                let (group_name, mut members) = groups.remove(q);
                let c = sprite.clone();
                let ghost old_members = members@;
                members.push(c);
                let ghost new_members = members@;
                groups.insert(q, (group_name, members));
                proof {
                    broadcast use vstd::multiset::group_multiset_axioms;
                    assert(groups@.len() == before.len());
                    assert forall|i: int| 0 <= i < groups@.len() && i != q implies #[trigger] groups@[i] == before[i] by {
                    }
                    assert(old_members == before[q as int].1@);
                    assert(sprite_key(c) == sprite_key(s[n as int]));
                    lemma_sprite_ids_push(old_members, c);
                    assert(groups@[q as int].1@ == new_members);
                    assert(new_members == old_members.push(c));
                    lemma_groups_ids_replace(before, groups@, q as int);
                    let a = groups_ids(groups@);
                    let b = sprite_ids(old_members);
                    assert(a.add(b) == groups_ids(before).add(b.insert(sprite_key(c))));
                    assert forall|x: (usize, nat)| a.count(x) == sprite_ids(s.take(n as int)).insert(sprite_key(c)).count(x) by {
                        assert(a.add(b).count(x) == groups_ids(before).add(b.insert(sprite_key(c))).count(x));
                    }
                    assert(a =~= sprite_ids(s.take(n as int)).insert(sprite_key(c)));
                    assert(groups_ids(groups@) =~= sprite_ids(sprites@.take(n + 1)));
                    lemma_group_added(s, n as int, before, groups@, q as int);
                }
            },
            None => {
                let p = insert_position(&keys, &key);
                let mut members: Vec<PreparedSprite> = Vec::new();
                let c = sprite.clone();
                members.push(c);
                let ghost g = (name, members);
                proof {
                    broadcast use vstd::multiset::group_multiset_axioms;
                    lemma_sprite_ids_empty();
                    lemma_sprite_ids_push(Seq::<PreparedSprite>::empty(), c);
                    assert(members@ == Seq::<PreparedSprite>::empty().push(c));
                    assert(sprite_key(c) == sprite_key(s[n as int]));
                    lemma_groups_ids_insert(before, p as int, g);
                    assert(sprite_ids(g.1@) =~= Multiset::empty().insert(sprite_key(s[n as int])));
                }
                keys.insert(p, key);
                groups.insert(p, (name, members));
                proof {
                    broadcast use vstd::multiset::group_multiset_axioms;
                    assert(groups@ == before.insert(p as int, g));
                    assert(groups_ids(groups@) =~= sprite_ids(sprites@.take(n + 1)));
                    lemma_group_inserted(s, n as int, old_keys, before, keys@, groups@, p as int);
                }
            },
        }
        n += 1;
    }
    assert(sprites@.take(sprites@.len() as int) == sprites@);
    groups
}

/// Adding a sprite to the existing group of its key keeps the grouping.
proof fn lemma_group_added(
    s: Seq<PreparedSprite>,
    n: int,
    before: Seq<(String, Vec<PreparedSprite>)>,
    after: Seq<(String, Vec<PreparedSprite>)>,
    q: int,
)
    requires
        0 <= n < s.len(),
        0 <= q < before.len(),
        grouped_by_key(s.take(n), before),
        before[q].0@ == group_key(s[n].rel_path@),
        after.len() == before.len(),
        forall|i: int| 0 <= i < after.len() && i != q ==> #[trigger] after[i] == before[i],
        after[q].0@ == before[q].0@,
        after[q].1@.len() == before[q].1@.len() + 1,
        forall|k: int| 0 <= k < before[q].1@.len() ==> after[q].1@[k] == before[q].1@[k],
        same_sprite(after[q].1@[before[q].1@.len() as int], s[n]),
        forall|k: Seq<char>|
            #![trigger with_key(s.take(n + 1), k)]
            with_key(s.take(n + 1), k) == if group_key(s[n].rel_path@) == k {
                with_key(s.take(n), k).push(s[n])
            } else {
                with_key(s.take(n), k)
            },
    ensures
        grouped_by_key(s.take(n + 1), after),
{
    let t0 = s.take(n);
    let t1 = s.take(n + 1);
    assert forall|i: int| 0 <= i && i + 1 < after.len() implies text_less(#[trigger] after[i].0@, after[i + 1].0@) by {
        assert(text_less(before[i].0@, before[i + 1].0@));
    }
    assert forall|i: int, j: int| 0 <= i < j < after.len() implies (#[trigger] after[i]).0@ != (#[trigger] after[j]).0@ by {
        assert(before[i].0@ != before[j].0@);
    }
    assert forall|i: int| 0 <= i < after.len() implies {
        &&& (#[trigger] after[i]).1@.len() > 0
        &&& copies_of(after[i].1@, with_key(t1, after[i].0@))
    } by {
        assert(before[i].1@.len() > 0);
        assert(copies_of(before[i].1@, with_key(t0, before[i].0@)));
        assert(with_key(t1, after[i].0@) == if group_key(s[n].rel_path@) == after[i].0@ {
            with_key(t0, after[i].0@).push(s[n])
        } else {
            with_key(t0, after[i].0@)
        });
        if i == q {
            let w = with_key(t0, after[i].0@);
            assert forall|k: int| 0 <= k < after[i].1@.len() implies same_sprite(#[trigger] after[i].1@[k], w.push(s[n])[k]) by {
                if k < before[q].1@.len() {
                    assert(same_sprite(before[q].1@[k], w[k]));
                }
            }
        } else {
            assert(after[i] == before[i]);
            assert(before[i].0@ != before[q].0@);
        }
    }
    assert forall|j: int| 0 <= j < t1.len() implies exists|i: int|
        0 <= i < after.len() && (#[trigger] after[i]).0@ == group_key((#[trigger] t1[j]).rel_path@) by {
        if j < n {
            assert(t1[j] == t0[j]);
            let i = choose|i: int| 0 <= i < before.len() && (#[trigger] before[i]).0@ == group_key((#[trigger] t0[j]).rel_path@);
            if i == q {
                assert(after[q].0@ == group_key(t1[j].rel_path@));
            } else {
                assert(after[i] == before[i]);
            }
        } else {
            assert(t1[j] == s[n]);
            assert(after[q].0@ == group_key(t1[j].rel_path@));
        }
    }
}

/// Inserting a new group for a key not seen before keeps the grouping.
proof fn lemma_group_inserted(
    s: Seq<PreparedSprite>,
    n: int,
    old_keys: Seq<Vec<char>>,
    before: Seq<(String, Vec<PreparedSprite>)>,
    keys: Seq<Vec<char>>,
    after: Seq<(String, Vec<PreparedSprite>)>,
    p: int,
)
    requires
        0 <= n < s.len(),
        0 <= p <= before.len(),
        groups_so_far(s, n, old_keys, before),
        forall|i: int| 0 <= i < old_keys.len() ==> (#[trigger] old_keys[i])@ != keys[p]@,
        forall|i: int| 0 <= i < p ==> text_less(#[trigger] old_keys[i]@, keys[p]@),
        p < old_keys.len() ==> !text_less(old_keys[p]@, keys[p]@),
        keys == old_keys.insert(p, keys[p]),
        after.len() == before.len() + 1,
        forall|i: int| 0 <= i < p ==> #[trigger] after[i] == before[i],
        forall|i: int| p < i < after.len() ==> #[trigger] after[i] == before[i - 1],
        after[p].0@ == keys[p]@,
        keys[p]@ == group_key(s[n].rel_path@),
        after[p].1@.len() == 1,
        same_sprite(after[p].1@[0], s[n]),
        forall|k: Seq<char>|
            #![trigger with_key(s.take(n + 1), k)]
            with_key(s.take(n + 1), k) == if group_key(s[n].rel_path@) == k {
                with_key(s.take(n), k).push(s[n])
            } else {
                with_key(s.take(n), k)
            },
    ensures
        groups_so_far(s, n + 1, keys, after),
{
    let t0 = s.take(n);
    let t1 = s.take(n + 1);
    let key = keys[p]@;
    assert forall|i: int| 0 <= i < keys.len() implies (#[trigger] keys[i])@ == after[i].0@ by {
        if i < p {
            assert(keys[i] == old_keys[i]);
        } else if i > p {
            assert(keys[i] == old_keys[i - 1]);
        }
    }
    assert forall|i: int| 0 <= i && i + 1 < after.len() implies text_less(#[trigger] after[i].0@, after[i + 1].0@) by {
        if i + 1 < p {
            assert(text_less(before[i].0@, before[i + 1].0@));
        } else if i + 1 == p {
            assert(old_keys[i]@ == before[i].0@);
        } else if i == p {
            assert(old_keys[p]@ == before[p].0@);
            assert(old_keys[p]@ != key);
            lemma_text_less_total(old_keys[p]@, key);
        } else {
            assert(text_less(before[i - 1].0@, before[i].0@));
        }
    }
    assert forall|i: int, j: int| 0 <= i < j < after.len() implies (#[trigger] after[i]).0@ != (#[trigger] after[j]).0@ by {
        if i == p {
            assert(old_keys[j - 1]@ == before[j - 1].0@);
        } else if j == p {
            assert(old_keys[i]@ == before[i].0@);
        } else if i < p && j < p {
            assert(before[i].0@ != before[j].0@);
        } else if i < p && j > p {
            assert(before[i].0@ != before[j - 1].0@);
        } else {
            assert(before[i - 1].0@ != before[j - 1].0@);
        }
    }
    assert(with_key(t0, key).len() == 0) by {
        if with_key(t0, key).len() > 0 {
            let f = |x: PreparedSprite| group_key(x.rel_path@) == key;
            let w = t0.filter(f);
            assert(w.contains(w[0]));
            t0.lemma_filter_pred(f, 0);
            t0.lemma_filter_contains_rev(f, w[0]);
            assert(t0.contains(w[0]));
            let j = choose|j: int| 0 <= j < t0.len() && t0[j] == w[0];
            assert(group_key(t0[j].rel_path@) == key);
            let i = choose|i: int| 0 <= i < before.len() && (#[trigger] before[i]).0@ == group_key((#[trigger] t0[j]).rel_path@);
            assert(old_keys[i]@ == before[i].0@);
        }
    }
    assert forall|i: int| 0 <= i < after.len() implies {
        &&& (#[trigger] after[i]).1@.len() > 0
        &&& copies_of(after[i].1@, with_key(t1, after[i].0@))
    } by {
        assert(with_key(t1, after[i].0@) == if group_key(s[n].rel_path@) == after[i].0@ {
            with_key(t0, after[i].0@).push(s[n])
        } else {
            with_key(t0, after[i].0@)
        });
        if i == p {
            assert(with_key(t0, key).push(s[n]) =~= seq![s[n]]);
        } else {
            let b = if i < p { i } else { i - 1 };
            assert(after[i] == before[b]);
            assert(old_keys[b]@ == before[b].0@);
            assert(before[b].1@.len() > 0);
        }
    }
    assert forall|j: int| 0 <= j < t1.len() implies exists|i: int|
        0 <= i < after.len() && (#[trigger] after[i]).0@ == group_key((#[trigger] t1[j]).rel_path@) by {
        if j < n {
            assert(t1[j] == t0[j]);
            let i = choose|i: int| 0 <= i < before.len() && (#[trigger] before[i]).0@ == group_key((#[trigger] t0[j]).rel_path@);
            if i < p {
                assert(after[i] == before[i]);
            } else {
                assert(after[i + 1] == before[i]);
            }
        } else {
            assert(t1[j] == s[n]);
            assert(after[p].0@ == group_key(t1[j].rel_path@));
        }
    }
}

} // verus!

verus! {

// ---------------------------------------------------------------------------
// Notes for the log
// ---------------------------------------------------------------------------

/// A log message says `text` at `level`.
pub open spec fn says(m: LogMessage, level: Seq<char>, text: Seq<char>) -> bool {
    m.level@ == level && m.message@ == text
}

/// The logs say the notes, in order.
pub open spec fn logs_say(logs: Seq<LogMessage>, notes: Seq<(Seq<char>, Seq<char>)>) -> bool {
    &&& logs.len() == notes.len()
    &&& forall|i: int| 0 <= i < logs.len() ==> says(#[trigger] logs[i], notes[i].0, notes[i].1)
}

/// `after` is `before` followed by messages that say the notes.
pub open spec fn logged(
    before: Seq<LogMessage>,
    after: Seq<LogMessage>,
    notes: Seq<(Seq<char>, Seq<char>)>,
) -> bool {
    &&& after.len() == before.len() + notes.len()
    &&& after.take(before.len() as int) == before
    &&& logs_say(after.skip(before.len() as int), notes)
}

pub open spec fn warning_level() -> Seq<char> {
    seq!['w', 'a', 'r', 'n', 'i', 'n', 'g']
}

pub open spec fn info_level() -> Seq<char> {
    seq!['i', 'n', 'f', 'o']
}

/// Adds a message to the log.
pub(crate) fn note(logs: &mut Vec<LogMessage>, level: &str, text: String)
    ensures
        final(logs)@ == old(logs)@.push(final(logs)@.last()),
        says(final(logs)@.last(), level@, text@),
{
    logs.push(LogMessage::new(String::from_str(level), text));
}

/// Appending one note more keeps the earlier ones.
pub(crate) proof fn lemma_logged_push(
    before: Seq<LogMessage>,
    mid: Seq<LogMessage>,
    notes: Seq<(Seq<char>, Seq<char>)>,
    m: LogMessage,
    level: Seq<char>,
    text: Seq<char>,
)
    requires
        logged(before, mid, notes),
        says(m, level, text),
    ensures
        logged(before, mid.push(m), notes.push((level, text))),
{
    let after = mid.push(m);
    let n = before.len() as int;
    assert(after.take(n) == mid.take(n));
    assert forall|i: int| 0 <= i < after.skip(n).len() implies says(
        #[trigger] after.skip(n)[i],
        notes.push((level, text))[i].0,
        notes.push((level, text))[i].1,
    ) by {
        if i < notes.len() {
            assert(after.skip(n)[i] == mid.skip(n)[i]);
        }
    }
}

pub(crate) proof fn lemma_logged_start(logs: Seq<LogMessage>)
    ensures
        logged(logs, logs, Seq::empty()),
{
    assert(logs.take(logs.len() as int) == logs);
}

// ---------------------------------------------------------------------------
// The configuration of a plan
// ---------------------------------------------------------------------------

/// Rotation is asked for a Godot sprite sheet, which cannot restore it.
pub open spec fn godot_drops_rotation(c: PackConfig) -> bool {
    c.allow_rotation && c.output_format == OutputFormat::GodotTpSheet
}

/// Rotation is still asked for with grid alignment, which keeps it off.
pub open spec fn grid_drops_rotation(c: PackConfig) -> bool {
    c.align_to_grid && c.allow_rotation && !godot_drops_rotation(c)
}

/// The configuration a plan runs with: normalized, and without rotation for
/// the Godot sprite sheet and with grid alignment.
pub open spec fn planned_config(config: PackConfig) -> PackConfig {
    let c = normalized_config(config);
    PackConfig { allow_rotation: c.allow_rotation && !godot_drops_rotation(c) && !c.align_to_grid, ..c }
}


/// With grid alignment, the configuration a plan runs with has a size limit
/// of whole cells, so its atlases and placements snap to cells.
pub proof fn lemma_planned_grid_snaps(config: PackConfig)
    requires
        config.align_to_grid,
    ensures
        grid_snaps(planned_config(config)),
{
    lemma_normalized_whole_cells(config);
}

pub open spec fn godot_rotation_text() -> Seq<char> {
    "Godot TexturePacker Importer does not restore rotated sprites; rotation disabled for .tpsheet export."@
}

pub open spec fn grid_rotation_text(cell: u32) -> Seq<char> {
    "Grid alignment mode keeps sprites on "@ + decimal(cell as nat) + "x"@ + decimal(cell as nat)
        + " cells; rotation disabled."@
}

/// The warnings on what the plan changes in the configuration.
pub open spec fn config_notes(config: PackConfig) -> Seq<(Seq<char>, Seq<char>)> {
    let c = normalized_config(config);
    let first: Seq<(Seq<char>, Seq<char>)> = if godot_drops_rotation(c) {
        seq![(warning_level(), godot_rotation_text())]
    } else {
        Seq::empty()
    };
    if grid_drops_rotation(c) {
        first.push((warning_level(), grid_rotation_text(c.grid_cell_size)))
    } else {
        first
    }
}

/// Rotation is asked for where a plan cannot keep it: for the Godot sprite
/// sheet, or with grid alignment.
pub open spec fn rotation_dropped(c: PackConfig) -> bool {
    c.allow_rotation && (c.output_format == OutputFormat::GodotTpSheet || c.align_to_grid)
}

/// `part` occurs somewhere in `text`.
pub open spec fn mentions(text: Seq<char>, part: Seq<char>) -> bool {
    exists|i: int| 0 <= i && i + part.len() <= text.len() && #[trigger] text.subrange(i, i + part.len()) == part
}

proof fn lemma_mentions_at(text: Seq<char>, part: Seq<char>, i: int)
    requires
        0 <= i,
        i + part.len() <= text.len(),
        text.subrange(i, i + part.len()) == part,
    ensures
        mentions(text, part),
{
}

/// A plan runs with the configuration normalized and rotation turned off
/// where it cannot be kept, and it warns that rotation is disabled exactly
/// then.
pub proof fn lemma_plan_config_rotation(c: PackConfig)
    ensures
        planned_config(c) == (PackConfig {
            allow_rotation: c.allow_rotation && !rotation_dropped(c),
            ..normalized_config(c)
        }),
        rotation_dropped(c) <==> exists|i: int|
            0 <= i < config_notes(c).len() && (#[trigger] config_notes(c)[i]).0 == warning_level() && mentions(
                config_notes(c)[i].1,
                "rotation disabled"@,
            ),
{
    let n = normalized_config(c);
    let notes = config_notes(c);
    reveal_strlit("rotation disabled");
    reveal_strlit("Godot TexturePacker Importer does not restore rotated sprites; rotation disabled for .tpsheet export.");
    reveal_strlit(" cells; rotation disabled.");
    reveal_strlit("Grid alignment mode keeps sprites on ");
    reveal_strlit("x");
    if godot_drops_rotation(n) {
        let t = godot_rotation_text();
        assert(t.subrange(63, 80) =~= "rotation disabled"@);
        lemma_mentions_at(t, "rotation disabled"@, 63);
        assert(notes[0] == (warning_level(), t));
    } else if grid_drops_rotation(n) {
        let a = "Grid alignment mode keeps sprites on "@ + decimal(n.grid_cell_size as nat) + "x"@ + decimal(
            n.grid_cell_size as nat,
        );
        let l = " cells; rotation disabled."@;
        let t = grid_rotation_text(n.grid_cell_size);
        assert(t == a + l);
        assert(l.subrange(8, 25) =~= "rotation disabled"@);
        let k: int = a.len() as int + 8;
        assert(t.subrange(k, k + 17) =~= l.subrange(8, 25));
        lemma_mentions_at(t, "rotation disabled"@, k);
        assert(notes[0] == (warning_level(), t));
    } else {
        assert(notes.len() == 0);
    }
}

/// The configuration a plan runs with and the warnings on what it changed.
pub fn plan_config(config: PackConfig) -> (r: (PackConfig, Vec<LogMessage>))
    ensures
        r.0 == planned_config(config),
        logs_say(r.1@, config_notes(config)),
{
    let mut c = config.normalized();
    let mut logs: Vec<LogMessage> = Vec::new();
    proof {
        reveal_strlit("warning");
        assert(warning_level() =~= "warning"@);
        lemma_logged_start(logs@);
    }
    let ghost start = logs@;
    let ghost c0 = c;
    if c.allow_rotation && c.output_format == OutputFormat::GodotTpSheet {
        let ghost mid = logs@;
        note(
            &mut logs,
            "warning",
            String::from_str(
                "Godot TexturePacker Importer does not restore rotated sprites; rotation disabled for .tpsheet export.",
            ),
        );
        proof {
            lemma_logged_push(start, mid, Seq::empty(), logs@.last(), warning_level(), godot_rotation_text());
            assert(Seq::<(Seq<char>, Seq<char>)>::empty().push((warning_level(), godot_rotation_text()))
                == seq![(warning_level(), godot_rotation_text())]);
        }
        c.allow_rotation = false;
    }
    let ghost first: Seq<(Seq<char>, Seq<char>)> = if godot_drops_rotation(c0) {
        seq![(warning_level(), godot_rotation_text())]
    } else {
        Seq::empty()
    };
    assert(logged(start, logs@, first));
    if c.align_to_grid && c.allow_rotation {
        let mut text: Vec<char> = Vec::new();
        push_str_chars(&mut text, "Grid alignment mode keeps sprites on ");
        push_decimal(&mut text, c.grid_cell_size as u64);
        push_str_chars(&mut text, "x");
        push_decimal(&mut text, c.grid_cell_size as u64);
        push_str_chars(&mut text, " cells; rotation disabled.");
        let ghost mid = logs@;
        note(&mut logs, "warning", string_from_chars(&text));
        proof {
            assert(text@ == grid_rotation_text(c.grid_cell_size));
            lemma_logged_push(start, mid, first, logs@.last(), warning_level(), grid_rotation_text(c.grid_cell_size));
        }
        c.allow_rotation = false;
    }
    proof {
        assert(start.len() == 0);
        assert(logs@.skip(0) == logs@);
    }
    (c, logs)
}

} // verus!

verus! {

// ---------------------------------------------------------------------------
// The images a plan packs
// ---------------------------------------------------------------------------

/// The images that could be read.
pub open spec fn readable_of(images: Seq<SourceImage>) -> Seq<SourceImage> {
    images.filter(|s: SourceImage| s.readable)
}

/// The notes on a scan: its warnings, then how many images it found and how
/// many of them can be read.
pub open spec fn scan_notes(scan: ScanResult) -> Seq<(Seq<char>, Seq<char>)> {
    Seq::new(scan.warnings@.len(), |i: int| (warning_level(), scan.warnings@[i]@)) + seq![
        (info_level(), "Images found: "@ + decimal(scan.total_images as nat)),
        (info_level(), "Readable images: "@ + decimal(readable_of(scan.images@).len())),
    ]
}

/// Copies of sources, element by element.
pub open spec fn source_copies(a: Seq<SourceImage>, b: Seq<SourceImage>) -> bool {
    &&& a.len() == b.len()
    &&& forall|k: int| 0 <= k < a.len() ==> same_source(#[trigger] a[k], b[k])
}

proof fn lemma_readable_step(images: Seq<SourceImage>, i: int)
    requires
        0 <= i < images.len(),
    ensures
        readable_of(images.take(i + 1)) == if images[i].readable {
            readable_of(images.take(i)).push(images[i])
        } else {
            readable_of(images.take(i))
        },
{
    reveal(Seq::filter);
    assert(images.take(i + 1).drop_last() == images.take(i));
}

/// Logs what the scan found and keeps the images that can be read; fails
/// when there are none.
pub fn take_readable(scan: &ScanResult, logs: &mut Vec<LogMessage>) -> (r: Result<
    Vec<SourceImage>,
    PackError,
>)
    ensures
        logged(old(logs)@, final(logs)@, scan_notes(*scan)),
        r is Err <==> readable_of(scan.images@).len() == 0,
        r matches Err(e) ==> e is NoReadableImages,
        r matches Ok(v) ==> source_copies(v@, readable_of(scan.images@)),
{
    let ghost start = logs@;
    proof {
        lemma_logged_start(logs@);
        reveal_strlit("warning");
        reveal_strlit("info");
        assert(warning_level() =~= "warning"@);
        assert(info_level() =~= "info"@);
    }
    let mut i: usize = 0;
    while i < scan.warnings.len()
        invariant
            i <= scan.warnings@.len(),
            warning_level() == "warning"@,
            logged(
                start,
                logs@,
                Seq::new(i as nat, |k: int| (warning_level(), scan.warnings@[k]@)),
            ),
        decreases scan.warnings@.len() - i,
    {
        let ghost mid = logs@;
        note(logs, "warning", scan.warnings[i].clone());
        proof {
            lemma_logged_push(
                start,
                mid,
                Seq::new(i as nat, |k: int| (warning_level(), scan.warnings@[k]@)),
                logs@.last(),
                warning_level(),
                scan.warnings@[i as int]@,
            );
            assert(Seq::new(i as nat, |k: int| (warning_level(), scan.warnings@[k]@)).push(
                (warning_level(), scan.warnings@[i as int]@),
            ) =~= Seq::new((i + 1) as nat, |k: int| (warning_level(), scan.warnings@[k]@)));
        }
        i += 1;
    }
    let ghost warned = Seq::new(scan.warnings@.len(), |k: int| (warning_level(), scan.warnings@[k]@));
    let mut readable: Vec<SourceImage> = Vec::new();
    let mut j: usize = 0;
    proof {
        reveal(Seq::filter);
        assert(scan.images@.take(0) == Seq::<SourceImage>::empty());
    }
    while j < scan.images.len()
        invariant
            j <= scan.images@.len(),
            source_copies(readable@, readable_of(scan.images@.take(j as int))),
        decreases scan.images@.len() - j,
    {
        proof {
            lemma_readable_step(scan.images@, j as int);
        }
        if scan.images[j].readable {
            readable.push(scan.images[j].clone());
        }
        j += 1;
    }
    assert(scan.images@.take(scan.images@.len() as int) == scan.images@);
    let mut found: Vec<char> = Vec::new();
    push_str_chars(&mut found, "Images found: ");
    push_decimal(&mut found, scan.total_images as u64);
    let ghost mid = logs@;
    note(logs, "info", string_from_chars(&found));
    let ghost found_note = (info_level(), "Images found: "@ + decimal(scan.total_images as nat));
    proof {
        lemma_logged_push(start, mid, warned, logs@.last(), info_level(), found_note.1);
    }
    let mut count: Vec<char> = Vec::new();
    push_str_chars(&mut count, "Readable images: ");
    push_decimal(&mut count, readable.len() as u64);
    let ghost mid2 = logs@;
    note(logs, "info", string_from_chars(&count));
    proof {
        let count_note = (info_level(), "Readable images: "@ + decimal(readable_of(scan.images@).len()));
        lemma_logged_push(start, mid2, warned.push(found_note), logs@.last(), info_level(), count_note.1);
        assert(warned.push(found_note).push(count_note) =~= scan_notes(*scan));
    }
    if readable.len() == 0 {
        return Err(PackError::NoReadableImages);
    }
    Ok(readable)
}

// ---------------------------------------------------------------------------
// Groups of a plan
// ---------------------------------------------------------------------------

pub open spec fn grid_snap_text(config: PackConfig) -> Seq<char> {
    "Grid alignment enabled: sprites snap to "@ + decimal(config.grid_cell_size as nat) + "x"@
        + decimal(config.grid_cell_size as nat) + " cells"@ + if config.slice_grid_cells {
        "; transparent grid holes split the image into occupied grid regions"@
    } else {
        "; each source image stays a single sprite"@
    } + "."@
}

/// The notes before packing: the grid in use, then how many groups there are.
pub open spec fn grouping_notes(config: PackConfig, groups: nat) -> Seq<(Seq<char>, Seq<char>)> {
    let grid: Seq<(Seq<char>, Seq<char>)> = if config.align_to_grid {
        seq![(info_level(), grid_snap_text(config))]
    } else {
        Seq::empty()
    };
    grid.push((info_level(), "Packing groups: "@ + decimal(groups)))
}

/// Sorts the prepared sprites, largest required area first, and splits them
/// into groups as the configuration says, with notes in the log.
pub fn group_sprites(prepared: Vec<PreparedSprite>, config: PackConfig, logs: &mut Vec<LogMessage>) -> (groups: Vec<
    (String, Vec<PreparedSprite>),
>)
    requires
        all_sizes_fit(prepared@, config),
    ensures
        exists|sorted: Seq<PreparedSprite>|
            {
                &&& sorted.to_multiset() == prepared@.to_multiset()
                &&& sprites_content(sorted, config) == sprites_content(prepared@, config)
                &&& area_descending(sorted, config)
                &&& split_ok(sorted, config.split_mode, groups@)
            },
        split_ok(by_area_desc(prepared@, config), config.split_mode, groups@),
        groups_ids(groups@) == sprite_ids(prepared@),
        logged(old(logs)@, final(logs)@, grouping_notes(config, groups@.len())),
{
    let sorted = sort_by_area_desc(prepared, config);
    let ghost start = logs@;
    proof {
        lemma_logged_start(logs@);
        reveal_strlit("info");
        assert(info_level() =~= "info"@);
    }
    let ghost grid: Seq<(Seq<char>, Seq<char>)> = if config.align_to_grid {
        seq![(info_level(), grid_snap_text(config))]
    } else {
        Seq::empty()
    };
    if config.align_to_grid {
        let mut text: Vec<char> = Vec::new();
        push_str_chars(&mut text, "Grid alignment enabled: sprites snap to ");
        push_decimal(&mut text, config.grid_cell_size as u64);
        push_str_chars(&mut text, "x");
        push_decimal(&mut text, config.grid_cell_size as u64);
        push_str_chars(&mut text, " cells");
        if config.slice_grid_cells {
            push_str_chars(&mut text, "; transparent grid holes split the image into occupied grid regions");
        } else {
            push_str_chars(&mut text, "; each source image stays a single sprite");
        }
        push_str_chars(&mut text, ".");
        let ghost mid = logs@;
        note(logs, "info", string_from_chars(&text));
        proof {
            assert(text@ == grid_snap_text(config));
            lemma_logged_push(start, mid, Seq::empty(), logs@.last(), info_level(), grid_snap_text(config));
            assert(Seq::<(Seq<char>, Seq<char>)>::empty().push((info_level(), grid_snap_text(config))) == grid);
        }
    }
    let groups = split_groups(sorted.as_slice(), config.split_mode);
    let mut text: Vec<char> = Vec::new();
    push_str_chars(&mut text, "Packing groups: ");
    push_decimal(&mut text, groups.len() as u64);
    let ghost mid = logs@;
    note(logs, "info", string_from_chars(&text));
    proof {
        lemma_logged_push(start, mid, grid, logs@.last(), info_level(), "Packing groups: "@ + decimal(groups@.len()));
    }
    groups
}

pub open spec fn group_note_text(name: Seq<char>, count: nat) -> Seq<char> {
    "Pack group '"@ + name + "' with "@ + decimal(count) + " sprites."@
}

/// One note per group, before it is packed.
pub open spec fn pack_notes(groups: Seq<(String, Vec<PreparedSprite>)>) -> Seq<(Seq<char>, Seq<char>)> {
    Seq::new(groups.len(), |i: int| (info_level(), group_note_text(groups[i].0@, groups[i].1@.len())))
}

} // verus!

verus! {

// ---------------------------------------------------------------------------
// Packing the groups
// ---------------------------------------------------------------------------

pub proof fn lemma_builds_ids_concat(a: Seq<AtlasBuild>, b: Seq<AtlasBuild>)
    ensures
        builds_ids(a + b) == builds_ids(a).add(builds_ids(b)),
    decreases b.len(),
{
    broadcast use vstd::multiset::group_multiset_axioms;
    if b.len() == 0 {
        assert(a + b == a);
        assert(builds_ids(a).add(builds_ids(b)) =~= builds_ids(a));
    } else {
        assert((a + b).drop_last() == a + b.drop_last());
        lemma_builds_ids_concat(a, b.drop_last());
        assert(builds_ids(a + b) =~= builds_ids(a).add(builds_ids(b)));
    }
}

/// The ids of a sequence of sprites are as many as the sprites.
pub proof fn lemma_sprite_ids_len(s: Seq<PreparedSprite>)
    ensures
        sprite_ids(s).len() == s.len(),
{
    let f = |x: PreparedSprite| sprite_key(x);
    s.map_values(f).to_multiset_ensures();
}

/// The groups up to `n` hold no more ids than all of them.
proof fn lemma_groups_ids_prefix(groups: Seq<(String, Vec<PreparedSprite>)>, n: int)
    requires
        0 <= n <= groups.len(),
    ensures
        groups_ids(groups.take(n)).len() <= groups_ids(groups).len(),
{
    broadcast use vstd::multiset::group_multiset_axioms;
    assert(groups == groups.take(n) + groups.skip(n));
    lemma_groups_ids_concat(groups.take(n), groups.skip(n));
}

/// The builds of the parts, one part after the other.
pub open spec fn joined_builds(parts: Seq<Seq<AtlasBuild>>) -> Seq<AtlasBuild>
    decreases parts.len(),
{
    if parts.len() == 0 {
        Seq::empty()
    } else {
        joined_builds(parts.drop_last()) + parts.last()
    }
}

/// Each part is what packing its group gives, named after the group.
pub open spec fn groups_packed(
    groups: Seq<(String, Vec<PreparedSprite>)>,
    parts: Seq<Seq<AtlasBuild>>,
    config: PackConfig,
) -> bool {
    &&& parts.len() == groups.len()
    &&& forall|i: int| 0 <= i < groups.len() ==> #[trigger] group_outcome(groups[i].1@, config, Ok(parts[i]))
    &&& forall|i: int, k: int|
        0 <= i < groups.len() && 0 <= k < parts[i].len() ==> (#[trigger] parts[i][k]).group_name@ == groups[i].0@
}

/// Packs each group in turn, numbering the atlases across groups, with a
/// note in the log before each group.
#[verifier::rlimit(30)]
pub fn pack_groups(
    groups: &Vec<(String, Vec<PreparedSprite>)>,
    config: PackConfig,
    logs: &mut Vec<LogMessage>,
) -> (r: Result<Vec<AtlasBuild>, PackError>)
    requires
        forall|i: int| 0 <= i < groups@.len() ==> group_pack_ok(#[trigger] groups@[i].1@, config),
        groups_ids(groups@).len() <= usize::MAX,
    ensures
        r matches Ok(builds) ==> {
            &&& logged(old(logs)@, final(logs)@, pack_notes(groups@))
            &&& builds_ids(builds@) == groups_ids(groups@)
            &&& forall|i: int, j: int|
                0 <= i < groups@.len() && 0 <= j < groups@[i].1@.len() ==> fits_max_size(
                    #[trigger] groups@[i].1@[j],
                    config,
                )
            &&& forall|k: int|
                0 <= k < builds@.len() ==> exists|i: int|
                    0 <= i < groups@.len() && build_ok(#[trigger] builds@[k], k, groups@[i].0@, config)
        },
        r matches Err(e) ==> exists|i: int|
            {
                &&& 0 <= i < groups@.len()
                &&& group_error(e, #[trigger] groups@[i].1@, config)
                &&& logged(old(logs)@, final(logs)@, pack_notes(groups@.take(i + 1)))
            },
        r matches Ok(builds) ==> exists|parts: Seq<Seq<AtlasBuild>>|
            #[trigger] groups_packed(groups@, parts, config) && builds@ == joined_builds(parts),
        r matches Ok(builds) ==> grid_snaps(config) ==> forall|k: int|
            0 <= k < builds@.len() ==> build_on_grid(#[trigger] builds@[k], config),
        r matches Err(e) ==> exists|i: int, parts: Seq<Seq<AtlasBuild>>|
            {
                &&& 0 <= i < groups@.len()
                &&& #[trigger] groups_packed(groups@.take(i), parts, config)
                &&& group_outcome(groups@[i].1@, config, Err(e))
            },
{
    let ghost start = logs@;
    let ghost mut parts: Seq<Seq<AtlasBuild>> = Seq::empty();
    let mut builds: Vec<AtlasBuild> = Vec::new();
    let mut gi: usize = 0;
    proof {
        lemma_logged_start(logs@);
        reveal_strlit("info");
        assert(info_level() =~= "info"@);
        assert(groups@.take(0) == Seq::<(String, Vec<PreparedSprite>)>::empty());
        assert(pack_notes(groups@.take(0)) =~= Seq::<(Seq<char>, Seq<char>)>::empty());
        assert(builds_ids(builds@) == Multiset::<(usize, nat)>::empty());
        assert(groups_ids(groups@.take(0)) == Multiset::<(usize, nat)>::empty());
    }
    while gi < groups.len()
        invariant
            gi <= groups@.len(),
            forall|i: int| 0 <= i < groups@.len() ==> group_pack_ok(#[trigger] groups@[i].1@, config),
            groups_ids(groups@).len() <= usize::MAX,
            info_level() == "info"@,
            start == old(logs)@,
            logged(start, logs@, pack_notes(groups@.take(gi as int))),
            builds_ids(builds@) == groups_ids(groups@.take(gi as int)),
            builds@.len() <= groups_ids(groups@.take(gi as int)).len(),
            forall|i: int, j: int|
                0 <= i < gi && 0 <= j < groups@[i].1@.len() ==> fits_max_size(
                    #[trigger] groups@[i].1@[j],
                    config,
                ),
            forall|k: int|
                0 <= k < builds@.len() ==> exists|i: int|
                    0 <= i < groups@.len() && build_ok(#[trigger] builds@[k], k, groups@[i].0@, config),
            groups_packed(groups@.take(gi as int), parts, config),
            builds@ == joined_builds(parts),
            grid_snaps(config) ==> forall|k: int| 0 <= k < builds@.len() ==> build_on_grid(#[trigger] builds@[k], config),
        decreases groups@.len() - gi,
    {
        let ghost g = groups@[gi as int];
        let ghost t = groups@.take(gi as int);
        let mut text: Vec<char> = Vec::new();
        push_str_chars(&mut text, "Pack group '");
        push_str_chars(&mut text, groups[gi].0.as_str());
        push_str_chars(&mut text, "' with ");
        push_decimal(&mut text, groups[gi].1.len() as u64);
        push_str_chars(&mut text, " sprites.");
        let ghost mid = logs@;
        note(logs, "info", string_from_chars(&text));
        proof {
            lemma_logged_push(start, mid, pack_notes(t), logs@.last(), info_level(), group_note_text(g.0@, g.1@.len()));
            assert(groups@.take(gi + 1) == t.push(g));
            assert(pack_notes(t).push((info_level(), group_note_text(g.0@, g.1@.len())))
                =~= pack_notes(groups@.take(gi + 1)));
            assert(logged(start, logs@, pack_notes(groups@.take(gi + 1))));
            assert(groups@.take(gi + 1).drop_last() == t);
            lemma_sprite_ids_len(g.1@);
            lemma_groups_ids_prefix(groups@, gi + 1);
            assert(groups_ids(groups@.take(gi + 1)) == groups_ids(t).add(sprite_ids(g.1@)));
        }
        let start_index = builds.len();
        match build_atlases_for_group(groups[gi].0.as_str(), groups[gi].1.as_slice(), config, start_index) {
            Err(e) => {
                assert(group_error(e, groups@[gi as int].1@, config));
                assert(logged(start, logs@, pack_notes(groups@.take(gi + 1))));
                assert(groups_packed(groups@.take(gi as int), parts, config));
                return Err(e);
            },
            Ok(group_builds) => {
                let ghost before = builds@;
                let ghost added = group_builds@;
                let mut group_builds = group_builds;
                builds.append(&mut group_builds);
                proof {
                    lemma_builds_ids_concat(before, added);
                    let np = parts.push(added);
                    assert(np.drop_last() == parts);
                    assert(joined_builds(np) == joined_builds(parts) + added);
                    assert(groups@.take(gi + 1) == t.push(g));
                    assert forall|i: int| 0 <= i < gi + 1 implies #[trigger] group_outcome(
                        groups@.take(gi + 1)[i].1@,
                        config,
                        Ok(np[i]),
                    ) by {
                        if i < gi {
                            assert(groups@.take(gi + 1)[i] == t[i]);
                            assert(np[i] == parts[i]);
                        } else {
                            assert(np[i] == added);
                        }
                    }
                    assert forall|i: int, k: int| 0 <= i < gi + 1 && 0 <= k < np[i].len() implies (
                    #[trigger] np[i][k]).group_name@ == groups@.take(gi + 1)[i].0@ by {
                        if i < gi {
                            assert(groups@.take(gi + 1)[i] == t[i]);
                            assert(np[i] == parts[i]);
                        } else {
                            assert(np[i] == added);
                            assert(build_ok(added[k], start_index + k, g.0@, config));
                        }
                    }
                    parts = np;
                    if grid_snaps(config) {
                        assert forall|k: int| 0 <= k < builds@.len() implies build_on_grid(#[trigger] builds@[k], config) by {
                            if k < before.len() {
                                assert(builds@[k] == before[k]);
                            } else {
                                assert(builds@[k] == added[k - before.len()]);
                            }
                        }
                    }
                    assert forall|k: int| 0 <= k < builds@.len() implies exists|i: int|
                        0 <= i < groups@.len() && build_ok(#[trigger] builds@[k], k, groups@[i].0@, config) by {
                        if k < before.len() {
                            assert(builds@[k] == before[k]);
                        } else {
                            assert(builds@[k] == added[k - before.len()]);
                            assert(build_ok(added[k - before.len()], start_index + (k - before.len()), g.0@, config));
                        }
                    }
                }
            },
        }
        gi += 1;
    }
    assert(groups@.take(groups@.len() as int) == groups@);
    assert(groups_packed(groups@, parts, config));
    Ok(builds)
}

} // verus!

verus! {

// ---------------------------------------------------------------------------
// The plan
// ---------------------------------------------------------------------------

/// A sprite says the same as itself.
pub proof fn lemma_same_sprite_refl(a: PreparedSprite)
    ensures
        same_sprite(a, a),
{
}

/// The frames of all the sprites, as the sprite sheet lists them.
pub open spec fn frames_total(sprites: Seq<PreparedSprite>, config: PackConfig) -> int
    decreases sprites.len(),
{
    if sprites.len() == 0 {
        0
    } else {
        frames_total(sprites.drop_last(), config) + sprite_frames(sprites.last(), config)
    }
}

proof fn lemma_frames_prefix(sprites: Seq<PreparedSprite>, config: PackConfig, n: int)
    requires
        0 <= n <= sprites.len(),
    ensures
        0 <= frames_total(sprites.take(n), config) <= frames_total(sprites, config),
    decreases sprites.len(),
{
    if sprites.len() > 0 {
        if n == sprites.len() {
            assert(sprites.take(n) == sprites);
            lemma_frames_prefix(sprites.drop_last(), config, n - 1);
            assert(sprites.drop_last().take(n - 1) == sprites.drop_last());
        } else {
            assert(sprites.drop_last().take(n) == sprites.take(n));
            lemma_frames_prefix(sprites.drop_last(), config, n);
        }
    }
}

/// Counts the frames of all the sprites.
pub fn count_frames(sprites: &[PreparedSprite], config: PackConfig) -> (total: usize)
    requires
        frames_total(sprites@, config) <= usize::MAX,
    ensures
        total == frames_total(sprites@, config),
{
    let mut total: usize = 0;
    let mut i: usize = 0;
    while i < sprites.len()
        invariant
            i <= sprites@.len(),
            frames_total(sprites@, config) <= usize::MAX,
            total == frames_total(sprites@.take(i as int), config),
        decreases sprites@.len() - i,
    {
        proof {
            assert(sprites@.take(i + 1).drop_last() == sprites@.take(i as int));
            lemma_frames_prefix(sprites@, config, i + 1);
        }
        total = total + output_sprite_count(&sprites[i], config);
        i += 1;
    }
    assert(sprites@.take(sprites@.len() as int) == sprites@);
    total
}

/// A group's sprites bring no more content than all the sprites.
proof fn lemma_with_key_content(s: Seq<PreparedSprite>, key: Seq<char>, config: PackConfig)
    ensures
        sprites_content(with_key(s, key), config) <= sprites_content(s, config),
    decreases s.len(),
{
    reveal(Seq::filter);
    if s.len() > 0 {
        lemma_with_key_content(s.drop_last(), key, config);
        lemma_sprite_content_nonneg(s.last(), config);
        let w = with_key(s.drop_last(), key);
        assert(w.push(s.last()).drop_last() == w);
    }
}

/// A group's sprites are sprites of the whole.
proof fn lemma_with_key_descends(s: Seq<PreparedSprite>, key: Seq<char>)
    ensures
        descends(with_key(s, key), s),
{
    let f = |x: PreparedSprite| group_key(x.rel_path@) == key;
    let w = s.filter(f);
    assert forall|k: int| 0 <= k < w.len() implies matched_in(#[trigger] w[k], s) by {
        assert(w.contains(w[k]));
        s.lemma_filter_contains_rev(f, w[k]);
        let j = choose|j: int| 0 <= j < s.len() && s[j] == w[k];
        lemma_same_sprite_refl(w[k]);
        assert(same_sprite(w[k], s[j]));
    }
}

/// A reordering of the sprites descends from them.
proof fn lemma_reordered_descends(sorted: Seq<PreparedSprite>, prepared: Seq<PreparedSprite>)
    requires
        sorted.to_multiset() == prepared.to_multiset(),
    ensures
        descends(sorted, prepared),
{
    sorted.to_multiset_ensures();
    prepared.to_multiset_ensures();
    assert forall|k: int| 0 <= k < sorted.len() implies matched_in(#[trigger] sorted[k], prepared) by {
        assert(sorted.contains(sorted[k]));
        assert(prepared.to_multiset().count(sorted[k]) > 0);
        assert(prepared.contains(sorted[k]));
        let j = choose|j: int| 0 <= j < prepared.len() && prepared[j] == sorted[k];
        lemma_same_sprite_refl(sorted[k]);
        assert(same_sprite(sorted[k], prepared[j]));
    }
}

/// Every group of the sorted sprites can be packed as all of them can, and
/// its sprites descend from them.
proof fn lemma_groups_packable(
    prepared: Seq<PreparedSprite>,
    sorted: Seq<PreparedSprite>,
    groups: Seq<(String, Vec<PreparedSprite>)>,
    config: PackConfig,
)
    requires
        group_pack_ok(prepared, config),
        sorted.to_multiset() == prepared.to_multiset(),
        sprites_content(sorted, config) == sprites_content(prepared, config),
        split_ok(sorted, config.split_mode, groups),
    ensures
        forall|i: int|
            0 <= i < groups.len() ==> group_pack_ok(#[trigger] groups[i].1@, config) && descends(
                groups[i].1@,
                prepared,
            ),
{
    lemma_reordered_descends(sorted, prepared);
    sorted.to_multiset_ensures();
    prepared.to_multiset_ensures();
    assert(sorted.len() == prepared.len());
    assert forall|i: int| 0 <= i < groups.len() implies group_pack_ok(#[trigger] groups[i].1@, config)
        && descends(groups[i].1@, prepared) by {
        let members = groups[i].1@;
        if config.split_mode == SplitMode::AllInOne {
            assert(members.len() == sorted.len());
            lemma_copy_descends(members, sorted);
            lemma_alike_content(members, sorted, config);
            lemma_descends_trans(members, sorted, prepared);
        } else {
            let w = with_key(sorted, groups[i].0@);
            sorted.lemma_filter_len(|s: PreparedSprite| group_key(s.rel_path@) == groups[i].0@);
            assert(members.len() == w.len());
            lemma_copy_descends(members, w);
            lemma_alike_content(members, w, config);
            lemma_with_key_content(sorted, groups[i].0@, config);
            lemma_with_key_descends(sorted, groups[i].0@);
            lemma_descends_trans(members, w, sorted);
            lemma_descends_trans(members, sorted, prepared);
        }
        lemma_descends_ok(members, prepared, config);
    }
}

/// A group's failure is a failure for a sprite of the whole.
proof fn lemma_group_error_from(
    e: PackError,
    members: Seq<PreparedSprite>,
    prepared: Seq<PreparedSprite>,
    config: PackConfig,
)
    requires
        group_error(e, members, config),
        descends(members, prepared),
    ensures
        group_error(e, prepared, config),
{
    match e {
        PackError::TooLarge { rel_path, width, height, max_size } => {
            let i = choose|i: int|
                {
                    &&& 0 <= i < members.len()
                    &&& !fits_max_size(#[trigger] members[i], config)
                    &&& rel_path@ == members[i].rel_path@
                    &&& width == required_dims(members[i], config).0
                    &&& height == required_dims(members[i], config).1
                    &&& max_size == config.max_size
                };
            assert(matched_in(members[i], prepared));
            let j = choose|j: int| 0 <= j < prepared.len() && #[trigger] same_sprite(members[i], prepared[j]);
            lemma_same_sprite_alike(members[i], prepared[j], config);
        },
        PackError::Unpackable { rel_path, max_size } => {
            let i = choose|i: int|
                {
                    &&& 0 <= i < members.len()
                    &&& !fits_empty_grid(#[trigger] members[i], config)
                    &&& rel_path@ == members[i].rel_path@
                };
            assert(matched_in(members[i], prepared));
            let j = choose|j: int| 0 <= j < prepared.len() && #[trigger] same_sprite(members[i], prepared[j]);
            lemma_same_sprite_alike(members[i], prepared[j], config);
        },
        _ => {},
    }
}

/// Notes logged one after the other.
proof fn lemma_logged_chain(
    a: Seq<LogMessage>,
    b: Seq<LogMessage>,
    c: Seq<LogMessage>,
    n1: Seq<(Seq<char>, Seq<char>)>,
    n2: Seq<(Seq<char>, Seq<char>)>,
)
    requires
        logged(a, b, n1),
        logged(b, c, n2),
    ensures
        logged(a, c, n1 + n2),
{
    let la = a.len() as int;
    let lb = b.len() as int;
    assert(c.take(la) == c.take(lb).take(la));
    assert forall|i: int| 0 <= i < c.skip(la).len() implies says(
        #[trigger] c.skip(la)[i],
        (n1 + n2)[i].0,
        (n1 + n2)[i].1,
    ) by {
        if i < n1.len() {
            assert(c.skip(la)[i] == c.take(lb)[la + i]);
            assert(b.skip(la)[i] == b[la + i]);
        } else {
            assert(c.skip(la)[i] == c.skip(lb)[i - n1.len()]);
        }
    }
}

/// A plan's builds as they are counted: numbered 0, 1, ... in order across
/// the groups, holding every prepared sprite once, with the frame count of
/// the sprite sheet.
pub open spec fn plan_counted(
    prepared: Seq<PreparedSprite>,
    config: PackConfig,
    builds: Seq<AtlasBuild>,
    total: int,
) -> bool {
    &&& forall|k: int| 0 <= k < builds.len() ==> (#[trigger] builds[k]).atlas_index == k
    &&& builds_ids(builds) == sprite_ids(prepared)
    &&& total == frames_total(prepared, config)
}

/// The builds of a plan: the prepared sprites sorted and grouped, then each
/// group packed in turn; with the notes in the log. Gives the builds and the
/// number of frames of the sprite sheet.
pub fn plan_builds(prepared: Vec<PreparedSprite>, config: PackConfig, logs: &mut Vec<LogMessage>) -> (r: Result<
    (Vec<AtlasBuild>, usize),
    PackError,
>)
    requires
        group_pack_ok(prepared@, config),
        frames_total(prepared@, config) <= usize::MAX,
    ensures
        r matches Err(e) ==> group_error(e, prepared@, config),
        r matches Ok((builds, total)) ==> {
            &&& total == frames_total(prepared@, config)
            &&& total == builds_frames(builds@, config)
            &&& plan_counted(prepared@, config, builds@, total as int)
            &&& builds_ids(builds@) == sprite_ids(prepared@)
            &&& grid_snaps(config) ==> forall|k: int| 0 <= k < builds@.len() ==> build_on_grid(#[trigger] builds@[k], config)
        },
        exists|groups: Seq<(String, Vec<PreparedSprite>)>, n: int|
            {
                &&& split_ok(by_area_desc(prepared@, config), config.split_mode, groups)
                &&& 0 <= n <= groups.len()
                &&& logged(
                    old(logs)@,
                    final(logs)@,
                    grouping_notes(config, groups.len()) + pack_notes(groups.take(n)),
                )
                &&& r matches Ok((builds, total)) ==> {
                    &&& n == groups.len()
                    &&& forall|k: int|
                        0 <= k < builds@.len() ==> exists|i: int|
                            0 <= i < groups.len() && build_ok(#[trigger] builds@[k], k, groups[i].0@, config)
                    &&& exists|parts: Seq<Seq<AtlasBuild>>|
                        #[trigger] groups_packed(groups, parts, config) && builds@ == joined_builds(parts)
                }
                &&& r matches Err(e) ==> exists|i: int, parts: Seq<Seq<AtlasBuild>>|
                    {
                        &&& 0 <= i < groups.len()
                        &&& #[trigger] groups_packed(groups.take(i), parts, config)
                        &&& group_outcome(groups[i].1@, config, Err(e))
                    }
            },
{
    let total = count_frames(prepared.as_slice(), config);
    let count = prepared.len();
    let ghost p = prepared@;
    let ghost l0 = logs@;
    proof {
        lemma_sprite_ids_len(p);
    }
    let groups = group_sprites(prepared, config, logs);
    let ghost l1 = logs@;
    proof {
        assert(groups_ids(groups@).len() == count);
        let sorted = choose|sorted: Seq<PreparedSprite>|
            {
                &&& sorted.to_multiset() == p.to_multiset()
                &&& sprites_content(sorted, config) == sprites_content(p, config)
                &&& area_descending(sorted, config)
                &&& split_ok(sorted, config.split_mode, groups@)
            };
        lemma_groups_packable(p, sorted, groups@, config);
    }
    let built = pack_groups(&groups, config, logs);
    match built {
        Err(e) => {
            proof {
                let i = choose|i: int|
                    {
                        &&& 0 <= i < groups@.len()
                        &&& group_error(e, #[trigger] groups@[i].1@, config)
                        &&& logged(l1, logs@, pack_notes(groups@.take(i + 1)))
                    };
                lemma_group_error_from(e, groups@[i].1@, p, config);
                lemma_logged_chain(l0, l1, logs@, grouping_notes(config, groups@.len()), pack_notes(groups@.take(i + 1)));
                assert(0 <= i + 1 <= groups@.len());
            }
            Err(e)
        },
        Ok(builds) => {
            proof {
                lemma_logged_chain(l0, l1, logs@, grouping_notes(config, groups@.len()), pack_notes(groups@));
                assert(groups@.take(groups@.len() as int) == groups@);
                lemma_plan_frames(p, builds@, config);
                assert forall|k: int| 0 <= k < builds@.len() implies (#[trigger] builds@[k]).atlas_index == k by {
                    let i = choose|i: int|
                        0 <= i < groups@.len() && build_ok(#[trigger] builds@[k], k, groups@[i].0@, config);
                }
            }
            Ok((builds, total))
        },
    }
}

} // verus!

verus! {

proof fn lemma_content_prefix(sprites: Seq<PreparedSprite>, config: PackConfig, n: int)
    requires
        0 <= n <= sprites.len(),
    ensures
        0 <= sprites_content(sprites.take(n), config) <= sprites_content(sprites, config),
    decreases sprites.len(),
{
    if sprites.len() > 0 {
        lemma_sprite_content_nonneg(sprites.last(), config);
        if n == sprites.len() {
            assert(sprites.take(n) == sprites);
            lemma_content_prefix(sprites.drop_last(), config, n - 1);
            assert(sprites.drop_last().take(n - 1) == sprites.drop_last());
        } else {
            assert(sprites.drop_last().take(n) == sprites.take(n));
            lemma_content_prefix(sprites.drop_last(), config, n);
        }
    }
}

/// Whether every cell of the sprite lies in its box of cells.
fn slices_fit_box(sprite: &PreparedSprite, config: PackConfig) -> (r: bool)
    requires
        sprite.padded_fits(),
    ensures
        r == slices_in_bbox(*sprite, config),
{
    let cell = if config.grid_cell_size >= 1 {
        config.grid_cell_size
    } else {
        1
    };
    let (bbox_width, bbox_height) = required_pack_dimensions(sprite, config);
    let bw = div_ceil_u32(bbox_width, cell);
    let columns = if bw >= 1 {
        bw
    } else {
        1
    };
    let bh = div_ceil_u32(bbox_height, cell);
    let rows = if bh >= 1 {
        bh
    } else {
        1
    };
    assert((columns, rows) == bbox_cells(*sprite, config));
    let mut k: usize = 0;
    while k < sprite.grid_slices.len()
        invariant
            k <= sprite.grid_slices@.len(),
            (columns, rows) == bbox_cells(*sprite, config),
            forall|j: int| 0 <= j < k ==> (#[trigger] sprite.grid_slices@[j]).x < columns
                && sprite.grid_slices@[j].y < rows,
        decreases sprite.grid_slices@.len() - k,
    {
        if sprite.grid_slices[k].x >= columns || sprite.grid_slices[k].y >= rows {
            return false;
        }
        k += 1;
    }
    true
}

/// Whether the sprites and the configuration stay within what a plan can
/// compute without overflow (what `plan_builds` requires).
pub fn plan_limits_ok(sprites: &[PreparedSprite], config: PackConfig) -> (r: bool)
    ensures
        r == (group_pack_ok(sprites@, config) && frames_total(sprites@, config) <= usize::MAX),
{
    if config.max_size < 1 {
        return false;
    }
    let cell = if config.grid_cell_size >= 1 {
        config.grid_cell_size
    } else {
        1
    };
    let m0 = config.max_size / cell;
    let m = if m0 >= 1 {
        m0
    } else {
        1
    };
    assert(m == grid_max_cells(config));
    if config.align_to_grid && config.power_of_two && m == u32::MAX {
        return false;
    }
    let slicing = config.align_to_grid && config.slice_grid_cells;
    assert((m as u64) * (m as u64) <= 0xFFFF_FFFF_FFFF_FFFF) by (nonlinear_arith)
        requires
            m <= 0xFFFF_FFFFu32,
    ;
    if slicing && (m as u64) * (m as u64) > u32::MAX as u64 {
        return false;
    }
    let mut content: u64 = 0;
    let mut largest: u64 = 0;
    let mut frames: usize = 0;
    let mut i: usize = 0;
    while i < sprites.len()
        invariant
            i <= sprites@.len(),
            cell == grid_cell(config),
            slicing == (config.align_to_grid && config.slice_grid_cells),
            forall|k: int| 0 <= k < i ==> (#[trigger] sprites@[k]).padded_fits() && sprite_sizes_fit(
                sprites@[k],
                config,
            ) && (slicing ==> slices_in_bbox(sprites@[k], config)),
            content == sprites_content(sprites@.take(i as int), config),
            frames == frames_total(sprites@.take(i as int), config),
            largest == sides_bound(sprites@.take(i as int), config),
        decreases sprites@.len() - i,
    {
        let s = &sprites[i];
        proof {
            assert(sprites@.take(i + 1).drop_last() == sprites@.take(i as int));
            assert(sprites@.take(i + 1).last() == sprites@[i as int]);
            lemma_content_prefix(sprites@, config, i + 1);
            lemma_frames_prefix(sprites@, config, i + 1);
        }
        let w = s.image.width() as u64 + 2 * (s.padding as u64);
        let h = s.image.height() as u64 + 2 * (s.padding as u64);
        if w > u32::MAX as u64 || h > u32::MAX as u64 {
            assert(!sprites@[i as int].padded_fits());
            return false;
        }
        let n = s.grid_slices.len() as u128;
        assert(n * (cell as u128) <= 0xFFFF_FFFF_FFFF_FFFF * 0xFFFF_FFFF && n * (cell as u128) * (cell as u128)
            <= 0xFFFF_FFFF_FFFF_FFFF * 0xFFFF_FFFF * 0xFFFF_FFFF) by (nonlinear_arith)
            requires
                n <= 0xFFFF_FFFF_FFFF_FFFF,
                cell <= 0xFFFF_FFFFu32,
        ;
        let cells: u128 = n * (cell as u128) * (cell as u128);
        if cells > u64::MAX as u128 {
            assert(!sprite_sizes_fit(sprites@[i as int], config));
            return false;
        }
        if slicing && !slices_fit_box(s, config) {
            return false;
        }
        let own: u64 = if slicing && n > 0 {
            cells as u64
        } else {
            proof {
                crate::atlas::types::lemma_u32_product_fits_u64(s.trim_width, s.trim_height);
            }
            s.trim_width as u64 * s.trim_height as u64
        };
        assert(own == sprite_content(sprites@[i as int], config));
        if content > u64::MAX - own {
            return false;
        }
        let f = output_sprite_count(s, config);
        if frames > usize::MAX - f {
            return false;
        }
        let (rw, rh) = required_pack_dimensions(s, config);
        let sides: u64 = rw as u64 + rh as u64;
        content = content + own;
        frames = frames + f;
        if sides > largest {
            largest = sides;
        }
        i += 1;
    }
    assert(sprites@.take(sprites@.len() as int) == sprites@);
    let pixel_pow2 = config.power_of_two && !(config.align_to_grid && cell >= 2);
    assert((sprites.len() as u128) * (largest as u128) <= 0xFFFF_FFFF_FFFF_FFFF * 0xFFFF_FFFF_FFFF_FFFF)
        by (nonlinear_arith)
        requires
            sprites.len() <= 0xFFFF_FFFF_FFFF_FFFF,
            largest <= 0xFFFF_FFFF_FFFF_FFFF,
    ;
    if pixel_pow2 && config.max_size > 0x8000_0000 && (sprites.len() as u128) * (largest as u128)
        > 0x8000_0000 {
        return false;
    }
    true
}

} // verus!
