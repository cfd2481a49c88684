use vstd::prelude::*;

use crate::atlas::compose::frame_view;
use crate::atlas::text::{ascii_lower_seq, chars_eq, chars_of, is_order_of, lower_chars, ordered_by_text, sort_order_by_text, text_less};
use crate::atlas::types::PackedSprite;

verus! {

impl Clone for PackedSprite {
    fn clone(&self) -> (c: Self)
        ensures
            frame_view(c) == frame_view(*self),
    {
        PackedSprite {
            name: self.name.clone(),
            rel_path: self.rel_path.clone(),
            atlas_index: self.atlas_index,
            x: self.x,
            y: self.y,
            w: self.w,
            h: self.h,
            source_w: self.source_w,
            source_h: self.source_h,
            offset_x: self.offset_x,
            offset_y: self.offset_y,
            trim_w: self.trim_w,
            trim_h: self.trim_h,
            rotated: self.rotated,
            trimmed: self.trimmed,
            pack_x: self.pack_x,
            pack_y: self.pack_y,
            pack_w: self.pack_w,
            pack_h: self.pack_h,
        }
    }
}

/// The key frames are listed by: the relative path, ASCII lower-cased.
pub open spec fn path_key(f: PackedSprite) -> Seq<char> {
    ascii_lower_seq(f.rel_path@)
}

/// Copies of the frames, ordered by relative path without regard to ASCII
/// case; frames with the same key keep their order.
pub fn sort_frames_by_path(sprites: &[PackedSprite]) -> (sorted: Vec<PackedSprite>)
    ensures
        sorted@.len() == sprites@.len(),
        forall|a: int, b: int|
            0 <= a < b < sorted@.len() ==> !text_less(path_key(#[trigger] sorted@[b]), path_key(#[trigger] sorted@[a])),
        exists|order: Seq<usize>|
            {
                &&& is_order_of(order, sprites@.len() as int)
                &&& forall|k: int| 0 <= k < order.len() ==> frame_view(#[trigger] sorted@[k]) == frame_view(sprites@[order[k] as int])
                &&& forall|a: int, b: int|
                    0 <= a < b < order.len() && path_key(sprites@[#[trigger] order[a] as int]) == path_key(
                        sprites@[#[trigger] order[b] as int],
                    ) ==> order[a] < order[b]
            },
{
    let mut keys: Vec<Vec<char>> = Vec::new();
    let mut i: usize = 0;
    while i < sprites.len()
        invariant
            i <= sprites@.len(),
            keys@.len() == i,
            forall|k: int| 0 <= k < i ==> (#[trigger] keys@[k])@ == path_key(sprites@[k]),
        decreases sprites@.len() - i,
    {
        let chars = chars_of(sprites[i].rel_path.as_str());
        keys.push(lower_chars(&chars));
        i += 1;
    }
    let order = sort_order_by_text(&keys);
    let mut sorted: Vec<PackedSprite> = Vec::new();
    let mut k: usize = 0;
    while k < order.len()
        invariant
            k <= order@.len(),
            is_order_of(order@, sprites@.len() as int),
            keys@.len() == sprites@.len(),
            forall|j: int| 0 <= j < keys@.len() ==> (#[trigger] keys@[j])@ == path_key(sprites@[j]),
            sorted@.len() == k,
            forall|j: int| 0 <= j < k ==> frame_view(#[trigger] sorted@[j]) == frame_view(sprites@[order@[j] as int]),
        decreases order@.len() - k,
    {
        sorted.push(sprites[order[k]].clone());
        k += 1;
    }
    proof {
        assert forall|a: int, b: int| 0 <= a < b < sorted@.len() implies !text_less(
            path_key(#[trigger] sorted@[b]),
            path_key(#[trigger] sorted@[a]),
        ) by {
            assert(frame_view(sorted@[a]).1 == frame_view(sprites@[order@[a] as int]).1);
            assert(frame_view(sorted@[b]).1 == frame_view(sprites@[order@[b] as int]).1);
            assert(keys@[order@[a] as int]@ == path_key(sprites@[order@[a] as int]));
            assert(keys@[order@[b] as int]@ == path_key(sprites@[order@[b] as int]));
        }
        assert forall|a: int, b: int|
            0 <= a < b < order@.len() && path_key(sprites@[#[trigger] order@[a] as int]) == path_key(
                sprites@[#[trigger] order@[b] as int],
            ) implies order@[a] < order@[b] by {
            assert(keys@[order@[a] as int]@ == path_key(sprites@[order@[a] as int]));
            assert(keys@[order@[b] as int]@ == path_key(sprites@[order@[b] as int]));
        }
    }
    sorted
}

/// The margins a frame leaves in its source image: what the trimmed size
/// is short of the source size, never below zero.
pub fn frame_margins(sprite: &PackedSprite) -> (r: (u32, u32))
    ensures
        r.0 == if sprite.source_w >= sprite.trim_w { sprite.source_w - sprite.trim_w } else { 0 },
        r.1 == if sprite.source_h >= sprite.trim_h { sprite.source_h - sprite.trim_h } else { 0 },
{
    (sprite.source_w.saturating_sub(sprite.trim_w), sprite.source_h.saturating_sub(sprite.trim_h))
}

/// `whole` starts with the characters of `part`.
pub open spec fn starts_with_text(whole: Seq<char>, part: Seq<char>) -> bool {
    part.len() <= whole.len() && whole.take(part.len() as int) == part
}

/// `whole` ends with the characters of `part`.
pub open spec fn ends_with_text(whole: Seq<char>, part: Seq<char>) -> bool {
    part.len() <= whole.len() && whole.skip(whole.len() - part.len()) == part
}

/// `part` occurs in `whole` from position `at` on.
fn text_at(whole: &Vec<char>, part: &Vec<char>, at: usize) -> (r: bool)
    requires
        at + part.len() <= whole.len(),
    ensures
        r == (whole@.subrange(at as int, at + part.len()) == part@),
{
    let mut k: usize = 0;
    while k < part.len()
        invariant
            k <= part.len(),
            at + part.len() <= whole.len(),
            forall|m: int| 0 <= m < k ==> whole@[at + m] == part@[m],
        decreases part.len() - k,
    {
        if whole[at + k] != part[k] {
            assert(whole@.subrange(at as int, at + part.len())[k as int] != part@[k as int]);
            return false;
        }
        k += 1;
    }
    assert(whole@.subrange(at as int, at + part.len()) == part@);
    true
}

/// A sprite sheet file of an earlier run, left from when each atlas had a
/// sheet of its own: named `atlas_*.tpsheet`, and not the sheet `keep_name`
/// that this run writes.
pub open spec fn legacy_sheet(file_name: Seq<char>, keep_name: Seq<char>) -> bool {
    &&& file_name != keep_name
    &&& starts_with_text(file_name, "atlas_"@)
    &&& ends_with_text(file_name, ".tpsheet"@)
}

/// Whether the file `file_name` in the output folder is an earlier run's
/// sheet that this run replaces by `keep_name`.
pub fn is_legacy_sheet(file_name: &str, keep_name: &str) -> (r: bool)
    ensures
        r == legacy_sheet(file_name@, keep_name@),
{
    let name = chars_of(file_name);
    let keep = chars_of(keep_name);
    if chars_eq(&name, &keep) {
        return false;
    }
    let prefix = chars_of("atlas_");
    let suffix = chars_of(".tpsheet");
    proof {
        reveal_strlit("atlas_");
        reveal_strlit(".tpsheet");
    }
    if name.len() < prefix.len() || name.len() < suffix.len() {
        return false;
    }
    let starts = text_at(&name, &prefix, 0);
    let ends = text_at(&name, &suffix, name.len() - suffix.len());
    proof {
        assert(name@.take(prefix@.len() as int) == name@.subrange(0, prefix@.len() as int));
        assert(name@.skip(name@.len() - suffix@.len()) == name@.subrange(
            name@.len() - suffix@.len(),
            name@.len() as int,
        ));
    }
    starts && ends
}

} // verus!
