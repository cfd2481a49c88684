use vstd::prelude::*;

use crate::atlas::types::{lemma_u32_product_fits_u64, Rect};

verus! {

/// Where `insert` placed an item.
#[derive(Debug, Clone, Copy, PartialEq, Eq, Structural)]
pub struct InsertResult {
    pub index: usize,
    pub rect: Rect,
    pub rotated: bool,
}

/// A MaxRects bin packer: free space is kept as a list of maximal free
/// rectangles, each placement picks the free rectangle that leaves the
/// least area (ties broken by the shorter leftover side).
#[derive(Debug, Clone)]
pub struct MaxRectsPacker {
    pub width: u32,
    pub height: u32,
    pub free_rects: Vec<Rect>,
    pub used_rects: Vec<Rect>,
}

// ---------------------------------------------------------------------------
// Choosing a position
// ---------------------------------------------------------------------------

/// The orientations tried for an item, in the order they are tried.
pub open spec fn orientations(width: u32, height: u32, allow_rotation: bool) -> Seq<(u32, u32, bool)> {
    if allow_rotation && width != height {
        seq![(width, height, false), (height, width, true)]
    } else {
        seq![(width, height, false)]
    }
}

pub open spec fn fits(free: Rect, c: (u32, u32, bool)) -> bool {
    c.0 <= free.w && c.1 <= free.h
}

pub open spec fn leftover_area(free: Rect, c: (u32, u32, bool)) -> int {
    free.w * free.h - c.0 * c.1
}

pub open spec fn short_side(free: Rect, c: (u32, u32, bool)) -> int {
    let dw = free.w - c.0;
    let dh = free.h - c.1;
    if dw <= dh {
        dw
    } else {
        dh
    }
}

/// Placing `c1` in `f1` scores strictly better than placing `c2` in `f2`.
pub open spec fn scores_better(
    f1: Rect,
    c1: (u32, u32, bool),
    f2: Rect,
    c2: (u32, u32, bool),
) -> bool {
    ||| leftover_area(f1, c1) < leftover_area(f2, c2)
    ||| (leftover_area(f1, c1) == leftover_area(f2, c2) && short_side(f1, c1) < short_side(f2, c2))
}

/// Slot `(i1, k1)` comes before slot `(i2, k2)` in the search order
/// (free rectangles in list order, orientations in the order tried).
pub open spec fn before(i1: int, k1: int, i2: int, k2: int) -> bool {
    i1 < i2 || (i1 == i2 && k1 < k2)
}

/// Orientation `k` of the item fits in free rectangle `i`.
pub open spec fn is_slot(frees: Seq<Rect>, cands: Seq<(u32, u32, bool)>, i: int, k: int) -> bool {
    0 <= i < frees.len() && 0 <= k < cands.len() && fits(frees[i], cands[k])
}

/// `(i, k)` is the first slot with the best score: every earlier slot scores
/// strictly worse, and no later slot scores strictly better.
pub open spec fn is_best_slot(frees: Seq<Rect>, cands: Seq<(u32, u32, bool)>, i: int, k: int) -> bool {
    &&& is_slot(frees, cands, i, k)
    &&& forall|i2: int, k2: int|
        #[trigger] is_slot(frees, cands, i2, k2) ==> {
            &&& before(i2, k2, i, k) ==> scores_better(frees[i], cands[k], frees[i2], cands[k2])
            &&& !before(i2, k2, i, k) ==> !scores_better(
                frees[i2],
                cands[k2],
                frees[i],
                cands[k],
            )
        }
}

/// The rectangle placed at the top-left corner of `free` in orientation `c`.
pub open spec fn placed_at(free: Rect, c: (u32, u32, bool)) -> Rect {
    Rect { x: free.x, y: free.y, w: c.0, h: c.1 }
}

// ---------------------------------------------------------------------------
// Splitting and pruning free space
// ---------------------------------------------------------------------------

pub open spec fn spans_x(f: Rect, u: Rect) -> bool {
    u.x < f.right_edge() && u.right_edge() > f.x
}

pub open spec fn spans_y(f: Rect, u: Rect) -> bool {
    u.y < f.bottom_edge() && u.bottom_edge() > f.y
}

pub open spec fn top_piece(f: Rect, u: Rect) -> Rect {
    Rect { x: f.x, y: f.y, w: f.w, h: (u.y - f.y) as u32 }
}

pub open spec fn bottom_piece(f: Rect, u: Rect) -> Rect {
    Rect { x: f.x, y: u.bottom_edge() as u32, w: f.w, h: (f.bottom_edge() - u.bottom_edge()) as u32 }
}

pub open spec fn left_piece(f: Rect, u: Rect) -> Rect {
    Rect { x: f.x, y: f.y, w: (u.x - f.x) as u32, h: f.h }
}

pub open spec fn right_piece(f: Rect, u: Rect) -> Rect {
    Rect { x: u.right_edge() as u32, y: f.y, w: (f.right_edge() - u.right_edge()) as u32, h: f.h }
}

pub open spec fn has_top(f: Rect, u: Rect) -> bool {
    spans_x(f, u) && u.y > f.y && u.y < f.bottom_edge()
}

pub open spec fn has_bottom(f: Rect, u: Rect) -> bool {
    spans_x(f, u) && u.bottom_edge() < f.bottom_edge()
}

pub open spec fn has_left(f: Rect, u: Rect) -> bool {
    spans_y(f, u) && u.x > f.x && u.x < f.right_edge()
}

pub open spec fn has_right(f: Rect, u: Rect) -> bool {
    spans_y(f, u) && u.right_edge() < f.right_edge()
}

pub open spec fn nonempty(r: Rect) -> bool {
    r.w > 0 && r.h > 0
}

/// Appends `r` when `cond` holds and `r` has a positive area.
pub open spec fn keep(s: Seq<Rect>, cond: bool, r: Rect) -> Seq<Rect> {
    if cond && nonempty(r) {
        s.push(r)
    } else {
        s
    }
}

/// What `split_free_rect(f, u)` returns: `f` itself when it does not meet
/// `u`, else the parts of `f` above, below, left and right of `u`, in that
/// order, each only where it exists and has a positive area.
pub open spec fn split_pieces(f: Rect, u: Rect) -> Seq<Rect> {
    if !f.overlaps(u) {
        seq![f]
    } else {
        keep(
            keep(
                keep(keep(Seq::empty(), has_top(f, u), top_piece(f, u)), has_bottom(f, u), bottom_piece(f, u)),
                has_left(f, u),
                left_piece(f, u),
            ),
            has_right(f, u),
            right_piece(f, u),
        )
    }
}

/// Every free rectangle split against `u`, concatenated in list order.
pub open spec fn split_all(frees: Seq<Rect>, u: Rect) -> Seq<Rect>
    decreases frees.len(),
{
    if frees.len() == 0 {
        Seq::empty()
    } else {
        split_all(frees.drop_last(), u) + split_pieces(frees.last(), u)
    }
}

/// Entry `i` is enclosed by another entry of the list.
pub open spec fn dominated(rects: Seq<Rect>, i: int) -> bool {
    exists|j: int| 0 <= j < rects.len() && j != i && #[trigger] rects[j].encloses(rects[i])
}

/// The first `n` entries, without those enclosed by another entry.
pub open spec fn prune_prefix(rects: Seq<Rect>, n: int) -> Seq<Rect>
    decreases n,
{
    if n <= 0 {
        Seq::empty()
    } else if dominated(rects, n - 1) {
        prune_prefix(rects, n - 1)
    } else {
        prune_prefix(rects, n - 1).push(rects[n - 1])
    }
}

/// What `prune_free_rects` returns: the entries that no other entry encloses.
pub open spec fn pruned(rects: Seq<Rect>) -> Seq<Rect> {
    prune_prefix(rects, rects.len() as int)
}

pub open spec fn all_edges_fit(rects: Seq<Rect>) -> bool {
    forall|i: int| 0 <= i < rects.len() ==> (#[trigger] rects[i]).edges_fit()
}


// ---------------------------------------------------------------------------
// Facts about splitting and pruning
// ---------------------------------------------------------------------------

/// Every piece of a split lies inside the split rectangle and clear of `u`.
pub proof fn lemma_split_pieces_inside(f: Rect, u: Rect)
    requires
        f.edges_fit(),
        u.edges_fit(),
    ensures
        forall|k: int|
            0 <= k < split_pieces(f, u).len() ==> {
                &&& f.encloses(#[trigger] split_pieces(f, u)[k])
                &&& !split_pieces(f, u)[k].overlaps(u)
                &&& split_pieces(f, u)[k].edges_fit()
            },
{
    if f.overlaps(u) {
        let s0 = Seq::<Rect>::empty();
        let s1 = keep(s0, has_top(f, u), top_piece(f, u));
        let s2 = keep(s1, has_bottom(f, u), bottom_piece(f, u));
        let s3 = keep(s2, has_left(f, u), left_piece(f, u));
        let s4 = keep(s3, has_right(f, u), right_piece(f, u));
        assert(s4 == split_pieces(f, u));
        let good = |r: Rect| f.encloses(r) && !r.overlaps(u) && r.edges_fit();
        assert(forall|k: int| 0 <= k < s1.len() ==> good(#[trigger] s1[k]));
        assert(forall|k: int| 0 <= k < s2.len() ==> good(#[trigger] s2[k]));
        assert(forall|k: int| 0 <= k < s3.len() ==> good(#[trigger] s3[k]));
        assert(forall|k: int| 0 <= k < s4.len() ==> good(#[trigger] s4[k]));
    }
}

/// The pieces of a split cover exactly the pixels of `f` that are not in `u`.
pub proof fn lemma_split_covers_exactly(f: Rect, u: Rect, px: int, py: int)
    requires
        f.edges_fit(),
        u.edges_fit(),
    ensures
        (exists|p: Rect| split_pieces(f, u).contains(p) && #[trigger] p.has_point(px, py)) <==> (
        f.has_point(px, py) && !u.has_point(px, py)),
{
    lemma_split_pieces_inside(f, u);
    let s = split_pieces(f, u);
    if exists|p: Rect| s.contains(p) && #[trigger] p.has_point(px, py) {
        let p = choose|p: Rect| s.contains(p) && #[trigger] p.has_point(px, py);
        let k = choose|k: int| 0 <= k < s.len() && s[k] == p;
        assert(f.encloses(s[k]));
    }
    if f.has_point(px, py) && !u.has_point(px, py) {
        if !f.overlaps(u) {
            assert(s[0] == f);
            assert(s.contains(f));
        } else {
            let s0 = Seq::<Rect>::empty();
            let s1 = keep(s0, has_top(f, u), top_piece(f, u));
            let s2 = keep(s1, has_bottom(f, u), bottom_piece(f, u));
            let s3 = keep(s2, has_left(f, u), left_piece(f, u));
            let s4 = keep(s3, has_right(f, u), right_piece(f, u));
            assert(s4 == s);
            assert(s1.len() <= s2.len() <= s3.len() <= s4.len());
            assert(forall|k: int| 0 <= k < s1.len() ==> s2[k] == s1[k]);
            assert(forall|k: int| 0 <= k < s2.len() ==> s3[k] == s2[k]);
            assert(forall|k: int| 0 <= k < s3.len() ==> s4[k] == s3[k]);
            if py < u.y {
                let p = top_piece(f, u);
                assert(s1[s1.len() - 1] == p);
                assert(s4[s1.len() - 1] == p);
                assert(s.contains(p) && p.has_point(px, py));
            } else if py >= u.bottom_edge() {
                let p = bottom_piece(f, u);
                assert(s2[s2.len() - 1] == p);
                assert(s4[s2.len() - 1] == p);
                assert(s.contains(p) && p.has_point(px, py));
            } else if px < u.x {
                let p = left_piece(f, u);
                assert(s3[s3.len() - 1] == p);
                assert(s4[s3.len() - 1] == p);
                assert(s.contains(p) && p.has_point(px, py));
            } else {
                let p = right_piece(f, u);
                assert(s4[s4.len() - 1] == p);
                assert(s.contains(p) && p.has_point(px, py));
            }
        }
    }
}

/// Every rectangle that splitting produces lies inside one of the split
/// rectangles and clear of `u`.
pub proof fn lemma_split_all_inside(frees: Seq<Rect>, u: Rect)
    requires
        all_edges_fit(frees),
        u.edges_fit(),
    ensures
        forall|k: int|
            0 <= k < split_all(frees, u).len() ==> {
                &&& exists|i: int|
                    0 <= i < frees.len() && #[trigger] frees[i].encloses(split_all(frees, u)[k])
                &&& !(#[trigger] split_all(frees, u)[k]).overlaps(u)
                &&& split_all(frees, u)[k].edges_fit()
            },
    decreases frees.len(),
{
    if frees.len() > 0 {
        let init = frees.drop_last();
        lemma_split_all_inside(init, u);
        lemma_split_pieces_inside(frees.last(), u);
        let a = split_all(init, u);
        let b = split_pieces(frees.last(), u);
        assert(split_all(frees, u) == a + b);
        assert forall|k: int| 0 <= k < split_all(frees, u).len() implies {
            &&& exists|i: int|
                0 <= i < frees.len() && #[trigger] frees[i].encloses(split_all(frees, u)[k])
            &&& !(#[trigger] split_all(frees, u)[k]).overlaps(u)
            &&& split_all(frees, u)[k].edges_fit()
        } by {
            if k < a.len() {
                let i = choose|i: int| 0 <= i < init.len() && #[trigger] init[i].encloses(a[k]);
                assert(frees[i] == init[i]);
            } else {
                assert(split_all(frees, u)[k] == b[k - a.len()]);
                assert(frees[frees.len() - 1].encloses(b[k - a.len()]));
            }
        }
    }
}

/// Pruning keeps a selection of the given rectangles.
pub proof fn lemma_prune_prefix_members(rects: Seq<Rect>, n: int)
    requires
        0 <= n <= rects.len(),
    ensures
        forall|k: int|
            0 <= k < prune_prefix(rects, n).len() ==> exists|m: int|
                0 <= m < n && rects[m] == #[trigger] prune_prefix(rects, n)[k] && !dominated(rects, m),
    decreases n,
{
    if n > 0 {
        lemma_prune_prefix_members(rects, n - 1);
        let prev = prune_prefix(rects, n - 1);
        assert forall|k: int| 0 <= k < prune_prefix(rects, n).len() implies exists|m: int|
            0 <= m < n && rects[m] == #[trigger] prune_prefix(rects, n)[k] && !dominated(rects, m) by {
            if k < prev.len() {
                let m = choose|m: int| 0 <= m < n - 1 && rects[m] == #[trigger] prev[k] && !dominated(rects, m);
                assert(rects[m] == prune_prefix(rects, n)[k]);
            } else {
                assert(rects[n - 1] == prune_prefix(rects, n)[k]);
            }
        }
    }
}


// ---------------------------------------------------------------------------
// The free rectangles are maximal
// ---------------------------------------------------------------------------

/// `e` is a place of positive size in a `width` x `height` bin that meets
/// none of the `used` rectangles.
pub open spec fn free_spot(used: Seq<Rect>, width: int, height: int, e: Rect) -> bool {
    &&& nonempty(e)
    &&& e.within(width, height)
    &&& forall|j: int| 0 <= j < used.len() ==> !e.overlaps(#[trigger] used[j])
}

/// Some entry of `rects` encloses `e`.
pub open spec fn enclosed_by_some(rects: Seq<Rect>, e: Rect) -> bool {
    exists|i: int| 0 <= i < rects.len() && #[trigger] rects[i].encloses(e)
}

pub open spec fn all_nonempty(rects: Seq<Rect>) -> bool {
    forall|i: int| 0 <= i < rects.len() ==> nonempty(#[trigger] rects[i])
}

/// No entry encloses another entry (so no rectangle occurs twice).
pub open spec fn no_nesting(rects: Seq<Rect>) -> bool {
    forall|i: int, j: int|
        0 <= i < rects.len() && 0 <= j < rects.len() && i != j ==> !(#[trigger] rects[i].encloses(
            #[trigger] rects[j],
        ))
}

pub open spec fn no_dups(rects: Seq<Rect>) -> bool {
    forall|i: int, j: int| 0 <= i < j < rects.len() ==> #[trigger] rects[i] != #[trigger] rects[j]
}

/// The free rectangles are the maximal free rectangles of the bin: each has
/// a positive size, none encloses another, and together they enclose every
/// free spot.
pub open spec fn maximal_free(frees: Seq<Rect>, used: Seq<Rect>, width: int, height: int) -> bool {
    &&& all_nonempty(frees)
    &&& no_nesting(frees)
    &&& forall|e: Rect| #[trigger] free_spot(used, width, height, e) ==> enclosed_by_some(frees, e)
}

/// There is a free spot of the item's size, or of the turned item's size
/// where `allow_rotation` permits.
pub open spec fn placeable(used: Seq<Rect>, width: int, height: int, w: u32, h: u32, allow_rotation: bool) -> bool {
    exists|e: Rect|
        #[trigger] free_spot(used, width, height, e) && ((e.w == w && e.h == h) || (allow_rotation
            && e.w == h && e.h == w))
}

/// `p` is one of the rectangles that splitting `f` around `u` gives.
pub open spec fn piece_of(f: Rect, u: Rect, p: Rect) -> bool {
    ||| !f.overlaps(u) && p == f
    ||| f.overlaps(u) && nonempty(p) && {
        ||| has_top(f, u) && p == top_piece(f, u)
        ||| has_bottom(f, u) && p == bottom_piece(f, u)
        ||| has_left(f, u) && p == left_piece(f, u)
        ||| has_right(f, u) && p == right_piece(f, u)
    }
}

proof fn lemma_keep_no_dups(s: Seq<Rect>, c: bool, r: Rect)
    requires
        no_dups(s),
        c && nonempty(r) ==> !s.contains(r),
    ensures
        no_dups(keep(s, c, r)),
{
    if c && nonempty(r) {
        let t = s.push(r);
        assert forall|i: int, j: int| 0 <= i < j < t.len() implies #[trigger] t[i] != #[trigger] t[j] by {
            if j == s.len() {
                assert(t[i] == s[i]);
            } else {
                assert(t[i] == s[i] && t[j] == s[j]);
            }
        }
    }
}

/// Splitting gives pieces of the split rectangle, none twice.
proof fn lemma_split_pieces_facts(f: Rect, u: Rect)
    requires
        f.edges_fit(),
        u.edges_fit(),
    ensures
        forall|k: int| 0 <= k < split_pieces(f, u).len() ==> piece_of(f, u, #[trigger] split_pieces(f, u)[k]),
        no_dups(split_pieces(f, u)),
{
    if f.overlaps(u) {
        let t = top_piece(f, u);
        let b = bottom_piece(f, u);
        let l = left_piece(f, u);
        let r = right_piece(f, u);
        let ht = has_top(f, u) && nonempty(t);
        let hb = has_bottom(f, u) && nonempty(b);
        let hl = has_left(f, u) && nonempty(l);
        let hr = has_right(f, u) && nonempty(r);
        assert(ht && hb ==> t != b);
        assert(ht && hl ==> t != l);
        assert(ht && hr ==> t != r);
        assert(hb && hl ==> b != l);
        assert(hb && hr ==> b != r);
        assert(hl && hr ==> l != r);
        let s0 = Seq::<Rect>::empty();
        let s1 = keep(s0, has_top(f, u), t);
        let s2 = keep(s1, has_bottom(f, u), b);
        let s3 = keep(s2, has_left(f, u), l);
        let s4 = keep(s3, has_right(f, u), r);
        assert(s4 == split_pieces(f, u));
        assert(forall|k: int| 0 <= k < s1.len() ==> #[trigger] s1[k] == t && ht);
        assert(forall|k: int| 0 <= k < s2.len() ==> (#[trigger] s2[k] == t && ht) || (s2[k] == b && hb));
        assert(forall|k: int|
            0 <= k < s3.len() ==> (#[trigger] s3[k] == t && ht) || (s3[k] == b && hb) || (s3[k] == l && hl));
        assert(forall|k: int|
            0 <= k < s4.len() ==> (#[trigger] s4[k] == t && ht) || (s4[k] == b && hb) || (s4[k] == l && hl)
                || (s4[k] == r && hr));
        lemma_keep_no_dups(s0, has_top(f, u), t);
        lemma_keep_no_dups(s1, has_bottom(f, u), b);
        lemma_keep_no_dups(s2, has_left(f, u), l);
        lemma_keep_no_dups(s3, has_right(f, u), r);
    } else {
        assert(split_pieces(f, u) == seq![f]);
    }
}

/// A rectangle that two split rectangles both give is given only by nested
/// split rectangles.
proof fn lemma_shared_piece_nested(f1: Rect, f2: Rect, u: Rect, p: Rect)
    requires
        f1.edges_fit(),
        f2.edges_fit(),
        u.edges_fit(),
        piece_of(f1, u, p),
        piece_of(f2, u, p),
    ensures
        f1.encloses(f2) || f2.encloses(f1),
{
}

/// Each rectangle that splitting gives comes from one of the split rectangles.
proof fn lemma_split_all_from(frees: Seq<Rect>, u: Rect, k: int)
    requires
        all_edges_fit(frees),
        u.edges_fit(),
        0 <= k < split_all(frees, u).len(),
    ensures
        exists|i: int| 0 <= i < frees.len() && #[trigger] piece_of(frees[i], u, split_all(frees, u)[k]),
    decreases frees.len(),
{
    let init = frees.drop_last();
    let n = frees.len() - 1;
    let a = split_all(init, u);
    let b = split_pieces(frees[n], u);
    assert(split_all(frees, u) == a + b);
    lemma_split_pieces_facts(frees[n], u);
    if k < a.len() {
        assert forall|i: int| 0 <= i < init.len() implies (#[trigger] init[i]).edges_fit() by {
            assert(init[i] == frees[i]);
        }
        lemma_split_all_from(init, u, k);
        let i = choose|i: int| 0 <= i < init.len() && #[trigger] piece_of(init[i], u, a[k]);
        assert(frees[i] == init[i]);
        assert(split_all(frees, u)[k] == a[k]);
        assert(piece_of(frees[i], u, split_all(frees, u)[k]));
    } else {
        assert(split_all(frees, u)[k] == b[k - a.len()]);
        assert(piece_of(frees[n], u, split_all(frees, u)[k]));
    }
}

/// Splitting rectangles none of which encloses another gives no rectangle
/// twice.
proof fn lemma_split_all_no_dups(frees: Seq<Rect>, u: Rect)
    requires
        all_edges_fit(frees),
        u.edges_fit(),
        no_nesting(frees),
    ensures
        no_dups(split_all(frees, u)),
    decreases frees.len(),
{
    if frees.len() > 0 {
        let init = frees.drop_last();
        let last = frees.last();
        let n = frees.len() - 1;
        assert(last == frees[n]);
        assert forall|i: int| 0 <= i < init.len() implies (#[trigger] init[i]).edges_fit() by {
            assert(init[i] == frees[i]);
        }
        assert forall|i: int, j: int|
            0 <= i < init.len() && 0 <= j < init.len() && i != j implies !(#[trigger] init[i].encloses(
            #[trigger] init[j])) by {
            assert(init[i] == frees[i] && init[j] == frees[j]);
        }
        lemma_split_all_no_dups(init, u);
        lemma_split_pieces_facts(last, u);
        let a = split_all(init, u);
        let b = split_pieces(last, u);
        let all = split_all(frees, u);
        assert(all == a + b);
        assert forall|i: int, j: int| 0 <= i < j < all.len() implies #[trigger] all[i] != #[trigger] all[j] by {
            if j < a.len() {
                assert(all[i] == a[i] && all[j] == a[j]);
            } else if i >= a.len() {
                assert(all[i] == b[i - a.len()] && all[j] == b[j - a.len()]);
            } else {
                assert(all[i] == a[i] && all[j] == b[j - a.len()]);
                lemma_split_all_from(init, u, i);
                let m = choose|m: int| 0 <= m < init.len() && #[trigger] piece_of(init[m], u, a[i]);
                assert(init[m] == frees[m]);
                if all[i] == all[j] {
                    lemma_shared_piece_nested(frees[m], last, u, all[i]);
                    assert(frees[m].encloses(frees[n]) || frees[n].encloses(frees[m]));
                }
            }
        }
    }
}

/// A piece of one split rectangle is among the pieces of all of them.
proof fn lemma_split_all_has(frees: Seq<Rect>, u: Rect, i: int, p: Rect)
    requires
        0 <= i < frees.len(),
        split_pieces(frees[i], u).contains(p),
    ensures
        split_all(frees, u).contains(p),
    decreases frees.len(),
{
    let a = split_all(frees.drop_last(), u);
    let b = split_pieces(frees.last(), u);
    assert(split_all(frees, u) == a + b);
    if i == frees.len() - 1 {
        let k = choose|k: int| 0 <= k < b.len() && b[k] == p;
        assert((a + b)[a.len() + k] == p);
    } else {
        assert(frees.drop_last()[i] == frees[i]);
        lemma_split_all_has(frees.drop_last(), u, i, p);
        let k = choose|k: int| 0 <= k < a.len() && a[k] == p;
        assert((a + b)[k] == p);
    }
}

/// A free spot inside `f` that misses `u` lies inside a piece of `f` split
/// around `u`.
proof fn lemma_piece_encloses(f: Rect, u: Rect, e: Rect)
    requires
        f.edges_fit(),
        u.edges_fit(),
        nonempty(e),
        f.encloses(e),
        !e.overlaps(u),
    ensures
        exists|p: Rect| split_pieces(f, u).contains(p) && #[trigger] p.encloses(e),
{
    let s = split_pieces(f, u);
    if !f.overlaps(u) {
        assert(s[0] == f);
        assert(s.contains(f) && f.encloses(e));
    } else {
        let s0 = Seq::<Rect>::empty();
        let s1 = keep(s0, has_top(f, u), top_piece(f, u));
        let s2 = keep(s1, has_bottom(f, u), bottom_piece(f, u));
        let s3 = keep(s2, has_left(f, u), left_piece(f, u));
        let s4 = keep(s3, has_right(f, u), right_piece(f, u));
        assert(s4 == s);
        assert(s1.len() <= s2.len() <= s3.len() <= s4.len());
        assert(forall|k: int| 0 <= k < s1.len() ==> s2[k] == s1[k]);
        assert(forall|k: int| 0 <= k < s2.len() ==> s3[k] == s2[k]);
        assert(forall|k: int| 0 <= k < s3.len() ==> s4[k] == s3[k]);
        if e.bottom_edge() <= u.y {
            let p = top_piece(f, u);
            assert(s1[s1.len() - 1] == p);
            assert(s4[s1.len() - 1] == p);
            assert(s.contains(p) && p.encloses(e));
        } else if e.y >= u.bottom_edge() {
            let p = bottom_piece(f, u);
            assert(s2[s2.len() - 1] == p);
            assert(s4[s2.len() - 1] == p);
            assert(s.contains(p) && p.encloses(e));
        } else if e.right_edge() <= u.x {
            let p = left_piece(f, u);
            assert(s3[s3.len() - 1] == p);
            assert(s4[s3.len() - 1] == p);
            assert(s.contains(p) && p.encloses(e));
        } else {
            let p = right_piece(f, u);
            assert(s4[s4.len() - 1] == p);
            assert(s.contains(p) && p.encloses(e));
        }
    }
}

/// Pruning keeps every entry that no other entry encloses.
proof fn lemma_prune_prefix_keeps(rects: Seq<Rect>, n: int, m: int)
    requires
        0 <= m < n <= rects.len(),
        !dominated(rects, m),
    ensures
        prune_prefix(rects, n).contains(rects[m]),
    decreases n,
{
    let prev = prune_prefix(rects, n - 1);
    if m == n - 1 {
        assert(prune_prefix(rects, n) == prev.push(rects[m]));
        assert(prune_prefix(rects, n)[prev.len() as int] == rects[m]);
    } else {
        lemma_prune_prefix_keeps(rects, n - 1, m);
        let k = choose|k: int| 0 <= k < prev.len() && prev[k] == rects[m];
        assert(prune_prefix(rects, n)[k] == rects[m]);
    }
}

/// Pruning a list without repeats gives a list without repeats.
proof fn lemma_prune_prefix_no_dups(rects: Seq<Rect>, n: int)
    requires
        0 <= n <= rects.len(),
        no_dups(rects),
    ensures
        no_dups(prune_prefix(rects, n)),
    decreases n,
{
    if n > 0 {
        lemma_prune_prefix_no_dups(rects, n - 1);
        lemma_prune_prefix_members(rects, n - 1);
        let prev = prune_prefix(rects, n - 1);
        if !dominated(rects, n - 1) {
            let t = prev.push(rects[n - 1]);
            assert forall|i: int, j: int| 0 <= i < j < t.len() implies #[trigger] t[i] != #[trigger] t[j] by {
                if j == prev.len() {
                    let m = choose|m: int|
                        0 <= m < n - 1 && rects[m] == #[trigger] prev[i] && !dominated(rects, m);
                    assert(t[i] == rects[m] && t[j] == rects[n - 1]);
                } else {
                    assert(t[i] == prev[i] && t[j] == prev[j]);
                }
            }
        }
    }
}

/// Every entry of a list without repeats lies in an entry that no other
/// entry encloses.
proof fn lemma_undominated_above(rects: Seq<Rect>, m: int)
    requires
        0 <= m < rects.len(),
        no_dups(rects),
    ensures
        exists|m2: int| 0 <= m2 < rects.len() && !dominated(rects, m2) && #[trigger] rects[m2].encloses(rects[m]),
    decreases 0x2_0000_0000int - rects[m].w - rects[m].h,
{
    if dominated(rects, m) {
        let j = choose|j: int| 0 <= j < rects.len() && j != m && #[trigger] rects[j].encloses(rects[m]);
        assert(rects[j] != rects[m]) by {
            if j < m {
                assert(rects[j] != rects[m]);
            } else {
                assert(rects[m] != rects[j]);
            }
        }
        assert(rects[j].w + rects[j].h > rects[m].w + rects[m].h);
        lemma_undominated_above(rects, j);
        let m2 = choose|m2: int| 0 <= m2 < rects.len() && !dominated(rects, m2) && #[trigger] rects[m2].encloses(rects[j]);
        assert(rects[m2].encloses(rects[m]));
    } else {
        assert(rects[m].encloses(rects[m]));
    }
}

/// Placing `u` keeps the free rectangles maximal: splitting them around `u`
/// and pruning gives the maximal free rectangles of the bin with `u` used.
pub proof fn lemma_place_keeps_maximal(frees: Seq<Rect>, used: Seq<Rect>, width: int, height: int, u: Rect)
    requires
        maximal_free(frees, used, width, height),
        all_edges_fit(frees),
        u.edges_fit(),
    ensures
        maximal_free(pruned(split_all(frees, u)), used.push(u), width, height),
{
    let all = split_all(frees, u);
    let nf = pruned(all);
    let n = all.len() as int;
    lemma_split_all_no_dups(frees, u);
    lemma_prune_prefix_members(all, n);
    lemma_prune_prefix_no_dups(all, n);
    assert forall|k: int| 0 <= k < n implies nonempty(#[trigger] all[k]) by {
        lemma_split_all_from(frees, u, k);
        let i = choose|i: int| 0 <= i < frees.len() && #[trigger] piece_of(frees[i], u, all[k]);
        assert(nonempty(frees[i]));
    }
    assert forall|k: int| 0 <= k < nf.len() implies nonempty(#[trigger] nf[k]) by {
        let m = choose|m: int| 0 <= m < n && all[m] == #[trigger] prune_prefix(all, n)[k] && !dominated(all, m);
        assert(nonempty(all[m]));
    }
    assert forall|i: int, j: int|
        0 <= i < nf.len() && 0 <= j < nf.len() && i != j implies !(#[trigger] nf[i].encloses(#[trigger] nf[j])) by {
        let mi = choose|m: int| 0 <= m < n && all[m] == #[trigger] prune_prefix(all, n)[i] && !dominated(all, m);
        let mj = choose|m: int| 0 <= m < n && all[m] == #[trigger] prune_prefix(all, n)[j] && !dominated(all, m);
        assert(nf[i] != nf[j]) by {
            if i < j {
                assert(nf[i] != nf[j]);
            } else {
                assert(nf[j] != nf[i]);
            }
        }
        if nf[i].encloses(nf[j]) {
            assert(mi != mj);
            assert(all[mi].encloses(all[mj]));
            assert(dominated(all, mj));
        }
    }
    let used2 = used.push(u);
    assert forall|e: Rect| #[trigger] free_spot(used2, width, height, e) implies enclosed_by_some(nf, e) by {
        assert forall|j: int| 0 <= j < used.len() implies !e.overlaps(#[trigger] used[j]) by {
            assert(used2[j] == used[j]);
        }
        assert(free_spot(used, width, height, e));
        assert(!e.overlaps(u)) by {
            assert(used2[used.len() as int] == u);
        }
        let i = choose|i: int| 0 <= i < frees.len() && #[trigger] frees[i].encloses(e);
        lemma_piece_encloses(frees[i], u, e);
        let p = choose|p: Rect| split_pieces(frees[i], u).contains(p) && #[trigger] p.encloses(e);
        lemma_split_all_has(frees, u, i, p);
        let m = choose|m: int| 0 <= m < n && all[m] == p;
        lemma_undominated_above(all, m);
        let m2 = choose|m2: int| 0 <= m2 < n && !dominated(all, m2) && #[trigger] all[m2].encloses(all[m]);
        lemma_prune_prefix_keeps(all, n, m2);
        let k = choose|k: int| 0 <= k < nf.len() && nf[k] == all[m2];
        assert(nf[k].encloses(e));
    }
}


// ---------------------------------------------------------------------------
// Rectangles on a grid
// ---------------------------------------------------------------------------

/// Position and sides of the rectangle are multiples of `g`.
pub open spec fn on_grid(r: Rect, g: int) -> bool {
    &&& (r.x as int) % g == 0
    &&& (r.y as int) % g == 0
    &&& (r.w as int) % g == 0
    &&& (r.h as int) % g == 0
}

pub open spec fn all_on_grid(rects: Seq<Rect>, g: int) -> bool {
    forall|i: int| 0 <= i < rects.len() ==> on_grid(#[trigger] rects[i], g)
}

/// A side that is a multiple of `g`, or the largest `u32` (a rounded-up
/// size that saturated).
pub open spec fn grid_side(v: u32, g: int) -> bool {
    (v as int) % g == 0 || v == u32::MAX
}

pub proof fn lemma_mod_sum_diff(a: int, b: int, g: int)
    requires
        g > 0,
        a % g == 0,
        b % g == 0,
    ensures
        (a + b) % g == 0,
        (a - b) % g == 0,
{
    vstd::arithmetic::div_mod::lemma_fundamental_div_mod(a, g);
    vstd::arithmetic::div_mod::lemma_fundamental_div_mod(b, g);
    let qa = a / g;
    let qb = b / g;
    assert(a + b == (qa + qb) * g) by (nonlinear_arith)
        requires
            a == g * qa,
            b == g * qb,
    ;
    assert(a - b == (qa - qb) * g) by (nonlinear_arith)
        requires
            a == g * qa,
            b == g * qb,
    ;
    vstd::arithmetic::div_mod::lemma_mod_multiples_basic(qa + qb, g);
    vstd::arithmetic::div_mod::lemma_mod_multiples_basic(qa - qb, g);
}

/// Splitting a rectangle on the grid around another gives pieces on the grid.
pub proof fn lemma_split_pieces_on_grid(f: Rect, u: Rect, g: int)
    requires
        g > 0,
        on_grid(f, g),
        on_grid(u, g),
        f.edges_fit(),
        u.edges_fit(),
    ensures
        all_on_grid(split_pieces(f, u), g),
{
    lemma_mod_sum_diff(u.y as int, u.h as int, g);
    lemma_mod_sum_diff(u.x as int, u.w as int, g);
    lemma_mod_sum_diff(f.y as int, f.h as int, g);
    lemma_mod_sum_diff(f.x as int, f.w as int, g);
    lemma_mod_sum_diff(u.y as int, f.y as int, g);
    lemma_mod_sum_diff(u.x as int, f.x as int, g);
    lemma_mod_sum_diff(f.bottom_edge(), u.bottom_edge(), g);
    lemma_mod_sum_diff(f.right_edge(), u.right_edge(), g);
    if f.overlaps(u) {
        let s0 = Seq::<Rect>::empty();
        let s1 = keep(s0, has_top(f, u), top_piece(f, u));
        let s2 = keep(s1, has_bottom(f, u), bottom_piece(f, u));
        let s3 = keep(s2, has_left(f, u), left_piece(f, u));
        let s4 = keep(s3, has_right(f, u), right_piece(f, u));
        assert(s4 == split_pieces(f, u));
        assert(has_top(f, u) ==> on_grid(top_piece(f, u), g));
        assert(has_bottom(f, u) ==> on_grid(bottom_piece(f, u), g));
        assert(has_left(f, u) ==> on_grid(left_piece(f, u), g));
        assert(has_right(f, u) ==> on_grid(right_piece(f, u), g));
        assert(all_on_grid(s1, g));
        assert(all_on_grid(s2, g));
        assert(all_on_grid(s3, g));
        assert(all_on_grid(s4, g));
    } else {
        assert(split_pieces(f, u) == seq![f]);
    }
}

/// Splitting free rectangles on the grid around a rectangle on the grid, then
/// pruning, leaves rectangles on the grid.
pub proof fn lemma_free_after_on_grid(frees: Seq<Rect>, u: Rect, g: int)
    requires
        g > 0,
        all_on_grid(frees, g),
        all_edges_fit(frees),
        on_grid(u, g),
        u.edges_fit(),
    ensures
        all_on_grid(split_all(frees, u), g),
        all_on_grid(pruned(split_all(frees, u)), g),
    decreases frees.len(),
{
    if frees.len() > 0 {
        let init = frees.drop_last();
        assert forall|i: int| 0 <= i < init.len() implies on_grid(#[trigger] init[i], g) && init[i].edges_fit() by {
            assert(init[i] == frees[i]);
        }
        lemma_free_after_on_grid(init, u, g);
        lemma_split_pieces_on_grid(frees.last(), u, g);
        let a = split_all(init, u);
        let b = split_pieces(frees.last(), u);
        assert forall|i: int| 0 <= i < (a + b).len() implies on_grid(#[trigger] (a + b)[i], g) by {
            if i < a.len() {
                assert((a + b)[i] == a[i]);
            } else {
                assert((a + b)[i] == b[i - a.len()]);
            }
        }
    }
    let all = split_all(frees, u);
    lemma_prune_prefix_members(all, all.len() as int);
    assert forall|k: int| 0 <= k < pruned(all).len() implies on_grid(#[trigger] pruned(all)[k], g) by {
        let m = choose|m: int| 0 <= m < all.len() && all[m] == #[trigger] prune_prefix(all, all.len() as int)[k];
    }
}

/// A rectangle placed at the corner of a free rectangle on the grid, in an
/// orientation whose sides are grid sides, is on the grid.
pub proof fn lemma_placed_on_grid(free: Rect, c: (u32, u32, bool), g: int)
    requires
        g > 0,
        on_grid(free, g),
        grid_side(c.0, g),
        grid_side(c.1, g),
        fits(free, c),
    ensures
        on_grid(placed_at(free, c), g),
{
}

/// Every orientation of an item with grid sides has grid sides.
pub proof fn lemma_orientations_on_grid(width: u32, height: u32, allow_rotation: bool, g: int)
    requires
        grid_side(width, g),
        grid_side(height, g),
    ensures
        forall|k: int|
            0 <= k < orientations(width, height, allow_rotation).len() ==> grid_side(
                (#[trigger] orientations(width, height, allow_rotation)[k]).0,
                g,
            ) && grid_side(orientations(width, height, allow_rotation)[k].1, g),
{
}

// ---------------------------------------------------------------------------
// Splitting and pruning, executable
// ---------------------------------------------------------------------------

/// Splits `free` around `used` into the maximal free rectangles that remain.
pub fn split_free_rect(free: Rect, used: Rect) -> (result: Vec<Rect>)
    requires
        free.edges_fit(),
        used.edges_fit(),
    ensures
        result@ == split_pieces(free, used),
{
    if !free.intersects(used) {
        return vec![free];
    }
    let mut result: Vec<Rect> = Vec::new();
    if used.x < free.right() && used.right() > free.x {
        if used.y > free.y && used.y < free.bottom() {
            let piece = Rect { x: free.x, y: free.y, w: free.w, h: used.y - free.y };
            if piece.w > 0 && piece.h > 0 {
                result.push(piece);
            }
        }
        if used.bottom() < free.bottom() {
            let piece = Rect {
                x: free.x,
                y: used.bottom(),
                w: free.w,
                h: free.bottom() - used.bottom(),
            };
            if piece.w > 0 && piece.h > 0 {
                result.push(piece);
            }
        }
    }
    if used.y < free.bottom() && used.bottom() > free.y {
        if used.x > free.x && used.x < free.right() {
            let piece = Rect { x: free.x, y: free.y, w: used.x - free.x, h: free.h };
            if piece.w > 0 && piece.h > 0 {
                result.push(piece);
            }
        }
        if used.right() < free.right() {
            let piece = Rect {
                x: used.right(),
                y: free.y,
                w: free.right() - used.right(),
                h: free.h,
            };
            if piece.w > 0 && piece.h > 0 {
                result.push(piece);
            }
        }
    }
    result
}

fn contains_rect(rects: &Vec<Rect>, rect: Rect) -> (found: bool)
    ensures
        found == rects@.contains(rect),
{
    let mut k: usize = 0;
    while k < rects.len()
        invariant
            k <= rects.len(),
            forall|m: int| 0 <= m < k ==> rects@[m] != rect,
        decreases rects.len() - k,
    {
        if rects[k] == rect {
            assert(rects@[k as int] == rect);
            return true;
        }
        k += 1;
    }
    false
}

/// Drops every rectangle that another entry of the list encloses.
pub fn prune_free_rects(rects: &[Rect]) -> (result: Vec<Rect>)
    requires
        all_edges_fit(rects@),
    ensures
        result@ == pruned(rects@),
{
    let mut result: Vec<Rect> = Vec::new();
    let mut i: usize = 0;
    while i < rects.len()
        invariant
            i <= rects.len(),
            all_edges_fit(rects@),
            result@ == prune_prefix(rects@, i as int),
        decreases rects.len() - i,
    {
        let rect = rects[i];
        let mut is_dominated = false;
        let mut j: usize = 0;
        while j < rects.len() && !is_dominated
            invariant
                j <= rects.len(),
                i < rects.len(),
                rect == rects@[i as int],
                all_edges_fit(rects@),
                is_dominated ==> dominated(rects@, i as int),
                !is_dominated ==> forall|m: int|
                    0 <= m < j && m != i ==> !(#[trigger] rects@[m]).encloses(rect),
            decreases rects.len() - j,
        {
            if i != j && rects[j].contains(rect) {
                is_dominated = true;
            }
            j += 1;
        }
        if !is_dominated {
            proof {
                lemma_prune_prefix_members(rects@, i as int);
                if result@.contains(rect) {
                    let k = choose|k: int| 0 <= k < result@.len() && result@[k] == rect;
                    let m = choose|m: int|
                        0 <= m < i && rects@[m] == #[trigger] prune_prefix(rects@, i as int)[k];
                    assert(rects@[m].encloses(rects@[i as int]));
                }
            }
            if !contains_rect(&result, rect) {
                result.push(rect);
            }
        }
        i += 1;
    }
    result
}

// ---------------------------------------------------------------------------
// The packer
// ---------------------------------------------------------------------------

/// The sum of the sides (width plus height) of the rectangles.
pub open spec fn sides_total(rects: Seq<Rect>) -> int
    decreases rects.len(),
{
    if rects.len() == 0 {
        0
    } else {
        sides_total(rects.drop_last()) + rects.last().w + rects.last().h
    }
}

/// Every free rectangle starts, and every used rectangle ends, no further
/// out on either axis than the sum of the used rectangles' sides.
pub open spec fn within_used_sides(frees: Seq<Rect>, used: Seq<Rect>) -> bool {
    &&& forall|i: int|
        0 <= i < frees.len() ==> (#[trigger] frees[i]).x <= sides_total(used) && frees[i].y <= sides_total(
            used,
        )
    &&& forall|j: int|
        0 <= j < used.len() ==> (#[trigger] used[j]).right_edge() <= sides_total(used) && used[j].bottom_edge()
            <= sides_total(used)
}

/// Placing `u` at a corner no further out than the used sides keeps the free
/// and used rectangles within the used sides.
pub proof fn lemma_place_keeps_sides(frees: Seq<Rect>, used: Seq<Rect>, u: Rect)
    requires
        within_used_sides(frees, used),
        all_edges_fit(frees),
        u.edges_fit(),
        u.x <= sides_total(used),
        u.y <= sides_total(used),
    ensures
        within_used_sides(pruned(split_all(frees, u)), used.push(u)),
{
    let s = sides_total(used);
    let used2 = used.push(u);
    assert(used2.drop_last() == used);
    assert(sides_total(used2) == s + u.w + u.h);
    let all = split_all(frees, u);
    let n = all.len() as int;
    lemma_prune_prefix_members(all, n);
    assert forall|k: int| 0 <= k < n implies (#[trigger] all[k]).x <= s + u.w + u.h && all[k].y <= s + u.w
        + u.h by {
        lemma_split_all_from(frees, u, k);
        let i = choose|i: int| 0 <= i < frees.len() && #[trigger] piece_of(frees[i], u, all[k]);
        assert(frees[i].x <= s && frees[i].y <= s);
    }
    let nf = pruned(all);
    assert forall|k: int| 0 <= k < nf.len() implies (#[trigger] nf[k]).x <= sides_total(used2) && nf[k].y
        <= sides_total(used2) by {
        let m = choose|m: int| 0 <= m < n && all[m] == #[trigger] prune_prefix(all, n)[k] && !dominated(all, m);
        assert(all[m].x <= s + u.w + u.h);
    }
    assert forall|j: int| 0 <= j < used2.len() implies (#[trigger] used2[j]).right_edge() <= sides_total(used2)
        && used2[j].bottom_edge() <= sides_total(used2) by {
        if j < used.len() {
            assert(used2[j] == used[j]);
        }
    }
}

impl MaxRectsPacker {
    /// The packer's invariant: the bin is not empty, every free and every used
    /// rectangle lies in the bin, no free rectangle meets a used one, no two
    /// used rectangles meet, the free rectangles are the maximal free
    /// rectangles of the bin, and all of them lie within the sum of the used
    /// rectangles' sides.
    pub open spec fn wf(self) -> bool {
        &&& self.width > 0
        &&& self.height > 0
        &&& maximal_free(self.free_rects@, self.used_rects@, self.width as int, self.height as int)
        &&& within_used_sides(self.free_rects@, self.used_rects@)
        &&& forall|i: int|
            0 <= i < self.free_rects@.len() ==> (#[trigger] self.free_rects@[i]).within(
                self.width as int,
                self.height as int,
            )
        &&& forall|i: int|
            0 <= i < self.used_rects@.len() ==> (#[trigger] self.used_rects@[i]).within(
                self.width as int,
                self.height as int,
            )
        &&& forall|i: int, j: int|
            0 <= i < self.free_rects@.len() && 0 <= j < self.used_rects@.len()
                ==> !(#[trigger] self.free_rects@[i].overlaps(#[trigger] self.used_rects@[j]))
        &&& forall|i: int, j: int|
            0 <= i < self.used_rects@.len() && 0 <= j < self.used_rects@.len() && i != j
                ==> !(#[trigger] self.used_rects@[i].overlaps(#[trigger] self.used_rects@[j]))
    }

    pub fn new(width: u32, height: u32) -> (packer: Self)
        requires
            width > 0 && height > 0,
        ensures
            packer.wf(),
            packer.width == width,
            packer.height == height,
            packer.free_rects@ == seq![Rect { x: 0, y: 0, w: width, h: height }],
            packer.used_rects@ == Seq::<Rect>::empty(),
    {
        let packer = Self {
            width,
            height,
            free_rects: vec![Rect { x: 0, y: 0, w: width, h: height }],
            used_rects: Vec::new(),
        };
        assert(packer.free_rects@[0].within(width as int, height as int));
        assert forall|e: Rect| #[trigger] free_spot(Seq::<Rect>::empty(), width as int, height as int, e)
            implies enclosed_by_some(packer.free_rects@, e) by {
            assert(packer.free_rects@[0].encloses(e));
        }
        packer
    }
}


/// Products of sizes grow with the sizes.
proof fn lemma_mul_le(a: u32, b: u32, c: u32, d: u32)
    requires
        a <= c,
        b <= d,
    ensures
        a * b <= c * d,
{
    assert(a * b <= c * d) by (nonlinear_arith)
        requires
            0 <= a <= c,
            0 <= b <= d,
    ;
}

/// The best-slot search state after the slots before `(ci, ck)` are seen.
pub open spec fn search_state(
    frees: Seq<Rect>,
    cands: Seq<(u32, u32, bool)>,
    ci: int,
    ck: int,
    best: Option<Rect>,
    best_rotated: bool,
    best_area: u64,
    best_short: u32,
    bi: int,
    bk: int,
) -> bool {
    &&& best is None ==> {
        &&& forall|i2: int, k2: int|
            #[trigger] is_slot(frees, cands, i2, k2) ==> !before(i2, k2, ci, ck)
        &&& best_area == u64::MAX
        &&& best_short == u32::MAX
    }
    &&& best is Some ==> {
        &&& is_slot(frees, cands, bi, bk)
        &&& before(bi, bk, ci, ck)
        &&& best->0 == placed_at(frees[bi], cands[bk])
        &&& best_rotated == cands[bk].2
        &&& best_area == leftover_area(frees[bi], cands[bk])
        &&& best_short == short_side(frees[bi], cands[bk])
        &&& forall|i2: int, k2: int|
            #[trigger] is_slot(frees, cands, i2, k2) && before(i2, k2, ci, ck) ==> {
                &&& before(i2, k2, bi, bk) ==> scores_better(
                    frees[bi],
                    cands[bk],
                    frees[i2],
                    cands[k2],
                )
                &&& !before(i2, k2, bi, bk) ==> !scores_better(
                    frees[i2],
                    cands[k2],
                    frees[bi],
                    cands[bk],
                )
            }
    }
}

impl MaxRectsPacker {
    /// The placement that leaves the least free area in its free rectangle,
    /// ties broken by the shorter leftover side, then by search order.
    fn find_best_position(&self, width: u32, height: u32, allow_rotation: bool) -> (res: Option<
        (Rect, bool),
    >)
        requires
            self.wf(),
        ensures
            res is None <==> forall|i: int, k: int|
                !is_slot(self.free_rects@, orientations(width, height, allow_rotation), i, k),
            res matches Some((r, rotated)) ==> exists|i: int, k: int|
                {
                    &&& is_best_slot(self.free_rects@, orientations(width, height, allow_rotation), i, k)
                    &&& r == placed_at(
                        self.free_rects@[i],
                        orientations(width, height, allow_rotation)[k],
                    )
                    &&& rotated == orientations(width, height, allow_rotation)[k].2
                },
    {
        let ghost frees = self.free_rects@;
        let ghost cands = orientations(width, height, allow_rotation);
        let mut best_rect: Option<Rect> = None;
        let mut best_rotated = false;
        let mut best_area_score: u64 = u64::MAX;
        let mut best_short_side: u32 = u32::MAX;
        let ghost mut bi: int = 0;
        let ghost mut bk: int = 0;
        let mut i: usize = 0;
        while i < self.free_rects.len()
            invariant
                self.wf(),
                frees == self.free_rects@,
                cands == orientations(width, height, allow_rotation),
                i <= frees.len(),
                search_state(
                    frees,
                    cands,
                    i as int,
                    0,
                    best_rect,
                    best_rotated,
                    best_area_score,
                    best_short_side,
                    bi,
                    bk,
                ),
            decreases frees.len() - i,
        {
            let free = self.free_rects[i];
            let candidates = if allow_rotation && width != height {
                vec![(width, height, false), (height, width, true)]
            } else {
                vec![(width, height, false)]
            };
            assert(candidates@ == cands);
            let mut k: usize = 0;
            while k < candidates.len()
                invariant
                    self.wf(),
                    frees == self.free_rects@,
                    cands == orientations(width, height, allow_rotation),
                    candidates@ == cands,
                    i < frees.len(),
                    free == frees[i as int],
                    k <= cands.len(),
                    search_state(
                        frees,
                        cands,
                        i as int,
                        k as int,
                        best_rect,
                        best_rotated,
                        best_area_score,
                        best_short_side,
                        bi,
                        bk,
                    ),
                decreases cands.len() - k,
            {
                let (candidate_w, candidate_h, rotated) = candidates[k];
                let ghost c = cands[k as int];
                if candidate_w > free.w || candidate_h > free.h {
                    proof {
                        assert(!is_slot(frees, cands, i as int, k as int));
                        assert forall|i2: int, k2: int|
                            #[trigger] is_slot(frees, cands, i2, k2) && before(
                                i2,
                                k2,
                                i as int,
                                k + 1,
                            ) implies before(i2, k2, i as int, k as int) by {}
                    }
                    k += 1;
                    continue;
                }
                proof {
                    lemma_mul_le(candidate_w, candidate_h, free.w, free.h);
                    lemma_u32_product_fits_u64(candidate_w, candidate_h);
                    lemma_u32_product_fits_u64(free.w, free.h);
                    assert(free.w * free.h <= 0xffff_ffffu64 * 0xffff_ffffu64) by (nonlinear_arith)
                        requires
                            free.w <= 0xffff_ffffu64,
                            free.h <= 0xffff_ffffu64,
                    ;
                }
                let leftover: u64 = free.area() - candidate_w as u64 * candidate_h as u64;
                let dw = free.w - candidate_w;
                let dh = free.h - candidate_h;
                let short: u32 = if dw <= dh {
                    dw
                } else {
                    dh
                };
                assert(leftover == leftover_area(free, c));
                assert(short == short_side(free, c));
                if leftover < best_area_score || (leftover == best_area_score && short
                    < best_short_side) {
                    best_rect = Some(Rect { x: free.x, y: free.y, w: candidate_w, h: candidate_h });
                    best_rotated = rotated;
                    best_area_score = leftover;
                    best_short_side = short;
                    proof {
                        bi = i as int;
                        bk = k as int;
                    }
                }
                k += 1;
            }
            proof {
                assert forall|i2: int, k2: int|
                    #[trigger] is_slot(frees, cands, i2, k2) implies (before(i2, k2, i + 1, 0)
                        == before(i2, k2, i as int, cands.len() as int)) by {}
            }
            i += 1;
        }
        match best_rect {
            Some(rect) => {
                assert(is_best_slot(frees, cands, bi, bk));
                Some((rect, best_rotated))
            },
            None => None,
        }
    }
}


/// Where `insert` puts a `width` x `height` item into the free rectangles
/// `frees`: the rectangle and whether it was turned, or `None` when no free
/// rectangle holds it in any orientation tried.
pub open spec fn insert_choice(frees: Seq<Rect>, width: u32, height: u32, allow_rotation: bool) -> Option<
    (Rect, bool),
> {
    let cands = orientations(width, height, allow_rotation);
    if exists|i: int, k: int| is_slot(frees, cands, i, k) {
        let (i, k) = choose|i: int, k: int| is_best_slot(frees, cands, i, k);
        Some((placed_at(frees[i], cands[k]), cands[k].2))
    } else {
        None
    }
}

/// The free rectangles after `rect` is placed.
pub open spec fn free_after(frees: Seq<Rect>, rect: Rect) -> Seq<Rect> {
    pruned(split_all(frees, rect))
}

/// There is at most one best slot.
pub proof fn lemma_best_slot_unique(
    frees: Seq<Rect>,
    cands: Seq<(u32, u32, bool)>,
    i1: int,
    k1: int,
    i2: int,
    k2: int,
)
    requires
        is_best_slot(frees, cands, i1, k1),
        is_best_slot(frees, cands, i2, k2),
    ensures
        i1 == i2 && k1 == k2,
{
    assert(is_slot(frees, cands, i1, k1));
    assert(is_slot(frees, cands, i2, k2));
}

/// A well-formed packer has a free rectangle that holds the item in an
/// orientation tried exactly when the bin has a free spot of the item's size
/// (turned, where `allow_rotation` permits).
pub proof fn lemma_slot_iff_placeable(packer: MaxRectsPacker, width: u32, height: u32, allow_rotation: bool)
    requires
        packer.wf(),
        width > 0,
        height > 0,
    ensures
        (exists|i: int, k: int|
            is_slot(packer.free_rects@, orientations(width, height, allow_rotation), i, k)) <==> placeable(
            packer.used_rects@,
            packer.width as int,
            packer.height as int,
            width,
            height,
            allow_rotation,
        ),
{
    let frees = packer.free_rects@;
    let used = packer.used_rects@;
    let bw = packer.width as int;
    let bh = packer.height as int;
    let cands = orientations(width, height, allow_rotation);
    if exists|i: int, k: int| is_slot(frees, cands, i, k) {
        let (i, k) = choose|i: int, k: int| is_slot(frees, cands, i, k);
        let e = placed_at(frees[i], cands[k]);
        assert(frees[i].within(bw, bh));
        assert forall|j: int| 0 <= j < used.len() implies !e.overlaps(#[trigger] used[j]) by {
            assert(!frees[i].overlaps(used[j]));
        }
        assert(free_spot(used, bw, bh, e));
    }
    if placeable(used, bw, bh, width, height, allow_rotation) {
        let e = choose|e: Rect|
            #[trigger] free_spot(used, bw, bh, e) && ((e.w == width && e.h == height) || (allow_rotation
                && e.w == height && e.h == width));
        let i = choose|i: int| 0 <= i < frees.len() && #[trigger] frees[i].encloses(e);
        if e.w == width && e.h == height {
            assert(is_slot(frees, cands, i, 0));
        } else if width != height {
            assert(is_slot(frees, cands, i, 1));
        } else {
            assert(is_slot(frees, cands, i, 0));
        }
    }
}

impl MaxRectsPacker {
    /// Places `width` x `height` (or the turned item, where `allow_rotation`
    /// permits and the sides differ) at the best position, or gives `None`
    /// when no free rectangle can hold it; the packer is then unchanged.
    pub fn insert(&mut self, index: usize, width: u32, height: u32, allow_rotation: bool) -> (res:
        Option<InsertResult>)
        requires
            old(self).wf(),
        ensures
            final(self).wf(),
            final(self).width == old(self).width,
            final(self).height == old(self).height,
            res is None <==> forall|i: int, k: int|
                !is_slot(old(self).free_rects@, orientations(width, height, allow_rotation), i, k),
            width > 0 && height > 0 ==> (res is None <==> !placeable(
                old(self).used_rects@,
                old(self).width as int,
                old(self).height as int,
                width,
                height,
                allow_rotation,
            )),
            res is None ==> final(self).free_rects@ == old(self).free_rects@
                && final(self).used_rects@ == old(self).used_rects@,
            res matches Some(r) ==> Some((r.rect, r.rotated)) == insert_choice(
                old(self).free_rects@,
                width,
                height,
                allow_rotation,
            ),
            res is None ==> insert_choice(old(self).free_rects@, width, height, allow_rotation)
                is None,
            res matches Some(r) ==> {
                &&& r.index == index
                &&& !(exists|j: int|
                    0 <= j < old(self).used_rects@.len() && r.rect.overlaps(
                        #[trigger] old(self).used_rects@[j],
                    ))
                &&& r.rect.within(old(self).width as int, old(self).height as int)
                &&& exists|i: int, k: int|
                    {
                        &&& is_best_slot(
                            old(self).free_rects@,
                            orientations(width, height, allow_rotation),
                            i,
                            k,
                        )
                        &&& r.rect == placed_at(
                            old(self).free_rects@[i],
                            orientations(width, height, allow_rotation)[k],
                        )
                        &&& r.rotated == orientations(width, height, allow_rotation)[k].2
                    }
                &&& final(self).used_rects@ == old(self).used_rects@.push(r.rect)
                &&& final(self).free_rects@ == pruned(split_all(old(self).free_rects@, r.rect))
            },
    {
        proof {
            if width > 0 && height > 0 {
                lemma_slot_iff_placeable(*self, width, height, allow_rotation);
            }
        }
        match self.find_best_position(width, height, allow_rotation) {
            None => None,
            Some((rect, rotated)) => {
                proof {
                    let cands = orientations(width, height, allow_rotation);
                    let (i, k) = choose|i: int, k: int|
                        {
                            &&& is_best_slot(self.free_rects@, cands, i, k)
                            &&& rect == placed_at(self.free_rects@[i], cands[k])
                            &&& rotated == cands[k].2
                        };
                    assert(self.free_rects@[i].encloses(rect));
                    let (i2, k2) = choose|i2: int, k2: int|
                        is_best_slot(self.free_rects@, cands, i2, k2);
                    lemma_best_slot_unique(self.free_rects@, cands, i, k, i2, k2);
                    assert(is_slot(self.free_rects@, cands, i, k));
                    assert(self.free_rects@[i].within(self.width as int, self.height as int));
                    assert forall|j: int| 0 <= j < self.used_rects@.len() implies !rect.overlaps(
                        #[trigger] self.used_rects@[j],
                    ) by {
                        assert(!self.free_rects@[i].overlaps(self.used_rects@[j]));
                    }
                }
                self.place(rect);
                Some(InsertResult { index, rect, rotated })
            },
        }
    }

    /// Marks `rect` used: splits the free rectangles around it and prunes them.
    fn place(&mut self, rect: Rect)
        requires
            old(self).wf(),
            rect.x <= sides_total(old(self).used_rects@),
            rect.y <= sides_total(old(self).used_rects@),
            exists|i: int|
                0 <= i < old(self).free_rects@.len() && #[trigger] old(self).free_rects@[i].encloses(
                    rect,
                ),
        ensures
            final(self).wf(),
            final(self).width == old(self).width,
            final(self).height == old(self).height,
            final(self).used_rects@ == old(self).used_rects@.push(rect),
            final(self).free_rects@ == pruned(split_all(old(self).free_rects@, rect)),
    {
        let ghost frees = self.free_rects@;
        let ghost used = self.used_rects@;
        let ghost fi = choose|i: int| 0 <= i < frees.len() && #[trigger] frees[i].encloses(rect);
        proof {
            assert(frees[fi].within(self.width as int, self.height as int));
        }
        let mut next_free: Vec<Rect> = Vec::new();
        let mut i: usize = 0;
        while i < self.free_rects.len()
            invariant
                old(self).wf(),
                self.free_rects@ == frees,
                self.width == old(self).width,
                self.height == old(self).height,
                frees == old(self).free_rects@,
                rect.edges_fit(),
                i <= frees.len(),
                next_free@ == split_all(frees.subrange(0, i as int), rect),
            decreases frees.len() - i,
        {
            let free = self.free_rects[i];
            proof {
                assert(frees.subrange(0, i + 1).drop_last() == frees.subrange(0, i as int));
                assert(frees[i as int].within(self.width as int, self.height as int));
            }
            if !free.intersects(rect) {
                next_free.push(free);
                i += 1;
                continue;
            }
            let mut pieces = split_free_rect(free, rect);
            next_free.append(&mut pieces);
            i += 1;
        }
        proof {
            assert(frees.subrange(0, frees.len() as int) == frees);
            assert(all_edges_fit(frees)) by {
                assert forall|k: int| 0 <= k < frees.len() implies (#[trigger] frees[k]).edges_fit() by {
                    assert(frees[k].within(self.width as int, self.height as int));
                }
            }
            lemma_split_all_inside(frees, rect);
            lemma_place_keeps_maximal(frees, used, self.width as int, self.height as int, rect);
            lemma_place_keeps_sides(frees, used, rect);
        }
        let ghost split = next_free@;
        self.free_rects = prune_free_rects(next_free.as_slice());
        self.used_rects.push(rect);
        proof {
            let w = self.width as int;
            let h = self.height as int;
            lemma_prune_prefix_members(split, split.len() as int);
            let nf = self.free_rects@;
            let nu = self.used_rects@;
            assert forall|k: int| 0 <= k < nf.len() implies {
                &&& (#[trigger] nf[k]).within(w, h)
                &&& !nf[k].overlaps(rect)
                &&& forall|j: int| 0 <= j < used.len() ==> !nf[k].overlaps(#[trigger] used[j])
            } by {
                let m = choose|m: int| 0 <= m < split.len() && split[m] == #[trigger] pruned(split)[k];
                let i2 = choose|i2: int| 0 <= i2 < frees.len() && #[trigger] frees[i2].encloses(split[m]);
                assert(frees[i2].within(w, h));
                assert forall|j: int| 0 <= j < used.len() implies !nf[k].overlaps(#[trigger] used[j]) by {
                    assert(!frees[i2].overlaps(used[j]));
                }
            }
            assert forall|i2: int, j: int|
                0 <= i2 < nf.len() && 0 <= j < nu.len() implies !(#[trigger] nf[i2].overlaps(
                #[trigger] nu[j])) by {
                if j < used.len() {
                    assert(nu[j] == used[j]);
                } else {
                    assert(nu[j] == rect);
                }
            }
            assert forall|i2: int, j: int|
                0 <= i2 < nu.len() && 0 <= j < nu.len() && i2 != j implies !(#[trigger] nu[i2].overlaps(
                #[trigger] nu[j])) by {
                if i2 < used.len() && j < used.len() {
                    assert(nu[i2] == used[i2] && nu[j] == used[j]);
                } else if i2 < used.len() {
                    assert(!frees[fi].overlaps(used[i2]));
                } else {
                    assert(!frees[fi].overlaps(used[j]));
                }
            }
            assert forall|j: int| 0 <= j < nu.len() implies (#[trigger] nu[j]).within(w, h) by {
                if j < used.len() {
                    assert(nu[j] == used[j]);
                }
            }
        }
    }
}

/// Every rectangle a well-formed packer has placed lies in the bin, no
/// further out than the sum of the placed rectangles' sides, and no two
/// placed rectangles meet.
pub proof fn lemma_placements_in_bin_and_disjoint(packer: MaxRectsPacker)
    requires
        packer.wf(),
    ensures
        forall|i: int|
            0 <= i < packer.used_rects@.len() ==> (#[trigger] packer.used_rects@[i]).right_edge() <= sides_total(
                packer.used_rects@,
            ) && packer.used_rects@[i].bottom_edge() <= sides_total(packer.used_rects@),
        forall|i: int|
            0 <= i < packer.used_rects@.len() ==> (#[trigger] packer.used_rects@[i]).within(
                packer.width as int,
                packer.height as int,
            ),
        forall|i: int, j: int|
            0 <= i < j < packer.used_rects@.len() ==> !(#[trigger] packer.used_rects@[i]).overlaps(
                #[trigger] packer.used_rects@[j],
            ),
{
}

/// The free rectangles of a well-formed packer are the maximal free
/// rectangles of its bin: each has a positive size, lies in the bin and meets
/// no placed rectangle; none encloses another; and every place of positive
/// size in the bin that meets no placed rectangle lies inside one of them.
pub proof fn lemma_free_rects_maximal(packer: MaxRectsPacker)
    requires
        packer.wf(),
    ensures
        forall|i: int|
            0 <= i < packer.free_rects@.len() ==> {
                &&& nonempty(#[trigger] packer.free_rects@[i])
                &&& packer.free_rects@[i].within(packer.width as int, packer.height as int)
                &&& forall|j: int|
                    0 <= j < packer.used_rects@.len() ==> !packer.free_rects@[i].overlaps(
                        #[trigger] packer.used_rects@[j],
                    )
            },
        no_nesting(packer.free_rects@),
        forall|e: Rect|
            #[trigger] free_spot(packer.used_rects@, packer.width as int, packer.height as int, e)
                ==> enclosed_by_some(packer.free_rects@, e),
{
}

} // verus!
