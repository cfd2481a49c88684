use vstd::prelude::*;

use crate::atlas::pixels::{
    buffer_fits, height_of, image_pixels, image_size, in_bounds, lemma_put_pixel_effect, pixel_at,
    transparent_pixel, visible, width_of, Image,
};
use crate::atlas::packer::sizes::{grid_cell, slicing};
use crate::atlas::maxrects::{lemma_mod_sum_diff, on_grid};
use crate::atlas::types::{AtlasBuild, PackConfig, PackedSprite, Placement};

verus! {

// ---------------------------------------------------------------------------
// Drawing
// ---------------------------------------------------------------------------

/// What lies at `(tx, ty)` after `source` is copied with its corner at
/// `(x, y)` over a pixel `under`: the source pixel where it covers the spot
/// and is not fully transparent.
pub open spec fn over(source: Image, x: int, y: int, tx: int, ty: int, under: [u8; 4]) -> [u8; 4] {
    if x <= tx < x + width_of(source) && y <= ty < y + height_of(source) && visible(
        pixel_at(source, tx - x, ty - y),
    ) {
        pixel_at(source, tx - x, ty - y)
    } else {
        under
    }
}

/// Copies the pixels of `source` that are not fully transparent onto
/// `target` with the corner at `(x, y)`; what falls outside `target` is cut.
pub fn copy_rgba(source: &Image, target: &mut Image, x: u32, y: u32)
    requires
        x + width_of(*source) <= 0x1_0000_0000,
        y + height_of(*source) <= 0x1_0000_0000,
    ensures
        image_size(*final(target)) == image_size(*old(target)),
        forall|tx: int, ty: int|
            in_bounds(*final(target), tx, ty) ==> #[trigger] pixel_at(*final(target), tx, ty) == over(
                *source,
                x as int,
                y as int,
                tx,
                ty,
                pixel_at(*old(target), tx, ty),
            ),
{
    let ghost start = *target;
    let source_w = source.width();
    let source_h = source.height();
    let target_w = target.width();
    let target_h = target.height();
    let mut sy: u32 = 0;
    while sy < source_h
        invariant
            sy <= source_h,
            source_w == width_of(*source),
            source_h == height_of(*source),
            target_w == width_of(start),
            target_h == height_of(start),
            x + source_w <= 0x1_0000_0000,
            y + source_h <= 0x1_0000_0000,
            image_size(*target) == image_size(start),
            forall|tx: int, ty: int|
                in_bounds(*target, tx, ty) ==> #[trigger] pixel_at(*target, tx, ty) == if ty < y + sy {
                    over(*source, x as int, y as int, tx, ty, pixel_at(start, tx, ty))
                } else {
                    pixel_at(start, tx, ty)
                },
        decreases source_h - sy,
    {
        let ghost row_start = *target;
        let mut sx: u32 = 0;
        while sx < source_w
            invariant
                sx <= source_w,
                sy < source_h,
                source_w == width_of(*source),
                source_h == height_of(*source),
                target_w == width_of(start),
                target_h == height_of(start),
                x + source_w <= 0x1_0000_0000,
                y + source_h <= 0x1_0000_0000,
                image_size(*target) == image_size(start),
                image_size(row_start) == image_size(start),
                forall|tx: int, ty: int|
                    in_bounds(*target, tx, ty) ==> #[trigger] pixel_at(*target, tx, ty) == if ty == y + sy
                        && tx < x + sx {
                        over(*source, x as int, y as int, tx, ty, pixel_at(row_start, tx, ty))
                    } else {
                        pixel_at(row_start, tx, ty)
                    },
            decreases source_w - sx,
        {
            let target_x = x + sx;
            let target_y = y + sy;
            if target_x < target_w && target_y < target_h {
                let pixel = source.get_pixel(sx, sy);
                if pixel[3] > 0 {
                    let ghost before = *target;
                    target.put_pixel(target_x, target_y, pixel);
                    proof {
                        assert forall|tx: int, ty: int| in_bounds(*target, tx, ty) implies #[trigger] pixel_at(
                            *target,
                            tx,
                            ty,
                        ) == if ty == y + sy && tx < x + sx + 1 {
                            over(*source, x as int, y as int, tx, ty, pixel_at(row_start, tx, ty))
                        } else {
                            pixel_at(row_start, tx, ty)
                        } by {
                            lemma_put_pixel_effect(before, *target, target_x, target_y, pixel, tx, ty);
                            assert(in_bounds(before, tx, ty));
                        }
                    }
                }
            }
            sx += 1;
        }
        proof {
            assert forall|tx: int, ty: int| in_bounds(*target, tx, ty) implies #[trigger] pixel_at(*target, tx, ty)
                == if ty < y + sy + 1 {
                over(*source, x as int, y as int, tx, ty, pixel_at(start, tx, ty))
            } else {
                pixel_at(start, tx, ty)
            } by {
                assert(in_bounds(row_start, tx, ty));
                if ty == y + sy && tx >= x + source_w {
                    assert(pixel_at(*target, tx, ty) == pixel_at(row_start, tx, ty));
                }
            }
        }
        sy += 1;
    }
}

} // verus!

verus! {

/// The size a placement is drawn at: the sprite's image, turned when the
/// placement is rotated.
pub open spec fn draw_size(p: Placement) -> (u32, u32) {
    if p.rotated {
        (height_of(p.sprite.image), width_of(p.sprite.image))
    } else {
        image_size(p.sprite.image)
    }
}

/// The pixel at `(x, y)` of a placement as drawn.
pub open spec fn draw_pixel(p: Placement, x: int, y: int) -> [u8; 4] {
    if p.rotated {
        pixel_at(p.sprite.image, y, height_of(p.sprite.image) - 1 - x)
    } else {
        pixel_at(p.sprite.image, x, y)
    }
}

/// The image a placement is drawn with: the sprite's, turned a quarter
/// clockwise when the placement is rotated.
pub fn image_for_placement(placement: &Placement) -> (img: Image)
    ensures
        image_size(img) == draw_size(*placement),
        forall|x: int, y: int| in_bounds(img, x, y) ==> #[trigger] pixel_at(img, x, y) == draw_pixel(*placement, x, y),
{
    if placement.rotated {
        placement.sprite.image.rotated()
    } else {
        placement.sprite.image.copy()
    }
}

/// Where a placement's image is pasted: its rectangle inside the padding.
pub open spec fn paste_at(p: Placement, config: PackConfig) -> (int, int) {
    (p.rect.x + config.padding, p.rect.y + config.padding)
}

/// The atlas pixel at `(tx, ty)` once the placements are drawn in order onto
/// a transparent image: the last one that shows a visible pixel there.
pub open spec fn composed_pixel(ps: Seq<Placement>, config: PackConfig, tx: int, ty: int) -> [u8; 4]
    decreases ps.len(),
{
    if ps.len() == 0 {
        transparent_pixel()
    } else {
        let p = ps.last();
        let (ox, oy) = paste_at(p, config);
        let (w, h) = draw_size(p);
        if ox <= tx < ox + w && oy <= ty < oy + h && visible(draw_pixel(p, tx - ox, ty - oy)) {
            draw_pixel(p, tx - ox, ty - oy)
        } else {
            composed_pixel(ps.drop_last(), config, tx, ty)
        }
    }
}

// ---------------------------------------------------------------------------
// Frames of the sprite sheet
// ---------------------------------------------------------------------------

/// A frame as plain values: name, relative path, atlas, the numbers
/// (position, size, source size, offset, trimmed size, packed rectangle) and
/// whether it is rotated and trimmed.
pub open spec fn frame_view(f: PackedSprite) -> (Seq<char>, Seq<char>, usize, Seq<u32>, bool, bool) {
    (
        f.name@,
        f.rel_path@,
        f.atlas_index,
        seq![
            f.x,
            f.y,
            f.w,
            f.h,
            f.source_w,
            f.source_h,
            f.offset_x,
            f.offset_y,
            f.trim_w,
            f.trim_h,
            f.pack_x,
            f.pack_y,
            f.pack_w,
            f.pack_h,
        ],
        f.rotated,
        f.trimmed,
    )
}

/// The frame of a whole sprite: its trimmed image at the paste position plus
/// the extrusion, turned with the placement.
pub open spec fn whole_frame(p: Placement, atlas_index: usize, config: PackConfig) -> (
    Seq<char>,
    Seq<char>,
    usize,
    Seq<u32>,
    bool,
    bool,
) {
    let s = p.sprite;
    (
        s.name@,
        s.rel_path@,
        atlas_index,
        seq![
            (paste_at(p, config).0 + config.extrude) as u32,
            (paste_at(p, config).1 + config.extrude) as u32,
            if p.rotated { s.trim_height } else { s.trim_width },
            if p.rotated { s.trim_width } else { s.trim_height },
            s.source_width,
            s.source_height,
            s.trim_x,
            s.trim_y,
            s.trim_width,
            s.trim_height,
            p.rect.x,
            p.rect.y,
            p.rect.w,
            p.rect.h,
        ],
        p.rotated,
        s.trimmed,
    )
}

/// The frame of the `k`-th cell of a sprite cut into cells: one cell,
/// untrimmed, at the cell's place in the sprite.
pub open spec fn cell_frame(p: Placement, k: int, atlas_index: usize, config: PackConfig) -> (
    Seq<char>,
    Seq<char>,
    usize,
    Seq<u32>,
    bool,
    bool,
) {
    let slice = p.sprite.grid_slices@[k];
    let cell = grid_cell(config);
    (
        slice.name@,
        slice.rel_path@,
        atlas_index,
        seq![
            (paste_at(p, config).0 + config.extrude + slice.x * cell) as u32,
            (paste_at(p, config).1 + config.extrude + slice.y * cell) as u32,
            cell,
            cell,
            cell,
            cell,
            0u32,
            0u32,
            cell,
            cell,
            (p.rect.x + slice.x * cell) as u32,
            (p.rect.y + slice.y * cell) as u32,
            cell,
            cell,
        ],
        false,
        false,
    )
}

/// The frames of one placement.
pub open spec fn placement_frames(p: Placement, atlas_index: usize, config: PackConfig) -> Seq<
    (Seq<char>, Seq<char>, usize, Seq<u32>, bool, bool),
> {
    if slicing(config) && p.sprite.grid_slices@.len() > 0 {
        Seq::new(p.sprite.grid_slices@.len(), |k: int| cell_frame(p, k, atlas_index, config))
    } else {
        seq![whole_frame(p, atlas_index, config)]
    }
}

/// The frames of the placements, in order.
pub open spec fn all_frames(ps: Seq<Placement>, atlas_index: usize, config: PackConfig) -> Seq<
    (Seq<char>, Seq<char>, usize, Seq<u32>, bool, bool),
>
    decreases ps.len(),
{
    if ps.len() == 0 {
        Seq::empty()
    } else {
        all_frames(ps.drop_last(), atlas_index, config) + placement_frames(ps.last(), atlas_index, config)
    }
}


/// The packed box a frame records lies on cell boundaries and has whole
/// cells for sides.
pub open spec fn frame_on_grid(f: (Seq<char>, Seq<char>, usize, Seq<u32>, bool, bool), g: int) -> bool {
    &&& (f.3[10] as int) % g == 0
    &&& (f.3[11] as int) % g == 0
    &&& (f.3[12] as int) % g == 0
    &&& (f.3[13] as int) % g == 0
}

/// When every placement lies on cell boundaries, so does the packed box of
/// every frame composed from them.
pub proof fn lemma_frames_on_grid(ps: Seq<Placement>, atlas_index: usize, config: PackConfig)
    requires
        forall|i: int| 0 <= i < ps.len() ==> placement_fits(#[trigger] ps[i], config),
        forall|i: int| 0 <= i < ps.len() ==> on_grid((#[trigger] ps[i]).rect, grid_cell(config) as int),
    ensures
        forall|j: int|
            0 <= j < all_frames(ps, atlas_index, config).len() ==> frame_on_grid(
                #[trigger] all_frames(ps, atlas_index, config)[j],
                grid_cell(config) as int,
            ),
    decreases ps.len(),
{
    if ps.len() > 0 {
        let init = ps.drop_last();
        let p = ps.last();
        let g = grid_cell(config) as int;
        assert forall|i: int| 0 <= i < init.len() implies placement_fits(#[trigger] init[i], config) && on_grid(
            init[i].rect,
            g,
        ) by {
            assert(init[i] == ps[i]);
        }
        lemma_frames_on_grid(init, atlas_index, config);
        assert(placement_fits(ps[ps.len() - 1], config));
        assert(on_grid(ps[ps.len() - 1].rect, g));
        let a = all_frames(init, atlas_index, config);
        let b = placement_frames(p, atlas_index, config);
        assert forall|j: int| 0 <= j < b.len() implies frame_on_grid(#[trigger] b[j], g) by {
            if slicing(config) && p.sprite.grid_slices@.len() > 0 {
                let slice = p.sprite.grid_slices@[j];
                assert(b[j] == cell_frame(p, j, atlas_index, config));
                vstd::arithmetic::div_mod::lemma_mod_multiples_basic(slice.x as int, g);
                vstd::arithmetic::div_mod::lemma_mod_multiples_basic(slice.y as int, g);
                vstd::arithmetic::div_mod::lemma_mod_multiples_basic(1, g);
                lemma_mod_sum_diff(p.rect.x as int, slice.x * g, g);
                lemma_mod_sum_diff(p.rect.y as int, slice.y * g, g);
                assert(p.rect.x + slice.x * g <= u32::MAX);
                assert(p.rect.y + slice.y * g <= u32::MAX);
            } else {
                assert(b[j] == whole_frame(p, atlas_index, config));
            }
        }
        assert forall|j: int| 0 <= j < (a + b).len() implies frame_on_grid(#[trigger] (a + b)[j], g) by {
            if j < a.len() {
                assert((a + b)[j] == a[j]);
            } else {
                assert((a + b)[j] == b[j - a.len()]);
            }
        }
    }
}

/// A frame sits in the atlas at its packed box moved in by the padding and
/// the extrusion on each axis: the frame's rectangle is where the pixels it
/// shows were drawn, for a whole sprite and for each cell of a cut sprite.
pub proof fn lemma_frames_in_packed_boxes(ps: Seq<Placement>, atlas_index: usize, config: PackConfig)
    requires
        forall|i: int| 0 <= i < ps.len() ==> placement_fits(#[trigger] ps[i], config),
    ensures
        forall|j: int|
            0 <= j < all_frames(ps, atlas_index, config).len() ==> {
                &&& (#[trigger] all_frames(ps, atlas_index, config)[j]).3[0] == all_frames(ps, atlas_index, config)[j].3[10]
                    + config.padding + config.extrude
                &&& all_frames(ps, atlas_index, config)[j].3[1] == all_frames(ps, atlas_index, config)[j].3[11]
                    + config.padding + config.extrude
            },
    decreases ps.len(),
{
    if ps.len() > 0 {
        let init = ps.drop_last();
        let p = ps.last();
        assert forall|i: int| 0 <= i < init.len() implies placement_fits(#[trigger] init[i], config) by {
            assert(init[i] == ps[i]);
        }
        lemma_frames_in_packed_boxes(init, atlas_index, config);
        assert(placement_fits(ps[ps.len() - 1], config));
        let a = all_frames(init, atlas_index, config);
        let b = placement_frames(p, atlas_index, config);
        let shift = config.padding + config.extrude;
        assert forall|j: int| 0 <= j < b.len() implies (#[trigger] b[j]).3[0] == b[j].3[10] + shift && b[j].3[1]
            == b[j].3[11] + shift by {
            if slicing(config) && p.sprite.grid_slices@.len() > 0 {
                assert(b[j] == cell_frame(p, j, atlas_index, config));
            } else {
                assert(b[j] == whole_frame(p, atlas_index, config));
            }
        }
        assert forall|j: int| 0 <= j < (a + b).len() implies (#[trigger] (a + b)[j]).3[0] == (a + b)[j].3[10]
            + shift && (a + b)[j].3[1] == (a + b)[j].3[11] + shift by {
            if j < a.len() {
                assert((a + b)[j] == a[j]);
            } else {
                assert((a + b)[j] == b[j - a.len()]);
            }
        }
    }
}

/// Two different cells of a sprite cut into cells have frames that do not
/// meet, in the atlas and in the packed layout: each frame is one cell wide
/// and high, and cells at different places of the sprite lie apart.
pub proof fn lemma_cell_frames_apart(p: Placement, atlas_index: usize, config: PackConfig, k1: int, k2: int)
    requires
        slicing(config),
        placement_fits(p, config),
        0 <= k1 < p.sprite.grid_slices@.len(),
        0 <= k2 < p.sprite.grid_slices@.len(),
        p.sprite.grid_slices@[k1].x != p.sprite.grid_slices@[k2].x || p.sprite.grid_slices@[k1].y
            != p.sprite.grid_slices@[k2].y,
    ensures
        ({
            let f1 = placement_frames(p, atlas_index, config)[k1].3;
            let f2 = placement_frames(p, atlas_index, config)[k2].3;
            &&& f1[0] + f1[2] <= f2[0] || f2[0] + f2[2] <= f1[0] || f1[1] + f1[3] <= f2[1] || f2[1] + f2[3]
                <= f1[1]
            &&& f1[10] + f1[12] <= f2[10] || f2[10] + f2[12] <= f1[10] || f1[11] + f1[13] <= f2[11] || f2[11]
                + f2[13] <= f1[11]
        }),
{
    let cell = grid_cell(config) as int;
    let s1 = p.sprite.grid_slices@[k1];
    let s2 = p.sprite.grid_slices@[k2];
    let f1 = placement_frames(p, atlas_index, config)[k1].3;
    let f2 = placement_frames(p, atlas_index, config)[k2].3;
    assert(placement_frames(p, atlas_index, config)[k1] == cell_frame(p, k1, atlas_index, config));
    assert(placement_frames(p, atlas_index, config)[k2] == cell_frame(p, k2, atlas_index, config));
    assert(p.rect.x + s1.x * cell <= u32::MAX && p.rect.y + s1.y * cell <= u32::MAX);
    assert(p.rect.x + s2.x * cell <= u32::MAX && p.rect.y + s2.y * cell <= u32::MAX);
    if s1.x < s2.x {
        assert(s1.x * cell + cell <= s2.x * cell) by (nonlinear_arith)
            requires
                s1.x < s2.x,
                cell >= 1,
        ;
    } else if s2.x < s1.x {
        assert(s2.x * cell + cell <= s1.x * cell) by (nonlinear_arith)
            requires
                s2.x < s1.x,
                cell >= 1,
        ;
    } else if s1.y < s2.y {
        assert(s1.y * cell + cell <= s2.y * cell) by (nonlinear_arith)
            requires
                s1.y < s2.y,
                cell >= 1,
        ;
    } else {
        assert(s2.y * cell + cell <= s1.y * cell) by (nonlinear_arith)
            requires
                s2.y < s1.y,
                cell >= 1,
        ;
    }
}

/// The frame of a cell shows that cell: it and its packed box are one cell
/// wide and high, and within the drawn image of an unturned placement the
/// frame's rectangle holds the pixels of the cell at the slice's column and
/// row of the sprite image, past its extrusion.
pub proof fn lemma_cell_frame_shows_cell(
    p: Placement,
    atlas_index: usize,
    config: PackConfig,
    k: int,
    dx: int,
    dy: int,
)
    requires
        slicing(config),
        placement_fits(p, config),
        !p.rotated,
        0 <= k < p.sprite.grid_slices@.len(),
        0 <= dx < grid_cell(config),
        0 <= dy < grid_cell(config),
    ensures
        ({
            let f = placement_frames(p, atlas_index, config)[k].3;
            let slice = p.sprite.grid_slices@[k];
            let cell = grid_cell(config) as int;
            &&& f[2] == cell && f[3] == cell
            &&& f[12] == cell && f[13] == cell
            &&& draw_pixel(p, f[0] - paste_at(p, config).0 + dx, f[1] - paste_at(p, config).1 + dy) == pixel_at(
                p.sprite.image,
                config.extrude + slice.x * cell + dx,
                config.extrude + slice.y * cell + dy,
            )
        }),
{
    assert(placement_frames(p, atlas_index, config)[k] == cell_frame(p, k, atlas_index, config));
}

/// The positions of a placement's image and frames fit in `u32`.
pub open spec fn placement_fits(p: Placement, config: PackConfig) -> bool {
    let (ox, oy) = paste_at(p, config);
    let cell = grid_cell(config);
    &&& ox + config.extrude <= u32::MAX
    &&& oy + config.extrude <= u32::MAX
    &&& ox + draw_size(p).0 <= 0x1_0000_0000
    &&& oy + draw_size(p).1 <= 0x1_0000_0000
    &&& slicing(config) ==> forall|k: int|
        0 <= k < p.sprite.grid_slices@.len() ==> ox + config.extrude + (#[trigger] p.sprite.grid_slices@[k]).x
            * cell <= u32::MAX && oy + config.extrude + p.sprite.grid_slices@[k].y * cell <= u32::MAX
}

/// What `compose_atlas` needs: an atlas image that can be allocated and
/// positions that fit in `u32`.
pub open spec fn compose_ok(build: AtlasBuild, config: PackConfig) -> bool {
    &&& buffer_fits(build.width as int, build.height as int)
    &&& forall|i: int| 0 <= i < build.placements@.len() ==> placement_fits(#[trigger] build.placements@[i], config)
}

} // verus!

verus! {

/// The frames of a sequence of packed sprites, as plain values.
pub open spec fn frames_view(fs: Seq<PackedSprite>) -> Seq<(Seq<char>, Seq<char>, usize, Seq<u32>, bool, bool)> {
    fs.map_values(|f: PackedSprite| frame_view(f))
}

/// Appends the frames of one placement.
fn push_frames(placement: &Placement, atlas_index: usize, config: PackConfig, frames: &mut Vec<PackedSprite>)
    requires
        placement_fits(*placement, config),
    ensures
        frames_view(final(frames)@) == frames_view(old(frames)@) + placement_frames(
            *placement,
            atlas_index,
            config,
        ),
{
    let sprite = &placement.sprite;
    let paste_x = placement.rect.x + config.padding;
    let paste_y = placement.rect.y + config.padding;
    let ghost start = frames@;
    if config.align_to_grid && config.slice_grid_cells && sprite.grid_slices.len() > 0 {
        let cell = if config.grid_cell_size >= 1 {
            config.grid_cell_size
        } else {
            1
        };
        let frame_origin_x = paste_x + config.extrude;
        let frame_origin_y = paste_y + config.extrude;
        let ghost expected = placement_frames(*placement, atlas_index, config);
        let mut k: usize = 0;
        while k < sprite.grid_slices.len()
            invariant
                k <= sprite.grid_slices@.len(),
                slicing(config),
                sprite == &placement.sprite,
                cell == grid_cell(config),
                placement_fits(*placement, config),
                frame_origin_x == paste_x + config.extrude,
                frame_origin_y == paste_y + config.extrude,
                paste_x == paste_at(*placement, config).0,
                paste_y == paste_at(*placement, config).1,
                expected == placement_frames(*placement, atlas_index, config),
                expected.len() == sprite.grid_slices@.len(),
                frames_view(frames@) == frames_view(start) + expected.take(k as int),
            decreases sprite.grid_slices@.len() - k,
        {
            let slice = &sprite.grid_slices[k];
            assert(frame_origin_x + slice.x * cell <= u32::MAX);
            assert(frame_origin_y + slice.y * cell <= u32::MAX);
            assert(slice.x * cell <= u32::MAX) by (nonlinear_arith)
                requires
                    frame_origin_x + slice.x * cell <= u32::MAX,
                    frame_origin_x >= 0,
            ;
            assert(slice.y * cell <= u32::MAX) by (nonlinear_arith)
                requires
                    frame_origin_y + slice.y * cell <= u32::MAX,
                    frame_origin_y >= 0,
            ;
            let f = PackedSprite {
                name: slice.name.clone(),
                rel_path: slice.rel_path.clone(),
                atlas_index,
                x: frame_origin_x + slice.x * cell,
                y: frame_origin_y + slice.y * cell,
                w: cell,
                h: cell,
                source_w: cell,
                source_h: cell,
                offset_x: 0,
                offset_y: 0,
                trim_w: cell,
                trim_h: cell,
                rotated: false,
                trimmed: false,
                pack_x: placement.rect.x + slice.x * cell,
                pack_y: placement.rect.y + slice.y * cell,
                pack_w: cell,
                pack_h: cell,
            };
            let ghost before = frames@;
            frames.push(f);
            proof {
                assert(frame_view(f) == expected[k as int]);
                assert(frames_view(frames@) == frames_view(before).push(frame_view(f)));
                assert(expected.take(k + 1) == expected.take(k as int).push(expected[k as int]));
            }
            k += 1;
        }
        assert(expected.take(expected.len() as int) == expected);
    } else {
        let f = PackedSprite {
            name: sprite.name.clone(),
            rel_path: sprite.rel_path.clone(),
            atlas_index,
            x: paste_x + config.extrude,
            y: paste_y + config.extrude,
            w: if placement.rotated {
                sprite.trim_height
            } else {
                sprite.trim_width
            },
            h: if placement.rotated {
                sprite.trim_width
            } else {
                sprite.trim_height
            },
            source_w: sprite.source_width,
            source_h: sprite.source_height,
            offset_x: sprite.trim_x,
            offset_y: sprite.trim_y,
            trim_w: sprite.trim_width,
            trim_h: sprite.trim_height,
            rotated: placement.rotated,
            trimmed: sprite.trimmed,
            pack_x: placement.rect.x,
            pack_y: placement.rect.y,
            pack_w: placement.rect.w,
            pack_h: placement.rect.h,
        };
        frames.push(f);
        proof {
            assert(frame_view(f) == whole_frame(*placement, atlas_index, config));
            assert(frames_view(frames@) == frames_view(start).push(frame_view(f)));
            assert(seq![whole_frame(*placement, atlas_index, config)] == Seq::<
                (Seq<char>, Seq<char>, usize, Seq<u32>, bool, bool),
            >::empty().push(whole_frame(*placement, atlas_index, config)));
        }
    }
}

/// Draws the build's placements onto a transparent atlas of its size and
/// lists the frames of the sprite sheet, placement by placement.
pub fn compose_atlas(build: &AtlasBuild, config: PackConfig) -> (r: (Image, Vec<PackedSprite>))
    requires
        compose_ok(*build, config),
    ensures
        image_size(r.0) == (build.width, build.height),
        forall|tx: int, ty: int|
            in_bounds(r.0, tx, ty) ==> #[trigger] pixel_at(r.0, tx, ty) == composed_pixel(
                build.placements@,
                config,
                tx,
                ty,
            ),
        frames_view(r.1@) == all_frames(build.placements@, build.atlas_index, config),
{
    let mut atlas_image = Image::new(build.width, build.height);
    let mut packed_sprites: Vec<PackedSprite> = Vec::new();
    let ghost ps = build.placements@;
    let mut i: usize = 0;
    proof {
        assert(ps.take(0) == Seq::<Placement>::empty());
        assert(frames_view(packed_sprites@) =~= Seq::empty());
    }
    while i < build.placements.len()
        invariant
            i <= ps.len(),
            ps == build.placements@,
            compose_ok(*build, config),
            image_size(atlas_image) == (build.width, build.height),
            forall|tx: int, ty: int|
                in_bounds(atlas_image, tx, ty) ==> #[trigger] pixel_at(atlas_image, tx, ty) == composed_pixel(
                    ps.take(i as int),
                    config,
                    tx,
                    ty,
                ),
            frames_view(packed_sprites@) == all_frames(ps.take(i as int), build.atlas_index, config),
        decreases ps.len() - i,
    {
        let placement = &build.placements[i];
        assert(placement_fits(ps[i as int], config));
        let draw_image = image_for_placement(placement);
        let paste_x = placement.rect.x + config.padding;
        let paste_y = placement.rect.y + config.padding;
        let ghost before = atlas_image;
        copy_rgba(&draw_image, &mut atlas_image, paste_x, paste_y);
        push_frames(placement, build.atlas_index, config, &mut packed_sprites);
        proof {
            let t = ps.take(i + 1);
            assert(t.drop_last() == ps.take(i as int));
            assert(t.last() == ps[i as int]);
            assert forall|tx: int, ty: int| in_bounds(atlas_image, tx, ty) implies #[trigger] pixel_at(
                atlas_image,
                tx,
                ty,
            ) == composed_pixel(t, config, tx, ty) by {
                assert(in_bounds(before, tx, ty));
                let (w, h) = draw_size(ps[i as int]);
                if paste_x <= tx < paste_x + w && paste_y <= ty < paste_y + h {
                    assert(in_bounds(draw_image, tx - paste_x, ty - paste_y));
                }
            }
        }
        i += 1;
    }
    assert(ps.take(ps.len() as int) == ps);
    (atlas_image, packed_sprites)
}

} // verus!

verus! {

/// Whether `compose_atlas` can draw the build: the atlas image can be
/// allocated and every position fits in `u32`.
pub fn compose_fits(build: &AtlasBuild, config: PackConfig) -> (r: bool)
    ensures
        r == compose_ok(*build, config),
{
    let w = build.width as u128;
    let h = build.height as u128;
    assert(4 * w * h <= 4 * 0xFFFF_FFFFu128 * 0xFFFF_FFFFu128) by (nonlinear_arith)
        requires
            w <= 0xFFFF_FFFFu128,
            h <= 0xFFFF_FFFFu128,
    ;
    if 4 * w * h > isize::MAX as u128 {
        return false;
    }
    let cell = if config.grid_cell_size >= 1 {
        config.grid_cell_size
    } else {
        1
    };
    let slicing = config.align_to_grid && config.slice_grid_cells;
    let mut i: usize = 0;
    while i < build.placements.len()
        invariant
            i <= build.placements@.len(),
            buffer_fits(build.width as int, build.height as int),
            cell == grid_cell(config),
            slicing == crate::atlas::packer::sizes::slicing(config),
            forall|j: int| 0 <= j < i ==> placement_fits(#[trigger] build.placements@[j], config),
        decreases build.placements@.len() - i,
    {
        let p = &build.placements[i];
        let ox = p.rect.x as u64 + config.padding as u64;
        let oy = p.rect.y as u64 + config.padding as u64;
        let (iw, ih) = p.sprite.image.dimensions();
        let (dw, dh) = if p.rotated {
            (ih as u64, iw as u64)
        } else {
            (iw as u64, ih as u64)
        };
        if ox + config.extrude as u64 > u32::MAX as u64 || oy + config.extrude as u64 > u32::MAX as u64
            || ox + dw > 0x1_0000_0000 || oy + dh > 0x1_0000_0000 {
            return false;
        }
        if slicing {
            let mut k: usize = 0;
            while k < p.sprite.grid_slices.len()
                invariant
                    k <= p.sprite.grid_slices@.len(),
                    i < build.placements@.len(),
                    *p == build.placements@[i as int],
                    crate::atlas::packer::sizes::slicing(config),
                    ox == paste_at(*p, config).0,
                    oy == paste_at(*p, config).1,
                    ox + config.extrude <= u32::MAX,
                    oy + config.extrude <= u32::MAX,
                    cell == grid_cell(config),
                    forall|j: int|
                        0 <= j < k ==> ox + config.extrude + (#[trigger] p.sprite.grid_slices@[j]).x * cell
                            <= u32::MAX && oy + config.extrude + p.sprite.grid_slices@[j].y * cell <= u32::MAX,
                decreases p.sprite.grid_slices@.len() - k,
            {
                let s = &p.sprite.grid_slices[k];
                proof {
                    crate::atlas::types::lemma_u32_product_fits_u64(s.x, cell);
                    crate::atlas::types::lemma_u32_product_fits_u64(s.y, cell);
                }
                let sx = s.x as u64 * cell as u64;
                let sy = s.y as u64 * cell as u64;
                if sx > u32::MAX as u64 || sy > u32::MAX as u64 || ox + config.extrude as u64 + sx
                    > u32::MAX as u64 || oy + config.extrude as u64 + sy > u32::MAX as u64 {
                    proof {
                        assert(!placement_fits(build.placements@[i as int], config));
                    }
                    return false;
                }
                k += 1;
            }
        }
        i += 1;
    }
    true
}

} // verus!
