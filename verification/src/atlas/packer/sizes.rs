use vstd::prelude::*;
use vstd::arithmetic::power2::pow2;
use vstd::multiset::Multiset;

use crate::atlas::pixels::{height_of, width_of};
use crate::atlas::text::{decimal, decimal_string};
use crate::atlas::maxrects::{free_after, insert_choice, MaxRectsPacker};
use crate::atlas::types::{same_slice, same_sprite, AtlasBuild, GridSlice, 
    lemma_u32_product_fits_u64, max_u32, saturating_mul_u32, saturating_product, PackConfig,
    Placement, PreparedSprite, Rect,
};


verus! {

// ---------------------------------------------------------------------------
// Sizes
// ---------------------------------------------------------------------------

/// Integer division rounded up.
pub open spec fn ceil_div(x: int, d: int) -> int {
    (x + d - 1) / d
}

/// `u32::div_ceil`.
pub fn div_ceil_u32(x: u32, d: u32) -> (r: u32)
    requires
        d > 0,
    ensures
        r == ceil_div(x as int, d as int),
        r <= x,
{
    let q = x / d;
    proof {
        assert(x % d != 0 ==> q < 0xffff_ffffu32) by (nonlinear_arith)
            requires
                d > 0,
                q == x / d,
                x <= 0xffff_ffffu32,
        ;
    }
    let r = if x % d != 0 {
        q + 1
    } else {
        q
    };
    proof {
        assert(r == ceil_div(x as int, d as int) && r <= x) by (nonlinear_arith)
            requires
                d > 0,
                q == x / d,
                r == if x % d != 0 { q + 1 } else { q as int },
        ;
    }
    r
}

/// `value` rounded up to a whole number of `step`s (both at least 1),
/// saturating at `u32::MAX`.
pub open spec fn align_up_spec(value: u32, step: u32) -> u32 {
    let s = max_u32(step, 1);
    saturating_product(ceil_div(max_u32(value, 1) as int, s as int) as u32, s)
}

pub fn align_up(value: u32, step: u32) -> (r: u32)
    ensures
        r == align_up_spec(value, step),
{
    let step = if step >= 1 {
        step
    } else {
        1
    };
    let value = if value >= 1 {
        value
    } else {
        1
    };
    saturating_mul_u32(div_ceil_u32(value, step), step)
}

/// The smallest power of two that is at least `v` (1 for 0 and 1).
pub open spec fn ceil_pow2(v: nat) -> nat
    decreases v,
{
    if v <= 1 {
        1
    } else {
        2 * ceil_pow2(((v + 1) / 2) as nat)
    }
}

/// A power of two `pow2(k)` with `pow2(k) / 2 < v <= pow2(k)` is `ceil_pow2(v)`.
pub(crate) proof fn lemma_ceil_pow2_unique(v: nat, k: nat)
    requires
        v <= pow2(k),
        k == 0 ==> v <= 1,
        k > 0 ==> pow2(k) < 2 * v,
    ensures
        ceil_pow2(v) == pow2(k),
    decreases k,
{
    vstd::arithmetic::power2::lemma_pow2_pos(k);
    if k == 0 {
        vstd::arithmetic::power2::lemma2_to64();
    } else {
        vstd::arithmetic::power2::lemma_pow2_unfold(k);
        let h = pow2((k - 1) as nat);
        if v <= 1 {
            vstd::arithmetic::power2::lemma_pow2_pos((k - 1) as nat);
            assert(false);
        } else {
            let half = ((v + 1) / 2) as nat;
            assert(half <= h);
            if k - 1 == 0 {
                vstd::arithmetic::power2::lemma2_to64();
                assert(half <= 1);
            } else {
                assert(h < 2 * half);
            }
            lemma_ceil_pow2_unique(half, (k - 1) as nat);
        }
    }
}

/// The smallest power of two that is at least `value` (1 for 0). Larger
/// values than `2^31` would overflow, and are not accepted.
pub fn next_power_of_two(value: u32) -> (r: u32)
    requires
        value <= 0x8000_0000,
    ensures
        r == ceil_pow2(max_u32(value, 1) as nat),
        r >= max_u32(value, 1),
{
    let value = if value >= 1 {
        value
    } else {
        1
    };
    let mut p: u32 = 1;
    let ghost mut k: nat = 0;
    proof {
        vstd::arithmetic::power2::lemma2_to64();
    }
    while p < value
        invariant
            1 <= value <= 0x8000_0000,
            p == pow2(k),
            p >= 1,
            k <= 31,
            k == 0 ==> p == 1,
            k > 0 ==> p < 2 * value,
        decreases 0x1_0000_0000 - p,
    {
        proof {
            vstd::arithmetic::power2::lemma_pow2_unfold(k + 1);
            vstd::arithmetic::power2::lemma2_to64();
            if k >= 31 {
                vstd::arithmetic::power2::lemma_pow2_strictly_increases(31, k);
            }
        }
        p = p * 2;
        proof {
            k = k + 1;
        }
    }
    proof {
        lemma_ceil_pow2_unique(value as nat, k);
    }
    p
}

// ---------------------------------------------------------------------------
// What a sprite needs
// ---------------------------------------------------------------------------

/// Grid slicing is on, so sprites are packed cell by cell.
pub open spec fn slicing(config: PackConfig) -> bool {
    config.align_to_grid && config.slice_grid_cells
}

pub open spec fn grid_cell(config: PackConfig) -> u32 {
    max_u32(config.grid_cell_size, 1)
}

/// The width and height a sprite takes in an atlas, padding included and,
/// with grid alignment, rounded up to whole cells.
pub open spec fn required_dims(sprite: PreparedSprite, config: PackConfig) -> (u32, u32) {
    let w = sprite.packed_width_spec() as u32;
    let h = sprite.packed_height_spec() as u32;
    if !config.align_to_grid {
        (w, h)
    } else {
        (align_up_spec(w, grid_cell(config)), align_up_spec(h, grid_cell(config)))
    }
}

/// The largest sum of a sprite's required width and height (0 for none).
pub open spec fn sides_bound(sprites: Seq<PreparedSprite>, config: PackConfig) -> int
    decreases sprites.len(),
{
    if sprites.len() == 0 {
        0
    } else {
        let m = sides_bound(sprites.drop_last(), config);
        let d = required_dims(sprites.last(), config).0 + required_dims(sprites.last(), config).1;
        if d > m {
            d
        } else {
            m
        }
    }
}

/// No sprite's required sides sum to more than `sides_bound`, which is the
/// least such bound.
pub proof fn lemma_sides_bound(sprites: Seq<PreparedSprite>, config: PackConfig, b: int)
    ensures
        sides_bound(sprites, config) >= 0,
        forall|i: int|
            0 <= i < sprites.len() ==> required_dims(#[trigger] sprites[i], config).0 + required_dims(
                sprites[i],
                config,
            ).1 <= sides_bound(sprites, config),
        b >= 0 && (forall|i: int|
            0 <= i < sprites.len() ==> required_dims(#[trigger] sprites[i], config).0 + required_dims(
                sprites[i],
                config,
            ).1 <= b) ==> sides_bound(sprites, config) <= b,
    decreases sprites.len(),
{
    if sprites.len() > 0 {
        let init = sprites.drop_last();
        lemma_sides_bound(init, config, b);
        assert forall|i: int| 0 <= i < sprites.len() implies required_dims(#[trigger] sprites[i], config).0
            + required_dims(sprites[i], config).1 <= sides_bound(sprites, config) by {
            if i < init.len() {
                assert(init[i] == sprites[i]);
            }
        }
        if b >= 0 && (forall|i: int|
            0 <= i < sprites.len() ==> required_dims(#[trigger] sprites[i], config).0 + required_dims(
                sprites[i],
                config,
            ).1 <= b) {
            assert forall|i: int| 0 <= i < init.len() implies required_dims(#[trigger] init[i], config).0
                + required_dims(init[i], config).1 <= b by {
                assert(init[i] == sprites[i]);
            }
            assert(sprites[sprites.len() - 1] == sprites.last());
        }
    }
}

/// Every placed rectangle ends within `bound` on both axes.
pub open spec fn reach_within(ps: Seq<Placement>, bound: int) -> bool {
    forall|i: int|
        0 <= i < ps.len() ==> (#[trigger] ps[i]).rect.right_edge() <= bound && ps[i].rect.bottom_edge() <= bound
}

/// The area a sprite takes: its cells when it is cut into grid cells, else
/// its required box.
pub open spec fn required_area(sprite: PreparedSprite, config: PackConfig) -> int {
    if slicing(config) && sprite.grid_slices@.len() > 0 {
        sprite.grid_slices@.len() * grid_cell(config) * grid_cell(config)
    } else {
        required_dims(sprite, config).0 * required_dims(sprite, config).1
    }
}

/// The number of frames a sprite turns into in the sprite sheet.
pub open spec fn sprite_frames(sprite: PreparedSprite, config: PackConfig) -> int {
    if slicing(config) && sprite.grid_slices@.len() > 0 {
        sprite.grid_slices@.len() as int
    } else {
        1
    }
}

/// The sprite's numbers can be worked out without overflow.
pub open spec fn sprite_sizes_fit(sprite: PreparedSprite, config: PackConfig) -> bool {
    &&& sprite.padded_fits()
    &&& sprite.grid_slices@.len() * grid_cell(config) * grid_cell(config) <= u64::MAX
}

pub fn required_pack_dimensions(sprite: &PreparedSprite, config: PackConfig) -> (r: (u32, u32))
    requires
        sprite.padded_fits(),
    ensures
        r == required_dims(*sprite, config),
{
    if !config.align_to_grid {
        return (sprite.packed_width(), sprite.packed_height());
    }
    let cell = if config.grid_cell_size >= 1 {
        config.grid_cell_size
    } else {
        1
    };
    (align_up(sprite.packed_width(), cell), align_up(sprite.packed_height(), cell))
}

pub fn required_pack_area(sprite: &PreparedSprite, config: PackConfig) -> (r: u64)
    requires
        sprite_sizes_fit(*sprite, config),
    ensures
        r == required_area(*sprite, config),
{
    if config.align_to_grid && config.slice_grid_cells && sprite.grid_slices.len() > 0 {
        let cell: u64 = if config.grid_cell_size >= 1 {
            config.grid_cell_size as u64
        } else {
            1
        };
        let n = sprite.grid_slices.len() as u64;
        proof {
            assert(n * cell <= n * cell * cell) by (nonlinear_arith)
                requires
                    cell >= 1,
                    n >= 0,
            ;
        }
        return n * cell * cell;
    }
    let (width, height) = required_pack_dimensions(sprite, config);
    proof {
        lemma_u32_product_fits_u64(width, height);
    }
    width as u64 * height as u64
}

pub fn output_sprite_count(sprite: &PreparedSprite, config: PackConfig) -> (r: usize)
    ensures
        r == sprite_frames(*sprite, config),
{
    if config.align_to_grid && config.slice_grid_cells && sprite.grid_slices.len() > 0 {
        sprite.grid_slices.len()
    } else {
        1
    }
}


// ---------------------------------------------------------------------------
// Errors
// ---------------------------------------------------------------------------

/// Why packing stopped.
#[derive(Debug)]
pub enum PackError {
    NoReadableImages,
    NoPreparedImages,
    TooLarge { rel_path: String, width: u32, height: u32, max_size: u32 },
    Unpackable { rel_path: String, max_size: u32 },
}

impl PackError {
    /// The message shown to the user.
    pub fn message(&self) -> (m: String)
        ensures
            m@ == (match self {
                PackError::NoReadableImages => "No readable images were found."@,
                PackError::NoPreparedImages => "No images could be prepared for packing."@,
                PackError::TooLarge { rel_path, width, height, max_size } => "Image "@ + rel_path@
                    + " is larger than max atlas size after padding/extrude: "@ + decimal(
                    *width as nat,
                ) + "x"@ + decimal(*height as nat) + " > "@ + decimal(*max_size as nat) + "."@,
                PackError::Unpackable { rel_path, max_size } => "Unable to pack sprite "@
                    + rel_path@ + " into "@ + decimal(*max_size as nat) + "x"@ + decimal(
                    *max_size as nat,
                ) + "."@,
            }),
    {
        match self {
            PackError::NoReadableImages => String::from_str("No readable images were found."),
            PackError::NoPreparedImages => String::from_str(
                "No images could be prepared for packing.",
            ),
            PackError::TooLarge { rel_path, width, height, max_size } => {
                let mut m = String::from_str("Image ");
                m.append(rel_path.as_str());
                m.append(" is larger than max atlas size after padding/extrude: ");
                m.append(decimal_string(*width as u64).as_str());
                m.append("x");
                m.append(decimal_string(*height as u64).as_str());
                m.append(" > ");
                m.append(decimal_string(*max_size as u64).as_str());
                m.append(".");
                m
            },
            PackError::Unpackable { rel_path, max_size } => {
                let mut m = String::from_str("Unable to pack sprite ");
                m.append(rel_path.as_str());
                m.append(" into ");
                m.append(decimal_string(*max_size as u64).as_str());
                m.append("x");
                m.append(decimal_string(*max_size as u64).as_str());
                m.append(".");
                m
            },
        }
    }
}

/// The sprite's required box fits the atlas size limit.
pub open spec fn fits_max_size(sprite: PreparedSprite, config: PackConfig) -> bool {
    required_dims(sprite, config).0 <= config.max_size && required_dims(sprite, config).1
        <= config.max_size
}

pub open spec fn all_padded_fit(sprites: Seq<PreparedSprite>) -> bool {
    forall|i: int| 0 <= i < sprites.len() ==> (#[trigger] sprites[i]).padded_fits()
}

/// Fails on the first sprite whose required box exceeds the size limit.
pub fn ensure_sprites_fit_max_size(sprites: &[PreparedSprite], config: PackConfig) -> (r: Result<
    (),
    PackError,
>)
    requires
        all_padded_fit(sprites@),
    ensures
        r is Ok <==> forall|i: int| 0 <= i < sprites@.len() ==> fits_max_size(#[trigger] sprites@[i], config),
        r matches Err(e) ==> exists|i: int|
            0 <= i < sprites@.len() && !fits_max_size(#[trigger] sprites@[i], config) && (forall|j: int|
                0 <= j < i ==> fits_max_size(#[trigger] sprites@[j], config)) && (e matches PackError::TooLarge { rel_path, width, height, max_size } && rel_path@
                == sprites@[i].rel_path@ && width == required_dims(sprites@[i], config).0 && height
                == required_dims(sprites@[i], config).1 && max_size == config.max_size),
{
    let mut i: usize = 0;
    while i < sprites.len()
        invariant
            i <= sprites@.len(),
            all_padded_fit(sprites@),
            forall|j: int| 0 <= j < i ==> fits_max_size(#[trigger] sprites@[j], config),
        decreases sprites@.len() - i,
    {
        let sprite = &sprites[i];
        assert(sprites@[i as int].padded_fits());
        let (required_width, required_height) = required_pack_dimensions(sprite, config);
        let fits_normal = required_width <= config.max_size && required_height <= config.max_size;
        let fits_rotated = config.allow_rotation && required_height <= config.max_size
            && required_width <= config.max_size;
        if !(fits_normal || fits_rotated) {
            return Err(
                PackError::TooLarge {
                    rel_path: sprite.rel_path.clone(),
                    width: required_width,
                    height: required_height,
                    max_size: config.max_size,
                },
            );
        }
        i += 1;
    }
    Ok(())
}

// ---------------------------------------------------------------------------
// Bin sizes to try
// ---------------------------------------------------------------------------

/// How many cells fit along one side of the largest grid-aligned atlas.
pub open spec fn grid_max_cells(config: PackConfig) -> u32 {
    max_u32(config.max_size / grid_cell(config), 1)
}

/// The number of powers of two (1, 2, 4, ...) that are at most `m`.
pub open spec fn doublings(m: nat) -> nat
    decreases m,
{
    if m < 1 {
        0
    } else {
        1 + doublings(m / 2)
    }
}

/// The square atlas sizes of the usual texture sizes.
pub open spec fn standard_sizes() -> Seq<u32> {
    seq![64u32, 128u32, 256u32, 512u32, 1024u32, 2048u32, 4096u32, 8192u32]
}

/// The entries of `s` that are at most `max`, in order.
pub open spec fn at_most(s: Seq<u32>, max: u32) -> Seq<u32>
    decreases s.len(),
{
    if s.len() == 0 {
        Seq::empty()
    } else if s.last() <= max {
        at_most(s.drop_last(), max).push(s.last())
    } else {
        at_most(s.drop_last(), max)
    }
}

/// The side lengths `candidate_bins` tries, smallest first.
pub open spec fn bin_sides(config: PackConfig) -> Seq<u32> {
    let cell = grid_cell(config);
    let m = grid_max_cells(config);
    if config.align_to_grid {
        if !config.power_of_two {
            Seq::new(m as nat, |i: int| saturating_product((i + 1) as u32, cell))
        } else {
            Seq::new(doublings(m as nat), |i: int| saturating_product(pow2(i as nat) as u32, cell))
        }
    } else if !config.power_of_two {
        seq![config.max_size]
    } else {
        let small = at_most(standard_sizes(), config.max_size);
        if small.contains(config.max_size) {
            small
        } else {
            small.push(config.max_size)
        }
    }
}

/// `m` lies between `pow2(j - 1)` and `pow2(j)`: there are `j` powers of two up to `m`.
pub(crate) proof fn lemma_doublings(m: nat, j: nat)
    requires
        m < pow2(j),
        j > 0 ==> pow2((j - 1) as nat) <= m,
        j == 0 ==> m < 1,
    ensures
        doublings(m) == j,
    decreases j,
{
    vstd::arithmetic::power2::lemma_pow2_pos(j);
    if j > 0 {
        vstd::arithmetic::power2::lemma_pow2_unfold(j);
        if j == 1 {
            vstd::arithmetic::power2::lemma2_to64();
            assert(m == 1);
            assert(doublings(0) == 0);
        } else {
            vstd::arithmetic::power2::lemma_pow2_unfold((j - 1) as nat);
            lemma_doublings(m / 2, (j - 1) as nat);
        }
    } else {
        vstd::arithmetic::power2::lemma2_to64();
    }
}

pub(crate) proof fn lemma_at_most_bounded(s: Seq<u32>, max: u32)
    ensures
        forall|k: int| 0 <= k < at_most(s, max).len() ==> #[trigger] at_most(s, max)[k] <= max,
    decreases s.len(),
{
    if s.len() > 0 {
        lemma_at_most_bounded(s.drop_last(), max);
        let prev = at_most(s.drop_last(), max);
        if s.last() <= max {
            assert(at_most(s, max) == prev.push(s.last()));
            assert forall|k: int| 0 <= k < at_most(s, max).len() implies #[trigger] at_most(s, max)[k] <= max by {
                if k < prev.len() {
                    assert(at_most(s, max)[k] == prev[k]);
                }
            }
        } else {
            assert(at_most(s, max) == prev);
        }
    }
}

/// The atlas sizes to try, smallest first, each as (width, height).
pub fn candidate_bins(config: PackConfig) -> (bins: Vec<(u32, u32)>)
    requires
        !(config.align_to_grid && config.power_of_two && grid_max_cells(config) == u32::MAX),
    ensures
        bins@.len() == bin_sides(config).len(),
        forall|i: int|
            0 <= i < bins@.len() ==> #[trigger] bins@[i] == (bin_sides(config)[i], bin_sides(
                config,
            )[i]),
        forall|i: int, j: int|
            0 <= i < j < bins@.len() ==> (#[trigger] bins@[i]).0 <= (#[trigger] bins@[j]).0,
{
    if config.align_to_grid {
        let cell = if config.grid_cell_size >= 1 {
            config.grid_cell_size
        } else {
            1
        };
        let fit = config.max_size / cell;
        let max_cells = if fit >= 1 {
            fit
        } else {
            1
        };
        let ghost sides = bin_sides(config);
        if !config.power_of_two {
            let mut bins: Vec<(u32, u32)> = Vec::new();
            let mut cells: u64 = 1;
            while cells <= max_cells as u64
                invariant
                    1 <= cells,
                    cells <= max_cells + 1,
                    max_cells == grid_max_cells(config),
                    cell == grid_cell(config),
                    config.align_to_grid && !config.power_of_two,
                    sides == bin_sides(config),
                    bins@.len() == cells - 1,
                    forall|i: int| 0 <= i < bins@.len() ==> #[trigger] bins@[i] == (sides[i], sides[i]),
                    forall|i: int, j: int|
                        0 <= i < j < bins@.len() ==> (#[trigger] bins@[i]).0 <= (#[trigger] bins@[j]).0,
                decreases max_cells + 1 - cells,
            {
                let side = saturating_mul_u32(cells as u32, cell);
                proof {
                    assert forall|i: int| 0 <= i < bins@.len() implies (#[trigger] bins@[i]).0 <= side by {
                        assert((i + 1) * cell <= cells * cell) by (nonlinear_arith)
                            requires
                                0 <= i + 1 <= cells,
                                cell >= 1,
                        ;
                    }
                }
                bins.push((side, side));
                cells = cells + 1;
            }
            return bins;
        }
        let mut bins: Vec<(u32, u32)> = Vec::new();
        let mut cells: u32 = 1;
        let ghost mut j: nat = 0;
        proof {
            vstd::arithmetic::power2::lemma2_to64();
        }
        while cells <= max_cells
            invariant
                max_cells == grid_max_cells(config),
                max_cells < u32::MAX,
                cell == grid_cell(config),
                config.align_to_grid && config.power_of_two,
                sides == bin_sides(config),
                j <= 32,
                cells == pow2(j) || (cells == u32::MAX && pow2(j) > u32::MAX),
                j > 0 ==> pow2((j - 1) as nat) <= max_cells,
                bins@.len() == j,
                forall|i: int| 0 <= i < bins@.len() ==> #[trigger] bins@[i] == (
                    saturating_product(pow2(i as nat) as u32, cell),
                    saturating_product(pow2(i as nat) as u32, cell),
                ),
                forall|i: int, k: int|
                    0 <= i < k < bins@.len() ==> (#[trigger] bins@[i]).0 <= (#[trigger] bins@[k]).0,
            ensures
                pow2(j) > max_cells,
            decreases 33 - j,
        {
            let side = saturating_mul_u32(cells, cell);
            proof {
                assert(cells == pow2(j));
                assert forall|i: int| 0 <= i < bins@.len() implies (#[trigger] bins@[i]).0 <= side by {
                    if i < j {
                        vstd::arithmetic::power2::lemma_pow2_strictly_increases(i as nat, j);
                    }
                    vstd::arithmetic::power2::lemma_pow2_pos(i as nat);
                    assert(pow2(i as nat) * cell <= pow2(j) * cell) by (nonlinear_arith)
                        requires
                            pow2(i as nat) <= pow2(j),
                            cell >= 1,
                    ;
                }
                if j >= 32 {
                    vstd::arithmetic::power2::lemma2_to64();
                    if j > 32 {
                        vstd::arithmetic::power2::lemma_pow2_strictly_increases(32, j);
                    }
                }
            }
            bins.push((side, side));
            cells = saturating_mul_u32(cells, 2);
            proof {
                vstd::arithmetic::power2::lemma_pow2_unfold(j + 1);
                j = j + 1;
                vstd::arithmetic::power2::lemma_pow2_pos(j);
            }
            if cells == 0 {
                break;
            }
        }
        proof {
            vstd::arithmetic::power2::lemma_pow2_pos(j);
            if cells == u32::MAX {
                assert(pow2(j) > max_cells);
            }
            lemma_doublings(max_cells as nat, j);
            assert(bins@.len() == sides.len());
        }
        return bins;
    }
    if !config.power_of_two {
        return vec![(config.max_size, config.max_size)];
    }
    let standard: [u32; 8] = [64, 128, 256, 512, 1024, 2048, 4096, 8192];
    assert(standard@ == standard_sizes());
    let mut sizes: Vec<u32> = Vec::new();
    let mut i: usize = 0;
    while i < 8
        invariant
            i <= 8,
            standard@ == standard_sizes(),
            sizes@ == at_most(standard_sizes().take(i as int), config.max_size),
            forall|a: int, b: int| 0 <= a < b < sizes@.len() ==> sizes@[a] < sizes@[b],
            forall|a: int| 0 <= a < sizes@.len() ==> sizes@[a] < (if i < 8 { standard@[i as int] } else { 16384u32 }),
        decreases 8 - i,
    {
        let size = standard[i];
        assert(standard_sizes().take(i + 1).drop_last() == standard_sizes().take(i as int));
        if size <= config.max_size {
            sizes.push(size);
        }
        i += 1;
    }
    assert(standard_sizes().take(8) == standard_sizes());
    let mut found = false;
    let mut k: usize = 0;
    while k < sizes.len()
        invariant
            k <= sizes@.len(),
            found <==> exists|a: int| 0 <= a < k && sizes@[a] == config.max_size,
        decreases sizes@.len() - k,
    {
        if sizes[k] == config.max_size {
            found = true;
        }
        k += 1;
    }
    proof {
        lemma_at_most_bounded(standard_sizes(), config.max_size);
        if found {
            assert(sizes@.contains(config.max_size));
        } else {
            assert(!sizes@.contains(config.max_size));
        }
    }
    if !found {
        sizes.push(config.max_size);
    }
    let mut bins: Vec<(u32, u32)> = Vec::new();
    let mut n: usize = 0;
    while n < sizes.len()
        invariant
            n <= sizes@.len(),
            sizes@ == bin_sides(config),
            bins@.len() == n,
            forall|a: int| 0 <= a < n ==> #[trigger] bins@[a] == (sizes@[a], sizes@[a]),
        decreases sizes@.len() - n,
    {
        bins.push((sizes[n], sizes[n]));
        n += 1;
    }
    bins
}

} // verus!
