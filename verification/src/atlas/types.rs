use vstd::prelude::*;
use vstd::arithmetic::power2::pow2;
use vstd::std_specs::bits::{axiom_u32_leading_zeros, u32_leading_zeros};

use crate::atlas::pixels::{height_of, same_image, width_of, Image};
use crate::atlas::text::{chars_of, string_from_chars};

verus! {

/// An axis-aligned rectangle in atlas pixel coordinates.
#[derive(Debug, Clone, Copy, PartialEq, Eq, Structural)]
pub struct Rect {
    pub x: u32,
    pub y: u32,
    pub w: u32,
    pub h: u32,
}

impl Rect {
    /// The right and bottom edges can be computed without overflowing `u32`.
    pub open spec fn edges_fit(self) -> bool {
        self.x + self.w <= u32::MAX && self.y + self.h <= u32::MAX
    }

    pub open spec fn right_edge(self) -> int {
        self.x + self.w
    }

    pub open spec fn bottom_edge(self) -> int {
        self.y + self.h
    }

    /// `intersects` as a relation: the open extents overlap on both axes.
    pub open spec fn overlaps(self, other: Rect) -> bool {
        &&& self.x < other.right_edge()
        &&& self.right_edge() > other.x
        &&& self.y < other.bottom_edge()
        &&& self.bottom_edge() > other.y
    }

    /// `contains` as a relation: `other` lies within `self`.
    pub open spec fn encloses(self, other: Rect) -> bool {
        &&& self.x <= other.x
        &&& self.y <= other.y
        &&& self.right_edge() >= other.right_edge()
        &&& self.bottom_edge() >= other.bottom_edge()
    }

    /// The pixel `(px, py)` lies inside the rectangle.
    pub open spec fn has_point(self, px: int, py: int) -> bool {
        self.x <= px < self.right_edge() && self.y <= py < self.bottom_edge()
    }

    /// The rectangle lies within a `width` x `height` bin anchored at the origin.
    pub open spec fn within(self, width: int, height: int) -> bool {
        self.right_edge() <= width && self.bottom_edge() <= height
    }

    pub fn right(self) -> (r: u32)
        requires
            self.x + self.w <= u32::MAX,
        ensures
            r == self.right_edge(),
    {
        self.x + self.w
    }

    pub fn bottom(self) -> (r: u32)
        requires
            self.y + self.h <= u32::MAX,
        ensures
            r == self.bottom_edge(),
    {
        self.y + self.h
    }

    pub fn area(self) -> (r: u64)
        ensures
            r == self.w * self.h,
    {
        proof {
            lemma_u32_product_fits_u64(self.w, self.h);
        }
        self.w as u64 * self.h as u64
    }

    pub fn intersects(self, other: Rect) -> (r: bool)
        requires
            self.edges_fit(),
            other.edges_fit(),
        ensures
            r == self.overlaps(other),
    {
        self.x < other.right() && self.right() > other.x && self.y < other.bottom() && self.bottom()
            > other.y
    }

    pub fn contains(self, other: Rect) -> (r: bool)
        requires
            self.edges_fit(),
            other.edges_fit(),
        ensures
            r == self.encloses(other),
    {
        self.x <= other.x && self.y <= other.y && self.right() >= other.right() && self.bottom()
            >= other.bottom()
    }
}

/// The product of two `u32` values fits in a `u64`.
pub proof fn lemma_u32_product_fits_u64(a: u32, b: u32)
    ensures
        0 <= a * b <= u64::MAX,
{
    assert(0 <= a * b <= 0xffff_ffffu64 * 0xffff_ffffu64) by (nonlinear_arith)
        requires
            a <= 0xffff_ffffu64,
            b <= 0xffff_ffffu64,
    ;
}

/// Rectangles that share a pixel overlap, and a rectangle that encloses
/// another holds all of its pixels.
pub proof fn lemma_points_and_relations(a: Rect, b: Rect, px: int, py: int)
    ensures
        a.has_point(px, py) && b.has_point(px, py) ==> a.overlaps(b),
        a.encloses(b) && b.has_point(px, py) ==> a.has_point(px, py),
        a.overlaps(b) == b.overlaps(a),
{
}


/// How sprites are grouped into atlases.
#[derive(Debug, Clone, Copy, PartialEq, Eq, Structural)]
pub enum SplitMode {
    AllInOne,
    ByFirstLevelFolder,
}

impl Default for SplitMode {
    fn default() -> (m: Self)
        ensures
            m == SplitMode::AllInOne,
    {
        SplitMode::AllInOne
    }
}

impl SplitMode {
    /// The mode's name as the command line and project files write it.
    pub fn to_text(&self) -> (s: String)
        ensures
            s@ == (match self {
                SplitMode::AllInOne => "all_in_one"@,
                SplitMode::ByFirstLevelFolder => "by_first_level_folder"@,
            }),
    {
        match self {
            SplitMode::AllInOne => String::from_str("all_in_one"),
            SplitMode::ByFirstLevelFolder => String::from_str("by_first_level_folder"),
        }
    }
}

/// The sprite sheet format that is written next to the atlas images.
#[derive(Debug, Clone, Copy, PartialEq, Eq, Structural)]
pub enum OutputFormat {
    GodotTpSheet,
    JsonDebug,
}

impl Default for OutputFormat {
    fn default() -> (f: Self)
        ensures
            f == OutputFormat::GodotTpSheet,
    {
        OutputFormat::GodotTpSheet
    }
}

impl OutputFormat {
    /// The format's name as the command line and project files write it.
    pub fn to_text(&self) -> (s: String)
        ensures
            s@ == (match self {
                OutputFormat::GodotTpSheet => "godot_tpsheet"@,
                OutputFormat::JsonDebug => "json_debug"@,
            }),
    {
        match self {
            OutputFormat::GodotTpSheet => String::from_str("godot_tpsheet"),
            OutputFormat::JsonDebug => String::from_str("json_debug"),
        }
    }
}

/// Packing settings.
#[derive(Debug, Clone, Copy, PartialEq, Eq, Structural)]
pub struct PackConfig {
    pub max_size: u32,
    pub padding: u32,
    pub extrude: u32,
    pub trim: bool,
    pub align_to_grid: bool,
    pub grid_cell_size: u32,
    pub slice_grid_cells: bool,
    pub allow_rotation: bool,
    pub power_of_two: bool,
    pub square: bool,
    pub split_mode: SplitMode,
    pub output_format: OutputFormat,
    pub debug_json: bool,
}

impl Default for PackConfig {
    fn default() -> (c: Self)
        ensures
            c == (PackConfig {
                max_size: 2048,
                padding: 2,
                extrude: 1,
                trim: true,
                align_to_grid: false,
                grid_cell_size: 48,
                slice_grid_cells: true,
                allow_rotation: false,
                power_of_two: true,
                square: true,
                split_mode: SplitMode::AllInOne,
                output_format: OutputFormat::GodotTpSheet,
                debug_json: false,
            }),
    {
        Self {
            max_size: 2048,
            padding: 2,
            extrude: 1,
            trim: true,
            align_to_grid: false,
            grid_cell_size: default_grid_cell_size(),
            slice_grid_cells: default_slice_grid_cells(),
            allow_rotation: false,
            power_of_two: true,
            square: true,
            split_mode: SplitMode::AllInOne,
            output_format: OutputFormat::GodotTpSheet,
            debug_json: false,
        }
    }
}

pub open spec fn max_u32(a: u32, b: u32) -> u32 {
    if a >= b {
        a
    } else {
        b
    }
}

/// `u32::saturating_mul` on the mathematical product.
pub open spec fn saturating_product(a: u32, b: u32) -> u32 {
    if a * b > u32::MAX {
        u32::MAX
    } else {
        (a * b) as u32
    }
}

/// The largest power of two that is at most `v` (and 1 below 2).
pub open spec fn floor_pow2(v: nat) -> nat
    decreases v,
{
    if v <= 1 {
        1
    } else {
        2 * floor_pow2(v / 2)
    }
}

/// What `PackConfig::normalized` makes of the atlas size limit.
pub open spec fn normalized_max_size(c: PackConfig) -> u32 {
    let cell = max_u32(c.grid_cell_size, 1);
    if c.align_to_grid {
        let available = max_u32(c.max_size / cell, 1);
        let cells = if c.power_of_two {
            floor_pow2(available as nat) as u32
        } else {
            available
        };
        saturating_product(cells, cell)
    } else {
        max_u32(c.max_size, 1)
    }
}

pub fn saturating_mul_u32(a: u32, b: u32) -> (r: u32)
    ensures
        r == saturating_product(a, b),
{
    match a.checked_mul(b) {
        Some(p) => p,
        None => u32::MAX,
    }
}

/// The configuration `PackConfig::normalized` gives.
pub open spec fn normalized_config(c: PackConfig) -> PackConfig {
    PackConfig { max_size: normalized_max_size(c), grid_cell_size: max_u32(c.grid_cell_size, 1), ..c }
}

proof fn lemma_floor_pow2_floor(v: nat)
    ensures
        floor_pow2(floor_pow2(v)) == floor_pow2(v),
        floor_pow2(v) >= 1,
        v >= 1 ==> floor_pow2(v) <= v,
    decreases v,
{
    if v > 1 {
        let g = floor_pow2(v / 2);
        lemma_floor_pow2_floor(v / 2);
        assert((2 * g) / 2 == g);
        assert(floor_pow2(2 * g) == 2 * floor_pow2(g));
    }
}

/// Normalizing a configuration a second time changes nothing.
pub proof fn lemma_normalized_idempotent(c: PackConfig)
    ensures
        normalized_config(normalized_config(c)) == normalized_config(c),
{
    let n = normalized_config(c);
    let cell = max_u32(c.grid_cell_size, 1);
    assert(max_u32(n.grid_cell_size, 1) == cell);
    if c.align_to_grid {
        let available = max_u32(c.max_size / cell, 1);
        let cells: u32 = if c.power_of_two {
            floor_pow2(available as nat) as u32
        } else {
            available
        };
        if c.power_of_two {
            lemma_floor_pow2_floor(available as nat);
        }
        assert(1 <= cells <= available);
        if c.max_size / cell >= 1 {
            assert(available == c.max_size / cell);
            assert(available * cell <= c.max_size) by (nonlinear_arith)
                requires
                    available == c.max_size / cell,
                    cell >= 1,
            ;
            assert(cells * cell <= available * cell) by (nonlinear_arith)
                requires
                    cells <= available,
                    cell >= 1,
            ;
        } else {
            assert(available == 1);
            assert(cells == 1);
            assert(cells * cell == cell) by (nonlinear_arith)
                requires
                    cells == 1,
            ;
        }
        assert(cells * cell <= u32::MAX);
        assert(n.max_size == cells * cell);
        assert((cells * cell) / (cell as int) == cells) by (nonlinear_arith)
            requires
                cell >= 1,
        ;
        assert(n.max_size / cell == cells);
        assert(max_u32(n.max_size / cell, 1) == cells);
        if c.power_of_two {
            assert(floor_pow2(cells as nat) == cells);
        }
    }
}


/// With grid alignment, a normalized size limit is a whole number of cells.
pub proof fn lemma_normalized_whole_cells(c: PackConfig)
    requires
        c.align_to_grid,
    ensures
        (normalized_config(c).max_size as int) % (normalized_config(c).grid_cell_size as int) == 0,
        normalized_config(c).grid_cell_size == max_u32(c.grid_cell_size, 1),
{
    let cell = max_u32(c.grid_cell_size, 1);
    let available = max_u32(c.max_size / cell, 1);
    let cells: u32 = if c.power_of_two {
        floor_pow2(available as nat) as u32
    } else {
        available
    };
    if c.power_of_two {
        lemma_floor_pow2_floor(available as nat);
    }
    if c.max_size / cell >= 1 {
        assert(available * cell <= c.max_size) by (nonlinear_arith)
            requires
                available == c.max_size / cell,
                cell >= 1,
        ;
        assert(cells * cell <= available * cell) by (nonlinear_arith)
            requires
                cells <= available,
                cell >= 1,
        ;
    } else {
        assert(cells * cell == cell) by (nonlinear_arith)
            requires
                cells == 1,
        ;
    }
    assert(normalized_config(c).max_size == cells * cell);
    vstd::arithmetic::div_mod::lemma_mod_multiples_basic(cells as int, cell as int);
}

impl PackConfig {
    /// The grid cell is at least one pixel; the size limit is at least one
    /// pixel and, with grid alignment, a whole number of cells (a power of two
    /// of them when `power_of_two` is set).
    pub fn normalized(self) -> (c: Self)
        ensures
            c == normalized_config(self),
    {
        let grid_cell_size = if self.grid_cell_size >= 1 {
            self.grid_cell_size
        } else {
            1
        };
        let max_size = if self.align_to_grid {
            let cells_fit = self.max_size / grid_cell_size;
            let available_cells = if cells_fit >= 1 {
                cells_fit
            } else {
                1
            };
            let normalized_cells = if self.power_of_two {
                highest_power_of_two_not_exceeding(available_cells)
            } else {
                available_cells
            };
            saturating_mul_u32(normalized_cells, grid_cell_size)
        } else if self.max_size >= 1 {
            self.max_size
        } else {
            1
        };
        Self {
            max_size,
            padding: self.padding,
            extrude: self.extrude,
            trim: self.trim,
            align_to_grid: self.align_to_grid,
            grid_cell_size,
            slice_grid_cells: self.slice_grid_cells,
            allow_rotation: self.allow_rotation,
            power_of_two: self.power_of_two,
            square: self.square,
            split_mode: self.split_mode,
            output_format: self.output_format,
            debug_json: self.debug_json,
        }
    }
}

pub fn default_grid_cell_size() -> (r: u32)
    ensures
        r == 48,
{
    48
}

pub fn default_slice_grid_cells() -> (r: bool)
    ensures
        r,
{
    true
}

proof fn lemma_shift_bounds(v: u32, k: u32)
    requires
        k < 32,
        (v >> k) & 1u32 != 0u32,
        k < 31 ==> v >> ((k + 1) as u32) == 0u32,
    ensures
        (1u32 << k) <= v,
        v < 2 * (1u32 << k),
{
    assert((1u32 << k) <= v) by (bit_vector)
        requires
            k < 32,
            (v >> k) & 1u32 != 0u32,
    ;
    if k < 31 {
        assert(v < 2 * (1u32 << k)) by (bit_vector)
            requires
                k < 31,
                v >> ((k + 1) as u32) == 0u32,
        ;
    } else {
        assert(2 * (1u32 << k) == 0x1_0000_0000int) by (bit_vector)
            requires
                k == 31,
        ;
    }
}

/// A power of two `p` with `p <= v < 2 * p` is `floor_pow2(v)`.
proof fn lemma_floor_pow2_unique(v: nat, k: nat)
    requires
        pow2(k) <= v < 2 * pow2(k),
    ensures
        floor_pow2(v) == pow2(k),
    decreases k,
{
    vstd::arithmetic::power2::lemma_pow2_pos(k);
    if k == 0 {
        vstd::arithmetic::power2::lemma2_to64();
        assert(v == 1);
    } else {
        vstd::arithmetic::power2::lemma_pow2_unfold(k);
        let h = pow2((k - 1) as nat);
        assert(pow2(k) == 2 * h);
        assert(h <= v / 2 < 2 * h);
        lemma_floor_pow2_unique(v / 2, (k - 1) as nat);
    }
}

/// The largest power of two that does not exceed `value` (1 for 0).
pub fn highest_power_of_two_not_exceeding(value: u32) -> (r: u32)
    ensures
        r == floor_pow2(max_u32(value, 1) as nat),
        r <= max_u32(value, 1) < 2 * r,
{
    let value = if value >= 1 {
        value
    } else {
        1
    };
    let lz = value.leading_zeros();
    proof {
        axiom_u32_leading_zeros(value);
    }
    let k: u32 = u32::BITS - 1 - lz;
    proof {
        assert(lz < 32);
        assert((value >> k) & 1u32 != 0u32);
        if k < 31 {
            assert(value >> ((32 - lz) as u32) == 0);
            assert((32 - lz) as u32 == k + 1);
        }
        lemma_shift_bounds(value, k);
        vstd::bits::lemma_u32_pow2_no_overflow(k as nat);
        vstd::bits::lemma_u32_shl_is_mul(1, k);
        lemma_floor_pow2_unique(value as nat, k as nat);
    }
    1u32 << k
}

/// A node of the scanned folder tree.
#[derive(Debug)]
pub struct FileTreeNode {
    pub name: String,
    pub path: String,
    pub node_type: String,
    pub children: Vec<FileTreeNode>,
    pub image_count: usize,
}

impl FileTreeNode {
    pub fn directory(name: String, path: String) -> (node: Self)
        ensures
            node.name@ == name@,
            node.path@ == path@,
            node.node_type@ == "directory"@,
            node.children@.len() == 0,
            node.image_count == 0,
    {
        Self {
            name,
            path,
            node_type: String::from_str("directory"),
            children: Vec::new(),
            image_count: 0,
        }
    }

    pub fn image(name: String, path: String) -> (node: Self)
        ensures
            node.name@ == name@,
            node.path@ == path@,
            node.node_type@ == "image"@,
            node.children@.len() == 0,
            node.image_count == 1,
    {
        Self {
            name,
            path,
            node_type: String::from_str("image"),
            children: Vec::new(),
            image_count: 1,
        }
    }
}

/// One image file found by a scan.
#[derive(Debug)]
pub struct SourceImage {
    pub id: usize,
    pub name: String,
    pub abs_path: String,
    pub rel_path: String,
    pub width: u32,
    pub height: u32,
    pub file_size: u64,
    pub readable: bool,
    pub error: Option<String>,
}

/// Two source records say the same.
pub open spec fn same_source(a: SourceImage, b: SourceImage) -> bool {
    &&& a.id == b.id
    &&& a.name@ == b.name@
    &&& a.abs_path@ == b.abs_path@
    &&& a.rel_path@ == b.rel_path@
    &&& a.width == b.width
    &&& a.height == b.height
    &&& a.file_size == b.file_size
    &&& a.readable == b.readable
    &&& a.error.is_some() == b.error.is_some()
    &&& a.error.is_some() ==> a.error.unwrap()@ == b.error.unwrap()@
}

impl Clone for SourceImage {
    fn clone(&self) -> (c: Self)
        ensures
            same_source(c, *self),
    {
        let error = match &self.error {
            Some(e) => Some(e.clone()),
            None => None,
        };
        SourceImage {
            id: self.id,
            name: self.name.clone(),
            abs_path: self.abs_path.clone(),
            rel_path: self.rel_path.clone(),
            width: self.width,
            height: self.height,
            file_size: self.file_size,
            readable: self.readable,
            error,
        }
    }
}

/// What a scan of one or more input folders found.
#[derive(Debug)]
pub struct ScanResult {
    pub root: FileTreeNode,
    pub images: Vec<SourceImage>,
    pub total_images: usize,
    pub warnings: Vec<String>,
}

/// One occupied grid cell of a sliced sprite, relative to its bounding box.
#[derive(Debug)]
pub struct GridSlice {
    pub x: u32,
    pub y: u32,
    pub name: String,
    pub rel_path: String,
}

/// Two grid slices say the same.
pub open spec fn same_slice(a: GridSlice, b: GridSlice) -> bool {
    a.x == b.x && a.y == b.y && a.name@ == b.name@ && a.rel_path@ == b.rel_path@
}

pub open spec fn same_slices(a: Seq<GridSlice>, b: Seq<GridSlice>) -> bool {
    a.len() == b.len() && forall|i: int| 0 <= i < a.len() ==> same_slice(#[trigger] a[i], b[i])
}

impl Clone for GridSlice {
    fn clone(&self) -> (c: Self)
        ensures
            same_slice(c, *self),
    {
        GridSlice { x: self.x, y: self.y, name: self.name.clone(), rel_path: self.rel_path.clone() }
    }
}

pub fn clone_slices(slices: &Vec<GridSlice>) -> (c: Vec<GridSlice>)
    ensures
        same_slices(c@, slices@),
{
    let mut c: Vec<GridSlice> = Vec::new();
    let mut i: usize = 0;
    while i < slices.len()
        invariant
            i <= slices.len(),
            c@.len() == i,
            forall|k: int| 0 <= k < i ==> same_slice(#[trigger] c@[k], slices@[k]),
        decreases slices.len() - i,
    {
        c.push(slices[i].clone());
        i += 1;
    }
    c
}

/// A source image ready for packing: trimmed or cut to its grid cells,
/// extruded, with the padding it keeps around itself.
pub struct PreparedSprite {
    pub id: usize,
    pub name: String,
    pub abs_path: String,
    pub rel_path: String,
    pub source_width: u32,
    pub source_height: u32,
    pub trim_x: u32,
    pub trim_y: u32,
    pub trim_width: u32,
    pub trim_height: u32,
    pub image: Image,
    pub padding: u32,
    pub extrude: u32,
    pub trimmed: bool,
    pub grid_slices: Vec<GridSlice>,
}

/// Two prepared sprites say the same.
pub open spec fn same_sprite(a: PreparedSprite, b: PreparedSprite) -> bool {
    &&& a.id == b.id
    &&& a.name@ == b.name@
    &&& a.abs_path@ == b.abs_path@
    &&& a.rel_path@ == b.rel_path@
    &&& a.source_width == b.source_width
    &&& a.source_height == b.source_height
    &&& a.trim_x == b.trim_x
    &&& a.trim_y == b.trim_y
    &&& a.trim_width == b.trim_width
    &&& a.trim_height == b.trim_height
    &&& same_image(a.image, b.image)
    &&& a.padding == b.padding
    &&& a.extrude == b.extrude
    &&& a.trimmed == b.trimmed
    &&& same_slices(a.grid_slices@, b.grid_slices@)
}

impl PreparedSprite {
    /// Padding fits around the image without overflowing `u32`.
    pub open spec fn padded_fits(self) -> bool {
        width_of(self.image) + 2 * self.padding <= u32::MAX && height_of(self.image) + 2
            * self.padding <= u32::MAX
    }

    pub open spec fn packed_width_spec(self) -> int {
        width_of(self.image) + 2 * self.padding
    }

    pub open spec fn packed_height_spec(self) -> int {
        height_of(self.image) + 2 * self.padding
    }

    pub fn packed_width(&self) -> (r: u32)
        requires
            self.padded_fits(),
        ensures
            r == self.packed_width_spec(),
    {
        self.image.width() + self.padding * 2
    }

    pub fn packed_height(&self) -> (r: u32)
        requires
            self.padded_fits(),
        ensures
            r == self.packed_height_spec(),
    {
        self.image.height() + self.padding * 2
    }

    pub fn area(&self) -> (r: u64)
        requires
            self.padded_fits(),
        ensures
            r == self.packed_width_spec() * self.packed_height_spec(),
    {
        let w = self.packed_width();
        let h = self.packed_height();
        proof {
            lemma_u32_product_fits_u64(w, h);
        }
        w as u64 * h as u64
    }
}

impl Clone for PreparedSprite {
    fn clone(&self) -> (c: Self)
        ensures
            same_sprite(c, *self),
    {
        PreparedSprite {
            id: self.id,
            name: self.name.clone(),
            abs_path: self.abs_path.clone(),
            rel_path: self.rel_path.clone(),
            source_width: self.source_width,
            source_height: self.source_height,
            trim_x: self.trim_x,
            trim_y: self.trim_y,
            trim_width: self.trim_width,
            trim_height: self.trim_height,
            image: self.image.copy(),
            padding: self.padding,
            extrude: self.extrude,
            trimmed: self.trimmed,
            grid_slices: clone_slices(&self.grid_slices),
        }
    }
}

/// A sprite and the rectangle it was given in an atlas.
pub struct Placement {
    pub sprite: PreparedSprite,
    pub rect: Rect,
    pub rotated: bool,
}

/// One atlas as laid out: its size, what went where, and how many pixels
/// of content it holds (the sum over its sprites).
pub struct AtlasBuild {
    pub atlas_index: usize,
    pub group_name: String,
    pub width: u32,
    pub height: u32,
    pub placements: Vec<Placement>,
    pub content_area: u64,
}

/// One frame as the sprite sheet describes it.
#[derive(Debug)]
pub struct PackedSprite {
    pub name: String,
    pub rel_path: String,
    pub atlas_index: usize,
    pub x: u32,
    pub y: u32,
    pub w: u32,
    pub h: u32,
    pub source_w: u32,
    pub source_h: u32,
    pub offset_x: u32,
    pub offset_y: u32,
    pub trim_w: u32,
    pub trim_h: u32,
    pub rotated: bool,
    pub trimmed: bool,
    pub pack_x: u32,
    pub pack_y: u32,
    pub pack_w: u32,
    pub pack_h: u32,
}

/// A log line shown to the user.
#[derive(Debug, Clone)]
pub struct LogMessage {
    pub level: String,
    pub message: String,
}

impl LogMessage {
    pub fn new(level: String, message: String) -> (m: Self)
        ensures
            m.level@ == level@,
            m.message@ == message@,
    {
        Self { level, message }
    }
}

/// The path with every backslash turned into a forward slash.
pub open spec fn posix_form(path: Seq<char>) -> Seq<char> {
    path.map_values(|c: char| if c == '\\' { '/' } else { c })
}

/// Writes a path with forward slashes only.
pub fn path_to_posix(path: &str) -> (s: String)
    ensures
        s@ == posix_form(path@),
{
    let chars = chars_of(path);
    let mut out: Vec<char> = Vec::new();
    let mut i: usize = 0;
    while i < chars.len()
        invariant
            i <= chars.len(),
            out@ == posix_form(chars@.take(i as int)),
        decreases chars.len() - i,
    {
        let c = chars[i];
        out.push(if c == '\\' { '/' } else { c });
        assert(chars@.take(i + 1) == chars@.take(i as int).push(c));
        i += 1;
    }
    assert(chars@.take(chars.len() as int) == chars@);
    string_from_chars(&out)
}

} // verus!
