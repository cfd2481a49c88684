use hollowatlas::atlas::compose::{compose_atlas, compose_fits};
use hollowatlas::atlas::extrude::extrude_image;
use hollowatlas::atlas::manifest::{frame_margins, sort_frames_by_path};
use hollowatlas::atlas::maxrects::MaxRectsPacker;
use hollowatlas::atlas::packer::{plan_builds, plan_config, plan_limits_ok};
use hollowatlas::atlas::pixels::Image;
use hollowatlas::atlas::prepare::{prepare_fits, prepare_sprites, ReadFailure};
use hollowatlas::atlas::trim::trim_transparent;
use hollowatlas::atlas::types::{LogMessage, PackConfig, PackedSprite, SourceImage, SplitMode};

#[test]
fn trim_transparent_tracks_source_offsets() {
    let mut image = Image::from_pixel(6, 5, [0, 0, 0, 0]);
    image.put_pixel(2, 1, [255, 0, 0, 255]);
    image.put_pixel(4, 3, [0, 255, 0, 255]);

    let result = trim_transparent(&image, true);

    assert_eq!(result.trim_x, 2);
    assert_eq!(result.trim_y, 1);
    assert_eq!(result.trim_width, 3);
    assert_eq!(result.trim_height, 3);
    assert_eq!(result.image.dimensions(), (3, 3));
    assert!(result.trimmed);
}

#[test]
fn fully_transparent_image_becomes_one_pixel_sprite() {
    let image = Image::from_pixel(4, 4, [0, 0, 0, 0]);
    let result = trim_transparent(&image, true);

    assert_eq!(result.image.dimensions(), (1, 1));
    assert!(result.fully_transparent);
    assert!(result.trimmed);
}

#[test]
fn extrude_replicates_edge_pixels() {
    let mut image = Image::from_pixel(2, 2, [0, 0, 0, 0]);
    image.put_pixel(0, 0, [10, 0, 0, 255]);
    image.put_pixel(1, 0, [20, 0, 0, 255]);
    image.put_pixel(0, 1, [30, 0, 0, 255]);
    image.put_pixel(1, 1, [40, 0, 0, 255]);

    let out = extrude_image(&image, 1);

    assert_eq!(out.dimensions(), (4, 4));
    assert_eq!(out.get_pixel(0, 0), [10, 0, 0, 255]);
    assert_eq!(out.get_pixel(3, 0), [20, 0, 0, 255]);
    assert_eq!(out.get_pixel(0, 3), [30, 0, 0, 255]);
    assert_eq!(out.get_pixel(3, 3), [40, 0, 0, 255]);
}

#[test]
fn maxrects_places_without_overlap() {
    let mut packer = MaxRectsPacker::new(64, 64);
    let placed = vec![
        packer.insert(0, 32, 32, false).unwrap(),
        packer.insert(1, 16, 16, false).unwrap(),
        packer.insert(2, 20, 12, false).unwrap(),
        packer.insert(3, 8, 40, false).unwrap(),
    ];

    for (index, item) in placed.iter().enumerate() {
        assert!(item.rect.right() <= 64);
        assert!(item.rect.bottom() <= 64);
        for other in placed.iter().skip(index + 1) {
            assert!(!item.rect.intersects(other.rect));
        }
    }
}

/// A readable source record for an image of the given size.
fn source(id: usize, rel_path: &str, image: &Image) -> SourceImage {
    let (width, height) = image.dimensions();
    let name = rel_path.rsplit('/').next().unwrap().to_string();
    SourceImage {
        id,
        name,
        abs_path: format!("/input/{rel_path}"),
        rel_path: rel_path.to_string(),
        width,
        height,
        file_size: 0,
        readable: true,
        error: None,
    }
}

/// One composed atlas: its image and its frames.
struct Composed {
    image: Image,
    frames: Vec<PackedSprite>,
}

/// Runs the packing pipeline of the library on decoded images, as the
/// command line does after reading them.
fn pack(images: Vec<(&str, Image)>, config: PackConfig) -> (Vec<Composed>, usize, Vec<LogMessage>) {
    let (config, mut logs) = plan_config(config);
    let mut decoded = Vec::new();
    for (id, (rel_path, image)) in images.into_iter().enumerate() {
        assert!(prepare_fits(&image, config));
        decoded.push((source(id, rel_path, &image), Ok::<Image, ReadFailure>(image)));
    }
    let prepared = prepare_sprites(decoded, config, &mut logs).unwrap();
    assert!(plan_limits_ok(&prepared, config));
    let (builds, total) = plan_builds(prepared, config, &mut logs).unwrap();
    let mut atlases = Vec::new();
    for build in &builds {
        assert!(compose_fits(build, config));
        let (image, frames) = compose_atlas(build, config);
        atlases.push(Composed { image, frames });
    }
    (atlases, total, logs)
}

#[test]
fn pack_pipeline_reports_trimmed_frame_offsets() {
    let mut hero = Image::from_pixel(16, 16, [0, 0, 0, 0]);
    for x in 4..12 {
        for y in 3..13 {
            hero.put_pixel(x, y, [255, 0, 0, 255]);
        }
    }
    let icon = Image::from_pixel(8, 8, [0, 0, 255, 255]);
    let config = PackConfig { max_size: 128, padding: 2, extrude: 1, trim: true, debug_json: true, ..Default::default() };

    let (atlases, total, _) = pack(vec![("characters/hero.png", hero), ("icon.png", icon)], config);

    assert_eq!(total, 2);
    assert_eq!(atlases.len(), 1);
    let frames = sort_frames_by_path(&atlases[0].frames);
    assert_eq!(frames[0].rel_path, "characters/hero.png");
    assert_eq!(frames[1].rel_path, "icon.png");
    let hero_frame = &frames[0];
    assert!(hero_frame.trimmed);
    assert_eq!((hero_frame.offset_x, hero_frame.offset_y), (4, 3));
    assert_eq!((hero_frame.source_w, hero_frame.source_h), (16, 16));
    assert_eq!((hero_frame.trim_w, hero_frame.trim_h), (8, 10));
    assert_eq!(frame_margins(hero_frame), (8, 6));
    assert_eq!(atlases[0].image.get_pixel(hero_frame.x, hero_frame.y), [255, 0, 0, 255]);
}

#[test]
fn pack_pipeline_splits_multiple_atlases_when_needed() {
    let mut images = Vec::new();
    let names = ["sprite_0.png", "sprite_1.png", "sprite_2.png", "sprite_3.png", "sprite_4.png"];
    for (index, name) in names.iter().enumerate() {
        images.push((*name, Image::from_pixel(32, 32, [index as u8 * 20, 0, 200, 255])));
    }
    let config = PackConfig { max_size: 64, padding: 0, extrude: 0, trim: false, ..Default::default() };

    let (atlases, total, _) = pack(images, config);

    assert_eq!(total, 5);
    assert_eq!(atlases.len(), 2);
    assert_eq!(atlases[0].frames.len() + atlases[1].frames.len(), 5);
    assert_eq!(atlases[0].frames.len(), 4);
    assert!(atlases.iter().all(|atlas| atlas.frames.iter().all(|frame| frame.atlas_index < 2)));
}

#[test]
fn pack_pipeline_by_first_level_folder_creates_grouped_atlases() {
    let images = vec![
        ("characters/hero.png", Image::from_pixel(8, 8, [255, 0, 0, 255])),
        ("ui/button.png", Image::from_pixel(8, 8, [0, 255, 0, 255])),
    ];
    let config = PackConfig {
        max_size: 64,
        padding: 0,
        extrude: 0,
        trim: false,
        split_mode: SplitMode::ByFirstLevelFolder,
        ..Default::default()
    };

    let (atlases, total, logs) = pack(images, config);

    assert_eq!(total, 2);
    assert_eq!(atlases.len(), 2);
    assert_eq!(atlases.iter().map(|atlas| atlas.frames.len()).collect::<Vec<_>>(), vec![1, 1]);
    assert_eq!(atlases[0].frames[0].rel_path, "characters/hero.png");
    assert_eq!(atlases[1].frames[0].rel_path, "ui/button.png");
    assert!(logs.iter().any(|log| log.message == "Packing groups: 2"));
}

#[test]
fn pack_pipeline_tpsheet_disables_rotation_for_importer_safety() {
    let images = vec![("tall.png", Image::from_pixel(16, 32, [255, 0, 255, 255]))];
    let config = PackConfig { max_size: 64, padding: 0, extrude: 0, trim: false, allow_rotation: true, ..Default::default() };

    let (atlases, _, logs) = pack(images, config);

    assert!(logs.iter().any(|log| log.message.contains("rotation disabled")));
    assert!(!atlases[0].frames[0].rotated);
}

#[test]
fn pack_pipeline_grid_alignment_snaps_tiles_to_cell_boundaries() {
    let mut images = Vec::new();
    for (index, name) in ["tile_0.png", "tile_1.png", "tile_2.png"].iter().enumerate() {
        images.push((*name, Image::from_pixel(48, 48, [index as u8 * 40, 120, 200, 255])));
    }
    let config = PackConfig {
        max_size: 1024,
        padding: 0,
        extrude: 0,
        trim: false,
        align_to_grid: true,
        grid_cell_size: 48,
        allow_rotation: true,
        power_of_two: true,
        square: false,
        ..Default::default()
    };

    let (atlases, _, logs) = pack(images, config);

    assert!(logs.iter().any(|log| log.message.contains("Grid alignment enabled")));
    assert!(logs.iter().any(|log| log.message.contains("rotation disabled")));
    assert_eq!(atlases.len(), 1);
    let (width, height) = atlases[0].image.dimensions();
    assert_eq!(width % 48, 0);
    assert_eq!(height % 48, 0);
    for frame in &atlases[0].frames {
        assert_eq!(frame.pack_x % 48, 0);
        assert_eq!(frame.pack_y % 48, 0);
        assert_eq!(frame.pack_w % 48, 0);
        assert_eq!(frame.pack_h % 48, 0);
    }
}

fn grid_config(slice: bool) -> PackConfig {
    PackConfig {
        max_size: 1024,
        padding: 0,
        extrude: 0,
        trim: false,
        align_to_grid: true,
        grid_cell_size: 48,
        slice_grid_cells: slice,
        power_of_two: true,
        square: false,
        ..Default::default()
    }
}

#[test]
fn pack_pipeline_grid_cell_slicing_reuses_internal_empty_cells() {
    let mut image = Image::from_pixel(96, 96, [0, 0, 0, 0]);
    for y in 0..48 {
        for x in 0..48 {
            image.put_pixel(x, y, [255, 0, 0, 255]);
            image.put_pixel(x + 48, y, [0, 255, 0, 255]);
            image.put_pixel(x, y + 48, [0, 0, 255, 255]);
        }
    }

    let (atlases, total, _) = pack(vec![("shape.png", image)], grid_config(true));

    assert_eq!(total, 3);
    let frames = &atlases[0].frames;
    assert_eq!(frames.len(), 3);
    assert!(frames.iter().all(|frame| frame.source_w == 48 && frame.source_h == 48));
    assert!(frames.iter().all(|frame| frame.rel_path.contains("__r")));
}

#[test]
fn pack_pipeline_total_counts_every_composed_frame() {
    let mut shape = Image::from_pixel(96, 96, [0, 0, 0, 0]);
    for y in 0..48 {
        for x in 0..96 {
            shape.put_pixel(x, y, [255, 0, 0, 255]);
        }
    }
    let mut images = vec![("shape.png", shape)];
    for name in ["a.png", "b.png", "c.png", "d.png", "e.png"] {
        images.push((name, Image::from_pixel(48, 96, [0, 200, 0, 255])));
    }
    let config = PackConfig { max_size: 96, power_of_two: false, ..grid_config(true) };

    let (atlases, total, _) = pack(images, config);

    assert!(atlases.len() > 1);
    let composed: usize = atlases.iter().map(|atlas| atlas.frames.len()).sum();
    assert_eq!(composed, total);
    assert_eq!(total, 12);
}

#[test]
fn pack_pipeline_grid_cell_slicing_keeps_full_rectangles_merged() {
    let image = Image::from_pixel(96, 96, [120, 220, 80, 255]);

    let (atlases, total, _) = pack(vec![("full_block.png", image)], grid_config(true));

    assert_eq!(total, 4);
    assert_eq!(atlases[0].frames.len(), 4);
    assert!(atlases[0].frames.iter().all(|frame| frame.source_w == 48 && frame.source_h == 48));
}

#[test]
fn pack_pipeline_grid_outer_cell_trim_keeps_whole_sprite_mode() {
    let mut image = Image::from_pixel(144, 48, [0, 0, 0, 0]);
    for y in 0..48 {
        for x in 48..96 {
            image.put_pixel(x, y, [255, 200, 0, 255]);
        }
    }

    let (atlases, total, _) = pack(vec![("strip.png", image)], grid_config(false));

    assert_eq!(total, 1);
    let frame = &atlases[0].frames[0];
    assert_eq!(frame.source_w, 144);
    assert_eq!(frame.source_h, 48);
    assert_eq!(frame.offset_x, 48);
    assert_eq!(frame.trim_w, 48);
    assert_eq!(frame.trim_h, 48);
}
