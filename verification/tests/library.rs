use hollowatlas::atlas::cli::{parse_choice, parse_extrude, parse_padding, parse_positive_u32};
use hollowatlas::atlas::compose::copy_rgba;
use hollowatlas::atlas::manifest::is_legacy_sheet;
use hollowatlas::atlas::maxrects::{prune_free_rects, split_free_rect, MaxRectsPacker};
use hollowatlas::atlas::packer::plan::group_of;
use hollowatlas::atlas::packer::sizes::align_up;
use hollowatlas::atlas::packer::{
    build_atlases_for_group, candidate_bins, next_power_of_two, plan_builds, plan_config, plan_limits_ok, split_groups,
    PackError,
};
use hollowatlas::atlas::pixels::Image;
use hollowatlas::atlas::prepare::{
    build_grid_cell_label, cell_has_visible_pixels, occupied_grid_bounds, pad_image_to_grid,
};
use hollowatlas::atlas::scanner::{
    collect_unique_input_directories, is_image_extension, is_supported_image, scan_folder, scan_folders, unique_root_labels,
    FoundFile, ScannedRoot,
};
use hollowatlas::atlas::text::decimal_string;
use hollowatlas::atlas::tree::build_file_tree;
use hollowatlas::atlas::types::{
    highest_power_of_two_not_exceeding, path_to_posix, FileTreeNode, LogMessage, OutputFormat, PackConfig,
    PreparedSprite, Rect, SourceImage, SplitMode,
};

fn rect(x: u32, y: u32, w: u32, h: u32) -> Rect {
    Rect { x, y, w, h }
}

#[test]
fn rect_edges_area_and_relations() {
    let a = rect(2, 3, 10, 4);
    assert_eq!(a.right(), 12);
    assert_eq!(a.bottom(), 7);
    assert_eq!(a.area(), 40);
    assert!(a.intersects(rect(11, 6, 5, 5)));
    assert!(!a.intersects(rect(12, 3, 5, 5)));
    assert!(a.contains(rect(2, 3, 10, 4)));
    assert!(a.contains(rect(4, 4, 2, 2)));
    assert!(!a.contains(rect(4, 4, 10, 2)));
}

#[test]
fn split_free_rect_leaves_the_uncovered_parts() {
    let pieces = split_free_rect(rect(0, 0, 10, 10), rect(2, 2, 3, 3));
    assert_eq!(pieces, vec![rect(0, 0, 10, 2), rect(0, 5, 10, 5), rect(0, 0, 2, 10), rect(5, 0, 5, 10)]);
    let untouched = split_free_rect(rect(0, 0, 4, 4), rect(10, 10, 2, 2));
    assert_eq!(untouched, vec![rect(0, 0, 4, 4)]);
    let covered = split_free_rect(rect(1, 1, 2, 2), rect(0, 0, 5, 5));
    assert!(covered.is_empty());
}

#[test]
fn prune_free_rects_drops_contained_rectangles_and_mutual_copies() {
    let pruned = prune_free_rects(&[rect(0, 0, 10, 10), rect(1, 1, 2, 2), rect(5, 5, 10, 10), rect(0, 0, 10, 10)]);
    assert_eq!(pruned, vec![rect(5, 5, 10, 10)]);
    let kept = prune_free_rects(&[rect(0, 0, 10, 10), rect(1, 1, 2, 2), rect(5, 5, 10, 10)]);
    assert_eq!(kept, vec![rect(0, 0, 10, 10), rect(5, 5, 10, 10)]);
}

#[test]
fn maxrects_rejects_what_does_not_fit_and_rotates_when_allowed() {
    let mut packer = MaxRectsPacker::new(16, 8);
    assert!(packer.insert(0, 8, 16, false).is_none());
    let placed = packer.insert(1, 8, 16, true).unwrap();
    assert!(placed.rotated);
    assert_eq!((placed.rect.w, placed.rect.h), (16, 8));
    assert_eq!(placed.index, 1);
    assert!(packer.insert(2, 1, 1, true).is_none());
}

#[test]
fn maxrects_keeps_the_maximal_free_rectangles() {
    let mut packer = MaxRectsPacker::new(10, 10);
    let first = packer.insert(0, 6, 6, false).unwrap();
    assert_eq!(first.rect, rect(0, 0, 6, 6));
    assert_eq!(packer.free_rects, vec![rect(0, 6, 10, 4), rect(6, 0, 4, 10)]);

    let before = (packer.free_rects.clone(), packer.used_rects.clone());
    assert!(packer.insert(1, 6, 6, true).is_none());
    assert_eq!((packer.free_rects.clone(), packer.used_rects.clone()), before);

    let strip = packer.insert(2, 4, 10, false).unwrap();
    assert_eq!(strip.rect, rect(6, 0, 4, 10));
    assert_eq!(packer.free_rects, vec![rect(0, 6, 6, 4)]);

    assert!(packer.insert(3, 4, 6, false).is_none());
    let turned = packer.insert(4, 4, 6, true).unwrap();
    assert!(turned.rotated);
    assert_eq!(turned.rect, rect(0, 6, 6, 4));
    assert!(packer.free_rects.is_empty());
    assert!(packer.insert(5, 1, 1, true).is_none());
}

#[test]
fn legacy_sheets_are_recognised_by_name() {
    assert!(is_legacy_sheet("atlas_0.tpsheet", "atlas.tpsheet"));
    assert!(is_legacy_sheet("atlas_ui_1.tpsheet", "atlas.tpsheet"));
    assert!(!is_legacy_sheet("atlas.tpsheet", "atlas.tpsheet"));
    assert!(!is_legacy_sheet("atlas_0.tpsheet", "atlas_0.tpsheet"));
    assert!(!is_legacy_sheet("atlas_0.png", "atlas.tpsheet"));
    assert!(!is_legacy_sheet("sheet_0.tpsheet", "atlas.tpsheet"));
    assert!(!is_legacy_sheet("atlas_", "atlas.tpsheet"));
}

#[test]
fn size_helpers_give_exact_values() {
    assert_eq!(next_power_of_two(0), 1);
    assert_eq!(next_power_of_two(1), 1);
    assert_eq!(next_power_of_two(3), 4);
    assert_eq!(next_power_of_two(64), 64);
    assert_eq!(next_power_of_two(65), 128);
    assert_eq!(align_up(0, 48), 48);
    assert_eq!(align_up(49, 48), 96);
    assert_eq!(align_up(96, 48), 96);
    assert_eq!(align_up(5, 0), 5);
    assert_eq!(highest_power_of_two_not_exceeding(0), 1);
    assert_eq!(highest_power_of_two_not_exceeding(5), 4);
    assert_eq!(highest_power_of_two_not_exceeding(1024), 1024);
    assert_eq!(decimal_string(0), "0");
    assert_eq!(decimal_string(4096), "4096");
}

#[test]
fn normalized_config_snaps_max_size_to_grid() {
    let grid = PackConfig { max_size: 1000, align_to_grid: true, grid_cell_size: 48, power_of_two: true, ..Default::default() };
    assert_eq!(grid.normalized().max_size, 768);
    let loose = PackConfig { power_of_two: false, ..grid };
    assert_eq!(loose.normalized().max_size, 960);
    let tiny = PackConfig { max_size: 0, grid_cell_size: 0, ..Default::default() };
    let normalized = tiny.normalized();
    assert_eq!(normalized.max_size, 1);
    assert_eq!(normalized.grid_cell_size, 1);
    let small_grid = PackConfig { max_size: 10, align_to_grid: true, grid_cell_size: 48, ..Default::default() };
    assert_eq!(small_grid.normalized().max_size, 48);
}

#[test]
fn default_config_and_names() {
    let config = PackConfig::default();
    assert_eq!(config.max_size, 2048);
    assert_eq!(config.grid_cell_size, 48);
    assert!(config.slice_grid_cells);
    assert_eq!(config.split_mode, SplitMode::AllInOne);
    assert_eq!(config.output_format, OutputFormat::GodotTpSheet);
    assert_eq!(SplitMode::ByFirstLevelFolder.to_text(), "by_first_level_folder");
    assert_eq!(OutputFormat::JsonDebug.to_text(), "json_debug");
}

#[test]
fn candidate_bins_follow_the_configuration() {
    let defaults = candidate_bins(PackConfig::default());
    assert_eq!(defaults, vec![(64, 64), (128, 128), (256, 256), (512, 512), (1024, 1024), (2048, 2048)]);
    let odd = candidate_bins(PackConfig { max_size: 100, ..Default::default() });
    assert_eq!(odd, vec![(64, 64), (100, 100)]);
    let tiny = candidate_bins(PackConfig { max_size: 32, ..Default::default() });
    assert_eq!(tiny, vec![(32, 32)]);
    let single = candidate_bins(PackConfig { max_size: 300, power_of_two: false, ..Default::default() });
    assert_eq!(single, vec![(300, 300)]);
    let grid = PackConfig { max_size: 1024, align_to_grid: true, grid_cell_size: 48, ..Default::default() };
    assert_eq!(candidate_bins(grid), vec![(48, 48), (96, 96), (192, 192), (384, 384), (768, 768)]);
    let grid_loose = candidate_bins(PackConfig { power_of_two: false, ..grid });
    assert_eq!(grid_loose.len(), 21);
    assert_eq!(grid_loose[20], (1008, 1008));
}

#[test]
fn pack_error_messages() {
    assert_eq!(PackError::NoReadableImages.message(), "No readable images were found.");
    assert_eq!(PackError::NoPreparedImages.message(), "No images could be prepared for packing.");
    let too_large = PackError::TooLarge { rel_path: "big.png".to_string(), width: 70, height: 12, max_size: 64 };
    assert_eq!(too_large.message(), "Image big.png is larger than max atlas size after padding/extrude: 70x12 > 64.");
    let unpackable = PackError::Unpackable { rel_path: "a/b.png".to_string(), max_size: 128 };
    assert_eq!(unpackable.message(), "Unable to pack sprite a/b.png into 128x128.");
}

#[test]
fn plan_config_disables_rotation_with_notes() {
    let (config, logs) = plan_config(PackConfig { allow_rotation: true, ..Default::default() });
    assert!(!config.allow_rotation);
    assert_eq!(logs.len(), 1);
    assert_eq!(logs[0].level, "warning");
    assert!(logs[0].message.contains("rotation disabled"));

    let json = PackConfig {
        allow_rotation: true,
        align_to_grid: true,
        output_format: OutputFormat::JsonDebug,
        ..Default::default()
    };
    let (config, logs) = plan_config(json);
    assert!(!config.allow_rotation);
    assert_eq!(logs.len(), 1);
    assert_eq!(logs[0].message, "Grid alignment mode keeps sprites on 48x48 cells; rotation disabled.");

    let (config, logs) = plan_config(PackConfig { allow_rotation: true, output_format: OutputFormat::JsonDebug, ..Default::default() });
    assert!(config.allow_rotation);
    assert!(logs.is_empty());
}

fn sprite(id: usize, rel_path: &str) -> PreparedSprite {
    PreparedSprite {
        id,
        name: rel_path.to_string(),
        abs_path: rel_path.to_string(),
        rel_path: rel_path.to_string(),
        source_width: 2,
        source_height: 2,
        trim_x: 0,
        trim_y: 0,
        trim_width: 2,
        trim_height: 2,
        image: Image::from_pixel(2, 2, [1, 2, 3, 255]),
        padding: 0,
        extrude: 0,
        trimmed: false,
        grid_slices: Vec::new(),
    }
}

#[test]
fn group_of_takes_the_first_folder() {
    assert_eq!(group_of("ui/buttons/ok.png"), "ui");
    assert_eq!(group_of("icon.png"), "_root");
    assert_eq!(group_of("/lead.png"), "");
}

#[test]
fn split_groups_partitions_by_first_folder_in_name_order() {
    let sprites = vec![sprite(0, "ui/a.png"), sprite(1, "icon.png"), sprite(2, "chars/hero.png"), sprite(3, "ui/b.png")];
    let groups = split_groups(&sprites, SplitMode::ByFirstLevelFolder);
    let names: Vec<&str> = groups.iter().map(|(name, _)| name.as_str()).collect();
    assert_eq!(names, vec!["_root", "chars", "ui"]);
    let ids: Vec<Vec<usize>> = groups.iter().map(|(_, members)| members.iter().map(|s| s.id).collect()).collect();
    assert_eq!(ids, vec![vec![1], vec![2], vec![0, 3]]);

    let all = split_groups(&sprites, SplitMode::AllInOne);
    assert_eq!(all.len(), 1);
    assert_eq!(all[0].0, "all");
    assert_eq!(all[0].1.iter().map(|s| s.id).collect::<Vec<_>>(), vec![0, 1, 2, 3]);
}

#[test]
fn grid_cell_labels_keep_the_extension() {
    assert_eq!(build_grid_cell_label("chars/hero.png", 0, 1), "chars/hero__r0_c1.png");
    assert_eq!(build_grid_cell_label("a.b/tile", 2, 3), "a__r2_c3.b/tile");
    assert_eq!(build_grid_cell_label("tile", 10, 0), "tile__r10_c0");
}

#[test]
fn occupied_grid_bounds_and_padding() {
    let mut image = Image::from_pixel(100, 50, [0, 0, 0, 0]);
    assert_eq!(occupied_grid_bounds(&image, 48), None);
    image.put_pixel(60, 49, [9, 9, 9, 1]);
    assert!(cell_has_visible_pixels(&image, 48, 48, 48));
    assert!(!cell_has_visible_pixels(&image, 0, 0, 48));
    assert_eq!(occupied_grid_bounds(&image, 48), Some((1, 1, 2, 2)));

    let (padded, changed) = pad_image_to_grid(image, 48);
    assert!(changed);
    assert_eq!(padded.dimensions(), (144, 96));
    assert_eq!(padded.get_pixel(60, 49), [9, 9, 9, 1]);
    assert_eq!(padded.get_pixel(120, 90), [0, 0, 0, 0]);

    let (same, changed) = pad_image_to_grid(Image::from_pixel(96, 48, [1, 1, 1, 1]), 48);
    assert!(!changed);
    assert_eq!(same.dimensions(), (96, 48));
}

#[test]
fn copy_rgba_skips_transparent_pixels() {
    let mut target = Image::from_pixel(4, 4, [5, 5, 5, 5]);
    let mut source = Image::from_pixel(2, 2, [200, 100, 50, 255]);
    source.put_pixel(1, 1, [0, 0, 0, 0]);
    copy_rgba(&source, &mut target, 1, 2);
    assert_eq!(target.get_pixel(1, 2), [200, 100, 50, 255]);
    assert_eq!(target.get_pixel(2, 2), [200, 100, 50, 255]);
    assert_eq!(target.get_pixel(2, 3), [5, 5, 5, 5]);
    assert_eq!(target.get_pixel(0, 0), [5, 5, 5, 5]);
    copy_rgba(&source, &mut target, 3, 3);
    assert_eq!(target.get_pixel(3, 3), [200, 100, 50, 255]);
}

#[test]
fn supported_images_by_extension() {
    assert!(is_supported_image("A.PNG"));
    assert!(is_supported_image("dir/b.jpeg"));
    assert!(is_supported_image("x.WebP"));
    assert!(is_supported_image("x.bmp"));
    assert!(!is_supported_image("file.txt"));
    assert!(!is_supported_image("noext"));
    assert!(!is_supported_image(".png"));
}

#[test]
fn image_extensions_ignore_ascii_case() {
    assert!(is_image_extension("png"));
    assert!(is_image_extension("JPG"));
    assert!(is_image_extension("Jpeg"));
    assert!(is_image_extension("webP"));
    assert!(is_image_extension("BMP"));
    assert!(!is_image_extension("gif"));
    assert!(!is_image_extension(""));
    assert!(!is_image_extension("png "));
}

#[test]
fn posix_paths() {
    assert_eq!(path_to_posix("a\\b\\c.png"), "a/b/c.png");
    assert_eq!(path_to_posix("plain/path"), "plain/path");
}

#[test]
fn root_labels_are_unique_ignoring_case() {
    let names = vec![Some("a".to_string()), Some("A".to_string()), None, Some(" ".to_string()), Some("input".to_string())];
    assert_eq!(unique_root_labels(&names), vec!["a", "A_2", "input", "input_2", "input_3"]);
}

#[test]
fn unique_input_directories_keep_the_first_of_each() {
    let paths = vec!["C:\\Art\\sprites".to_string(), "c:/art/SPRITES".to_string(), String::new(), "/tiles".to_string()];
    assert_eq!(collect_unique_input_directories(&paths), Ok(vec!["C:\\Art\\sprites".to_string(), "/tiles".to_string()]));
    assert_eq!(
        collect_unique_input_directories(&vec![String::new()]),
        Err("Choose at least one input directory.".to_string())
    );
    assert_eq!(
        collect_unique_input_directories(&Vec::new()),
        Err("Choose at least one input directory.".to_string())
    );
}

#[test]
fn one_directory_named_in_several_ways_is_kept_once() {
    let paths = vec![String::new(), "/art/Sprites".to_string(), String::new(), "/ART/sprites".to_string()];
    assert_eq!(collect_unique_input_directories(&paths), Ok(vec!["/art/Sprites".to_string()]));
}

#[test]
fn parse_command_line_values() {
    assert_eq!(parse_padding("4"), Ok(4));
    assert_eq!(parse_padding("3"), Err("padding must be one of [0, 1, 2, 4, 8]".to_string()));
    assert!(parse_padding("x").unwrap_err().starts_with("invalid padding: "));
    assert_eq!(parse_extrude("2"), Ok(2));
    assert_eq!(parse_extrude("8"), Err("extrude must be one of [0, 1, 2, 4]".to_string()));
    assert_eq!(parse_positive_u32("12"), Ok(12));
    assert_eq!(parse_positive_u32("0"), Err("value must be greater than 0".to_string()));
    assert!(parse_positive_u32("-1").unwrap_err().starts_with("invalid value: "));
    assert_eq!(parse_choice("16", &[16, 32], "size"), Ok(16));
    assert_eq!(parse_choice("17", &[], "size"), Err("size must be one of []".to_string()));
}

fn image_record(id: usize, rel_path: &str) -> SourceImage {
    SourceImage {
        id,
        name: rel_path.rsplit('/').next().unwrap().to_string(),
        abs_path: rel_path.to_string(),
        rel_path: rel_path.to_string(),
        width: 1,
        height: 1,
        file_size: 1,
        readable: true,
        error: None,
    }
}

fn child_names(node: &FileTreeNode) -> Vec<(&str, &str, usize)> {
    node.children.iter().map(|c| (c.name.as_str(), c.node_type.as_str(), c.image_count)).collect()
}

#[test]
fn file_tree_counts_and_sorts_directories_first() {
    let images = vec![
        image_record(0, "z.png"),
        image_record(1, "chars/hero.png"),
        image_record(2, "Chars2/b.png"),
        image_record(3, "chars/a/x.png"),
        image_record(4, "a.png"),
    ];
    let root = build_file_tree("root".to_string(), &images);
    assert_eq!(root.name, "root");
    assert_eq!(root.image_count, 5);
    assert_eq!(
        child_names(&root),
        vec![("chars", "directory", 2), ("Chars2", "directory", 1), ("a.png", "image", 1), ("z.png", "image", 1)]
    );
    let chars = &root.children[0];
    assert_eq!(chars.path, "chars");
    assert_eq!(child_names(chars), vec![("a", "directory", 1), ("hero.png", "image", 1)]);
    assert_eq!(chars.children[0].children[0].path, "chars/a/x.png");
}

fn found(local_path: &str, dimensions: Result<(u32, u32), String>) -> FoundFile {
    FoundFile {
        abs_path: format!("/in/{local_path}"),
        local_path: local_path.to_string(),
        name: local_path.rsplit('/').next().unwrap().to_string(),
        file_size: 10,
        dimensions,
    }
}

fn tree_lines(node: &FileTreeNode, out: &mut Vec<String>) {
    out.push(format!("{}|{}|{}|{}", node.name, node.path, node.node_type, node.image_count));
    for child in &node.children {
        tree_lines(child, out);
    }
}

fn art_files() -> Vec<FoundFile> {
    vec![found("ui/Ok.png", Ok((4, 4))), found("b.png", Ok((2, 2))), found("ui/icons/x.png", Err("bad".to_string()))]
}

#[test]
fn one_folder_scans_the_same_alone_or_as_the_only_input() {
    let alone = scan_folder("art".to_string(), &art_files());
    let roots = vec![ScannedRoot { name: Some("art".to_string()), title: "art".to_string(), files: art_files() }];
    let listed = scan_folders(&roots);
    let (mut a, mut b) = (Vec::new(), Vec::new());
    tree_lines(&alone.root, &mut a);
    tree_lines(&listed.root, &mut b);
    assert_eq!(a, b);
    assert_eq!(
        a,
        vec![
            "art||directory|3",
            "ui|ui|directory|2",
            "icons|ui/icons|directory|1",
            "x.png|ui/icons/x.png|image|1",
            "Ok.png|ui/Ok.png|image|1",
            "b.png|b.png|image|1",
        ]
    );
    let ids = |s: &hollowatlas::atlas::types::ScanResult| {
        s.images.iter().map(|i| (i.id, i.rel_path.clone())).collect::<Vec<_>>()
    };
    assert_eq!(ids(&alone), ids(&listed));
    assert_eq!(alone.warnings, listed.warnings);
    assert_eq!(alone.total_images, listed.total_images);
}

#[test]
fn scan_folder_lists_files_by_lowercase_path() {
    let files = vec![found("b.png", Ok((4, 4))), found("A\\c.png", Err("bad header".to_string())), found("a.png", Ok((2, 3)))];
    let scan = scan_folder("input".to_string(), &files);
    assert_eq!(scan.total_images, 3);
    let paths: Vec<&str> = scan.images.iter().map(|i| i.rel_path.as_str()).collect();
    assert_eq!(paths, vec!["a.png", "A/c.png", "b.png"]);
    assert_eq!(scan.images.iter().map(|i| i.id).collect::<Vec<_>>(), vec![0, 1, 2]);
    assert!(!scan.images[1].readable);
    assert_eq!(scan.images[1].error, Some("bad header".to_string()));
    assert_eq!((scan.images[0].width, scan.images[0].height), (2, 3));
    assert_eq!(scan.warnings, vec!["Failed to read image metadata: A/c.png: bad header".to_string()]);
    assert_eq!(scan.root.name, "input");
    assert_eq!(scan.root.image_count, 3);
}

#[test]
fn scan_folders_labels_each_input_folder() {
    let roots = vec![
        ScannedRoot { name: Some("art".to_string()), title: "art".to_string(), files: vec![found("x.png", Ok((1, 1)))] },
        ScannedRoot { name: Some("Art".to_string()), title: "Art".to_string(), files: vec![found("y.png", Ok((1, 1)))] },
    ];
    let scan = scan_folders(&roots);
    assert_eq!(scan.total_images, 2);
    let paths: Vec<&str> = scan.images.iter().map(|i| i.rel_path.as_str()).collect();
    assert_eq!(paths, vec!["art/x.png", "Art_2/y.png"]);
    assert_eq!(scan.images.iter().map(|i| i.id).collect::<Vec<_>>(), vec![0, 1]);
    assert_eq!(scan.root.name, "Input Folders");
    assert_eq!(scan.root.image_count, 2);

    let single = scan_folders(&vec![ScannedRoot {
        name: Some("art".to_string()),
        title: "art".to_string(),
        files: vec![found("x.png", Ok((1, 1)))],
    }]);
    assert_eq!(single.images[0].rel_path, "x.png");
    assert_eq!(single.root.name, "art");
}

#[test]
fn log_messages_keep_level_and_text() {
    let log = LogMessage::new("info".to_string(), "Packing groups: 1".to_string());
    assert_eq!(log.level, "info");
    assert_eq!(log.message, "Packing groups: 1");
    let node = FileTreeNode::image("a.png".to_string(), "x/a.png".to_string());
    assert_eq!(node.node_type, "image");
    assert_eq!(node.image_count, 1);
    let dir = FileTreeNode::directory("x".to_string(), "x".to_string());
    assert_eq!(dir.node_type, "directory");
    assert_eq!(dir.image_count, 0);
}

fn sized_sprite(id: usize, width: u32, height: u32) -> PreparedSprite {
    let mut s = sprite(id, &format!("s{id}.png"));
    s.image = Image::from_pixel(width, height, [1, 1, 1, 255]);
    s.trim_width = width;
    s.trim_height = height;
    s.source_width = width;
    s.source_height = height;
    s
}

#[test]
fn area_sort_is_stable_and_largest_first() {
    let config = PackConfig { padding: 0, extrude: 0, ..Default::default() };
    let items = vec![sized_sprite(0, 4, 4), sized_sprite(1, 8, 8), sized_sprite(2, 2, 8), sized_sprite(3, 8, 8), sized_sprite(4, 16, 1)];
    let sorted = hollowatlas::atlas::packer::order::sort_by_area_desc(items, config);
    assert_eq!(sorted.iter().map(|s| s.id).collect::<Vec<_>>(), vec![1, 3, 0, 2, 4]);
}

#[test]
fn normalizing_twice_changes_nothing() {
    let configs = [
        PackConfig { max_size: 1000, align_to_grid: true, grid_cell_size: 48, ..Default::default() },
        PackConfig { max_size: 10, align_to_grid: true, grid_cell_size: 48, power_of_two: false, ..Default::default() },
        PackConfig { max_size: 0, grid_cell_size: 0, ..Default::default() },
        PackConfig { max_size: u32::MAX, align_to_grid: true, grid_cell_size: 7, ..Default::default() },
    ];
    for config in configs {
        let once = config.normalized();
        assert_eq!(once.normalized(), once);
    }
}

#[test]
fn group_atlases_hold_their_placements() {
    let config = PackConfig { max_size: 64, padding: 1, extrude: 0, ..Default::default() }.normalized();
    let sprites = vec![sized_sprite(0, 30, 30), sized_sprite(1, 30, 30), sized_sprite(2, 30, 30), sized_sprite(3, 30, 30), sized_sprite(4, 10, 5)];
    let builds = build_atlases_for_group("all", &sprites, config, 3).unwrap();
    assert_eq!(builds.len(), 2);
    assert_eq!(builds[0].atlas_index, 3);
    assert_eq!(builds[1].atlas_index, 4);
    assert_eq!(builds[0].placements.len(), 4);
    assert_eq!(builds[1].placements[0].sprite.id, 4);
    assert_eq!((builds[0].width, builds[0].height), (64, 64));
    assert_eq!((builds[1].width, builds[1].height), (16, 16));
    for build in &builds {
        assert_eq!(build.group_name, "all");
        for p in &build.placements {
            assert!(p.rect.right() <= build.width && p.rect.bottom() <= build.height);
        }
    }
}

#[test]
fn a_huge_size_limit_still_packs_small_sprites() {
    let config = PackConfig { max_size: 3_000_000_000, power_of_two: true, padding: 0, extrude: 0, ..Default::default() };
    let sprites = vec![sized_sprite(0, 8, 8)];
    assert!(plan_limits_ok(&sprites, config));
    let mut logs = Vec::new();
    let (builds, total) = plan_builds(sprites, config, &mut logs).unwrap();
    assert_eq!(total, 1);
    assert_eq!(builds.len(), 1);
    assert_eq!((builds[0].width, builds[0].height), (8, 8));
    assert_eq!(builds[0].placements[0].rect, rect(0, 0, 8, 8));
}

#[test]
fn group_packing_reports_the_first_oversized_sprite() {
    let config = PackConfig { max_size: 64, padding: 0, extrude: 0, ..Default::default() }.normalized();
    let sprites = vec![sized_sprite(0, 10, 10), sized_sprite(1, 70, 2), sized_sprite(2, 80, 80)];
    match build_atlases_for_group("all", &sprites, config, 0) {
        Err(PackError::TooLarge { rel_path, width, height, max_size }) => {
            assert_eq!(rel_path, "s2.png");
            assert_eq!((width, height, max_size), (80, 80, 64));
        }
        other => panic!("unexpected: {:?}", other.map(|b| b.len())),
    }
}

#[test]
fn file_tree_keeps_the_order_of_names_equal_but_for_case() {
    let images = vec![image_record(0, "b/x.png"), image_record(1, "B/y.png"), image_record(2, "A.png"), image_record(3, "a.png")];
    let root = build_file_tree("r".to_string(), &images);
    assert_eq!(
        child_names(&root),
        vec![("b", "directory", 1), ("B", "directory", 1), ("A.png", "image", 1), ("a.png", "image", 1)]
    );
}
