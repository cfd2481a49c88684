# hollowatlas

A texture atlas packer with tileset-friendly grid workflows: it scans folders
of images, trims or cuts them into grid cells, packs them into as few atlases
as needed with a MaxRects packer (or a cell packer in grid mode), composes the
atlas images and describes every frame for a Godot `.tpsheet`.

The library in `src/` is written in Verus and verified: every public function
states what it computes, and the properties the packer keeps (no overlap,
free space kept as the maximal free rectangles, so an item is refused only
when no place in the bin can hold it; every sprite in exactly one atlas, with
the sheet's frame count equal to the frames composed; atlases large enough for
what they hold; grid snapping; stable orderings) are proved next to the code.

- `src/atlas/maxrects.rs`: the MaxRects packer and its free-space algebra.
- `src/atlas/packer/`: sizes and candidate bins, one-bin packing (rectangles
  and grid cells), area ordering, the rounds of a group, atlas sizes, the plan
  and its frame count.
- `src/atlas/prepare.rs`, `trim.rs`, `extrude.rs`: turning source images into
  sprites.
- `src/atlas/compose.rs`, `manifest.rs`: atlas pixels and sprite-sheet frames.
- `src/atlas/scanner.rs`, `tree.rs`: image records and the folder tree.
- `src/atlas/pixels.rs`: RGBA images, held by the `image` crate.
- `src/atlas/cli.rs`, `recent.rs`, `text.rs`, `types.rs`: option parsing, the
  recent-project list, text helpers and the shared types.

`app/` is the command line (`scan`, `pack`, `preview`): it walks folders,
decodes and saves images and writes JSON, and calls the library for the rest.
