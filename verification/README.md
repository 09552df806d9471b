# mca-viewer-rs

A viewer for Minecraft region files (`r.<x>.<z>.mca`): each region is drawn as a
512x512 map tile, coloured by the top block of every column, shaded by the slope
and by depth, with water coloured over the ground below it. A region can also be
cut at a height, showing the first block below the cut.

The library in `src/` is written in Verus and proved against its contracts:

- `bitpack`, `block_map`, `block_id`: bit-packed block and height data, and the
  packed map of the block identifiers of a region.
- `nbt`: reading and writing NBT; structs are read field by field through
  `CompoundFields` and written through `SerializeFields`.
- `loader`: locating and decompressing the chunks of a region file (zlib through
  `libdeflater`).
- `chunk`: the parts of a chunk that are drawn (sections, block palettes,
  heightmaps) and the lookup of a block by position.
- `palette`, `colors`: block colours, the interning of block names, and the colour
  rules (shading, water, darkening).
- `render`: drawing a region from its heightmaps, or cut at a height; `classic`
  draws chunks read by a generic NBT reader with the colour rules of the first
  renderer.
- `region`: region file names.
- `tile`: the visible rectangle of tile space and the order in which regions are
  drawn.

`app/` is the program around it: reading files and directories, the palette file,
the window (`egui`/`eframe`) and the worker threads that draw regions.
