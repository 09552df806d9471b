//! Verified core of a Minecraft region (`.mca`) viewer: bit-packed block and
//! height data, an NBT reader/writer, block-id palettes and the colour rules
//! used when a region is drawn as a map tile.

pub mod bitpack;

pub mod block_id;
pub mod block_map;
pub mod colors;
pub mod classic;
pub mod nbt;
pub mod chunk;
pub mod loader;
pub mod palette;
pub mod render;
pub mod region;
pub mod tile;
