use mca_viewer_rs::chunk::{Chunk, ChunkError, Heightmap, StatusMinecraftFull};
use mca_viewer_rs::nbt::deserialize::DeserializePayload;
use mca_viewer_rs::loader::{LoaderError, McaLoader};
use mca_viewer_rs::nbt::error::DeserializationError;
use mca_viewer_rs::nbt::from_bytes;

fn push_str(out: &mut Vec<u8>, s: &str) {
    out.extend_from_slice(&(s.len() as u16).to_be_bytes());
    out.extend_from_slice(s.as_bytes());
}

fn named(out: &mut Vec<u8>, tag: u8, name: &str) {
    out.push(tag);
    push_str(out, name);
}

fn long_array(out: &mut Vec<u8>, name: &str, longs: &[u64]) {
    named(out, 12, name);
    out.extend_from_slice(&(longs.len() as i32).to_be_bytes());
    for l in longs {
        out.extend_from_slice(&l.to_be_bytes());
    }
}

/// A heightmap with every column at height `h`.
fn heightmap(h: u64) -> Vec<u64> {
    let mut w = 0u64;
    for i in 0..7 {
        w |= h << (9 * i);
    }
    vec![w; 37]
}

/// Packs 4096 indices at 4 bits each into big-endian words.
fn pack4(idx: impl Fn(usize) -> u64) -> Vec<u64> {
    let mut out = vec![0u64; 256];
    for i in 0..4096 {
        out[i / 16] |= idx(i) << (4 * (i % 16));
    }
    out
}

/// A chunk with two sections (y = -1 and y = 0): the lower all stone, the upper
/// grass at the bottom layer and air above; heightmaps at 17 (top of the grass).
fn chunk_nbt(status: &str) -> Vec<u8> {
    let mut out = Vec::new();
    named(&mut out, 10, "");
    named(&mut out, 8, "Status");
    push_str(&mut out, status);
    named(&mut out, 3, "DataVersion");
    out.extend_from_slice(&3465i32.to_be_bytes());
    named(&mut out, 9, "sections");
    out.push(10);
    out.extend_from_slice(&2i32.to_be_bytes());
    // section y = -1: a single block
    named(&mut out, 1, "Y");
    out.push((-1i8) as u8);
    named(&mut out, 10, "block_states");
    named(&mut out, 9, "palette");
    out.push(10);
    out.extend_from_slice(&1i32.to_be_bytes());
    named(&mut out, 8, "Name");
    push_str(&mut out, "minecraft:stone");
    out.push(0);
    out.push(0);
    out.push(0);
    // section y = 0: grass on the first layer, air above
    named(&mut out, 1, "Y");
    out.push(0);
    named(&mut out, 10, "block_states");
    named(&mut out, 9, "palette");
    out.push(10);
    out.extend_from_slice(&2i32.to_be_bytes());
    named(&mut out, 8, "Name");
    push_str(&mut out, "minecraft:air");
    out.push(0);
    named(&mut out, 8, "Name");
    push_str(&mut out, "minecraft:grass_block");
    out.push(0);
    long_array(&mut out, "data", &pack4(|i| if i < 256 { 1 } else { 0 }));
    out.push(0);
    out.push(0);
    named(&mut out, 10, "Heightmaps");
    long_array(&mut out, "WORLD_SURFACE", &heightmap(17));
    long_array(&mut out, "OCEAN_FLOOR", &heightmap(17));
    out.push(0);
    out.push(0);
    out
}

pub fn region_with_chunk(idx: usize, nbt: &[u8]) -> Vec<u8> {
    let mut c = libdeflater::Compressor::new(libdeflater::CompressionLvl::default());
    let mut z = vec![0u8; c.zlib_compress_bound(nbt.len())];
    let n = c.zlib_compress(nbt, &mut z).unwrap();
    z.truncate(n);
    let mut file = vec![0u8; 8192];
    let sectors = (z.len() + 5).div_ceil(4096) as u32;
    let entry = (2u32 << 8) | sectors;
    file[4 * idx..4 * idx + 4].copy_from_slice(&entry.to_be_bytes());
    file.extend_from_slice(&((z.len() + 1) as i32).to_be_bytes());
    file.push(2);
    file.extend_from_slice(&z);
    file.resize(8192 + 4096 * sectors as usize, 0);
    file
}

#[test]
fn chunk_reads_blocks_and_heights() {
    let data = chunk_nbt("minecraft:full");
    let (name, mut chunk, n) = from_bytes::<Chunk>(&data).expect("chunk parses");
    assert_eq!(name, "");
    assert_eq!(n, data.len());
    assert!(chunk.validate_and_init().is_ok());
    assert_eq!(chunk.y_limit, 32);
    assert_eq!(chunk.heightmaps.world_surface_at(3, 4), 17);
    assert_eq!(chunk.heightmaps.ocean_floor_at(15, 15), 17);
    assert_eq!(chunk.block_at(0, 0, 0), b"minecraft:stone");
    assert_eq!(chunk.block_at(5, 15, 7), b"minecraft:stone");
    assert_eq!(chunk.block_at(5, 16, 7), b"minecraft:grass_block");
    assert_eq!(chunk.block_at(5, 17, 7), b"minecraft:air");
    assert_eq!(chunk.sections.len(), 2);
}

#[test]
fn chunk_status_must_be_full() {
    let data = chunk_nbt("minecraft:noise");
    match from_bytes::<Chunk>(&data) {
        Err(DeserializationError::Custom(m)) => assert_eq!(m, "status not minecraft:full"),
        _ => panic!("expected the status to be refused"),
    }
}

#[test]
fn chunk_without_sections_is_refused() {
    let mut chunk = Chunk::default();
    assert_eq!(chunk.validate_and_init(), Err(ChunkError::NoSections));
    assert_eq!(ChunkError::NoSections.message(), "no sections");
    let _ = StatusMinecraftFull;
}

#[test]
fn truncated_chunk_is_eof() {
    let data = chunk_nbt("minecraft:full");
    let cut = &data[..data.len() - 3];
    assert!(matches!(from_bytes::<Chunk>(cut), Err(DeserializationError::EOF)));
}

#[test]
fn loader_finds_the_chunk() {
    let nbt = chunk_nbt("minecraft:full");
    let file = region_with_chunk(33, &nbt);
    let mut loader = McaLoader::new();
    assert!(loader.load_mca(file).is_ok());
    assert_eq!(loader.get_chunk_data(33).unwrap(), &nbt[..]);
    assert_eq!(loader.get_chunk_data(0), Err(LoaderError::ChunkNotFound));
}

#[test]
fn loader_refuses_short_files() {
    let mut loader = McaLoader::new();
    assert_eq!(loader.load_mca(vec![0u8; 100]), Err(LoaderError::TooShort));
    assert_eq!(LoaderError::TooShort.message(), "invalid header (too short)");
}

#[test]
fn loader_reports_bad_zlib_data() {
    let mut file = vec![0u8; 8192];
    file[0..4].copy_from_slice(&((2u32 << 8) | 1).to_be_bytes());
    file.extend_from_slice(&11i32.to_be_bytes());
    file.push(2);
    file.extend_from_slice(&[1, 2, 3, 4, 5, 6, 7, 8, 9, 10]);
    file.resize(8192 + 4096, 0);
    let mut loader = McaLoader::new();
    loader.load_mca(file).unwrap();
    assert!(matches!(loader.get_chunk_data(0), Err(LoaderError::Decompression(_))));
}

#[test]
fn loader_refuses_other_compression() {
    let mut file = vec![0u8; 8192];
    file[0..4].copy_from_slice(&((2u32 << 8) | 1).to_be_bytes());
    file.extend_from_slice(&11i32.to_be_bytes());
    file.push(1);
    file.resize(8192 + 4096, 0);
    let mut loader = McaLoader::new();
    loader.load_mca(file).unwrap();
    assert_eq!(loader.get_chunk_data(0), Err(LoaderError::UnexpectedCompression));
}

#[test]
fn loader_grows_its_buffer() {
    // a chunk that decompresses to more than the initial buffer
    let mut nbt = chunk_nbt("minecraft:full");
    nbt.pop();
    named(&mut nbt, 7, "filler");
    nbt.extend_from_slice(&200000i32.to_be_bytes());
    nbt.extend(std::iter::repeat(7u8).take(200000));
    nbt.push(0);
    let file = region_with_chunk(5, &nbt);
    let mut loader = McaLoader::new();
    loader.load_mca(file).unwrap();
    let cd = loader.get_chunk_data(5).unwrap();
    assert_eq!(cd.len(), nbt.len());
    let (_, mut chunk, _) = from_bytes::<Chunk>(cd).expect("parses");
    assert!(chunk.validate_and_init().is_ok());
}

use mca_viewer_rs::block_id::BlockId;
use mca_viewer_rs::palette::palette_from_entries;
use mca_viewer_rs::render::{render_region, render_slice, ColorLookup, RenderError, IMAGE_BYTES};

fn test_palette() -> Vec<(Vec<u8>, [u8; 4])> {
    vec![
        (b"minecraft:stone".to_vec(), [128, 128, 128, 255]),
        (b"minecraft:water".to_vec(), [0, 0, 200, 255]),
        (b"minecraft:grass_block".to_vec(), [0, 150, 0, 255]),
    ]
}

fn pixel(img: &[u8], x: usize, y: usize) -> [u8; 4] {
    let b = 4 * (512 * y + x);
    [img[b], img[b + 1], img[b + 2], img[b + 3]]
}

#[test]
fn render_region_draws_the_chunk() {
    let file = region_with_chunk(33, &chunk_nbt("minecraft:full"));
    let mut loader = McaLoader::new();
    loader.load_mca(file).unwrap();
    let (pal, mut int) = palette_from_entries(&test_palette()).unwrap();
    let mut img = vec![7u8; IMAGE_BYTES];
    let mut lookup = Box::new(ColorLookup::default());
    let r = render_region(&mut loader, &pal, &mut int, &mut img, &mut lookup, false, true).unwrap();
    let map = r.expect("a block map was asked for");
    assert_eq!(pixel(&img, 16, 16), [0, 150, 0, 255]);
    assert_eq!(pixel(&img, 31, 31), [0, 150, 0, 255]);
    assert_eq!(pixel(&img, 0, 0), [0, 0, 0, 0]);
    assert_eq!(pixel(&img, 32, 16), [0, 0, 0, 0]);
    assert_eq!(map.get(16, 16), BlockId(3));
    assert_eq!(map.get(0, 0), BlockId(0));
    assert_eq!(lookup.get(16 + 512 * 20), BlockId(3));
}

#[test]
fn render_slice_looks_below_the_cut() {
    let file = region_with_chunk(33, &chunk_nbt("minecraft:full"));
    let mut loader = McaLoader::new();
    loader.load_mca(file).unwrap();
    let (pal, mut int) = palette_from_entries(&test_palette()).unwrap();
    let mut img = vec![0u8; IMAGE_BYTES];
    let mut lookup = Box::new(ColorLookup::default());
    let r = render_slice(&mut loader, &pal, &mut int, &mut img, &mut lookup, 20, false, false).unwrap();
    assert!(r.is_none());
    assert_eq!(pixel(&img, 20, 20), [0, 150, 0, 255]);
    // cut inside the stone: the stone is shown
    let r = render_slice(&mut loader, &pal, &mut int, &mut img, &mut lookup, 10, false, false).unwrap();
    assert!(r.is_none());
    assert_eq!(pixel(&img, 20, 20), [128, 128, 128, 255]);
}

#[test]
fn render_region_without_chunks_fails() {
    let mut loader = McaLoader::new();
    loader.load_mca(vec![0u8; 8192]).unwrap();
    let (pal, mut int) = palette_from_entries(&test_palette()).unwrap();
    let mut img = vec![0u8; IMAGE_BYTES];
    let mut lookup = Box::new(ColorLookup::default());
    let r = render_region(&mut loader, &pal, &mut int, &mut img, &mut lookup, true, false);
    assert!(matches!(r, Err(RenderError::NoChunkOk)));
}

#[test]
fn heightmap_of_wrong_length_is_refused() {
    let mut h = Heightmap::default();
    let mut data = vec![0u8, 0, 0, 36];
    data.extend_from_slice(&[0u8; 36 * 8]);
    match h.deserialize_payload(&data) {
        Err(DeserializationError::Custom(m)) => assert_eq!(m, "unexected array length"),
        _ => panic!("expected the length to be refused"),
    }
    let mut short = vec![0u8, 0, 0, 37];
    short.extend_from_slice(&[0u8; 10]);
    assert!(matches!(h.deserialize_payload(&short), Err(DeserializationError::EOF)));
}
