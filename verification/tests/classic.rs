use mca_viewer_rs::classic::{render_mca, BlockState, Chunk, Heightmaps, Palette, Section};
use mca_viewer_rs::render::IMAGE_BYTES;

fn heightmap(h: i64) -> Vec<i64> {
    let mut w = 0i64;
    for i in 0..7 {
        w |= h << (9 * i);
    }
    vec![w; 37]
}

fn chunk(h: i64) -> Chunk {
    let mut data = vec![0i64; 256];
    for i in 0..4096 {
        let v: i64 = if i < 256 { 1 } else { 0 };
        data[i / 16] |= v << (4 * (i % 16));
    }
    Chunk {
        status: "minecraft:full".to_string(),
        sections: vec![
            Section { y: 0, block_states: BlockState { palette: vec!["minecraft:stone".to_string()], data: None } },
            Section {
                y: 1,
                block_states: BlockState {
                    palette: vec!["minecraft:air".to_string(), "minecraft:grass_block".to_string()],
                    data: Some(data),
                },
            },
        ],
        y_pos: 0,
        heightmaps: Heightmaps { world_surface: heightmap(h), ocean_floor: heightmap(h) },
    }
}

fn palette() -> Palette {
    Palette {
        blocks: vec![
            ("minecraft:water".to_string(), [0, 0, 200, 255]),
            ("minecraft:grass_block".to_string(), [0, 150, 0, 255]),
            ("minecraft:stone".to_string(), [128, 128, 128, 255]),
        ],
    }
}

#[test]
fn classic_block_at() {
    let c = chunk(17);
    assert_eq!(c.block_at(0, 0, 0), "minecraft:stone");
    assert_eq!(c.block_at(3, 16, 9), "minecraft:grass_block");
    assert_eq!(c.block_at(3, 17, 9), "minecraft:air");
    assert_eq!(c.block_at(3, 40, 9), "minecraft:air");
    assert_eq!(c.heightmaps.world_surface_at(4, 4), 17);
    assert!(c.section_for_y(20).is_some());
    assert!(c.section_for_y(40).is_none());
}

#[test]
fn classic_palette_lookup() {
    let p = palette();
    assert_eq!(p.get("minecraft:stone"), Some([128, 128, 128, 255]));
    assert_eq!(p.get("minecraft:dirt"), None);
}

#[test]
fn classic_render_darkens_low_ground() {
    let mut chunks: Vec<Option<Chunk>> = (0..1024).map(|_| None).collect();
    chunks[0] = Some(chunk(17));
    let img = render_mca(&chunks, &palette());
    assert_eq!(img.len(), IMAGE_BYTES);
    // 110 blocks below 127: blended with black at opacity 30
    let b = 4 * (512 * 5 + 5);
    let expected_g = ((150u32 * 30 + 128) + ((150u32 * 30 + 128) >> 8)) >> 8;
    assert_eq!(&img[b..b + 4], &[0, expected_g as u8, 0, 255]);
    assert_eq!(&img[4 * 20..4 * 20 + 4], &[0, 0, 0, 0]);
}

#[test]
fn classic_palette_from_strings() {
    let raw = vec![("minecraft:water".to_string(), "#0a0B0c".to_string())];
    let p = Palette::from_strings(&raw).unwrap();
    assert_eq!(p.get("minecraft:water"), Some([10, 11, 12, 255]));
    assert!(Palette::from_strings(&vec![("x".to_string(), "#zz0000".to_string())]).is_err());
}
