use mca_viewer_rs::block_id::{BlockId, BlockIdVariants};
use mca_viewer_rs::palette::{get_water_col, palette_from_entries, parse_hex_rgb, PaletteError};

#[test]
fn palette_parse_hex_colors() {
    let c = parse_hex_rgb("#FF00FF").expect("should be Ok");
    assert_eq!(c, [255, 0, 255]);

    let c = parse_hex_rgb("#ff00FF").expect("should be Ok");
    assert_eq!(c, [255, 0, 255]);

    assert!(parse_hex_rgb("").is_err());
    assert!(parse_hex_rgb("AABBCC").is_err());
    assert!(parse_hex_rgb("FF00FX").is_err());
    assert!(parse_hex_rgb("FF00F").is_err());
    assert!(parse_hex_rgb("-FF00F").is_err());
}

#[test]
fn parse_hex_colors() {
    let c = parse_hex_rgb("#FF00FF").expect("should be Ok");
    assert_eq!(c, [255, 0, 255]);

    let c = parse_hex_rgb("#ff00FF").expect("should be Ok");
    assert_eq!(c, [255, 0, 255]);

    assert!(parse_hex_rgb("").is_err());
    assert!(parse_hex_rgb("AABBCC").is_err());
    assert!(parse_hex_rgb("FF00FX").is_err());
    assert!(parse_hex_rgb("FF00F").is_err());
    assert!(parse_hex_rgb("-FF00F").is_err());
}

#[test]
fn hex_errors_say_why() {
    assert_eq!(parse_hex_rgb("AABBCC").unwrap_err(), "expected hex color with format #RRGGBB");
    assert_eq!(parse_hex_rgb("#GG0000").unwrap_err(), "invalid digit found in string");
    assert_eq!(parse_hex_rgb("#-10000").unwrap_err(), "invalid digit found in string");
    assert_eq!(parse_hex_rgb("#+F0a0B").unwrap_err(), "invalid digit found in string");
    assert_eq!(parse_hex_rgb("#0F0a0B").unwrap(), [15, 10, 11]);
    assert_eq!(parse_hex_rgb("#éé0").unwrap_err(), "expected hex color with format #RRGGBB");
}

fn entries() -> Vec<(Vec<u8>, [u8; 4])> {
    vec![
        (b"minecraft:stone".to_vec(), [128, 128, 128, 255]),
        (b"minecraft:water".to_vec(), [0, 0, 200, 255]),
        (b"minecraft:grass_block".to_vec(), [0, 150, 0, 255]),
    ]
}

#[test]
fn sanity_check() {
    let (pal, mut int) = palette_from_entries(&entries()).expect("palette builds");
    let i1 = int.get_idx_static(b"minecraft:water").unwrap();
    let i2 = int.get_idx_static(b"minecraft:water").unwrap();
    assert_eq!(i1, i2);
    let j1 = int.get_or_intern(b"xyz");
    let j2 = int.get_or_intern(b"xyz");
    assert_eq!(j1, j2);

    let s = j1.into_specialized();
    assert!(matches!(s, BlockIdVariants::Dyn(_)));
    assert_eq!(get_water_col(&pal), [0, 0, 200, 255]);
}

#[test]
fn palette_colors_by_id_and_name() {
    let (pal, mut int) = palette_from_entries(&entries()).expect("palette builds");
    let stone = int.get_or_intern(b"minecraft:stone");
    assert_eq!(stone, BlockId(1));
    assert_eq!(pal.get_static_color_by_id(stone), [128, 128, 128, 255]);
    assert_eq!(pal.get(BlockId(3)), [0, 150, 0, 255]);
    assert_eq!(pal.get_static_color_by_bytes(&int, b"minecraft:grass_block"), [0, 150, 0, 255]);
    assert_eq!(pal.get_static_color_by_bytes(&int, b"minecraft:unknown"), [0, 0, 255, 255]);
    let dynamic = int.get_or_intern(b"minecraft:unknown");
    assert_eq!(dynamic, BlockId(32768));
    assert_eq!(pal.get(dynamic), [0, 0, 255, 255]);
    assert_eq!(int.get_bytes(dynamic), Some(&b"minecraft:unknown"[..]));
    assert_eq!(int.get_bytes(BlockId(2)), Some(&b"minecraft:water"[..]));
    assert_eq!(int.get_bytes(BlockId(0)), None);
    assert_eq!(int.get_bytes(BlockId(40000)), None);
}

#[test]
fn palette_needs_water() {
    let e = vec![(b"minecraft:stone".to_vec(), [1, 2, 3, 255])];
    assert!(matches!(palette_from_entries(&e), Err(PaletteError::NoWater)));
}

#[test]
fn repeated_name_takes_later_color() {
    let mut e = entries();
    e.push((b"minecraft:stone".to_vec(), [9, 9, 9, 255]));
    let (pal, int) = palette_from_entries(&e).expect("palette builds");
    assert_eq!(pal.get_static_color_by_bytes(&int, b"minecraft:stone"), [9, 9, 9, 255]);
}

use mca_viewer_rs::palette::palette_entries_from_strings;

#[test]
fn palette_entries_parse_colors() {
    let raw = vec![
        ("minecraft:water".to_string(), "#0000C8".to_string()),
        ("minecraft:dirt".to_string(), "#8B5A2B".to_string()),
    ];
    let e = palette_entries_from_strings(&raw).unwrap();
    assert_eq!(e[0], (b"minecraft:water".to_vec(), [0, 0, 200, 255]));
    assert_eq!(e[1].1, [0x8b, 0x5a, 0x2b, 255]);
    let bad = vec![("a".to_string(), "#12345".to_string())];
    assert_eq!(palette_entries_from_strings(&bad).unwrap_err(), "expected hex color with format #RRGGBB");
}

#[test]
fn last_entry_of_a_name_gives_its_colour() {
    let e = vec![
        (b"minecraft:water".to_vec(), [1, 2, 3, 255]),
        (b"minecraft:stone".to_vec(), [4, 5, 6, 255]),
        (b"minecraft:water".to_vec(), [7, 8, 9, 255]),
    ];
    let (p, i) = palette_from_entries(&e).unwrap();
    assert_eq!(get_water_col(&p), [7, 8, 9, 255]);
    assert_eq!(p.get_static_color_by_bytes(&i, b"minecraft:water"), [7, 8, 9, 255]);
    assert_eq!(p.get_static_color_by_bytes(&i, b"minecraft:stone"), [4, 5, 6, 255]);
    assert_eq!(p.get_static_color_by_bytes(&i, b"other"), [0, 0, 255, 255]);
}
