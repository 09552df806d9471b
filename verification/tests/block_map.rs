use mca_viewer_rs::block_id::{BlockId, BlockIdVariants, StaticId, DynId};
use mca_viewer_rs::block_map::{distinct_at_most, BlockIdMapping, PackedBlockMap};
use rand::{seq::IndexedRandom, seq::IteratorRandom, SeedableRng};

fn get_data(num_distinct: usize) -> Box<[BlockId; 512 * 512]> {
    const SEED: u64 = 1234;
    let mut r = rand::rngs::StdRng::seed_from_u64(SEED);

    let blocks_u16 = (0u16..=u16::MAX).choose_multiple(&mut r, num_distinct);

    let mut blocks = Box::new([BlockId::invalid(); 512 * 512]);

    for b in blocks.iter_mut() {
        let block = *blocks_u16.choose(&mut r).unwrap();
        *b = block.into()
    }

    blocks
}

fn roundtrip_helper(num_distinct: usize) {
    let block_map = get_data(num_distinct);
    let packed = PackedBlockMap::new(&block_map);

    for (i, id_from_array) in block_map.iter().copied().enumerate() {
        let x = i % 512;
        let z = i / 512;
        let id_from_packed = packed.get(x, z);

        assert_eq!(id_from_array, id_from_packed);
    }
}

#[test]
fn block_map_roundtrip() {
    roundtrip_helper(1);
    roundtrip_helper(2);
    roundtrip_helper(10);
    roundtrip_helper(1000);
}

#[test]
fn try_new_refuses_too_many_ids() {
    let mut blocks = Box::new([BlockId::invalid(); 512 * 512]);
    for (i, b) in blocks.iter_mut().enumerate() {
        *b = BlockId((i % 5000) as u16);
    }
    assert!(!distinct_at_most(&blocks, 4096));
    assert!(PackedBlockMap::try_new(&blocks).is_none());

    for (i, b) in blocks.iter_mut().enumerate() {
        *b = BlockId((i % 4096) as u16);
    }
    assert!(distinct_at_most(&blocks, 4096));
    assert!(!distinct_at_most(&blocks, 4095));
    let packed = PackedBlockMap::try_new(&blocks).expect("4096 ids fit");
    assert_eq!(packed.get(5, 0), BlockId(5));
    assert_eq!(packed.get(0, 1), BlockId(512));
}

#[test]
fn block_id_kinds() {
    assert!(matches!(BlockId(0).into_specialized(), BlockIdVariants::Invalid));
    assert!(matches!(BlockId(1).into_specialized(), BlockIdVariants::Static(StaticId(1))));
    assert!(matches!(BlockId(32767).into_specialized(), BlockIdVariants::Static(StaticId(32767))));
    assert!(matches!(BlockId(32768).into_specialized(), BlockIdVariants::Dyn(DynId(32768))));
    assert_eq!(u16::from(BlockId::from(StaticId(7))), 7);
}

#[test]
fn mapping_palette_order() {
    let mut cs = Box::new([BlockId::from(7u16); 512 * 512]);
    cs[0] = BlockId::from(40000u16);
    cs[1] = BlockId::from(9u16);
    cs[2] = BlockId::invalid();
    let m = BlockIdMapping::new(&cs);
    assert_eq!(m.get_index(BlockId::from(9u16)), 0);
    assert_eq!(m.get_index(BlockId::from(7u16)), 1);
    assert_eq!(m.get_index(BlockId::from(40000u16)), 2);
    assert_eq!(m.get_index(BlockId::invalid()), 3);
    assert_eq!(m.into_palette(), vec![BlockId::from(9u16), BlockId::from(7u16), BlockId::from(40000u16), BlockId::invalid()]);
}

#[test]
fn block_map_roundtrip_at_every_width() {
    // 129..=256 distinct ids need 8-bit slots; the others cover the widths around it
    for n in [3, 5, 17, 33, 65, 129, 200, 256, 257, 513, 2049, 4096] {
        roundtrip_helper(n);
    }
}
