use mca_viewer_rs::bitpack::{
    bits_required, pack_into_i64s, unpack_from_long_bytes, unpack_from_longs,
    unpack_from_u64_bytes_dispatch, unpack_u9_from_u64s, PackedBitsView, PackedIter,
};

fn packed_words(nums: &[u16], bit_width: usize) -> Vec<u64> {
    let mut it = PackedIter::new(nums, bit_width);
    let mut out = Vec::new();
    while let Some(w) = it.next() {
        out.push(w);
    }
    out
}

fn roundtrip_helper(bit_width: usize, input_len: usize) {
    assert!((4..=12).contains(&bit_width));

    let nums = (0..input_len)
        .map(|i| (i as u16) % (1 << bit_width))
        .collect::<Vec<u16>>();

    let u64s = packed_words(&nums, bit_width);

    assert_eq!(u64s.len(), input_len.div_ceil(64 / bit_width));
    assert_eq!(PackedIter::new(&nums, bit_width).len(), u64s.len());

    let bs = packed_words(&nums, bit_width)
        .iter()
        .flat_map(|v| v.to_be_bytes())
        .collect::<Vec<u8>>();

    assert!((0..nums.len()).all(|i| nums[i] == unpack_from_u64_bytes_dispatch(&bs, bit_width, i)));
}

#[test]
fn bitpack_roundtrip() {
    for bit_width in 4..=12 {
        roundtrip_helper(bit_width, 0);
        roundtrip_helper(bit_width, 1019);
        roundtrip_helper(bit_width, (64 / bit_width) * 10);
    }
}

#[test]
fn bitpack_test_bits_required() {
    assert_eq!(0, bits_required(1));
    assert_eq!(1, bits_required(2));
    assert_eq!(3, bits_required(7));
    assert_eq!(3, bits_required(8));
    assert_eq!(4, bits_required(9));
}

#[test]
fn test_bits_required() {
    assert_eq!(3, bits_required(7));
    assert_eq!(3, bits_required(8));
    assert_eq!(4, bits_required(9));
}

#[test]
fn simple_test() {
    let u = vec![-1i64];

    let p = PackedBitsView::new(&u, 8);

    assert_eq!(p.len(), 8);

    let expected: Vec<u16> = vec![255, 255, 255, 255, 255, 255, 255, 255];

    let unpacked: Vec<u16> = (0..p.len()).map(|i| p.get(i)).collect();

    assert_eq!(expected, unpacked);
}

#[test]
fn roundtrip_test() {
    let v: Vec<u64> = vec![1, 2, 3, 4, 5, 6, 7];

    let packed = pack_into_i64s::<8>(&v);

    assert_eq!(packed.len(), 1);

    let p = vec![packed[0]];

    let unpacked_view = PackedBitsView::new(&packed, 8);

    assert_eq!(unpacked_view.len(), 8);

    let unpacked_nums_1: Vec<u64> = (0..7).map(|i| unpacked_view.get(i) as u64).collect();
    let unpacked_nums_2: Vec<u64> = (0..7)
        .map(|i| unpack_from_longs(p.as_slice(), 8, i) as u64)
        .collect();

    assert_eq!(v, unpacked_nums_1);
    assert_eq!(v, unpacked_nums_2);
}

#[test]
fn bits_required_larger_values() {
    assert_eq!(12, bits_required(4096));
    assert_eq!(13, bits_required(4097));
    assert_eq!(10, bits_required(1000));
}

#[test]
fn unpack_9_bit_values() {
    // values 0..7 at 9 bits each, lowest first
    let mut w: u64 = 0;
    for (i, v) in [5u64, 300, 511, 0, 1, 256, 17].iter().enumerate() {
        w |= v << (9 * i);
    }
    let words = vec![w, 42];
    assert_eq!(unpack_u9_from_u64s(&words, 0), 5);
    assert_eq!(unpack_u9_from_u64s(&words, 1), 300);
    assert_eq!(unpack_u9_from_u64s(&words, 2), 511);
    assert_eq!(unpack_u9_from_u64s(&words, 6), 17);
    assert_eq!(unpack_u9_from_u64s(&words, 7), 42);
}

#[test]
fn long_bytes_match_u64_bytes() {
    let nums: Vec<u16> = (0..100).map(|i| (i * 7 % 32) as u16).collect();
    let bs: Vec<u8> = packed_words(&nums, 5).iter().flat_map(|v| v.to_be_bytes()).collect();
    for i in 0..nums.len() {
        assert_eq!(unpack_from_long_bytes(&bs, 5, i), nums[i]);
        assert_eq!(unpack_from_u64_bytes_dispatch(&bs, 5, i), nums[i]);
    }
}

#[test]
fn pack_then_unpack_twelve_bits() {
    let v: Vec<u64> = (0..20).map(|i| (i * 211) % 4096).collect();
    let packed = pack_into_i64s::<12>(&v);
    assert_eq!(packed.len(), 4);
    for i in 0..v.len() {
        assert_eq!(unpack_from_longs(&packed, 12, i) as u64, v[i]);
    }
}
