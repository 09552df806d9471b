use mca_viewer_rs::nbt::arrays::{ByteArrayBytes, IntArrayBytes, LongArrayBytes};
use mca_viewer_rs::nbt::deserialize::DeserializePayload;
use mca_viewer_rs::nbt::error::DeserializationError;
use mca_viewer_rs::nbt::helper::{
    deserialize_nbt_str, read_i32_len, serialize_nbt_str, skip_payload, write_i32_len,
};
use mca_viewer_rs::nbt::reuse::{List, OptionalValue, Reusable};
use mca_viewer_rs::nbt::serialize::serialize_nbt;
use mca_viewer_rs::nbt::tag::Tag;
use mca_viewer_rs::nbt::{from_bytes, RawString};

#[test]
fn numbers_roundtrip() {
    let b = serialize_nbt("n", &-5i8).unwrap();
    assert_eq!(b, vec![1, 0, 1, b'n', 0xfb]);
    assert_eq!(from_bytes::<i8>(&b).unwrap(), ("n", -5, 5));

    let b = serialize_nbt("v", &-2i16).unwrap();
    assert_eq!(from_bytes::<i16>(&b).unwrap().1, -2);
    let b = serialize_nbt("v", &i32::MIN).unwrap();
    assert_eq!(from_bytes::<i32>(&b).unwrap().1, i32::MIN);
    let b = serialize_nbt("v", &0x0102030405060708i64).unwrap();
    assert_eq!(&b[4..], &[1, 2, 3, 4, 5, 6, 7, 8]);
    assert_eq!(from_bytes::<i64>(&b).unwrap().1, 0x0102030405060708);
}

#[test]
fn strings_and_lists_roundtrip() {
    let b = serialize_nbt("s", &"héllo".to_string()).unwrap();
    let (name, s, n) = from_bytes::<String>(&b).unwrap();
    assert_eq!((name, s.as_str(), n), ("s", "héllo", b.len()));

    let v: Vec<i32> = vec![1, -2, 300];
    let b = serialize_nbt("l", &v).unwrap();
    let (_, w, _) = from_bytes::<Vec<i32>>(&b).unwrap();
    assert_eq!(w, v);

    let (_, l, _) = from_bytes::<List<i32>>(&b).unwrap();
    assert_eq!(l.as_slice(), &[1, -2, 300]);
    assert_eq!(l.len(), 3);
    assert!(!l.is_empty());
}

#[test]
fn string_helpers() {
    let mut buf = Vec::new();
    serialize_nbt_str("abc", &mut buf).unwrap();
    assert_eq!(buf, vec![0, 3, b'a', b'b', b'c']);
    assert_eq!(deserialize_nbt_str(&buf).unwrap(), ("abc", 5));
    assert!(matches!(deserialize_nbt_str(&buf[..4]), Err(DeserializationError::EOF)));
    assert!(matches!(deserialize_nbt_str(&[0, 1, 0xff]), Err(DeserializationError::InvalidUTF8(_))));

    let mut buf = Vec::new();
    write_i32_len(70000, &mut buf).unwrap();
    assert_eq!(buf, vec![0, 1, 0x11, 0x70]);
    assert_eq!(read_i32_len(&buf).unwrap(), 70000);
    assert!(matches!(read_i32_len(&[0x80, 0, 0, 0]), Err(DeserializationError::InvalidI32Length)));
}

#[test]
fn header_errors() {
    assert!(matches!(from_bytes::<i8>(&[1, 0]), Err(DeserializationError::EOF)));
    assert!(matches!(from_bytes::<i8>(&[0, 0, 0, 0]), Err(DeserializationError::UnexpectedTag(0))));
    assert!(matches!(from_bytes::<i8>(&[13, 0, 0, 0]), Err(DeserializationError::UnexpectedTag(13))));
    assert!(matches!(Tag::try_from(20), Err(DeserializationError::UnexpectedTag(20))));
    assert_eq!(Tag::try_from(12).unwrap().to_u8(), 12);
    assert_eq!(Tag::LongArray.fixed_size(), None);
    assert_eq!(Tag::Long.fixed_size(), Some(8));
}

#[test]
fn skipping_payloads() {
    // a compound with an int and a list of two strings
    let mut c = vec![3, 0, 1, b'a', 0, 0, 0, 5];
    c.extend_from_slice(&[9, 0, 1, b'b', 8, 0, 0, 0, 2, 0, 1, b'x', 0, 2, b'y', b'z']);
    c.push(0);
    assert_eq!(skip_payload(&c, Tag::Compound).unwrap(), c.len());
    assert_eq!(skip_payload(&[0, 0, 0, 2, 1, 2, 3, 4, 5, 6, 7, 8], Tag::IntArray).unwrap(), 12);
    assert!(matches!(skip_payload(&[0, 0, 0, 3, 1], Tag::ByteArray), Err(DeserializationError::EOF)));
}

#[test]
fn array_bytes() {
    let mut d = vec![0, 0, 0, 2];
    d.extend_from_slice(&[0, 0, 0, 0, 0, 0, 0, 1, 0, 0, 0, 0, 0, 0, 0, 2]);
    let mut l = LongArrayBytes::default();
    assert_eq!(l.deserialize_payload(&d).unwrap(), 20);
    assert_eq!(l.bytes().len(), 16);
    let mut i = IntArrayBytes::default();
    assert_eq!(i.deserialize_payload(&d).unwrap(), 12);
    assert_eq!(i.bytes(), &[0, 0, 0, 0, 0, 0, 0, 1]);
    let mut b = ByteArrayBytes::default();
    assert_eq!(b.deserialize_payload(&d).unwrap(), 6);
    assert_eq!(b.bytes(), &[0, 0]);
}

#[test]
fn raw_strings_and_optionals() {
    let mut r = RawString::default();
    assert_eq!(r.deserialize_payload(&[0, 2, 0xff, 0xfe, 9]).unwrap(), 4);
    assert_eq!(r.inner_lifetimed(), &[0xff, 0xfe]);

    let mut o: OptionalValue<i32> = OptionalValue::default();
    assert!(o.as_option().is_none());
    o.deserialize_payload(&[0, 0, 0, 9]).unwrap();
    assert_eq!(o.as_option(), Some(&9));
    if let Some(v) = o.as_option_mut() {
        *v = 10;
    }
    assert_eq!(o.into_option(), Some(10));
}

#[test]
fn reusable_reads_again() {
    let mut r: Reusable<Vec<i8>> = Reusable::default();
    let b = serialize_nbt("a", &vec![1i8, 2, 3]).unwrap();
    {
        let (name, g, _) = r.try_deserialize_into(&b).unwrap();
        assert_eq!(name, "a");
        assert_eq!(g.get(), &vec![1, 2, 3]);
    }
    let b = serialize_nbt("b", &vec![4i8]).unwrap();
    let (_, g, _) = r.try_deserialize_into(&b).unwrap();
    assert_eq!(g.get(), &vec![4]);
}

#[test]
fn element_errors_pass_through() {
    // a list of two shorts whose second element is cut short
    let mut v: Vec<i16> = Vec::new();
    assert!(matches!(v.deserialize_payload(&[2, 0, 0, 0, 2, 0, 1, 0]), Err(DeserializationError::EOF)));

    // a list of one string that is not UTF-8
    let d = [8u8, 0, 0, 0, 1, 0, 1, 0xff];
    let mut s: Vec<String> = Vec::new();
    assert!(matches!(s.deserialize_payload(&d), Err(DeserializationError::InvalidUTF8(_))));
    let mut l: List<String> = List::default();
    assert!(matches!(l.deserialize_payload(&d), Err(DeserializationError::InvalidUTF8(_))));

    // a negative count
    let mut w: Vec<i32> = Vec::new();
    assert!(matches!(w.deserialize_payload(&[3, 0x80, 0, 0, 0]), Err(DeserializationError::InvalidI32Length)));

    // a named list whose second byte element is missing
    assert!(matches!(
        from_bytes::<Vec<i8>>(&[9, 0, 1, b'x', 1, 0, 0, 0, 2, 5]),
        Err(DeserializationError::EOF)
    ));
}

#[test]
fn skipping_takes_what_reading_takes() {
    let b = serialize_nbt("l", &vec![1i32, 2, 3]).unwrap();
    let mut data = b[4..].to_vec();
    data.extend_from_slice(&[7, 7]);
    let mut v: Vec<i32> = Vec::new();
    let k = v.deserialize_payload(&data).unwrap();
    assert_eq!(skip_payload(&data, Tag::List).unwrap(), k);

    let b = serialize_nbt("s", &"hé".to_string()).unwrap();
    let data = &b[4..];
    let mut s = String::new();
    let k = s.deserialize_payload(data).unwrap();
    assert_eq!(skip_payload(data, Tag::String).unwrap(), k);
}
