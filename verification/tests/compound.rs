use mca_viewer_rs::nbt::compound::{deserialize_compound, serialize_compound, CompoundFields, SerializeFields};
use mca_viewer_rs::nbt::deserialize::{DeserializePayload, Optional};
use mca_viewer_rs::nbt::error::{DeserializationError, DeserializationResult, SerializationError};
use mca_viewer_rs::nbt::serialize::{serialize_nbt, SerializePayload};
use mca_viewer_rs::nbt::tag::Tag;
use mca_viewer_rs::nbt::from_bytes;

#[derive(Default, Debug, PartialEq)]
struct Point {
    x: i32,
    name: String,
    tags: Option<Vec<i8>>,
}

const NAMES: [&str; 3] = ["x", "Name", "tags"];

impl<'d> CompoundFields<'d> for Point {
    fn num_fields() -> usize {
        3
    }
    fn field_name(i: usize) -> &'static str {
        NAMES[i]
    }
    fn field_optional(i: usize) -> bool {
        i == 2
    }
    fn field_tag(i: usize) -> Tag {
        [Tag::Int, Tag::String, Tag::List][i]
    }
    fn read_field(&mut self, i: usize, data: &'d [u8]) -> DeserializationResult<usize> {
        match i {
            0 => self.x.deserialize_payload(data),
            1 => self.name.deserialize_payload(data),
            _ => self.tags.deserialize_payload(data),
        }
    }    fn mark_absent(&mut self, i: usize) {
        if i == 2 {
            self.tags.handle_absent();
        }
    }
}

impl<'d> DeserializePayload<'d> for Point {
    const TAG: Tag = Tag::Compound;
    fn deserialize_payload(&mut self, data: &'d [u8]) -> DeserializationResult<usize> {
        deserialize_compound(self, data)
    }
}

impl SerializeFields for Point {
    fn num_fields() -> usize {
        3
    }
    fn field_name(i: usize) -> &'static str {
        NAMES[i]
    }
    fn field_tag(i: usize) -> Tag {
        [Tag::Int, Tag::String, Tag::List][i]
    }
    fn write_field(&self, i: usize, buf: &mut Vec<u8>) -> Result<(), SerializationError> {
        match i {
            0 => self.x.serialize_into(buf),
            1 => self.name.serialize_into(buf),
            _ => self.tags.clone().unwrap_or_default().serialize_into(buf),
        }
    }
}

impl SerializePayload for Point {
    const TAG: Tag = Tag::Compound;
    fn serialize_into(&self, buf: &mut Vec<u8>) -> Result<(), SerializationError> {
        serialize_compound(self, buf)
    }
}

#[test]
fn compound_roundtrip() {
    let p = Point { x: -7, name: "here".to_string(), tags: Some(vec![1, 2]) };
    let bytes = serialize_nbt("p", &p).unwrap();
    let (name, q, n) = from_bytes::<Point>(&bytes).unwrap();
    assert_eq!(name, "p");
    assert_eq!(n, bytes.len());
    assert_eq!(q, p);
}

#[test]
fn compound_fields_in_any_order_and_unknown_ones_skipped() {
    // Name, an unknown long, then x; tags missing (optional)
    let mut d = vec![8, 0, 4, b'N', b'a', b'm', b'e', 0, 1, b'a'];
    d.extend_from_slice(&[4, 0, 1, b'z', 0, 0, 0, 0, 0, 0, 0, 9]);
    d.extend_from_slice(&[3, 0, 1, b'x', 0, 0, 0, 5]);
    d.push(0);
    let mut p = Point::default();
    assert_eq!(p.deserialize_payload(&d).unwrap(), d.len());
    assert_eq!(p, Point { x: 5, name: "a".to_string(), tags: None });
}

#[test]
fn compound_errors() {
    let mut p = Point::default();
    // x missing
    let d = vec![8, 0, 4, b'N', b'a', b'm', b'e', 0, 1, b'a', 0];
    assert!(matches!(p.deserialize_payload(&d), Err(DeserializationError::FieldNotFound("x"))));
    // x given twice
    let mut d = vec![3, 0, 1, b'x', 0, 0, 0, 5, 3, 0, 1, b'x', 0, 0, 0, 6];
    d.extend_from_slice(&[8, 0, 4, b'N', b'a', b'm', b'e', 0, 0, 0]);
    assert!(matches!(p.deserialize_payload(&d), Err(DeserializationError::FieldDuplicate("x"))));
    // x with the wrong tag
    let d = vec![1, 0, 1, b'x', 5, 0];
    assert!(matches!(p.deserialize_payload(&d), Err(DeserializationError::UnexpectedTag(1))));
    // no End
    let d = vec![3, 0, 1, b'x', 0, 0, 0, 5];
    assert!(matches!(p.deserialize_payload(&d), Err(DeserializationError::EOF)));
    // empty compound: all fields required but tags
    assert!(matches!(p.deserialize_payload(&[0]), Err(DeserializationError::FieldNotFound(_))));
}

#[test]
fn absent_optional_fields_read_as_absent() {
    // Read a point with tags, then read into it again from data without tags.
    let p = Point { x: 1, name: "a".to_string(), tags: Some(vec![3]) };
    let bytes = serialize_nbt("p", &p).unwrap();
    let (_, mut q, _) = from_bytes::<Point>(&bytes).unwrap();
    assert_eq!(q.tags, Some(vec![3]));
    let mut d = vec![3, 0, 1, b'x', 0, 0, 0, 7];
    d.extend_from_slice(&[8, 0, 4, b'N', b'a', b'm', b'e', 0, 1, b'b']);
    d.push(0);
    assert_eq!(q.deserialize_payload(&d).unwrap(), d.len());
    assert_eq!(q, Point { x: 7, name: "b".to_string(), tags: None });
}
