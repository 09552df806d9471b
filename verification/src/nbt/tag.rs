use vstd::prelude::*;
use crate::nbt::error::DeserializationError;

verus! {

/// The kinds of NBT values, each written as a one-byte tag.
#[derive(PartialEq, Eq, Structural, Debug, Clone, Copy)]
pub enum Tag {
    End,
    Byte,
    Short,
    Int,
    Long,
    Float,
    Double,
    ByteArray,
    String,
    List,
    Compound,
    IntArray,
    LongArray,
}

/// The tag a byte stands for, if any (bytes `0..=12`).
pub open spec fn tag_of(b: u8) -> Option<Tag> {
    if b == 0 {
        Some(Tag::End)
    } else if b == 1 {
        Some(Tag::Byte)
    } else if b == 2 {
        Some(Tag::Short)
    } else if b == 3 {
        Some(Tag::Int)
    } else if b == 4 {
        Some(Tag::Long)
    } else if b == 5 {
        Some(Tag::Float)
    } else if b == 6 {
        Some(Tag::Double)
    } else if b == 7 {
        Some(Tag::ByteArray)
    } else if b == 8 {
        Some(Tag::String)
    } else if b == 9 {
        Some(Tag::List)
    } else if b == 10 {
        Some(Tag::Compound)
    } else if b == 11 {
        Some(Tag::IntArray)
    } else if b == 12 {
        Some(Tag::LongArray)
    } else {
        None
    }
}

/// The byte that stands for a tag.
pub open spec fn tag_byte(t: Tag) -> u8 {
    match t {
        Tag::End => 0,
        Tag::Byte => 1,
        Tag::Short => 2,
        Tag::Int => 3,
        Tag::Long => 4,
        Tag::Float => 5,
        Tag::Double => 6,
        Tag::ByteArray => 7,
        Tag::String => 8,
        Tag::List => 9,
        Tag::Compound => 10,
        Tag::IntArray => 11,
        Tag::LongArray => 12,
    }
}

/// The payload size of the tags whose payload has a fixed size.
pub open spec fn spec_fixed_size(t: Tag) -> Option<nat> {
    match t {
        Tag::Byte => Some(1nat),
        Tag::Short => Some(2nat),
        Tag::Int => Some(4nat),
        Tag::Long => Some(8nat),
        Tag::Float => Some(4nat),
        Tag::Double => Some(8nat),
        _ => None,
    }
}

/// Reading a tag's byte gives back the tag.
pub proof fn lemma_tag_byte_roundtrip(t: Tag)
    ensures
        tag_of(tag_byte(t)) == Some(t),
{
}

impl Tag {
    /// The payload size of the tags whose payload has a fixed size.
    pub fn fixed_size(&self) -> (r: Option<usize>)
        ensures
            r matches Some(n) ==> spec_fixed_size(*self) == Some(n as nat),
            r is None ==> spec_fixed_size(*self) is None,
    {
        match self {
            Tag::Byte => Some(1),
            Tag::Short => Some(2),
            Tag::Int => Some(4),
            Tag::Long => Some(8),
            Tag::Float => Some(4),
            Tag::Double => Some(8),
            _ => None,
        }
    }

    /// The byte that stands for the tag.
    pub fn to_u8(self) -> (r: u8)
        ensures
            r == tag_byte(self),
    {
        match self {
            Tag::End => 0,
            Tag::Byte => 1,
            Tag::Short => 2,
            Tag::Int => 3,
            Tag::Long => 4,
            Tag::Float => 5,
            Tag::Double => 6,
            Tag::ByteArray => 7,
            Tag::String => 8,
            Tag::List => 9,
            Tag::Compound => 10,
            Tag::IntArray => 11,
            Tag::LongArray => 12,
        }
    }

    /// The tag a byte stands for; bytes above 12 are rejected with `UnexpectedTag`.
    pub fn try_from(value: u8) -> (r: Result<Tag, DeserializationError>)
        ensures
            r matches Ok(t) ==> tag_of(value) == Some(t),
            r matches Err(e) ==> tag_of(value) is None && e == DeserializationError::UnexpectedTag(value),
    {
        match value {
            0 => Ok(Tag::End),
            1 => Ok(Tag::Byte),
            2 => Ok(Tag::Short),
            3 => Ok(Tag::Int),
            4 => Ok(Tag::Long),
            5 => Ok(Tag::Float),
            6 => Ok(Tag::Double),
            7 => Ok(Tag::ByteArray),
            8 => Ok(Tag::String),
            9 => Ok(Tag::List),
            10 => Ok(Tag::Compound),
            11 => Ok(Tag::IntArray),
            12 => Ok(Tag::LongArray),
            v => Err(DeserializationError::UnexpectedTag(v)),
        }
    }
}

} // verus!
