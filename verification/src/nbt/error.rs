use vstd::prelude::*;
use std::borrow::Cow;

verus! {

#[verifier::external_type_specification]
#[verifier::external_body]
pub struct ExUtf8Error(std::str::Utf8Error);

/// Why NBT bytes could not be read.
#[derive(Debug)]
pub enum DeserializationError {
    UnexpectedTag(u8),
    EOF,
    FieldNotFound(&'static str),
    FieldDuplicate(&'static str),
    InvalidUTF8(std::str::Utf8Error),
    InvalidI32Length,
    InvalidList,
    Custom(Cow<'static, str>),
}

/// Why a value could not be written as NBT.
#[derive(Debug)]
pub enum SerializationError {
    StringTooLong,
    SeqTooLong,
    Custom(Cow<'static, str>),
}

/// The outcome of reading NBT.
pub type DeserializationResult<T> = Result<T, DeserializationError>;

} // verus!
