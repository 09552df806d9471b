//! Reading and writing NBT, the tagged binary format of Minecraft's chunk data.

pub mod tag;
pub mod error;
pub mod helper;
pub mod deserialize;
pub mod serialize;
pub mod arrays;
pub mod reuse;
pub mod compound;
pub mod read_back;
pub mod skip_law;

use vstd::prelude::*;
use std::borrow::Cow;
use vstd::slice::slice_subrange;
use vstd::utf8::{valid_utf8, decode_utf8};
use crate::nbt::deserialize::DeserializePayload;
use crate::nbt::error::{DeserializationError, DeserializationResult};
use crate::nbt::helper::{deserialize_nbt_str, spec_skip_nbt_str, be_u16_at};
use crate::nbt::tag::{Tag, tag_of};

verus! {

/// Where a named value at the start of `data` has its payload: after a tag byte (not
/// `End`) and a UTF-8 name; `None` where these cannot be read.
pub open spec fn name_end(data: Seq<u8>) -> Option<nat> {
    if data.len() >= 1 && tag_of(data[0]) is Some && tag_of(data[0]) != Some(Tag::End) {
        match spec_skip_nbt_str(data.skip(1)) {
            Ok(n) => if valid_utf8(data.subrange(3, 1 + n as int)) { Some(1 + n) } else { None },
            Err(_) => None,
        }
    } else {
        None
    }
}

/// Where the payload of a named value of at least four bytes at the start of `data`
/// begins.
pub open spec fn payload_start(data: Seq<u8>) -> Option<nat> {
    if data.len() >= 4 { name_end(data) } else { None }
}

/// `v` is the value of `T` that the payload at `p` in `data` holds.
pub open spec fn value_at_holds<'d, T: DeserializePayload<'d>>(data: Seq<u8>, p: nat, v: T) -> bool {
    &&& T::payload_len(data.skip(p as int)) matches Some(k)
    &&& v.holds_payload(data.skip(p as int), k)
}

/// `v` is the value of `T` that the named value at the start of `data` holds.
pub open spec fn named_value_holds<'d, T: DeserializePayload<'d>>(data: Seq<u8>, v: T) -> bool {
    &&& payload_start(data) matches Some(p)
    &&& value_at_holds::<T>(data, p, v)
}

/// Reads a named value: a tag byte (not `End`), a UTF-8 name, and `T`'s payload.
/// Returns the name, the value and the number of bytes read.
pub fn from_bytes<'d, T: DeserializePayload<'d> + Default>(data: &'d [u8]) -> (r: DeserializationResult<(&'d str, T, usize)>)
    ensures
        r is Ok <==> (payload_start(data@) matches Some(p) && T::payload_len(data@.skip(p as int)) is Some),
        r matches Ok(res) ==> named_value_holds::<T>(data@, res.1)
            && res.2 == payload_start(data@)->Some_0 + T::payload_len(data@.skip(payload_start(data@)->Some_0 as int))->Some_0,
        data@.len() < 4 ==> (r matches Err(e) && e == DeserializationError::EOF),
        data@.len() >= 4 && tag_of(data@[0]) is None ==> (r matches Err(e) && e == DeserializationError::UnexpectedTag(data@[0])),
        data@.len() >= 4 && tag_of(data@[0]) == Some(Tag::End) ==> (r matches Err(e) && e == DeserializationError::UnexpectedTag(0)),
        data@.len() >= 4 && tag_of(data@[0]) is Some && tag_of(data@[0]) != Some(Tag::End) ==> {
            &&& spec_skip_nbt_str(data@.skip(1)) matches Err(e) ==> (r matches Err(e2) && e2 == e)
            &&& spec_skip_nbt_str(data@.skip(1)) matches Ok(n) ==> (!valid_utf8(data@.subrange(3, 1 + n as int))
                ==> (r matches Err(DeserializationError::InvalidUTF8(_))))
        },
        r matches Ok(res) ==> {
            &&& data@.len() >= 4
            &&& tag_of(data@[0]) is Some && tag_of(data@[0]) != Some(Tag::End)
            &&& spec_skip_nbt_str(data@.skip(1)) is Ok
            &&& valid_utf8(data@.subrange(3, 1 + spec_skip_nbt_str(data@.skip(1))->Ok_0 as int))
            &&& res.0@ == decode_utf8(data@.subrange(3, 1 + spec_skip_nbt_str(data@.skip(1))->Ok_0 as int))
            &&& 1 + spec_skip_nbt_str(data@.skip(1))->Ok_0 <= res.2 <= data@.len()
        },
        r matches Err(e) ==> (payload_start(data@) matches Some(p) ==> T::payload_error(data@.skip(p as int), e)),
{
    if data.len() < 4 {
        return Err(DeserializationError::EOF);
    }
    let tag = match Tag::try_from(data[0]) {
        Ok(t) => t,
        Err(e) => return Err(e),
    };
    if tag == Tag::End {
        return Err(DeserializationError::UnexpectedTag(0));
    }
    let mut off: usize = 1;
    let rest = slice_subrange(data, off, data.len());
    proof {
        assert(rest@ =~= data@.skip(1));
        if let Ok(n) = spec_skip_nbt_str(rest@) {
            assert(rest@.subrange(2, n as int) =~= data@.subrange(3, 1 + n as int));
        }
    }
    let (name, k) = match deserialize_nbt_str(rest) {
        Ok(p) => p,
        Err(e) => {
            proof {
                assert(name_end(data@) is None);
            }
            return Err(e);
        },
    };
    proof {
        assert(rest@.subrange(2, k as int) =~= data@.subrange(3, 1 + k as int));
    }
    off = off + k;
    let mut payload = T::default();
    let tail = slice_subrange(data, off, data.len());
    proof {
        assert(tail@ =~= data@.skip(off as int));
    }
    let k2 = match payload.deserialize_payload(tail) {
        Ok(k) => k,
        Err(e) => {
            proof {
                assert(name_end(data@) == Some(off as nat));
            }
            return Err(e);
        },
    };
    off = off + k2;
    Ok((name, payload, off))
}

/// Payloads that must consist of fixed bytes: reading one checks that the data starts
/// with `BYTES` and fails with `ERR_MSG` (or a generic message) otherwise.
pub trait ConstBytes {
    /// The tag of the payload.
    const TAG: Tag;

    /// The fixed payload bytes.
    spec fn const_bytes() -> Seq<u8>;

    /// The fixed payload bytes.
    fn bytes() -> (r: &'static [u8])
        ensures
            r@ == Self::const_bytes(),
    ;

    /// The message of the error for other bytes, if the type gives one.
    spec fn spec_err_msg() -> Option<Seq<char>>;

    /// The message of the error for other bytes, if the type gives one.
    fn err_msg() -> (r: Option<&'static str>)
        ensures
            match r {
                Some(m) => Self::spec_err_msg() == Some(m@),
                None => Self::spec_err_msg() is None,
            },
    ;
}

/// The message of the error with which a payload of `C` other than its fixed bytes is
/// rejected: the type's own, or a generic one.
pub open spec fn const_mismatch_msg<C: ConstBytes>() -> Seq<char> {
    match C::spec_err_msg() {
        Some(m) => m,
        None => "ConstBytes mismatch"@,
    }
}

/// Whether `data` starts with `bytes`.
pub fn starts_with(data: &[u8], bytes: &[u8]) -> (r: bool)
    ensures
        r <==> bytes@.len() <= data@.len() && data@.subrange(0, bytes@.len() as int) == bytes@,
{
    if data.len() < bytes.len() {
        return false;
    }
    let mut i: usize = 0;
    while i < bytes.len()
        invariant
            bytes@.len() <= data@.len(),
            i <= bytes@.len(),
            data@.subrange(0, i as int) == bytes@.subrange(0, i as int),
        decreases bytes@.len() - i,
    {
        if data[i] != bytes[i] {
            proof {
                assert(data@.subrange(0, bytes@.len() as int)[i as int] != bytes@[i as int]);
            }
            return false;
        }
        proof {
            assert(data@.subrange(0, i + 1) =~= bytes@.subrange(0, i + 1));
        }
        i = i + 1;
    }
    proof {
        assert(bytes@.subrange(0, i as int) =~= bytes@);
    }
    true
}

impl<'d, C: ConstBytes + Default> DeserializePayload<'d> for C {
    const TAG: Tag = C::TAG;

    open spec fn payload_len(data: Seq<u8>) -> Option<nat> {
        if data.len() >= C::const_bytes().len() && data.subrange(0, C::const_bytes().len() as int) == C::const_bytes() {
            Some(C::const_bytes().len())
        } else {
            None
        }
    }

    /// The value holds nothing of the data.
    open spec fn holds_payload(&self, data: Seq<u8>, k: nat) -> bool {
        true
    }

    open spec fn payload_error(data: Seq<u8>, e: DeserializationError) -> bool {
        if data.len() < C::const_bytes().len() {
            e == DeserializationError::EOF
        } else {
            e matches DeserializationError::Custom(m) && m@ == const_mismatch_msg::<C>()
        }
    }

    /// Accepts exactly `BYTES` at the start of `data`.
    fn deserialize_payload(&mut self, data: &'d [u8]) -> (r: DeserializationResult<usize>)
        ensures
            data@.len() < C::const_bytes().len() ==> (r matches Err(e) && e == DeserializationError::EOF),
            data@.len() >= C::const_bytes().len() && data@.subrange(0, C::const_bytes().len() as int) == C::const_bytes()
                ==> (r matches Ok(k) && k == C::const_bytes().len()),
            data@.len() >= C::const_bytes().len() && data@.subrange(0, C::const_bytes().len() as int) != C::const_bytes()
                ==> (r matches Err(DeserializationError::Custom(_))),
    {
        let bytes = C::bytes();
        if data.len() < bytes.len() {
            return Err(DeserializationError::EOF);
        }
        if starts_with(data, bytes) {
            Ok(bytes.len())
        } else {
            let msg: &'static str = match C::err_msg() {
                Some(m) => m,
                None => "ConstBytes mismatch",
            };
            Err(DeserializationError::Custom(Cow::Borrowed(msg)))
        }
    }
}

/// Raw NBT string bytes, not checked for UTF-8.
#[derive(Default, Debug)]
pub struct RawString<'a>(pub &'a [u8]);

impl<'a> RawString<'a> {
    /// The bytes, borrowed for as long as the data they were read from.
    pub fn inner_lifetimed(&self) -> (r: &'a [u8])
        ensures
            r@ == self.0@,
    {
        self.0
    }
}

impl<'d> DeserializePayload<'d> for RawString<'d> {
    const TAG: Tag = Tag::String;

    open spec fn payload_len(data: Seq<u8>) -> Option<nat> {
        match spec_skip_nbt_str(data) {
            Ok(n) => Some(n),
            Err(_) => None,
        }
    }

    open spec fn holds_payload(&self, data: Seq<u8>, k: nat) -> bool {
        self.0@ == data.subrange(2, k as int)
    }

    open spec fn payload_error(data: Seq<u8>, e: DeserializationError) -> bool {
        spec_skip_nbt_str(data) == Err::<nat, DeserializationError>(e)
    }

    /// Reads a string's bytes.
    fn deserialize_payload(&mut self, data: &'d [u8]) -> (r: DeserializationResult<usize>)
        ensures
            spec_skip_nbt_str(data@) matches Err(e) ==> (r matches Err(e2) && e2 == e && *final(self) == *old(self)),
            spec_skip_nbt_str(data@) matches Ok(n) ==> (r matches Ok(k) && k == n && final(self).0@ == data@.subrange(2, n as int)),
    {
        if data.len() < 2 {
            return Err(DeserializationError::EOF);
        }
        let l = (data[0] as usize) * 256 + data[1] as usize;
        if data.len() < l + 2 {
            return Err(DeserializationError::EOF);
        }
        self.0 = slice_subrange(data, 2, l + 2);
        Ok(l + 2)
    }
}

} // verus!
