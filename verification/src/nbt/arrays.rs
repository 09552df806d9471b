use vstd::prelude::*;
use vstd::slice::slice_subrange;
use crate::nbt::deserialize::DeserializePayload;
use crate::nbt::error::{DeserializationError, DeserializationResult};
use crate::nbt::helper::{read_i32_len, spec_skip_fixed_size_seq, count_of};
use crate::nbt::tag::Tag;

verus! {

/// Reads an array of `elem_size`-byte values and returns its bytes (without the count)
/// and the number of bytes read.
fn read_array_bytes(data: &[u8], elem_size: usize) -> (r: DeserializationResult<(&[u8], usize)>)
    requires
        1 <= elem_size <= 8,
    ensures
        count_of(match r { Ok(p) => Ok(p.1), Err(e) => Err(e) }) == spec_skip_fixed_size_seq(data@, elem_size as nat),
        r matches Ok(p) ==> p.0@ == data@.subrange(4, p.1 as int),
{
    let l = match read_i32_len(data) {
        Ok(l) => l,
        Err(e) => return Err(e),
    };
    proof {
        assert(l * elem_size <= 0x7fffffff * 8) by (nonlinear_arith) requires l <= 0x7fffffff, elem_size <= 8;
    }
    let byte_size = (l as u64) * (elem_size as u64);
    if (data.len() as u64) < byte_size + 4 {
        return Err(DeserializationError::EOF);
    }
    let n = byte_size as usize;
    Ok((slice_subrange(data, 4, 4 + n), 4 + n))
}

/// The bytes of a long array (big-endian 64-bit values), borrowed from the data.
#[derive(Debug, Default, Clone)]
pub struct LongArrayBytes<'a> {
    bytes: &'a [u8],
}

/// The bytes of an int array (big-endian 32-bit values), borrowed from the data.
#[derive(Debug, Default, Clone)]
pub struct IntArrayBytes<'a> {
    bytes: &'a [u8],
}

/// The bytes of a byte array, borrowed from the data.
#[derive(Debug, Default, Clone)]
pub struct ByteArrayBytes<'a> {
    bytes: &'a [u8],
}

impl<'a> LongArrayBytes<'a> {
    /// The array's bytes.
    pub closed spec fn spec_bytes(&self) -> Seq<u8> {
        self.bytes@
    }

    /// The array's bytes.
    pub fn bytes(&self) -> (r: &'a [u8])
        ensures
            r@ == self.spec_bytes(),
    {
        self.bytes
    }
}

impl<'a> IntArrayBytes<'a> {
    /// The array's bytes.
    pub closed spec fn spec_bytes(&self) -> Seq<u8> {
        self.bytes@
    }

    /// The array's bytes.
    pub fn bytes(&self) -> (r: &'a [u8])
        ensures
            r@ == self.spec_bytes(),
    {
        self.bytes
    }
}

impl<'a> ByteArrayBytes<'a> {
    /// The array's bytes.
    pub closed spec fn spec_bytes(&self) -> Seq<u8> {
        self.bytes@
    }

    /// The array's bytes.
    pub fn bytes(&self) -> (r: &'a [u8])
        ensures
            r@ == self.spec_bytes(),
    {
        self.bytes
    }
}

impl<'d> DeserializePayload<'d> for LongArrayBytes<'d> {
    const TAG: Tag = Tag::LongArray;

    open spec fn payload_len(data: Seq<u8>) -> Option<nat> {
        match spec_skip_fixed_size_seq(data, 8) {
            Ok(n) => Some(n),
            Err(_) => None,
        }
    }

    open spec fn payload_error(data: Seq<u8>, e: DeserializationError) -> bool {
        spec_skip_fixed_size_seq(data, 8) == Err::<nat, DeserializationError>(e)
    }

    open spec fn holds_payload(&self, data: Seq<u8>, k: nat) -> bool {
        self.spec_bytes() == data.subrange(4, k as int)
    }

    /// Reads a long array and keeps its bytes.
    fn deserialize_payload(&mut self, data: &'d [u8]) -> (r: DeserializationResult<usize>)
        ensures
            count_of(r) == spec_skip_fixed_size_seq(data@, 8),
            r matches Ok(k) ==> final(self).spec_bytes() == data@.subrange(4, k as int),
    {
        match read_array_bytes(data, 8) {
            Ok((b, k)) => {
                self.bytes = b;
                Ok(k)
            },
            Err(e) => Err(e),
        }
    }
}

impl<'d> DeserializePayload<'d> for IntArrayBytes<'d> {
    const TAG: Tag = Tag::IntArray;

    open spec fn payload_len(data: Seq<u8>) -> Option<nat> {
        match spec_skip_fixed_size_seq(data, 4) {
            Ok(n) => Some(n),
            Err(_) => None,
        }
    }

    open spec fn payload_error(data: Seq<u8>, e: DeserializationError) -> bool {
        spec_skip_fixed_size_seq(data, 4) == Err::<nat, DeserializationError>(e)
    }

    open spec fn holds_payload(&self, data: Seq<u8>, k: nat) -> bool {
        self.spec_bytes() == data.subrange(4, k as int)
    }

    /// Reads an int array and keeps its bytes.
    fn deserialize_payload(&mut self, data: &'d [u8]) -> (r: DeserializationResult<usize>)
        ensures
            count_of(r) == spec_skip_fixed_size_seq(data@, 4),
            r matches Ok(k) ==> final(self).spec_bytes() == data@.subrange(4, k as int),
    {
        match read_array_bytes(data, 4) {
            Ok((b, k)) => {
                self.bytes = b;
                Ok(k)
            },
            Err(e) => Err(e),
        }
    }
}

impl<'d> DeserializePayload<'d> for ByteArrayBytes<'d> {
    const TAG: Tag = Tag::ByteArray;

    open spec fn payload_len(data: Seq<u8>) -> Option<nat> {
        match spec_skip_fixed_size_seq(data, 1) {
            Ok(n) => Some(n),
            Err(_) => None,
        }
    }

    open spec fn payload_error(data: Seq<u8>, e: DeserializationError) -> bool {
        spec_skip_fixed_size_seq(data, 1) == Err::<nat, DeserializationError>(e)
    }

    open spec fn holds_payload(&self, data: Seq<u8>, k: nat) -> bool {
        self.spec_bytes() == data.subrange(4, k as int)
    }

    /// Reads a byte array and keeps its bytes.
    fn deserialize_payload(&mut self, data: &'d [u8]) -> (r: DeserializationResult<usize>)
        ensures
            count_of(r) == spec_skip_fixed_size_seq(data@, 1),
            r matches Ok(k) ==> final(self).spec_bytes() == data@.subrange(4, k as int),
    {
        match read_array_bytes(data, 1) {
            Ok((b, k)) => {
                self.bytes = b;
                Ok(k)
            },
            Err(e) => Err(e),
        }
    }
}

} // verus!
