use vstd::prelude::*;
use vstd::slice::slice_subrange;
use vstd::utf8::{valid_utf8, decode_utf8};
use vstd::string::StringSliceAdditionalSpecFns;
use crate::nbt::error::{DeserializationError, DeserializationResult, SerializationError};
use crate::nbt::tag::{Tag, tag_of, spec_fixed_size};

verus! {

/// The big-endian 16-bit number in the first two bytes.
pub open spec fn be_u16_at(d: Seq<u8>) -> nat {
    d[0] as nat * 256 + d[1] as nat
}

/// The big-endian 32-bit unsigned number in the first four bytes.
pub open spec fn be_u32_at(d: Seq<u8>) -> nat {
    ((d[0] as nat * 256 + d[1] as nat) * 256 + d[2] as nat) * 256 + d[3] as nat
}

/// Adds `k` to a successful count.
pub open spec fn add_ok(r: Result<nat, DeserializationError>, k: nat) -> Result<nat, DeserializationError> {
    match r {
        Ok(n) => Ok(n + k),
        Err(e) => Err(e),
    }
}

/// A count as a natural number.
pub open spec fn count_of(r: DeserializationResult<usize>) -> Result<nat, DeserializationError> {
    match r {
        Ok(n) => Ok(n as nat),
        Err(e) => Err(e),
    }
}

/// The count of a successful reading, or `None` for a failed one.
pub open spec fn ok_len(r: DeserializationResult<usize>) -> Option<nat> {
    match r {
        Ok(n) => Some(n as nat),
        Err(_) => None,
    }
}

/// `a` more than a count, or `None` for none.
pub open spec fn opt_add(o: Option<nat>, a: nat) -> Option<nat> {
    match o {
        Some(n) => Some(n + a),
        None => None,
    }
}

/// The count carried next to a value, as a natural number.
pub open spec fn count_of_snd<T>(r: DeserializationResult<(T, usize)>) -> Result<nat, DeserializationError> {
    match r {
        Ok(p) => Ok(p.1 as nat),
        Err(e) => Err(e),
    }
}

/// A length written as a big-endian signed 32-bit number: negative lengths (top bit
/// set) are rejected.
pub open spec fn spec_read_i32_len(d: Seq<u8>) -> Result<nat, DeserializationError> {
    if d.len() < 4 {
        Err(DeserializationError::EOF)
    } else if d[0] >= 128 {
        Err(DeserializationError::InvalidI32Length)
    } else {
        Ok(be_u32_at(d))
    }
}

/// `k` bytes, if there are that many.
pub open spec fn spec_skip_k(d: Seq<u8>, k: nat) -> Result<nat, DeserializationError> {
    if d.len() < k {
        Err(DeserializationError::EOF)
    } else {
        Ok(k)
    }
}

/// A string: a big-endian 16-bit byte count and that many bytes.
pub open spec fn spec_skip_nbt_str(d: Seq<u8>) -> Result<nat, DeserializationError> {
    if d.len() < 2 {
        Err(DeserializationError::EOF)
    } else if d.len() < 2 + be_u16_at(d) {
        Err(DeserializationError::EOF)
    } else {
        Ok(2 + be_u16_at(d))
    }
}

/// An array of values of `size` bytes each, preceded by their count.
pub open spec fn spec_skip_fixed_size_seq(d: Seq<u8>, size: nat) -> Result<nat, DeserializationError> {
    if d.len() < 4 {
        Err(DeserializationError::EOF)
    } else {
        match spec_read_i32_len(d) {
            Err(e) => Err(e),
            Ok(l) => if d.len() < 4 + l * size {
                Err(DeserializationError::EOF)
            } else {
                Ok(4 + l * size)
            },
        }
    }
}

/// The size of the payload of a value with tag `t` at the start of `d`.
pub open spec fn spec_skip_payload(d: Seq<u8>, t: Tag) -> Result<nat, DeserializationError>
    decreases d.len(), 1nat, 0nat,
{
    match t {
        Tag::Byte => spec_skip_k(d, 1),
        Tag::Short => spec_skip_k(d, 2),
        Tag::Int => spec_skip_k(d, 4),
        Tag::Long => spec_skip_k(d, 8),
        Tag::Float => spec_skip_k(d, 4),
        Tag::Double => spec_skip_k(d, 8),
        Tag::List => spec_skip_list(d),
        Tag::ByteArray => spec_skip_fixed_size_seq(d, 1),
        Tag::IntArray => spec_skip_fixed_size_seq(d, 4),
        Tag::LongArray => spec_skip_fixed_size_seq(d, 8),
        Tag::String => spec_skip_nbt_str(d),
        Tag::Compound => spec_skip_compound(d),
        Tag::End => Err(DeserializationError::UnexpectedTag(0)),
    }
}

/// The size of a list payload: element tag, count, elements. A list of `End`
/// elements must be empty.
pub open spec fn spec_skip_list(d: Seq<u8>) -> Result<nat, DeserializationError>
    decreases d.len(), 0nat, 0nat,
{
    if d.len() == 0 {
        Err(DeserializationError::EOF)
    } else {
        match tag_of(d[0]) {
            None => Err(DeserializationError::UnexpectedTag(d[0])),
            Some(Tag::End) => match spec_read_i32_len(d.skip(1)) {
                Err(e) => Err(e),
                Ok(l) => if l != 0 {
                    Err(DeserializationError::InvalidList)
                } else {
                    Ok(5)
                },
            },
            Some(et) => match spec_fixed_size(et) {
                Some(s) => add_ok(spec_skip_fixed_size_seq(d.skip(1), s), 1),
                None => match spec_read_i32_len(d.skip(1)) {
                    Err(e) => Err(e),
                    Ok(l) => add_ok(spec_skip_elems(d.skip(5), et, l), 5),
                },
            },
        }
    }
}

/// The size of `n` consecutive payloads with tag `t`.
pub open spec fn spec_skip_elems(d: Seq<u8>, t: Tag, n: nat) -> Result<nat, DeserializationError>
    decreases d.len(), 2nat, n,
{
    if n == 0 {
        Ok(0)
    } else {
        match spec_skip_payload(d, t) {
            Err(e) => Err(e),
            Ok(k) => if k > d.len() {
                Err(DeserializationError::EOF)
            } else {
                add_ok(spec_skip_elems(d.skip(k as int), t, (n - 1) as nat), k)
            },
        }
    }
}

/// The size of a compound payload: named values (tag, name, payload) up to an `End` tag.
pub open spec fn spec_skip_compound(d: Seq<u8>) -> Result<nat, DeserializationError>
    decreases d.len(), 0nat, 0nat,
{
    if d.len() == 0 {
        Err(DeserializationError::EOF)
    } else {
        match tag_of(d[0]) {
            None => Err(DeserializationError::UnexpectedTag(d[0])),
            Some(Tag::End) => Ok(1),
            Some(t) => match spec_skip_nbt_str(d.skip(1)) {
                Err(e) => Err(e),
                Ok(k1) => match spec_skip_payload(d.skip(1 + k1 as int), t) {
                    Err(e) => Err(e),
                    Ok(k2) => if k2 > d.len() - 1 - k1 {
                        Err(DeserializationError::EOF)
                    } else {
                        add_ok(spec_skip_compound(d.skip(1 + k1 + k2 as int)), 1 + k1 + k2)
                    },
                },
            },
        }
    }
}

/// The four big-endian bytes of a number below `2^32`.
pub open spec fn be_u32_bytes(v: nat) -> Seq<u8> {
    seq![(v / 0x1000000) as u8, ((v / 0x10000) % 256) as u8, ((v / 0x100) % 256) as u8, (v % 256) as u8]
}

/// The two big-endian bytes of a number below `2^16`.
pub open spec fn be_u16_bytes(v: nat) -> Seq<u8> {
    seq![(v / 256) as u8, (v % 256) as u8]
}

/// Appends `len` as a big-endian signed 32-bit length; lengths above `i32::MAX` are
/// rejected and nothing is written.
pub fn write_i32_len(len: usize, buf: &mut Vec<u8>) -> (r: Result<(), SerializationError>)
    ensures
        len > i32::MAX ==> (r matches Err(SerializationError::SeqTooLong) && final(buf)@ == old(buf)@),
        len <= i32::MAX ==> r is Ok && final(buf)@ == old(buf)@ + be_u32_bytes(len as nat),
{
    if len > i32::MAX as usize {
        Err(SerializationError::SeqTooLong)
    } else {
        let v = len as u32;
        buf.push((v / 0x1000000) as u8);
        buf.push(((v / 0x10000) % 256) as u8);
        buf.push(((v / 0x100) % 256) as u8);
        buf.push((v % 256) as u8);
        proof {
            assert(final(buf)@ =~= old(buf)@ + be_u32_bytes(len as nat));
        }
        Ok(())
    }
}

/// Appends a string: its byte count as a big-endian 16-bit number, then its bytes;
/// strings longer than `u16::MAX` bytes are rejected and nothing is written.
pub fn serialize_nbt_str(s: &str, buf: &mut Vec<u8>) -> (r: Result<(), SerializationError>)
    ensures
        s.spec_bytes().len() > u16::MAX ==> (r matches Err(SerializationError::StringTooLong) && final(buf)@ == old(buf)@),
        s.spec_bytes().len() <= u16::MAX ==> r is Ok
            && final(buf)@ == old(buf)@ + be_u16_bytes(s.spec_bytes().len()) + s.spec_bytes(),
{
    let bytes = s.as_bytes();
    if bytes.len() > u16::MAX as usize {
        return Err(SerializationError::StringTooLong);
    }
    let l = bytes.len();
    buf.push((l / 256) as u8);
    buf.push((l % 256) as u8);
    let ghost start = buf@;
    let mut i: usize = 0;
    while i < bytes.len()
        invariant
            i <= bytes@.len(),
            buf@ == start + bytes@.subrange(0, i as int),
        decreases bytes@.len() - i,
    {
        buf.push(bytes[i]);
        proof {
            assert(buf@ =~= start + bytes@.subrange(0, i + 1));
        }
        i = i + 1;
    }
    proof {
        assert(bytes@.subrange(0, bytes@.len() as int) =~= bytes@);
        assert(final(buf)@ =~= old(buf)@ + be_u16_bytes(l as nat) + s.spec_bytes());
    }
    Ok(())
}

/// Reads a string's bytes (not checked for UTF-8) and returns them with the number
/// of bytes read.
pub fn deserialize_nbt_str_bytes(data: &[u8]) -> (r: DeserializationResult<(&[u8], usize)>)
    ensures
        count_of_snd(r) == spec_skip_nbt_str(data@),
        r matches Ok(p) ==> p.0@ == data@.subrange(2, p.1 as int),
{
    if data.len() < 2 {
        return Err(DeserializationError::EOF);
    }
    let l = (data[0] as usize) * 256 + data[1] as usize;
    if data.len() < 2 + l {
        return Err(DeserializationError::EOF);
    }
    let d = slice_subrange(data, 2, 2 + l);
    Ok((d, 2 + l))
}

/// `std::str::from_utf8`: the bytes as a string slice if they are UTF-8.
#[verifier::external_body]
fn str_from_utf8(v: &[u8]) -> (r: Result<&str, std::str::Utf8Error>)
    ensures
        r is Ok <==> valid_utf8(v@),
        r matches Ok(s) ==> s.spec_bytes() == v@ && s@ == decode_utf8(v@),
{
    std::str::from_utf8(v)
}

/// Reads a UTF-8 string and returns it with the number of bytes read.
pub fn deserialize_nbt_str(data: &[u8]) -> (r: DeserializationResult<(&str, usize)>)
    ensures
        spec_skip_nbt_str(data@) matches Err(e) ==> (r matches Err(e2) && e2 == e),
        spec_skip_nbt_str(data@) matches Ok(n) ==> {
            let bytes = data@.subrange(2, n as int);
            &&& valid_utf8(bytes) ==> (r matches Ok(p) && p.1 == n && p.0.spec_bytes() == bytes && p.0@ == decode_utf8(bytes))
            &&& !valid_utf8(bytes) ==> r matches Err(DeserializationError::InvalidUTF8(_))
        },
{
    if data.len() < 2 {
        return Err(DeserializationError::EOF);
    }
    let l = (data[0] as usize) * 256 + data[1] as usize;
    if data.len() < 2 + l {
        return Err(DeserializationError::EOF);
    }
    match str_from_utf8(slice_subrange(data, 2, 2 + l)) {
        Ok(s) => Ok((s, 2 + l)),
        Err(e) => Err(DeserializationError::InvalidUTF8(e)),
    }
}

/// Reads a length written as a big-endian signed 32-bit number; negative lengths are
/// rejected.
pub fn read_i32_len(data: &[u8]) -> (r: DeserializationResult<usize>)
    ensures
        count_of(r) == spec_read_i32_len(data@),
{
    if data.len() < 4 {
        return Err(DeserializationError::EOF);
    }
    if data[0] >= 128 {
        return Err(DeserializationError::InvalidI32Length);
    }
    let v = ((data[0] as u32 * 256 + data[1] as u32) * 256 + data[2] as u32) * 256 + data[3] as u32;
    Ok(v as usize)
}

/// Skips `k` bytes.
pub fn skip_k(data: &[u8], k: usize) -> (r: DeserializationResult<usize>)
    ensures
        count_of(r) == spec_skip_k(data@, k as nat),
{
    if data.len() < k {
        Err(DeserializationError::EOF)
    } else {
        Ok(k)
    }
}

/// Skips a string.
pub fn skip_nbt_str(data: &[u8]) -> (r: DeserializationResult<usize>)
    ensures
        count_of(r) == spec_skip_nbt_str(data@),
{
    if data.len() < 2 {
        return Err(DeserializationError::EOF);
    }
    let l = (data[0] as usize) * 256 + data[1] as usize;
    if data.len() < 2 + l {
        return Err(DeserializationError::EOF);
    }
    Ok(2 + l)
}

/// Skips an array of values of `byte_size` bytes each, preceded by their count.
pub fn skip_fixed_size_seq(data: &[u8], byte_size: usize) -> (r: DeserializationResult<usize>)
    requires
        byte_size <= 8,
    ensures
        count_of(r) == spec_skip_fixed_size_seq(data@, byte_size as nat),
{
    if data.len() < 4 {
        Err(DeserializationError::EOF)
    } else {
        let l = match read_i32_len(data) {
            Ok(l) => l,
            Err(e) => return Err(e),
        };
        proof {
            assert(l <= 0x7fffffff);
            assert(l * byte_size <= 0x7fffffff * 8) by (nonlinear_arith) requires l <= 0x7fffffff, byte_size <= 8;
        }
        let off = 4 + (l as u64) * (byte_size as u64);
        if (data.len() as u64) < off {
            return Err(DeserializationError::EOF);
        }
        Ok(off as usize)
    }
}

/// A successful skip never goes past the end of the data.
pub proof fn lemma_skip_within(d: Seq<u8>, t: Tag)
    ensures
        spec_skip_payload(d, t) matches Ok(k) ==> k <= d.len(),
        spec_skip_list(d) matches Ok(k) ==> k <= d.len(),
        spec_skip_compound(d) matches Ok(k) ==> k <= d.len(),
    decreases d.len(),
{
    if spec_skip_list(d) is Ok {
        if let Some(et) = tag_of(d[0]) {
            if et != Tag::End && spec_fixed_size(et) is None {
                if let Ok(l) = spec_read_i32_len(d.skip(1)) {
                    lemma_skip_elems_within(d.skip(5), et, l);
                }
            }
        }
    }
    if spec_skip_compound(d) is Ok {
        lemma_skip_compound_within(d);
    }
}

proof fn lemma_skip_elems_within(d: Seq<u8>, t: Tag, n: nat)
    ensures
        spec_skip_elems(d, t, n) matches Ok(k) ==> k <= d.len(),
    decreases n,
{
    if n > 0 {
        if let Ok(k) = spec_skip_payload(d, t) {
            if k <= d.len() {
                lemma_skip_elems_within(d.skip(k as int), t, (n - 1) as nat);
            }
        }
    }
}

proof fn lemma_skip_compound_within(d: Seq<u8>)
    ensures
        spec_skip_compound(d) matches Ok(k) ==> k <= d.len(),
    decreases d.len(),
{
    if d.len() > 0 {
        if let Some(t) = tag_of(d[0]) {
            if t != Tag::End {
                if let Ok(k1) = spec_skip_nbt_str(d.skip(1)) {
                    if let Ok(k2) = spec_skip_payload(d.skip(1 + k1 as int), t) {
                        if k2 <= d.len() - 1 - k1 {
                            lemma_skip_compound_within(d.skip(1 + k1 + k2 as int));
                        }
                    }
                }
            }
        }
    }
}

/// Skips a list payload.
pub fn skip_list_payload(data: &[u8]) -> (r: DeserializationResult<usize>)
    ensures
        count_of(r) == spec_skip_list(data@),
    decreases data@.len(), 0nat, 1nat,
{
    if data.len() == 0 {
        return Err(DeserializationError::EOF);
    }
    let elem_tag = match Tag::try_from(data[0]) {
        Ok(t) => t,
        Err(e) => return Err(e),
    };
    let rest = slice_subrange(data, 1, data.len());
    proof {
        assert(rest@ =~= data@.skip(1));
    }
    if elem_tag == Tag::End {
        let l = match read_i32_len(rest) {
            Ok(l) => l,
            Err(e) => return Err(e),
        };
        if l != 0 {
            return Err(DeserializationError::InvalidList);
        }
        Ok(5)
    } else if let Some(s) = elem_tag.fixed_size() {
        match skip_fixed_size_seq(rest, s) {
            Ok(k) => Ok(1 + k),
            Err(e) => Err(e),
        }
    } else {
        let l = match read_i32_len(rest) {
            Ok(l) => l,
            Err(e) => return Err(e),
        };
        let mut off: usize = 5;
        let mut i: usize = 0;
        let ghost d5 = data@.skip(5);
        proof {
            assert(rest@.skip(4) =~= d5);
            assert(data@.skip(5) =~= data@.skip(off as int));
            assert(spec_skip_list(data@) == add_ok(spec_skip_elems(d5, elem_tag, l as nat), 5));
        }
        while i < l
            invariant
                5 <= off <= data@.len(),
                spec_skip_list(data@) == add_ok(spec_skip_elems(d5, elem_tag, l as nat), 5),
                i <= l,
                d5 == data@.skip(5),
                spec_skip_elems(d5, elem_tag, l as nat)
                    == add_ok(spec_skip_elems(data@.skip(off as int), elem_tag, (l - i) as nat), (off - 5) as nat),
                elem_tag != Tag::End,
            decreases l - i,
        {
            let tail = slice_subrange(data, off, data.len());
            proof {
                assert(tail@ =~= data@.skip(off as int));
            }
            let k = match skip_payload(tail, elem_tag) {
                Ok(k) => k,
                Err(e) => {
                    return Err(e);
                },
            };
            proof {
                lemma_skip_within(tail@, elem_tag);
                assert(tail@.skip(k as int) =~= data@.skip(off + k));
            }
            off = off + k;
            i = i + 1;
        }
        proof {
            assert(d5.len() + 5 == data@.len());
        }
        Ok(off)
    }
}

/// Skips a compound payload, up to and including its `End` tag. Data that ends
/// before the `End` tag is rejected with `EOF`.
pub fn skip_compound_payload(data: &[u8]) -> (r: DeserializationResult<usize>)
    ensures
        count_of(r) == spec_skip_compound(data@),
    decreases data@.len(), 0nat, 1nat,
{
    let mut off: usize = 0;
    proof {
        assert(data@.skip(0) =~= data@);
    }
    loop
        invariant
            off <= data@.len(),
            spec_skip_compound(data@) == add_ok(spec_skip_compound(data@.skip(off as int)), off as nat),
        decreases data@.len() - off,
    {
        if data.len() <= off {
            return Err(DeserializationError::EOF);
        }
        let t = match Tag::try_from(data[off]) {
            Ok(t) => t,
            Err(e) => return Err(e),
        };
        let ghost d = data@.skip(off as int);
        proof {
            assert(d[0] == data@[off as int]);
        }
        off = off + 1;
        if t == Tag::End {
            return Ok(off);
        }
        let name = slice_subrange(data, off, data.len());
        proof {
            assert(name@ =~= d.skip(1));
        }
        let k1 = match skip_nbt_str(name) {
            Ok(k) => k,
            Err(e) => return Err(e),
        };
        off = off + k1;
        let payload = slice_subrange(data, off, data.len());
        proof {
            assert(payload@ =~= d.skip(1 + k1 as int));
        }
        let k2 = match skip_payload(payload, t) {
            Ok(k) => k,
            Err(e) => return Err(e),
        };
        proof {
            lemma_skip_within(payload@, t);
            assert(d.skip(1 + k1 + k2 as int) =~= data@.skip(off + k2));
        }
        off = off + k2;
    }
}

/// Skips the payload of a value with tag `tag` (which must not be `End`) and returns
/// its size.
pub fn skip_payload(data: &[u8], tag: Tag) -> (r: DeserializationResult<usize>)
    requires
        tag != Tag::End,
    ensures
        count_of(r) == spec_skip_payload(data@, tag),
    decreases data@.len(), 1nat, 0nat,
{
    match tag {
        Tag::Byte => skip_k(data, 1),
        Tag::Short => skip_k(data, 2),
        Tag::Int => skip_k(data, 4),
        Tag::Long => skip_k(data, 8),
        Tag::Float => skip_k(data, 4),
        Tag::Double => skip_k(data, 8),
        Tag::List => skip_list_payload(data),
        Tag::ByteArray => skip_fixed_size_seq(data, 1),
        Tag::IntArray => skip_fixed_size_seq(data, 4),
        Tag::LongArray => skip_fixed_size_seq(data, 8),
        Tag::String => skip_nbt_str(data),
        _ => skip_compound_payload(data),
    }
}

} // verus!
