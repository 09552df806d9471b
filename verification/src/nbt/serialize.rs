use vstd::prelude::*;
use vstd::arithmetic::power2::pow2;
use vstd::string::StringSliceAdditionalSpecFns;
use crate::nbt::error::SerializationError;
use crate::nbt::helper::{serialize_nbt_str, write_i32_len, be_u16_bytes, be_u32_bytes, spec_skip_nbt_str, be_u16_at, spec_read_i32_len, be_u32_at};
use crate::nbt::deserialize::be_signed;
use crate::nbt::tag::{Tag, tag_byte};
use crate::bitpack::be_value;

verus! {

/// Values that can be written as an NBT payload.
pub trait SerializePayload {
    /// The tag of the payloads this type writes.
    const TAG: Tag;

    /// The bytes of the payload written for `self`, or `None` where writing fails. Each
    /// type of this crate defines it; the default stands for types defined elsewhere,
    /// of which nothing is proved.
    open spec fn payload_bytes(&self) -> Option<Seq<u8>> {
        None
    }

    /// Appends the payload to `buf`; what was in `buf` stays in front.
    fn serialize_into(&self, buf: &mut Vec<u8>) -> (r: Result<(), SerializationError>)
        ensures
            old(buf)@.is_prefix_of(final(buf)@),
            r is Ok <==> self.payload_bytes() is Some,
            r is Ok ==> final(buf)@ == old(buf)@ + self.payload_bytes()->Some_0,
    ;
}

/// The payloads of the elements of `s` one after another, or `None` where one cannot
/// be written.
pub open spec fn elems_bytes<T: SerializePayload>(s: Seq<T>) -> Option<Seq<u8>>
    decreases s.len(),
{
    if s.len() == 0 {
        Some(Seq::empty())
    } else {
        match elems_bytes::<T>(s.drop_last()) {
            None => None,
            Some(b) => match s.last().payload_bytes() {
                None => None,
                Some(e) => Some(b + e),
            },
        }
    }
}

/// Writes a named value: `P`'s tag byte, the name, and the payload.
pub fn serialize_nbt<P: SerializePayload>(name: &str, payload: &P) -> (r: Result<Vec<u8>, SerializationError>)
    ensures
        name.spec_bytes().len() > u16::MAX ==> (r matches Err(SerializationError::StringTooLong)),
        r is Ok <==> name.spec_bytes().len() <= u16::MAX && payload.payload_bytes() is Some,
        r matches Ok(buf) ==> buf@ == seq![tag_byte(P::TAG)] + be_u16_bytes(name.spec_bytes().len()) + name.spec_bytes()
            + payload.payload_bytes()->Some_0,
{
    let mut buf = Vec::<u8>::new();
    buf.push(P::TAG.to_u8());
    match serialize_nbt_str(name, &mut buf) {
        Ok(()) => {},
        Err(e) => return Err(e),
    }
    let ghost head = buf@;
    proof {
        assert(head =~= seq![tag_byte(P::TAG)] + be_u16_bytes(name.spec_bytes().len()) + name.spec_bytes());
    }
    match payload.serialize_into(&mut buf) {
        Ok(()) => {},
        Err(e) => return Err(e),
    }
    Ok(buf)
}

/// The `n` big-endian bytes of `u` (taken modulo `2^(8n)`).
pub open spec fn be_bytes_of(u: nat, n: nat) -> Seq<u8> {
    Seq::new(n, |j: int| ((u / pow2((8 * (n - 1 - j)) as nat)) % 256) as u8)
}

/// A signed number's two's-complement bit pattern on `n` bytes.
pub open spec fn unsigned_of(x: int, n: nat) -> nat {
    if x >= 0 {
        x as nat
    } else {
        (x + pow2(8 * n)) as nat
    }
}

/// Reading back the big-endian bytes of a number that fits gives the number.
pub proof fn lemma_be_bytes_of_value(u: nat, n: nat)
    requires
        u < pow2(8 * n),
    ensures
        be_value(be_bytes_of(u, n)) == u,
{
    lemma_be_bytes_prefix_value(u, n, n);
    assert(be_bytes_of(u, n).subrange(0, n as int) =~= be_bytes_of(u, n));
    assert(pow2(0) == 1) by { vstd::arithmetic::power2::lemma2_to64(); }
    assert((8 * (n - n)) as nat == 0);
    assert(u / 1 == u);
}

proof fn lemma_be_bytes_prefix_value(u: nat, n: nat, m: nat)
    requires
        m <= n,
        u < pow2(8 * n),
    ensures
        be_value(be_bytes_of(u, n).subrange(0, m as int)) == u / pow2((8 * (n - m)) as nat),
    decreases m,
{
    let b = be_bytes_of(u, n);
    vstd::arithmetic::power2::lemma2_to64();
    if m == 0 {
        assert(b.subrange(0, 0) =~= Seq::<u8>::empty());
        vstd::arithmetic::power2::lemma_pow2_pos(8 * n);
        vstd::arithmetic::div_mod::lemma_basic_div(u as int, pow2(8 * n) as int);
    } else {
        let k = (m - 1) as nat;
        lemma_be_bytes_prefix_value(u, n, k);
        let e = (8 * (n - 1 - k)) as nat;
        let y = u / pow2(e);
        assert(b.subrange(0, m as int).drop_last() =~= b.subrange(0, k as int));
        assert(b[k as int] == (y % 256) as u8);
        assert(8 * (n - k) == e + 8) by (nonlinear_arith) requires e == 8 * (n - 1 - k), k < n;
        vstd::arithmetic::power2::lemma_pow2_adds(e, 8);
        vstd::arithmetic::power2::lemma_pow2_pos(e);
        vstd::arithmetic::div_mod::lemma_div_denominator(u as int, pow2(e) as int, 256);
        vstd::arithmetic::div_mod::lemma_fundamental_div_mod(y as int, 256);
    }
}

/// Appends the `n` big-endian bytes of `u`.
fn push_be(buf: &mut Vec<u8>, u: u64, n: usize)
    requires
        1 <= n <= 8,
    ensures
        final(buf)@ == old(buf)@ + be_bytes_of(u as nat, n as nat),
{
    let mut j: usize = 0;
    let ghost start = buf@;
    while j < n
        invariant
            1 <= n <= 8,
            j <= n,
            buf@ == start + be_bytes_of(u as nat, n as nat).subrange(0, j as int),
        decreases n - j,
    {
        let shift = (8 * (n - 1 - j)) as u64;
        proof {
            vstd::bits::lemma_u64_shr_is_div(u, shift);
            vstd::bits::lemma_u64_low_bits_mask_is_mod(u >> shift, 8);
            vstd::arithmetic::power2::lemma2_to64();
        }
        buf.push(((u >> shift) & 0xff) as u8);
        proof {
            assert(buf@ =~= start + be_bytes_of(u as nat, n as nat).subrange(0, j + 1));
        }
        j = j + 1;
    }
    proof {
        assert(be_bytes_of(u as nat, n as nat).subrange(0, n as int) =~= be_bytes_of(u as nat, n as nat));
    }
}

proof fn lemma_unsigned_bits(a: i8, b: i16, c: i32, d: i64)
    by (bit_vector)
    ensures
        a >= 0 ==> a as u8 == a,
        a < 0 ==> a as u8 == a + 0x100,
        b >= 0 ==> b as u16 == b,
        b < 0 ==> b as u16 == b + 0x10000,
        c >= 0 ==> c as u32 == c,
        c < 0 ==> c as u32 == c + 0x100000000,
        d >= 0 ==> d as u64 == d,
        d < 0 ==> d as u64 == d + 0x10000000000000000,
{
}

impl SerializePayload for i8 {
    const TAG: Tag = Tag::Byte;

    open spec fn payload_bytes(&self) -> Option<Seq<u8>> {
        Some(be_bytes_of(unsigned_of(*self as int, 1), 1))
    }

    /// Writes the number's byte.
    fn serialize_into(&self, buf: &mut Vec<u8>) -> (r: Result<(), SerializationError>)
        ensures
            r is Ok,
            final(buf)@ == old(buf)@ + be_bytes_of(unsigned_of(*self as int, 1), 1),
    {
        proof {
            lemma_unsigned_bits(*self, 0, 0, 0);
            vstd::arithmetic::power2::lemma2_to64();
        }
        push_be(buf, (*self as u8) as u64, 1);
        Ok(())
    }
}

impl SerializePayload for i16 {
    const TAG: Tag = Tag::Short;

    open spec fn payload_bytes(&self) -> Option<Seq<u8>> {
        Some(be_bytes_of(unsigned_of(*self as int, 2), 2))
    }

    /// Writes the number's two big-endian bytes.
    fn serialize_into(&self, buf: &mut Vec<u8>) -> (r: Result<(), SerializationError>)
        ensures
            r is Ok,
            final(buf)@ == old(buf)@ + be_bytes_of(unsigned_of(*self as int, 2), 2),
    {
        proof {
            lemma_unsigned_bits(0, *self, 0, 0);
            vstd::arithmetic::power2::lemma2_to64();
        }
        push_be(buf, (*self as u16) as u64, 2);
        Ok(())
    }
}

impl SerializePayload for i32 {
    const TAG: Tag = Tag::Int;

    open spec fn payload_bytes(&self) -> Option<Seq<u8>> {
        Some(be_bytes_of(unsigned_of(*self as int, 4), 4))
    }

    /// Writes the number's four big-endian bytes.
    fn serialize_into(&self, buf: &mut Vec<u8>) -> (r: Result<(), SerializationError>)
        ensures
            r is Ok,
            final(buf)@ == old(buf)@ + be_bytes_of(unsigned_of(*self as int, 4), 4),
    {
        proof {
            lemma_unsigned_bits(0, 0, *self, 0);
            vstd::arithmetic::power2::lemma2_to64();
        }
        push_be(buf, (*self as u32) as u64, 4);
        Ok(())
    }
}

impl SerializePayload for i64 {
    const TAG: Tag = Tag::Long;

    open spec fn payload_bytes(&self) -> Option<Seq<u8>> {
        Some(be_bytes_of(unsigned_of(*self as int, 8), 8))
    }

    /// Writes the number's eight big-endian bytes.
    fn serialize_into(&self, buf: &mut Vec<u8>) -> (r: Result<(), SerializationError>)
        ensures
            r is Ok,
            final(buf)@ == old(buf)@ + be_bytes_of(unsigned_of(*self as int, 8), 8),
    {
        proof {
            lemma_unsigned_bits(0, 0, 0, *self);
            vstd::arithmetic::power2::lemma2_to64();
            vstd::arithmetic::power2::lemma2_to64_rest();
        }
        push_be(buf, *self as u64, 8);
        Ok(())
    }
}

impl<'a> SerializePayload for &'a str {
    const TAG: Tag = Tag::String;

    open spec fn payload_bytes(&self) -> Option<Seq<u8>> {
        if self.spec_bytes().len() > u16::MAX {
            None
        } else {
            Some(be_u16_bytes(self.spec_bytes().len()) + self.spec_bytes())
        }
    }

    /// Writes the string: its byte count (at most `u16::MAX`) and its bytes.
    fn serialize_into(&self, buf: &mut Vec<u8>) -> (r: Result<(), SerializationError>)
        ensures
            self.spec_bytes().len() > u16::MAX ==> (r matches Err(SerializationError::StringTooLong) && final(buf)@ == old(buf)@),
            self.spec_bytes().len() <= u16::MAX ==> (r is Ok
                && final(buf)@ == old(buf)@ + be_u16_bytes(self.spec_bytes().len()) + self.spec_bytes()),
    {
        let r = serialize_nbt_str(*self, buf);
        proof {
            if r is Ok {
                assert(old(buf)@.is_prefix_of(final(buf)@)) by {
                    assert(final(buf)@.subrange(0, old(buf)@.len() as int) =~= old(buf)@);
                }
            }
        }
        r
    }
}

impl SerializePayload for String {
    const TAG: Tag = Tag::String;

    open spec fn payload_bytes(&self) -> Option<Seq<u8>> {
        let b = vstd::utf8::encode_utf8(self@);
        if b.len() > u16::MAX {
            None
        } else {
            Some(be_u16_bytes(b.len()) + b)
        }
    }

    /// Writes the string as its string slice is written.
    fn serialize_into(&self, buf: &mut Vec<u8>) -> (r: Result<(), SerializationError>)
        ensures
            r matches Err(e) ==> e == SerializationError::StringTooLong && final(buf)@ == old(buf)@,
    {
        let s = self.as_str();
        s.serialize_into(buf)
    }
}

/// A list whose first `j` elements cannot all be written cannot be written.
proof fn lemma_elems_bytes_prefix<T: SerializePayload>(s: Seq<T>, j: int)
    requires
        0 <= j <= s.len(),
        elems_bytes::<T>(s.take(j)) is None,
    ensures
        elems_bytes::<T>(s) is None,
    decreases s.len() - j,
{
    if j < s.len() {
        assert(s.take(j + 1).drop_last() =~= s.take(j));
        lemma_elems_bytes_prefix::<T>(s, j + 1);
    } else {
        assert(s.take(j) =~= s);
    }
}

impl<T: SerializePayload> SerializePayload for Vec<T> {
    const TAG: Tag = Tag::List;

    open spec fn payload_bytes(&self) -> Option<Seq<u8>> {
        if self@.len() > i32::MAX {
            None
        } else {
            match elems_bytes::<T>(self@) {
                Some(b) => Some(seq![tag_byte(T::TAG)] + be_u32_bytes(self@.len()) + b),
                None => None,
            }
        }
    }

    /// Writes a list: the elements' tag, the count (at most `i32::MAX`) and each element.
    fn serialize_into(&self, buf: &mut Vec<u8>) -> (r: Result<(), SerializationError>)
        ensures
            self@.len() > i32::MAX ==> (r matches Err(SerializationError::SeqTooLong)),
    {
        buf.push(T::TAG.to_u8());
        let ghost after_tag = buf@;
        match write_i32_len(self.len(), buf) {
            Ok(()) => {},
            Err(e) => {
                proof {
                    assert(final(buf)@.subrange(0, old(buf)@.len() as int) =~= old(buf)@);
                }
                return Err(e);
            },
        }
        let ghost head = buf@;
        proof {
            assert(head =~= old(buf)@ + seq![tag_byte(T::TAG)] + be_u32_bytes(self@.len()));
            assert(self@.take(0) =~= Seq::<T>::empty());
            assert(buf@ =~= head + elems_bytes::<T>(self@.take(0))->Some_0);
        }
        let mut i: usize = 0;
        while i < self.len()
            invariant
                i <= self@.len(),
                self@.len() <= i32::MAX,
                head == old(buf)@ + seq![tag_byte(T::TAG)] + be_u32_bytes(self@.len()),
                elems_bytes::<T>(self@.take(i as int)) is Some,
                buf@ == head + elems_bytes::<T>(self@.take(i as int))->Some_0,
            decreases self@.len() - i,
        {
            let ghost before = buf@;
            proof {
                assert(self@.take(i + 1).drop_last() =~= self@.take(i as int));
                assert(self@.take(i + 1).last() == self@[i as int]);
            }
            match self[i].serialize_into(buf) {
                Ok(()) => {},
                Err(e) => {
                    proof {
                        lemma_elems_bytes_prefix::<T>(self@, i + 1);
                        assert(final(buf)@.subrange(0, old(buf)@.len() as int) =~= old(buf)@) by {
                            assert forall|j: int| 0 <= j < old(buf)@.len() implies final(buf)@[j] == old(buf)@[j] by {
                                assert(before[j] == head[j]);
                            }
                        }
                    }
                    return Err(e);
                },
            }
            proof {
                assert(buf@ =~= head + elems_bytes::<T>(self@.take(i + 1))->Some_0);
            }
            i = i + 1;
        }
        proof {
            assert(self@.take(i as int) =~= self@);
            assert(final(buf)@.subrange(0, old(buf)@.len() as int) =~= old(buf)@);
        }
        Ok(())
    }
}

/// A written number of `n` bytes followed by anything is read as the number.
pub(crate) proof fn lemma_number_read_back(x: int, n: nat, rest: Seq<u8>)
    requires
        n == 1 || n == 2 || n == 4 || n == 8,
        -pow2((8 * n - 1) as nat) <= x < pow2((8 * n - 1) as nat),
    ensures
        (be_bytes_of(unsigned_of(x, n), n) + rest).len() >= n,
        be_signed(be_bytes_of(unsigned_of(x, n), n) + rest, n) == x,
{
    lemma_number_roundtrip(x, n);
    let w = be_bytes_of(unsigned_of(x, n), n);
    assert((w + rest).take(n as int) =~= w.take(n as int));
    assert(w.take(n as int) =~= w);
}

/// Reading back a written number gives the number: the bytes that `serialize_into`
/// appends for a signed number of `n` bytes are read by `deserialize_payload` as that number.
pub proof fn lemma_number_roundtrip(x: int, n: nat)
    requires
        n == 1 || n == 2 || n == 4 || n == 8,
        -pow2((8 * n - 1) as nat) <= x < pow2((8 * n - 1) as nat),
    ensures
        be_signed(be_bytes_of(unsigned_of(x, n), n), n) == x,
{
    let h = pow2((8 * n - 1) as nat);
    vstd::arithmetic::power2::lemma_pow2_unfold(8 * n);
    assert(pow2(8 * n) == 2 * h);
    let u = unsigned_of(x, n);
    lemma_be_bytes_of_value(u, n);
    assert(be_bytes_of(u, n).take(n as int) =~= be_bytes_of(u, n));
}

/// Reading back a written string gives its bytes: after the two length bytes and the
/// bytes of a string of at most `u16::MAX` bytes, whatever follows, the string is read
/// with exactly those bytes.
pub proof fn lemma_str_roundtrip(bytes: Seq<u8>, rest: Seq<u8>)
    requires
        bytes.len() <= u16::MAX,
    ensures
        spec_skip_nbt_str(be_u16_bytes(bytes.len()) + bytes + rest) == Ok::<nat, crate::nbt::error::DeserializationError>(2 + bytes.len()),
        (be_u16_bytes(bytes.len()) + bytes + rest).subrange(2, 2 + bytes.len() as int) == bytes,
{
    let d = be_u16_bytes(bytes.len()) + bytes + rest;
    assert(be_u16_at(d) == bytes.len());
    assert(d.subrange(2, 2 + bytes.len() as int) =~= bytes);
}

/// Reading back a written length gives the length.
pub proof fn lemma_len_roundtrip(len: nat, rest: Seq<u8>)
    requires
        len <= i32::MAX,
    ensures
        spec_read_i32_len(be_u32_bytes(len) + rest) == Ok::<nat, crate::nbt::error::DeserializationError>(len),
{
    let d = be_u32_bytes(len) + rest;
    assert(d[0] < 128);
    assert(be_u32_at(d) == len);
}

} // verus!
