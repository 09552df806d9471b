use vstd::prelude::*;
use crate::nbt::error::{DeserializationError, DeserializationResult};
use crate::nbt::tag::{Tag, tag_of, tag_byte};
use crate::nbt::helper::{
    deserialize_nbt_str, read_i32_len, spec_read_i32_len, spec_skip_nbt_str, count_of, be_u16_at, ok_len, opt_add,
};
use crate::bitpack::be_value;
use vstd::slice::slice_subrange;
use vstd::utf8::{valid_utf8, decode_utf8};
use vstd::string::StringSliceAdditionalSpecFns;

verus! {

/// Values that can stand for an absent optional field of a compound.
pub trait Optional {
    /// Marks the value as absent.
    fn handle_absent(&mut self);
}

impl<T> Optional for Option<T> {
    fn handle_absent(&mut self)
        ensures
            *final(self) == None::<T>,
    {
        *self = None
    }
}

/// Values that can be read from an NBT payload (the bytes after a tag and a name).
pub trait DeserializePayload<'d>: Default {
    /// The tag of the payloads this type reads.
    const TAG: Tag;

    /// The number of bytes that reading a payload from the start of `data` takes, or
    /// `None` where reading fails. Each type of this crate defines it; the default
    /// stands for types defined elsewhere, of which nothing is proved.
    open spec fn payload_len(data: Seq<u8>) -> Option<nat> {
        None
    }

    /// Whether `self` holds what the payload of `k` bytes at the start of `data` says.
    /// Each type of this crate defines it; the default stands for types defined
    /// elsewhere, of which nothing is proved.
    open spec fn holds_payload(&self, data: Seq<u8>, k: nat) -> bool {
        true
    }

    /// Whether `e` is the error with which reading a payload from the start of `data`
    /// fails. Each type of this crate defines it; the default stands for types defined
    /// elsewhere, of which nothing is proved.
    open spec fn payload_error(data: Seq<u8>, e: DeserializationError) -> bool {
        true
    }

    /// Reads a payload from the start of `data` into `self` and returns the number of
    /// bytes it took.
    fn deserialize_payload(&mut self, data: &'d [u8]) -> (r: DeserializationResult<usize>)
        ensures
            ok_len(r) == Self::payload_len(data@),
            r matches Ok(k) ==> k <= data@.len() && final(self).holds_payload(data@, k as nat),
            r matches Err(e) ==> Self::payload_error(data@, e),
    ;
}

/// The bytes taken by `n` payloads of `T` one after another at the start of `d`, or
/// `None` where reading one of them fails.
pub open spec fn elems_len<'d, T: DeserializePayload<'d>>(d: Seq<u8>, n: nat) -> Option<nat>
    decreases n,
{
    if n == 0 {
        Some(0)
    } else {
        match T::payload_len(d) {
            None => None,
            Some(k) => if k > d.len() {
                None
            } else {
                match elems_len::<T>(d.skip(k as int), (n - 1) as nat) {
                    None => None,
                    Some(m) => Some(k + m),
                }
            },
        }
    }
}

/// Where element `i` of payloads of `T` one after another at the start of `d` begins.
pub open spec fn elem_start<'d, T: DeserializePayload<'d>>(d: Seq<u8>, i: int) -> nat {
    elems_len::<T>(d, i as nat)->Some_0
}

/// Each element of `es` holds what its payload says, the payloads following each other
/// from the start of `d`.
pub open spec fn elems_hold<'d, T: DeserializePayload<'d>>(es: Seq<T>, d: Seq<u8>) -> bool {
    forall|i: int| 0 <= i < es.len() ==> #[trigger] es[i].holds_payload(
        d.skip(elem_start::<T>(d, i) as int), T::payload_len(d.skip(elem_start::<T>(d, i) as int))->Some_0)
}

/// Reading `i` payloads and then one more of `k` bytes reads `i + 1` payloads.
pub proof fn lemma_elems_len_extend<'d, T: DeserializePayload<'d>>(d: Seq<u8>, i: nat, p: nat, k: nat)
    requires
        elems_len::<T>(d, i) == Some(p),
        p <= d.len(),
        T::payload_len(d.skip(p as int)) == Some(k),
        k <= d.len() - p,
    ensures
        elems_len::<T>(d, i + 1) == Some(p + k),
    decreases i,
{
    if i == 0 {
        assert(d.skip(0) =~= d);
        assert(elems_len::<T>(d.skip(k as int), 0) == Some(0nat));
    } else {
        let k0 = T::payload_len(d)->Some_0;
        let m = elems_len::<T>(d.skip(k0 as int), (i - 1) as nat)->Some_0;
        assert(d.skip(k0 as int).skip(m as int) =~= d.skip(p as int));
        lemma_elems_len_extend::<T>(d.skip(k0 as int), (i - 1) as nat, m, k);
    }
}

/// Where `n` payloads of `T` can be read one after another, so can the first `i`, and
/// the payload after them, for `i < n`, can be read.
pub proof fn lemma_elems_prefix<'d, T: DeserializePayload<'d>>(d: Seq<u8>, n: nat, i: nat)
    requires
        elems_len::<T>(d, n) is Some,
        i <= n,
    ensures
        elems_len::<T>(d, i) matches Some(p) && p <= d.len()
            && (i < n ==> T::payload_len(d.skip(p as int)) is Some),
    decreases i,
{
    if i == 0 {
        assert(d.skip(0) =~= d);
    } else {
        let k0 = T::payload_len(d)->Some_0;
        lemma_elems_prefix::<T>(d.skip(k0 as int), (n - 1) as nat, (i - 1) as nat);
        let m = elems_len::<T>(d.skip(k0 as int), (i - 1) as nat)->Some_0;
        assert(d.skip(k0 as int).skip(m as int) =~= d.skip((k0 + m) as int));
    }
}

/// Whether `e` is the error with which reading `n` payloads of `T` one after another
/// from the start of `d` fails: the error of the first payload that cannot be read.
pub open spec fn elems_error<'d, T: DeserializePayload<'d>>(d: Seq<u8>, n: nat, e: DeserializationError) -> bool
    decreases n,
{
    if n == 0 {
        false
    } else {
        match T::payload_len(d) {
            None => T::payload_error(d, e),
            Some(k) => if k > d.len() {
                false
            } else {
                elems_error::<T>(d.skip(k as int), (n - 1) as nat, e)
            },
        }
    }
}

/// Where reading the payload after the first `i` ones (taking `p` bytes) fails with
/// `e`, reading `n > i` payloads fails with `e`.
pub proof fn lemma_elems_error_at<'d, T: DeserializePayload<'d>>(d: Seq<u8>, i: nat, p: nat, n: nat, e: DeserializationError)
    requires
        elems_len::<T>(d, i) == Some(p),
        p <= d.len(),
        i < n,
        T::payload_len(d.skip(p as int)) is None,
        T::payload_error(d.skip(p as int), e),
    ensures
        elems_error::<T>(d, n, e),
    decreases i,
{
    if i == 0 {
        assert(d.skip(0) =~= d);
    } else {
        let k0 = T::payload_len(d)->Some_0;
        let m = elems_len::<T>(d.skip(k0 as int), (i - 1) as nat)->Some_0;
        assert(d.skip(k0 as int).skip(m as int) =~= d.skip(p as int));
        lemma_elems_error_at::<T>(d.skip(k0 as int), (i - 1) as nat, m, (n - 1) as nat, e);
    }
}

impl<'d, T: DeserializePayload<'d> + Default> DeserializePayload<'d> for Option<T> {
    const TAG: Tag = T::TAG;

    open spec fn payload_len(data: Seq<u8>) -> Option<nat> {
        T::payload_len(data)
    }

    open spec fn holds_payload(&self, data: Seq<u8>, k: nat) -> bool {
        self matches Some(v) && v.holds_payload(data, k)
    }

    open spec fn payload_error(data: Seq<u8>, e: DeserializationError) -> bool {
        T::payload_error(data, e)
    }

    /// Reads into the present value, or into a fresh default value if there is none;
    /// either way the option is present afterwards.
    fn deserialize_payload(&mut self, data: &'d [u8]) -> (r: DeserializationResult<usize>)
        ensures
            *final(self) is Some,
    {
        if self.is_none() {
            *self = Some(T::default());
        }
        match self {
            Some(v) => v.deserialize_payload(data),
            None => Err(DeserializationError::EOF),
        }
    }
}

/// The first `n` bytes as a big-endian signed number of `n` bytes.
pub open spec fn be_signed(d: Seq<u8>, n: nat) -> int {
    let u = be_value(d.take(n as int));
    if u < vstd::arithmetic::power2::pow2((8 * n - 1) as nat) {
        u as int
    } else {
        u - vstd::arithmetic::power2::pow2(8 * n)
    }
}

/// Reads the first `n` bytes of `data` as a big-endian unsigned number.
fn read_be(data: &[u8], n: usize) -> (r: u64)
    requires
        n <= 8,
        n <= data@.len(),
    ensures
        r as nat == be_value(data@.take(n as int)),
{
    let mut w: u64 = 0;
    let mut t: usize = 0;
    while t < n
        invariant
            n <= 8,
            n <= data@.len(),
            t <= n,
            w as nat == be_value(data@.take(t as int)),
        decreases n - t,
    {
        proof {
            vstd::arithmetic::power2::lemma2_to64();
            vstd::arithmetic::power2::lemma2_to64_rest();
            crate::bitpack::lemma_be_value_bound(data@.take(t as int));
            assert(data@.take(t + 1).drop_last() =~= data@.take(t as int));
            if t < 7 {
                vstd::arithmetic::power2::lemma_pow2_strictly_increases((8 * t) as nat, 56);
            }
            assert(w * 256 + 255 <= u64::MAX) by (nonlinear_arith)
                requires w < vstd::arithmetic::power2::pow2((8 * t) as nat),
                    vstd::arithmetic::power2::pow2((8 * t) as nat) <= vstd::arithmetic::power2::pow2(56),
                    vstd::arithmetic::power2::pow2(56) == 0x100000000000000nat;
        }
        w = w * 256 + data[t] as u64;
        t = t + 1;
    }
    w
}

proof fn lemma_as_i8(u: u8)
    by (bit_vector)
    ensures
        u < 0x80 ==> u as i8 == u,
        u >= 0x80 ==> u as i8 == u - 0x100,
{
}

proof fn lemma_as_i16(u: u16)
    by (bit_vector)
    ensures
        u < 0x8000 ==> u as i16 == u,
        u >= 0x8000 ==> u as i16 == u - 0x10000,
{
}

proof fn lemma_as_i32(u: u32)
    by (bit_vector)
    ensures
        u < 0x80000000 ==> u as i32 == u,
        u >= 0x80000000 ==> u as i32 == u - 0x100000000,
{
}

proof fn lemma_as_i64(u: u64)
    by (bit_vector)
    ensures
        u < 0x8000000000000000 ==> u as i64 == u,
        u >= 0x8000000000000000 ==> u as i64 == u - 0x10000000000000000,
{
}

impl<'d> DeserializePayload<'d> for i8 {
    const TAG: Tag = Tag::Byte;

    open spec fn payload_len(data: Seq<u8>) -> Option<nat> {
        if data.len() >= 1 { Some(1) } else { None }
    }

    open spec fn payload_error(data: Seq<u8>, e: DeserializationError) -> bool {
        e == DeserializationError::EOF
    }

    open spec fn holds_payload(&self, data: Seq<u8>, k: nat) -> bool {
        *self as int == be_signed(data, 1)
    }

    /// Reads one byte as a signed number.
    fn deserialize_payload(&mut self, data: &'d [u8]) -> (r: DeserializationResult<usize>)
        ensures
            data@.len() < 1 ==> (r matches Err(DeserializationError::EOF) && *final(self) == *old(self)),
            data@.len() >= 1 ==> (r matches Ok(k) && k == 1 && *final(self) as int == be_signed(data@, 1)),
    {
        if data.len() < 1 {
            return Err(DeserializationError::EOF);
        }
        proof {
            vstd::arithmetic::power2::lemma2_to64();
            crate::bitpack::lemma_be_value_bound(data@.take(1));
        }
        let u = read_be(data, 1) as u8;
        proof {
            lemma_as_i8(u);
        }
        *self = u as i8;
        Ok(1)
    }
}

impl<'d> DeserializePayload<'d> for i16 {
    const TAG: Tag = Tag::Short;

    open spec fn payload_len(data: Seq<u8>) -> Option<nat> {
        if data.len() >= 2 { Some(2) } else { None }
    }

    open spec fn payload_error(data: Seq<u8>, e: DeserializationError) -> bool {
        e == DeserializationError::EOF
    }

    open spec fn holds_payload(&self, data: Seq<u8>, k: nat) -> bool {
        *self as int == be_signed(data, 2)
    }

    /// Reads two big-endian bytes as a signed number.
    fn deserialize_payload(&mut self, data: &'d [u8]) -> (r: DeserializationResult<usize>)
        ensures
            data@.len() < 2 ==> (r matches Err(DeserializationError::EOF) && *final(self) == *old(self)),
            data@.len() >= 2 ==> (r matches Ok(k) && k == 2 && *final(self) as int == be_signed(data@, 2)),
    {
        if data.len() < 2 {
            return Err(DeserializationError::EOF);
        }
        proof {
            vstd::arithmetic::power2::lemma2_to64();
            crate::bitpack::lemma_be_value_bound(data@.take(2));
        }
        let u = read_be(data, 2) as u16;
        proof {
            lemma_as_i16(u);
        }
        *self = u as i16;
        Ok(2)
    }
}

impl<'d> DeserializePayload<'d> for i32 {
    const TAG: Tag = Tag::Int;

    open spec fn payload_len(data: Seq<u8>) -> Option<nat> {
        if data.len() >= 4 { Some(4) } else { None }
    }

    open spec fn payload_error(data: Seq<u8>, e: DeserializationError) -> bool {
        e == DeserializationError::EOF
    }

    open spec fn holds_payload(&self, data: Seq<u8>, k: nat) -> bool {
        *self as int == be_signed(data, 4)
    }

    /// Reads four big-endian bytes as a signed number.
    fn deserialize_payload(&mut self, data: &'d [u8]) -> (r: DeserializationResult<usize>)
        ensures
            data@.len() < 4 ==> (r matches Err(DeserializationError::EOF) && *final(self) == *old(self)),
            data@.len() >= 4 ==> (r matches Ok(k) && k == 4 && *final(self) as int == be_signed(data@, 4)),
    {
        if data.len() < 4 {
            return Err(DeserializationError::EOF);
        }
        proof {
            vstd::arithmetic::power2::lemma2_to64();
            crate::bitpack::lemma_be_value_bound(data@.take(4));
        }
        let u = read_be(data, 4) as u32;
        proof {
            lemma_as_i32(u);
        }
        *self = u as i32;
        Ok(4)
    }
}

impl<'d> DeserializePayload<'d> for i64 {
    const TAG: Tag = Tag::Long;

    open spec fn payload_len(data: Seq<u8>) -> Option<nat> {
        if data.len() >= 8 { Some(8) } else { None }
    }

    open spec fn payload_error(data: Seq<u8>, e: DeserializationError) -> bool {
        e == DeserializationError::EOF
    }

    open spec fn holds_payload(&self, data: Seq<u8>, k: nat) -> bool {
        *self as int == be_signed(data, 8)
    }

    /// Reads eight big-endian bytes as a signed number.
    fn deserialize_payload(&mut self, data: &'d [u8]) -> (r: DeserializationResult<usize>)
        ensures
            data@.len() < 8 ==> (r matches Err(DeserializationError::EOF) && *final(self) == *old(self)),
            data@.len() >= 8 ==> (r matches Ok(k) && k == 8 && *final(self) as int == be_signed(data@, 8)),
    {
        if data.len() < 8 {
            return Err(DeserializationError::EOF);
        }
        proof {
            vstd::arithmetic::power2::lemma2_to64();
            vstd::arithmetic::power2::lemma2_to64_rest();
        }
        let u = read_be(data, 8);
        proof {
            lemma_as_i64(u);
        }
        *self = u as i64;
        Ok(8)
    }
}

impl<'d> DeserializePayload<'d> for &'d str {
    const TAG: Tag = Tag::String;

    open spec fn payload_len(data: Seq<u8>) -> Option<nat> {
        match spec_skip_nbt_str(data) {
            Ok(n) => if valid_utf8(data.subrange(2, n as int)) { Some(n) } else { None },
            Err(_) => None,
        }
    }

    open spec fn payload_error(data: Seq<u8>, e: DeserializationError) -> bool {
        match spec_skip_nbt_str(data) {
            Err(e0) => e == e0,
            Ok(_) => e is InvalidUTF8,
        }
    }

    open spec fn holds_payload(&self, data: Seq<u8>, k: nat) -> bool {
        self@ == decode_utf8(data.subrange(2, k as int))
    }

    /// Reads a UTF-8 string, borrowing it from `data`.
    fn deserialize_payload(&mut self, data: &'d [u8]) -> (r: DeserializationResult<usize>)
        ensures
            spec_skip_nbt_str(data@) matches Err(e) ==> (r matches Err(e2) && e2 == e),
            spec_skip_nbt_str(data@) matches Ok(n) ==> {
                let bytes = data@.subrange(2, n as int);
                &&& valid_utf8(bytes) ==> (r matches Ok(k) && k == n && final(self)@ == decode_utf8(bytes))
                &&& !valid_utf8(bytes) ==> r matches Err(DeserializationError::InvalidUTF8(_))
            },
    {
        match deserialize_nbt_str(data) {
            Ok((s, off)) => {
                *self = s;
                Ok(off)
            },
            Err(e) => Err(e),
        }
    }
}

impl<'d> DeserializePayload<'d> for String {
    const TAG: Tag = Tag::String;

    open spec fn payload_len(data: Seq<u8>) -> Option<nat> {
        match spec_skip_nbt_str(data) {
            Ok(n) => if valid_utf8(data.subrange(2, n as int)) { Some(n) } else { None },
            Err(_) => None,
        }
    }

    open spec fn payload_error(data: Seq<u8>, e: DeserializationError) -> bool {
        match spec_skip_nbt_str(data) {
            Err(e0) => e == e0,
            Ok(_) => e is InvalidUTF8,
        }
    }

    open spec fn holds_payload(&self, data: Seq<u8>, k: nat) -> bool {
        self@ == decode_utf8(data.subrange(2, k as int))
    }

    /// Reads a UTF-8 string into an owned string.
    fn deserialize_payload(&mut self, data: &'d [u8]) -> (r: DeserializationResult<usize>)
        ensures
            spec_skip_nbt_str(data@) matches Err(e) ==> (r matches Err(e2) && e2 == e),
            spec_skip_nbt_str(data@) matches Ok(n) ==> {
                let bytes = data@.subrange(2, n as int);
                &&& valid_utf8(bytes) ==> (r matches Ok(k) && k == n && final(self)@ == decode_utf8(bytes))
                &&& !valid_utf8(bytes) ==> r matches Err(DeserializationError::InvalidUTF8(_))
            },
    {
        match deserialize_nbt_str(data) {
            Ok((s, off)) => {
                *self = s.to_owned();
                Ok(off)
            },
            Err(e) => Err(e),
        }
    }
}

impl<'d, T: DeserializePayload<'d> + Default> DeserializePayload<'d> for Vec<T> {
    const TAG: Tag = Tag::List;

    open spec fn payload_len(data: Seq<u8>) -> Option<nat> {
        if data.len() < 5 || tag_of(data[0]) != Some(T::TAG) {
            None
        } else {
            match spec_read_i32_len(data.skip(1)) {
                Err(_) => None,
                Ok(l) => opt_add(elems_len::<T>(data.skip(5), l), 5),
            }
        }
    }

    open spec fn holds_payload(&self, data: Seq<u8>, k: nat) -> bool {
        &&& spec_read_i32_len(data.skip(1)) == Ok::<nat, DeserializationError>(self@.len())
        &&& elems_hold::<T>(self@, data.skip(5))
    }

    open spec fn payload_error(data: Seq<u8>, e: DeserializationError) -> bool {
        if data.len() < 5 {
            e == DeserializationError::EOF
        } else if tag_of(data[0]) != Some(T::TAG) {
            e == DeserializationError::UnexpectedTag(data[0])
        } else {
            match spec_read_i32_len(data.skip(1)) {
                Err(e0) => e == e0,
                Ok(l) => elems_error::<T>(data.skip(5), l, e),
            }
        }
    }

    /// Reads a list whose elements have `T`'s tag: the vector takes the list's length
    /// (keeping the elements it already has) and each element is read in turn.
    fn deserialize_payload(&mut self, data: &'d [u8]) -> (r: DeserializationResult<usize>)
        ensures
            data@.len() < 5 ==> (r matches Err(DeserializationError::EOF)),
            data@.len() >= 5 && tag_of(data@[0]) is None ==> (r matches Err(e) && e == DeserializationError::UnexpectedTag(data@[0])),
            data@.len() >= 5 && tag_of(data@[0]) is Some && tag_of(data@[0]) != Some(T::TAG)
                ==> (r matches Err(e) && e == DeserializationError::UnexpectedTag(data@[0])),
            r is Ok ==> {
                &&& data@.len() >= 5
                &&& tag_of(data@[0]) == Some(T::TAG)
                &&& spec_read_i32_len(data@.skip(1)) == Ok::<nat, DeserializationError>(final(self)@.len())
            },
    {
        if data.len() < 5 {
            return Err(DeserializationError::EOF);
        }
        let t = match Tag::try_from(data[0]) {
            Ok(t) => t,
            Err(e) => return Err(e),
        };
        let mut off: usize = 1;
        if t != T::TAG {
            proof {
                crate::nbt::tag::lemma_tag_byte_roundtrip(t);
            }
            return Err(DeserializationError::UnexpectedTag(t.to_u8()));
        }
        let rest = slice_subrange(data, 1, data.len());
        proof {
            assert(rest@ =~= data@.skip(1));
        }
        let len = match read_i32_len(rest) {
            Ok(l) => l,
            Err(e) => return Err(e),
        };
        off = off + 4;
        self.truncate(len);
        while self.len() < len
            invariant
                self@.len() <= len,
                data@.len() >= 5,
                tag_of(data@[0]) == Some(T::TAG),
                spec_read_i32_len(data@.skip(1)) == Ok::<nat, DeserializationError>(len as nat),
            decreases len - self@.len(),
        {
            self.push(T::default());
        }
        let ghost d5 = data@.skip(5);
        proof {
            assert(data@.skip(off as int) =~= d5);
        }
        let mut i: usize = 0;
        while i < len
            invariant
                self@.len() == len,
                i <= len,
                5 <= off <= data@.len(),
                data@.len() >= 5,
                tag_of(data@[0]) == Some(T::TAG),
                spec_read_i32_len(data@.skip(1)) == Ok::<nat, DeserializationError>(len as nat),
                d5 == data@.skip(5),
                elems_len::<T>(d5, i as nat) == Some((off - 5) as nat),
                elems_len::<T>(d5, len as nat) == opt_add(elems_len::<T>(data@.skip(off as int), (len - i) as nat), (off - 5) as nat),
                forall|j: int| 0 <= j < i ==> #[trigger] self@[j].holds_payload(
                    d5.skip(elem_start::<T>(d5, j) as int), T::payload_len(d5.skip(elem_start::<T>(d5, j) as int))->Some_0),
            decreases len - i,
        {
            let tail = slice_subrange(data, off, data.len());
            proof {
                assert(tail@ =~= data@.skip(off as int));
                assert(d5.skip(off - 5) =~= tail@);
            }
            let ghost before = self@;
            let k = match self[i].deserialize_payload(tail) {
                Ok(k) => k,
                Err(e) => {
                    proof {
                        lemma_elems_error_at::<T>(d5, i as nat, (off - 5) as nat, len as nat, e);
                    }
                    return Err(e);
                },
            };
            proof {
                assert(tail@.skip(k as int) =~= data@.skip(off + k));
                lemma_elems_len_extend::<T>(d5, i as nat, (off - 5) as nat, k as nat);
                assert forall|j: int| 0 <= j < i + 1 implies #[trigger] self@[j].holds_payload(
                    d5.skip(elem_start::<T>(d5, j) as int), T::payload_len(d5.skip(elem_start::<T>(d5, j) as int))->Some_0) by {
                    if j < i {
                        assert(self@[j] == before[j]);
                    }
                }
            }
            off = off + k;
            i = i + 1;
        }
        proof {
            assert(elems_hold::<T>(self@, d5));
        }
        Ok(off)
    }
}

} // verus!
