//! What is read back of what is written: a value written as a payload and read again,
//! whatever follows it, takes exactly the bytes written and holds what they say.

use vstd::prelude::*;
use crate::nbt::deserialize::{DeserializePayload, elems_len, elem_start, elems_hold};
use crate::nbt::serialize::{SerializePayload, elems_bytes, lemma_len_roundtrip, lemma_number_read_back, lemma_str_roundtrip};
use crate::nbt::helper::{be_u16_bytes, be_u32_bytes, spec_read_i32_len};
use crate::nbt::tag::{Tag, tag_byte, tag_of, lemma_tag_byte_roundtrip};
use crate::nbt::payload_start;
use vstd::string::StringSliceAdditionalSpecFns;
use vstd::utf8::decode_utf8;
use crate::nbt::compound::{
    CompoundFields, SerializeFields, compound_bytes, compound_holds, compound_rest_len, entry_step, field_entry,
    field_header, field_named, fields_bytes, lemma_entry, lemma_rest_first, rest_optional,
};

verus! {

/// `v` reads back from what is written for it, whatever follows: reading a payload
/// from its bytes followed by anything takes exactly its bytes, and `v` holds what
/// they say.
pub open spec fn reads_back<'d, T: DeserializePayload<'d> + SerializePayload>(v: T) -> bool {
    &&& v.payload_bytes() is Some
    &&& forall|rest: Seq<u8>| #[trigger] T::payload_len(v.payload_bytes()->Some_0 + rest) == Some(v.payload_bytes()->Some_0.len())
        && v.holds_payload(v.payload_bytes()->Some_0 + rest, v.payload_bytes()->Some_0.len())
}

/// Numbers read back.
pub proof fn lemma_numbers_read_back(a: i8, b: i16, c: i32, d: i64)
    ensures
        reads_back::<i8>(a),
        reads_back::<i16>(b),
        reads_back::<i32>(c),
        reads_back::<i64>(d),
{
    vstd::arithmetic::power2::lemma2_to64();
    vstd::arithmetic::power2::lemma2_to64_rest();
    assert forall|rest: Seq<u8>| #[trigger] <i8 as DeserializePayload>::payload_len(a.payload_bytes()->Some_0 + rest)
        == Some(a.payload_bytes()->Some_0.len()) && a.holds_payload(a.payload_bytes()->Some_0 + rest, a.payload_bytes()->Some_0.len()) by {
        lemma_number_read_back(a as int, 1, rest);
    }
    assert forall|rest: Seq<u8>| #[trigger] <i16 as DeserializePayload>::payload_len(b.payload_bytes()->Some_0 + rest)
        == Some(b.payload_bytes()->Some_0.len()) && b.holds_payload(b.payload_bytes()->Some_0 + rest, b.payload_bytes()->Some_0.len()) by {
        lemma_number_read_back(b as int, 2, rest);
    }
    assert forall|rest: Seq<u8>| #[trigger] <i32 as DeserializePayload>::payload_len(c.payload_bytes()->Some_0 + rest)
        == Some(c.payload_bytes()->Some_0.len()) && c.holds_payload(c.payload_bytes()->Some_0 + rest, c.payload_bytes()->Some_0.len()) by {
        lemma_number_read_back(c as int, 4, rest);
    }
    assert forall|rest: Seq<u8>| #[trigger] <i64 as DeserializePayload>::payload_len(d.payload_bytes()->Some_0 + rest)
        == Some(d.payload_bytes()->Some_0.len()) && d.holds_payload(d.payload_bytes()->Some_0 + rest, d.payload_bytes()->Some_0.len()) by {
        lemma_number_read_back(d as int, 8, rest);
    }
}

/// A string of at most `u16::MAX` bytes reads back.
pub proof fn lemma_string_read_back(s: String)
    requires
        vstd::utf8::encode_utf8(s@).len() <= u16::MAX,
    ensures
        reads_back::<String>(s),
{
    let b = vstd::utf8::encode_utf8(s@);
    let w = be_u16_bytes(b.len()) + b;
    assert(s.payload_bytes() == Some(w));
    assert(vstd::utf8::valid_utf8(b)) by {
        vstd::utf8::encode_utf8_valid_utf8(s@);
    }
    assert(vstd::utf8::decode_utf8(b) == s@) by {
        vstd::utf8::encode_utf8_decode_utf8(s@);
    }
    assert forall|rest: Seq<u8>| #[trigger] <String as DeserializePayload>::payload_len(w + rest)
        == Some(w.len()) && s.holds_payload(w + rest, w.len()) by {
        lemma_str_roundtrip(b, rest);
        assert(w + rest =~= be_u16_bytes(b.len()) + b + rest);
    }
}

/// Elements that can each be written can be written one after another, the first
/// element's bytes in front.
proof fn lemma_elems_bytes_front<T: SerializePayload>(s: Seq<T>)
    requires
        s.len() > 0,
        forall|i: int| 0 <= i < s.len() ==> (#[trigger] s[i]).payload_bytes() is Some,
    ensures
        elems_bytes::<T>(s) is Some,
        elems_bytes::<T>(s.skip(1)) is Some,
        elems_bytes::<T>(s)->Some_0 == s[0].payload_bytes()->Some_0 + elems_bytes::<T>(s.skip(1))->Some_0,
    decreases s.len(),
{
    if s.len() == 1 {
        assert(s.drop_last() =~= Seq::<T>::empty());
        assert(s.skip(1) =~= Seq::<T>::empty());
        assert(elems_bytes::<T>(s.drop_last()) == Some(Seq::<u8>::empty()));
        assert(elems_bytes::<T>(s)->Some_0 =~= s[0].payload_bytes()->Some_0 + Seq::<u8>::empty());
    } else {
        let t = s.drop_last();
        assert forall|i: int| 0 <= i < t.len() implies (#[trigger] t[i]).payload_bytes() is Some by {
            assert(t[i] == s[i]);
        }
        lemma_elems_bytes_front::<T>(t);
        assert(t.skip(1) =~= s.skip(1).drop_last());
        assert(s.skip(1).last() == s.last());
        assert(t[0] == s[0]);
        assert(elems_bytes::<T>(s)->Some_0 =~= s[0].payload_bytes()->Some_0 + elems_bytes::<T>(s.skip(1))->Some_0);
    }
}

/// Elements that can each be written are written as the first `i` of them followed by
/// the rest.
proof fn lemma_elems_bytes_split<T: SerializePayload>(s: Seq<T>, i: int)
    requires
        0 <= i <= s.len(),
        forall|j: int| 0 <= j < s.len() ==> (#[trigger] s[j]).payload_bytes() is Some,
    ensures
        elems_bytes::<T>(s) is Some,
        elems_bytes::<T>(s.take(i)) is Some,
        elems_bytes::<T>(s.skip(i)) is Some,
        elems_bytes::<T>(s)->Some_0 == elems_bytes::<T>(s.take(i))->Some_0 + elems_bytes::<T>(s.skip(i))->Some_0,
    decreases s.len(),
{
    if i == s.len() {
        assert(s.take(i) =~= s);
        assert(s.skip(i) =~= Seq::<T>::empty());
        if s.len() > 0 {
            let t = s.drop_last();
            assert forall|j: int| 0 <= j < t.len() implies (#[trigger] t[j]).payload_bytes() is Some by {
                assert(t[j] == s[j]);
            }
            lemma_elems_bytes_split::<T>(t, t.len() as int);
        }
        assert(elems_bytes::<T>(s)->Some_0 =~= elems_bytes::<T>(s.take(i))->Some_0 + Seq::<u8>::empty());
    } else {
        let t = s.drop_last();
        assert forall|j: int| 0 <= j < t.len() implies (#[trigger] t[j]).payload_bytes() is Some by {
            assert(t[j] == s[j]);
        }
        lemma_elems_bytes_split::<T>(t, i);
        assert(t.take(i) =~= s.take(i));
        assert(s.skip(i).drop_last() =~= t.skip(i));
        assert(s.skip(i).last() == s.last());
        assert(elems_bytes::<T>(s)->Some_0 =~= elems_bytes::<T>(s.take(i))->Some_0 + elems_bytes::<T>(s.skip(i))->Some_0);
    }
}

/// Elements that each read back are read back one after another: reading `s.len()`
/// payloads from their bytes followed by anything takes exactly their bytes, element
/// `i` starting where the bytes of the first `i` end.
proof fn lemma_elems_read_back<'d, T: DeserializePayload<'d> + SerializePayload>(s: Seq<T>, rest: Seq<u8>)
    requires
        forall|i: int| 0 <= i < s.len() ==> reads_back::<T>(#[trigger] s[i]),
    ensures
        elems_bytes::<T>(s) is Some,
        elems_len::<T>(elems_bytes::<T>(s)->Some_0 + rest, s.len()) == Some(elems_bytes::<T>(s)->Some_0.len()),
        forall|i: int| 0 <= i <= s.len() ==> #[trigger] elems_len::<T>(elems_bytes::<T>(s)->Some_0 + rest, i as nat)
            == Some(elems_bytes::<T>(s.take(i))->Some_0.len()),
        forall|i: int| 0 <= i < s.len() ==> (#[trigger] elems_bytes::<T>(s.take(i))) is Some
            && (elems_bytes::<T>(s)->Some_0 + rest).skip(elems_bytes::<T>(s.take(i))->Some_0.len() as int)
                == s[i].payload_bytes()->Some_0 + (elems_bytes::<T>(s.skip(i + 1))->Some_0 + rest)
            && elems_bytes::<T>(s.skip(i + 1)) is Some,
    decreases s.len(),
{
    if s.len() == 0 {
        assert(elems_bytes::<T>(s) == Some(Seq::<u8>::empty()));
        assert forall|i: int| 0 <= i <= s.len() implies #[trigger] elems_len::<T>(elems_bytes::<T>(s)->Some_0 + rest, i as nat)
            == Some(elems_bytes::<T>(s.take(i))->Some_0.len()) by {
            assert(s.take(i) =~= Seq::<T>::empty());
        }
    } else {
        assert forall|i: int| 0 <= i < s.len() implies (#[trigger] s[i]).payload_bytes() is Some by {
            assert(reads_back::<T>(s[i]));
        }
        lemma_elems_bytes_front::<T>(s);
        let t = s.skip(1);
        assert forall|i: int| 0 <= i < t.len() implies reads_back::<T>(#[trigger] t[i]) by {
            assert(t[i] == s[i + 1]);
        }
        let b0 = s[0].payload_bytes()->Some_0;
        let bt = elems_bytes::<T>(t)->Some_0;
        lemma_elems_read_back::<T>(t, rest);
        let d = elems_bytes::<T>(s)->Some_0 + rest;
        assert(d =~= b0 + (bt + rest));
        assert(reads_back::<T>(s[0]));
        assert(T::payload_len(b0 + (bt + rest)) == Some(b0.len()));
        assert(d.skip(b0.len() as int) =~= bt + rest);
        assert forall|i: int| 0 <= i <= s.len() implies #[trigger] elems_len::<T>(d, i as nat)
            == Some(elems_bytes::<T>(s.take(i))->Some_0.len()) by {
            if i == 0 {
                assert(s.take(0) =~= Seq::<T>::empty());
            } else {
                assert(elems_len::<T>(bt + rest, (i - 1) as nat) == Some(elems_bytes::<T>(t.take(i - 1))->Some_0.len()));
                assert(s.take(i).skip(1) =~= t.take(i - 1));
                assert(s.take(i)[0] == s[0]);
                assert forall|j: int| 0 <= j < s.take(i).len() implies (#[trigger] s.take(i)[j]).payload_bytes() is Some by {
                    assert(s.take(i)[j] == s[j]);
                    assert(reads_back::<T>(s[j]));
                }
                lemma_elems_bytes_front::<T>(s.take(i));
            }
        }
        assert(s.take(s.len() as int) =~= s);
        assert forall|i: int| 0 <= i < s.len() implies (#[trigger] elems_bytes::<T>(s.take(i))) is Some
            && d.skip(elems_bytes::<T>(s.take(i))->Some_0.len() as int)
                == s[i].payload_bytes()->Some_0 + (elems_bytes::<T>(s.skip(i + 1))->Some_0 + rest)
            && elems_bytes::<T>(s.skip(i + 1)) is Some by {
            if i == 0 {
                assert(s.take(0) =~= Seq::<T>::empty());
                assert(elems_bytes::<T>(s.take(0)) == Some(Seq::<u8>::empty()));
                assert(d.skip(0) =~= d);
                assert(s.skip(1) == t);
            } else {
                assert(elems_bytes::<T>(t.take(i - 1)) is Some);
                assert(t.skip(i) =~= s.skip(i + 1));
                assert(t[i - 1] == s[i]);
                assert(s.take(i).skip(1) =~= t.take(i - 1));
                assert(s.take(i)[0] == s[0]);
                assert forall|j: int| 0 <= j < s.take(i).len() implies (#[trigger] s.take(i)[j]).payload_bytes() is Some by {
                    assert(s.take(i)[j] == s[j]);
                    assert(reads_back::<T>(s[j]));
                }
                lemma_elems_bytes_front::<T>(s.take(i));
                let bi = elems_bytes::<T>(t.take(i - 1))->Some_0;
                assert forall|j: int| 0 <= j < t.len() implies (#[trigger] t[j]).payload_bytes() is Some by {
                    assert(reads_back::<T>(t[j]));
                }
                lemma_elems_bytes_split::<T>(t, i - 1);
                assert(d.skip((b0.len() + bi.len()) as int) =~= (bt + rest).skip(bi.len() as int));
            }
        }
    }
}

/// A list whose elements each read back reads back.
pub proof fn lemma_list_reads_back<'d, T: DeserializePayload<'d> + SerializePayload + Default>(v: Vec<T>)
    requires
        v@.len() <= i32::MAX,
        <T as DeserializePayload<'d>>::TAG == <T as SerializePayload>::TAG,
        forall|i: int| 0 <= i < v@.len() ==> reads_back::<T>(#[trigger] v@[i]),
    ensures
        reads_back::<Vec<T>>(v),
{
    assert forall|rest: Seq<u8>| #[trigger] <Vec<T> as DeserializePayload<'d>>::payload_len(v.payload_bytes()->Some_0 + rest)
        == Some(v.payload_bytes()->Some_0.len())
        && v.holds_payload(v.payload_bytes()->Some_0 + rest, v.payload_bytes()->Some_0.len()) by {
        lemma_elems_read_back::<T>(v@, rest);
        let e = elems_bytes::<T>(v@)->Some_0;
        let tb = tag_byte(<T as SerializePayload>::TAG);
        let b = seq![tb] + be_u32_bytes(v@.len()) + e;
        assert(v.payload_bytes() == Some(b));
        let d = b + rest;
        lemma_tag_byte_roundtrip(<T as SerializePayload>::TAG);
        assert(d[0] == tb);
        lemma_len_roundtrip(v@.len(), e + rest);
        assert(d.skip(1) =~= be_u32_bytes(v@.len()) + (e + rest));
        assert(d.skip(5) =~= e + rest);
        assert(spec_read_i32_len(d.skip(1)) == Ok::<nat, crate::nbt::error::DeserializationError>(v@.len()));
        assert(b.len() == 5 + e.len());
        let d5 = d.skip(5);
        assert forall|i: int| 0 <= i < v@.len() implies #[trigger] v@[i].holds_payload(
            d5.skip(elem_start::<T>(d5, i) as int), T::payload_len(d5.skip(elem_start::<T>(d5, i) as int))->Some_0) by {
            assert(elems_len::<T>(d5, i as nat) == Some(elems_bytes::<T>(v@.take(i))->Some_0.len()));
            let x = v@[i].payload_bytes()->Some_0;
            let r2 = elems_bytes::<T>(v@.skip(i + 1))->Some_0 + rest;
            assert(reads_back::<T>(v@[i]));
            assert(T::payload_len(x + r2) == Some(x.len()));
        }
        assert(elems_hold::<T>(v@, d5));
        assert(elems_len::<T>(d5, v@.len()) == Some(e.len()));
        assert(<Vec<T> as DeserializePayload<'d>>::payload_len(d) == Some(b.len()));
    }
    lemma_elems_read_back::<T>(v@, Seq::empty());
}


/// Field `i` of `c` reads back: what is written for it, followed by anything, is read as
/// field `i`, taking exactly its bytes, and the field holds what they say.
pub open spec fn field_reads_back<'d, C: CompoundFields<'d> + SerializeFields>(c: C, i: int) -> bool {
    &&& c.field_bytes(i) is Some
    &&& forall|rest: Seq<u8>| #[trigger] <C as CompoundFields<'d>>::field_payload_len(i, c.field_bytes(i)->Some_0 + rest)
        == Some(c.field_bytes(i)->Some_0.len())
        && c.field_holds(i, c.field_bytes(i)->Some_0 + rest, c.field_bytes(i)->Some_0.len())
}

/// The fields that `C` reads and those it writes agree: as many, with the same names
/// (distinct and of at most `u16::MAX` bytes) and the same tags (not `End`).
pub open spec fn fields_agree<'d, C: CompoundFields<'d> + SerializeFields>() -> bool {
    &&& <C as CompoundFields<'d>>::spec_num_fields() == <C as SerializeFields>::spec_num_fields()
    &&& forall|i: int| 0 <= i < <C as SerializeFields>::spec_num_fields() ==> {
        &&& #[trigger] <C as CompoundFields<'d>>::spec_field_name(i) == <C as SerializeFields>::spec_field_name(i)
        &&& <C as CompoundFields<'d>>::spec_field_tag(i) == <C as SerializeFields>::spec_field_tag(i)
        &&& <C as SerializeFields>::spec_field_tag(i) != Tag::End
        &&& <C as SerializeFields>::spec_field_name(i).len() <= u16::MAX
    }
    &&& forall|i: int, j: int| 0 <= i < j < <C as SerializeFields>::spec_num_fields()
        ==> #[trigger] <C as SerializeFields>::spec_field_name(i) != #[trigger] <C as SerializeFields>::spec_field_name(j)
}

/// The bytes of the fields of `c` from field `m` on in a compound payload: each field's
/// header and payload; `None` where one of them cannot be written.
pub open spec fn fields_from<C: SerializeFields>(c: &C, m: nat) -> Option<Seq<u8>>
    decreases C::spec_num_fields() - m,
{
    if m >= C::spec_num_fields() {
        Some(Seq::empty())
    } else {
        match c.field_bytes(m as int) {
            None => None,
            Some(p) => match fields_from::<C>(c, m + 1) {
                None => None,
                Some(r) => Some(field_header(C::spec_field_tag(m as int), C::spec_field_name(m as int)) + p + r),
            },
        }
    }
}

/// The fields of `c` are written as the first `m` followed by the others.
proof fn lemma_fields_split<C: SerializeFields>(c: &C, m: nat)
    requires
        m <= C::spec_num_fields(),
        forall|i: int| 0 <= i < C::spec_num_fields() ==> (#[trigger] c.field_bytes(i)) is Some,
    ensures
        fields_bytes::<C>(c, m) is Some,
        fields_from::<C>(c, m) is Some,
        fields_bytes::<C>(c, C::spec_num_fields()) == Some(fields_bytes::<C>(c, m)->Some_0 + fields_from::<C>(c, m)->Some_0),
    decreases C::spec_num_fields() - m,
{
    if m == C::spec_num_fields() {
        lemma_fields_some::<C>(c, m);
        assert(fields_bytes::<C>(c, m)->Some_0 + Seq::<u8>::empty() =~= fields_bytes::<C>(c, m)->Some_0);
    } else {
        lemma_fields_split::<C>(c, m + 1);
        lemma_fields_some::<C>(c, m);
        assert(c.field_bytes(m as int) is Some);
        let h = field_header(C::spec_field_tag(m as int), C::spec_field_name(m as int));
        assert(fields_bytes::<C>(c, m + 1)->Some_0 =~= fields_bytes::<C>(c, m)->Some_0 + h + c.field_bytes(m as int)->Some_0);
        assert(fields_bytes::<C>(c, m)->Some_0 + fields_from::<C>(c, m)->Some_0
            =~= fields_bytes::<C>(c, m + 1)->Some_0 + fields_from::<C>(c, m + 1)->Some_0);
    }
}

/// Fields that can each be written can be written up to any field.
proof fn lemma_fields_some<C: SerializeFields>(c: &C, m: nat)
    requires
        m <= C::spec_num_fields(),
        forall|i: int| 0 <= i < C::spec_num_fields() ==> (#[trigger] c.field_bytes(i)) is Some,
    ensures
        fields_bytes::<C>(c, m) is Some,
    decreases m,
{
    if m > 0 {
        lemma_fields_some::<C>(c, (m - 1) as nat);
        assert(c.field_bytes(m - 1) is Some);
    }
}

/// The first field with the name of field `m` is field `m`, names being distinct.
proof fn lemma_field_named_self<'d, C: CompoundFields<'d> + SerializeFields>(m: nat, i: nat)
    requires
        fields_agree::<C>(),
        i <= m < <C as SerializeFields>::spec_num_fields(),
    ensures
        field_named::<C>(<C as SerializeFields>::spec_field_name(m as int), i) == Some(m),
    decreases m - i,
{
    assert(<C as CompoundFields<'d>>::spec_field_name(m as int) == <C as SerializeFields>::spec_field_name(m as int));
    if i < m {
        assert(<C as CompoundFields<'d>>::spec_field_name(i as int) == <C as SerializeFields>::spec_field_name(i as int));
        assert(<C as SerializeFields>::spec_field_name(i as int) != <C as SerializeFields>::spec_field_name(m as int));
        lemma_field_named_self::<C>(m, i + 1);
    }
}

/// The first `m` fields.
pub open spec fn first_fields(m: nat) -> Set<nat> {
    Set::new(|i: nat| i < m)
}

/// The fields of `c` written from field `m` on, then an `End` tag and `rest`.
pub open spec fn written_from<C: SerializeFields>(c: &C, m: nat, rest: Seq<u8>) -> Seq<u8> {
    fields_from::<C>(c, m)->Some_0 + seq![0u8] + rest
}

/// Reading the fields written from field `m` on, then an `End` tag and anything, with
/// the first `m` fields read before: the reading takes exactly those bytes, and finds
/// each of those fields where its payload was written.
#[verifier::rlimit(40)]
proof fn lemma_fields_walk<'d, C: CompoundFields<'d> + SerializeFields>(c: C, m: nat, rest: Seq<u8>)
    requires
        fields_agree::<C>(),
        m <= <C as SerializeFields>::spec_num_fields(),
        forall|i: int| 0 <= i < <C as SerializeFields>::spec_num_fields() ==> #[trigger] field_reads_back::<C>(c, i),
    ensures
        fields_from::<C>(&c, m) is Some,
        compound_rest_len::<C>(fields_from::<C>(&c, m)->Some_0 + seq![0u8] + rest, first_fields(m))
            == Some(fields_from::<C>(&c, m)->Some_0.len() + 1),
        forall|j: nat| m <= j < <C as SerializeFields>::spec_num_fields() ==> {
            &&& #[trigger] field_entry::<C>(written_from::<C>(&c, m, rest), first_fields(m), j) matches Some((s, k))
            &&& k == c.field_bytes(j as int)->Some_0.len()
            &&& s + k <= written_from::<C>(&c, m, rest).len()
            &&& written_from::<C>(&c, m, rest).subrange(s as int, (s + k) as int) == c.field_bytes(j as int)->Some_0
        },
    decreases <C as SerializeFields>::spec_num_fields() - m,
{
    let n = <C as SerializeFields>::spec_num_fields();
    if m == n {
        let d = written_from::<C>(&c, m, rest);
        assert(fields_from::<C>(&c, m) == Some(Seq::<u8>::empty()));
        assert(d =~= seq![0u8] + rest);
        assert(tag_of(d[0]) == Some(Tag::End));
        lemma_rest_first::<C>(d, first_fields(m));
        assert(rest_optional::<C>(first_fields(m)));
    } else {
        assert(field_reads_back::<C>(c, m as int));
        lemma_fields_walk::<C>(c, m + 1, rest);
        let t = <C as SerializeFields>::spec_field_tag(m as int);
        let name = <C as SerializeFields>::spec_field_name(m as int);
        assert(<C as CompoundFields<'d>>::spec_field_name(m as int) == name);
        let h = field_header(t, name);
        let p = c.field_bytes(m as int)->Some_0;
        let f1 = fields_from::<C>(&c, m + 1)->Some_0;
        let tail = f1 + seq![0u8] + rest;
        let d = written_from::<C>(&c, m, rest);
        assert(tail == written_from::<C>(&c, m + 1, rest));
        assert(fields_from::<C>(&c, m) == Some(h + p + f1));
        assert(d =~= h + p + tail);
        let k1 = 2 + name.len();
        crate::nbt::tag::lemma_tag_byte_roundtrip(t);
        assert(d[0] == tag_byte(t));
        assert(d.skip(1) =~= be_u16_bytes(name.len()) + name + (p + tail));
        lemma_str_roundtrip(name, p + tail);
        assert(d.subrange(3, 1 + k1 as int) =~= name);
        assert(d.skip(1 + k1 as int) =~= p + tail);
        lemma_field_named_self::<C>(m, 0);
        assert(<C as CompoundFields<'d>>::field_payload_len(m as int, p + tail) == Some(p.len()));
        assert(first_fields(m).insert(m) =~= first_fields(m + 1));
        assert(entry_step::<C>(d.subrange(3, 1 + k1 as int), t, d.skip(1 + k1 as int), first_fields(m))
            == Some((p.len(), first_fields(m + 1))));
        lemma_entry::<C>(d, first_fields(m), t, k1, p.len(), first_fields(m + 1));
        assert(d.skip((1 + k1 + p.len()) as int) =~= tail);
        let e = (1 + k1 + p.len()) as nat;
        assert forall|j: nat| m <= j < n implies {
            &&& #[trigger] field_entry::<C>(d, first_fields(m), j) matches Some((s, k))
            &&& k == c.field_bytes(j as int)->Some_0.len()
            &&& s + k <= d.len()
            &&& d.subrange(s as int, (s + k) as int) == c.field_bytes(j as int)->Some_0
        } by {
            if j == m {
                assert(d.subrange((1 + k1) as int, (1 + k1 + p.len()) as int) =~= p);
            } else {
                assert(field_entry::<C>(tail, first_fields(m + 1), j) matches Some((s, k))
                    && d.subrange((s + e) as int, (s + e + k) as int) =~= tail.subrange(s as int, (s + k) as int));
            }
        }
    }
}

/// A compound whose fields agree and each read back reads back: the compound payload
/// written for `c`, followed by anything, is read as `C` taking exactly its bytes, and
/// `c` holds what they say.
pub proof fn lemma_compound_reads_back<'d, C: CompoundFields<'d> + SerializeFields>(c: C, rest: Seq<u8>)
    requires
        fields_agree::<C>(),
        forall|i: int| 0 <= i < <C as SerializeFields>::spec_num_fields() ==> #[trigger] field_reads_back::<C>(c, i),
    ensures
        compound_bytes::<C>(&c) is Some,
        compound_rest_len::<C>(compound_bytes::<C>(&c)->Some_0 + rest, Set::empty()) == Some(compound_bytes::<C>(&c)->Some_0.len()),
        compound_holds::<C>(c, compound_bytes::<C>(&c)->Some_0 + rest),
{
    let n = <C as SerializeFields>::spec_num_fields();
    assert forall|i: int| 0 <= i < n implies (#[trigger] c.field_bytes(i)) is Some by {
        assert(field_reads_back::<C>(c, i));
    }
    lemma_fields_split::<C>(&c, 0);
    lemma_fields_walk::<C>(c, 0, rest);
    let f = fields_from::<C>(&c, 0)->Some_0;
    assert(fields_bytes::<C>(&c, 0) == Some(Seq::<u8>::empty()));
    assert(fields_bytes::<C>(&c, n)->Some_0 =~= f);
    assert(compound_bytes::<C>(&c)->Some_0 + rest =~= f + seq![0u8] + rest);
    assert(first_fields(0) =~= Set::<nat>::empty());
    let d = compound_bytes::<C>(&c)->Some_0 + rest;
    assert forall|j: nat| j < <C as CompoundFields<'d>>::spec_num_fields() implies (#[trigger] field_entry::<C>(d, Set::empty(), j) matches Some((s, k))
        ==> c.field_holds(j as int, d.skip(s as int), k)) by {
        assert(field_reads_back::<C>(c, j as int));
        assert(field_entry::<C>(d, Set::empty(), j) == field_entry::<C>(written_from::<C>(&c, 0, rest), first_fields(0), j));
        if let Some((s, k)) = field_entry::<C>(d, Set::empty(), j) {
            let r2 = d.skip((s + k) as int);
            assert(d.skip(s as int) =~= c.field_bytes(j as int)->Some_0 + r2);
            assert(<C as CompoundFields<'d>>::field_payload_len(j as int, c.field_bytes(j as int)->Some_0 + r2)
                == Some(c.field_bytes(j as int)->Some_0.len()));
        }
    }
}


/// The bytes that `serialize_nbt` writes for the name `name` and the value `v`: the
/// value's tag, the name's length and bytes, and the value's payload.
pub open spec fn named_bytes<P: SerializePayload>(name: Seq<u8>, v: P) -> Seq<u8> {
    seq![tag_byte(P::TAG)] + be_u16_bytes(name.len()) + name + v.payload_bytes()->Some_0
}

/// A named value written and read again: in what `serialize_nbt` writes for a name and
/// a value that reads back, the payload starts right after the name, takes the rest of
/// the bytes, and holds the value; the name decodes to the name written. With the
/// contract of `from_bytes`, reading these bytes succeeds and gives back the name, a
/// value that holds what was written, and the number of bytes written.
pub proof fn lemma_named_read_back<'d, T: DeserializePayload<'d> + SerializePayload>(name: &str, v: T)
    requires
        reads_back::<T>(v),
        <T as SerializePayload>::TAG != Tag::End,
        name.spec_bytes().len() <= u16::MAX,
        name.spec_bytes().len() + v.payload_bytes()->Some_0.len() >= 1,
    ensures
        ({
            let b = named_bytes(name.spec_bytes(), v);
            let p = 3 + name.spec_bytes().len();
            let k = v.payload_bytes()->Some_0.len();
            &&& payload_start(b) == Some(p)
            &&& <T as DeserializePayload<'d>>::payload_len(b.skip(p as int)) == Some(k)
            &&& p + k == b.len()
            &&& v.holds_payload(b.skip(p as int), k)
            &&& decode_utf8(b.subrange(3, p as int)) == name@
        }),
{
    let nb = name.spec_bytes();
    let pb = v.payload_bytes()->Some_0;
    let b = named_bytes(nb, v);
    let p = 3 + nb.len();
    lemma_tag_byte_roundtrip(<T as SerializePayload>::TAG);
    lemma_str_roundtrip(nb, pb);
    assert(b.skip(1) =~= be_u16_bytes(nb.len()) + nb + pb);
    assert(b.subrange(3, p as int) =~= nb);
    assert(b.skip(p as int) =~= pb);
    assert(pb + Seq::<u8>::empty() =~= pb);
    assert(<T as DeserializePayload<'d>>::payload_len(pb + Seq::<u8>::empty()) == Some(pb.len()));
    vstd::utf8::encode_utf8_valid_utf8(name@);
    vstd::utf8::encode_utf8_decode_utf8(name@);
}


/// Whether the values of `T` that hold a payload are fixed by it: two values that hold
/// the same payload are equal.
pub open spec fn held_determines<'d, T: DeserializePayload<'d>>() -> bool {
    forall|a: T, b: T, d: Seq<u8>, k: nat| #[trigger] a.holds_payload(d, k) && #[trigger] b.holds_payload(d, k) ==> a == b
}

/// Numbers are fixed by their payloads.
pub proof fn lemma_numbers_determined<'d>()
    ensures
        held_determines::<i8>(),
        held_determines::<i16>(),
        held_determines::<i32>(),
        held_determines::<i64>(),
{
}

/// A list written and read again gives back the list written: a vector that holds
/// what is written for `xs` (followed by anything), as reading leaves one on success,
/// equals `xs`, where the elements read back and are fixed by their payloads.
pub proof fn lemma_list_read_back_equal<'d, T: DeserializePayload<'d> + SerializePayload + Default>(xs: Vec<T>, v: Vec<T>, rest: Seq<u8>)
    requires
        xs@.len() <= i32::MAX,
        <T as DeserializePayload<'d>>::TAG == <T as SerializePayload>::TAG,
        forall|i: int| 0 <= i < xs@.len() ==> reads_back::<T>(#[trigger] xs@[i]),
        held_determines::<T>(),
        v.holds_payload(xs.payload_bytes()->Some_0 + rest, xs.payload_bytes()->Some_0.len()),
    ensures
        v@ == xs@,
{
    lemma_list_reads_back::<T>(xs);
    let b = xs.payload_bytes()->Some_0;
    let d = b + rest;
    assert(<Vec<T> as DeserializePayload<'d>>::payload_len(b + rest) == Some(b.len()));
    assert(xs.holds_payload(d, b.len()));
    let d5 = d.skip(5);
    assert(v@.len() == xs@.len());
    assert forall|i: int| 0 <= i < xs@.len() implies v@[i] == xs@[i] by {
        let e = d5.skip(elem_start::<T>(d5, i) as int);
        let k = T::payload_len(e)->Some_0;
        assert(v@[i].holds_payload(e, k));
        assert(xs@[i].holds_payload(e, k));
    }
    assert(v@ =~= xs@);
}


/// A string written with `serialize_nbt_str` and read with `deserialize_nbt_str`,
/// whatever follows it, takes its length field and bytes and gives the string back:
/// the bytes are valid UTF-8 that decode to it.
pub proof fn lemma_nbt_str_read_back(s: &str, rest: Seq<u8>)
    requires
        s.spec_bytes().len() <= u16::MAX,
    ensures
        ({
            let d = be_u16_bytes(s.spec_bytes().len()) + s.spec_bytes() + rest;
            &&& crate::nbt::helper::spec_skip_nbt_str(d) == Ok::<nat, crate::nbt::error::DeserializationError>(2 + s.spec_bytes().len())
            &&& d.subrange(2, 2 + s.spec_bytes().len() as int) == s.spec_bytes()
            &&& vstd::utf8::valid_utf8(s.spec_bytes())
            &&& decode_utf8(s.spec_bytes()) == s@
        }),
{
    lemma_str_roundtrip(s.spec_bytes(), rest);
    vstd::utf8::encode_utf8_valid_utf8(s@);
    vstd::utf8::encode_utf8_decode_utf8(s@);
}

} // verus!
