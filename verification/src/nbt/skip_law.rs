//! Skipping a payload takes exactly the bytes that reading it takes.

use vstd::prelude::*;
use crate::nbt::deserialize::{DeserializePayload, elems_len};
use crate::nbt::error::DeserializationError;
use crate::nbt::helper::{spec_skip_payload, spec_skip_elems, spec_skip_fixed_size_seq, spec_read_i32_len};
use crate::nbt::tag::{Tag, tag_of, spec_fixed_size};
use crate::nbt::arrays::{LongArrayBytes, IntArrayBytes, ByteArrayBytes};
use crate::nbt::reuse::OptionalValue;
use crate::nbt::RawString;
use crate::nbt::compound::{CompoundFields, compound_rest_len, entry_step, field_named};
use crate::nbt::helper::{spec_skip_compound, spec_skip_nbt_str};

verus! {

/// Wherever a payload of `T` can be read, skipping a payload with tag `t` takes the
/// same number of bytes.
pub open spec fn skips_agree<'d, T: DeserializePayload<'d>>(t: Tag) -> bool {
    forall|d: Seq<u8>| #[trigger] T::payload_len(d) is Some
        ==> spec_skip_payload(d, t) == Ok::<nat, DeserializationError>(T::payload_len(d)->Some_0)
}

/// Numbers, strings, raw strings and arrays are skipped, with the tag each is read
/// with, as they are read.
pub proof fn lemma_skips_agree_simple<'d>()
    ensures
        skips_agree::<i8>(Tag::Byte),
        skips_agree::<i16>(Tag::Short),
        skips_agree::<i32>(Tag::Int),
        skips_agree::<i64>(Tag::Long),
        skips_agree::<&'d str>(Tag::String),
        skips_agree::<String>(Tag::String),
        skips_agree::<RawString<'d>>(Tag::String),
        skips_agree::<LongArrayBytes<'d>>(Tag::LongArray),
        skips_agree::<IntArrayBytes<'d>>(Tag::IntArray),
        skips_agree::<ByteArrayBytes<'d>>(Tag::ByteArray),
{
}

/// An optional value is skipped as the value it holds.
pub proof fn lemma_skips_agree_optional<'d, T: DeserializePayload<'d> + Default>(t: Tag)
    requires
        skips_agree::<T>(t),
    ensures
        skips_agree::<Option<T>>(t),
        skips_agree::<OptionalValue<T>>(t),
{
}

/// `n` payloads of `T` one after another are skipped as they are read.
proof fn lemma_elems_skip<'d, T: DeserializePayload<'d>>(d: Seq<u8>, n: nat, t: Tag)
    requires
        skips_agree::<T>(t),
        elems_len::<T>(d, n) is Some,
    ensures
        spec_skip_elems(d, t, n) == Ok::<nat, DeserializationError>(elems_len::<T>(d, n)->Some_0),
    decreases n,
{
    if n > 0 {
        let k = T::payload_len(d)->Some_0;
        assert(spec_skip_payload(d, t) == Ok::<nat, DeserializationError>(k));
        lemma_elems_skip::<T>(d.skip(k as int), (n - 1) as nat, t);
    }
}

/// `n` payloads of a type skipped with a tag of fixed size `s` take `n * s` bytes.
proof fn lemma_elems_fixed<'d, T: DeserializePayload<'d>>(d: Seq<u8>, n: nat, t: Tag, s: nat)
    requires
        skips_agree::<T>(t),
        spec_fixed_size(t) == Some(s),
        elems_len::<T>(d, n) is Some,
    ensures
        elems_len::<T>(d, n) == Some(n * s),
        n * s <= d.len(),
    decreases n,
{
    if n > 0 {
        let k = T::payload_len(d)->Some_0;
        assert(spec_skip_payload(d, t) == Ok::<nat, DeserializationError>(k));
        lemma_elems_fixed::<T>(d.skip(k as int), (n - 1) as nat, t, s);
        assert(n * s == s + (n - 1) * s) by (nonlinear_arith) requires n > 0;
    }
}

/// A list of `T` whose element tag byte is `t` (the tag `T` is read with) is skipped
/// as it is read.
pub proof fn lemma_skips_agree_vec<'d, T: DeserializePayload<'d> + Default>(t: Tag, d: Seq<u8>)
    requires
        skips_agree::<T>(t),
        t != Tag::End,
        <Vec<T> as DeserializePayload<'d>>::payload_len(d) is Some,
        tag_of(d[0]) == Some(t),
    ensures
        spec_skip_payload(d, Tag::List) == Ok::<nat, DeserializationError>(<Vec<T> as DeserializePayload<'d>>::payload_len(d)->Some_0),
{
    let l = spec_read_i32_len(d.skip(1))->Ok_0;
    let d5 = d.skip(5);
    assert(d.skip(1).skip(4) =~= d5);
    match spec_fixed_size(t) {
        Some(s) => {
            lemma_elems_fixed::<T>(d5, l, t, s);
            assert(spec_skip_fixed_size_seq(d.skip(1), s) == Ok::<nat, DeserializationError>(4 + l * s));
        },
        None => {
            lemma_elems_skip::<T>(d5, l, t);
        },
    }
}


/// Each field of `C` is skipped, with the field's tag, as it is read.
pub open spec fn fields_skip_agree<'d, C: CompoundFields<'d>>() -> bool {
    forall|i: int, d: Seq<u8>| #[trigger] C::field_payload_len(i, d) is Some
        ==> spec_skip_payload(d, C::spec_field_tag(i)) == Ok::<nat, DeserializationError>(C::field_payload_len(i, d)->Some_0)
}

/// The rest of a compound payload of `C` is skipped as it is read, where each field is.
pub proof fn lemma_skips_agree_compound<'d, C: CompoundFields<'d>>(d: Seq<u8>, fs: Set<nat>)
    requires
        fields_skip_agree::<C>(),
        compound_rest_len::<C>(d, fs) is Some,
    ensures
        spec_skip_compound(d) == Ok::<nat, DeserializationError>(compound_rest_len::<C>(d, fs)->Some_0),
    decreases d.len(),
{
    reveal(compound_rest_len);
    let t = tag_of(d[0])->Some_0;
    if t != Tag::End {
        let k1 = spec_skip_nbt_str(d.skip(1))->Ok_0;
        let rest = d.skip(1 + k1 as int);
        let name = d.subrange(3, 1 + k1 as int);
        let (k2, fs2) = entry_step::<C>(name, t, rest, fs)->Some_0;
        if let Some(i) = field_named::<C>(name, 0) {
            assert(C::field_payload_len(i as int, rest) == Some(k2));
            assert(spec_skip_payload(rest, t) == Ok::<nat, DeserializationError>(k2));
        }
        lemma_skips_agree_compound::<C>(rest.skip(k2 as int), fs2);
        assert(rest.skip(k2 as int) =~= d.skip((1 + k1 + k2) as int));
    }
}

} // verus!
