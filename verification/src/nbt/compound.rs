use vstd::prelude::*;
use vstd::slice::slice_subrange;
use vstd::string::StringSliceAdditionalSpecFns;
use crate::nbt::error::{DeserializationError, DeserializationResult, SerializationError};
use crate::nbt::helper::be_u16_bytes;
use crate::nbt::tag::tag_byte;
use crate::nbt::helper::{deserialize_nbt_str_bytes, skip_payload, spec_skip_nbt_str, spec_skip_payload, ok_len, opt_add};
use crate::nbt::tag::{Tag, tag_of};

verus! {

/// A struct read from a compound payload field by field: each field has a name, a tag,
/// and may be optional. Fields with other names are skipped. The structs of this crate
/// define each spec function; the defaults stand for structs defined elsewhere, of
/// which nothing is proved.
pub trait CompoundFields<'d>: Sized {
    /// Number of fields (none unless an implementation says otherwise).
    open spec fn spec_num_fields() -> nat {
        0
    }

    /// The name of field `i`.
    open spec fn spec_field_name(i: int) -> Seq<u8> {
        Seq::empty()
    }

    /// Whether field `i` may be absent.
    open spec fn spec_field_optional(i: int) -> bool {
        false
    }

    /// The tag field `i` is read from.
    open spec fn spec_field_tag(i: int) -> Tag {
        Tag::End
    }

    /// The number of bytes that reading field `i` from a payload at the start of
    /// `data` takes, or `None` where reading fails.
    open spec fn field_payload_len(i: int, data: Seq<u8>) -> Option<nat> {
        None
    }

    /// Whether field `i` of `self` holds what the payload of `k` bytes at the start of
    /// `data` says.
    open spec fn field_holds(&self, i: int, data: Seq<u8>, k: nat) -> bool {
        true
    }

    /// Whether field `i` of `self` and of `other` are the same.
    open spec fn field_same(&self, other: &Self, i: int) -> bool {
        true
    }

    /// Whether field `i` of `self` reads as absent.
    open spec fn field_absent(&self, i: int) -> bool {
        true
    }

    /// Whether `e` is the error with which reading field `i` from a payload at the
    /// start of `data` fails.
    open spec fn field_error(i: int, data: Seq<u8>, e: DeserializationError) -> bool {
        true
    }

    /// Number of fields.
    fn num_fields() -> (r: usize)
        ensures
            r == Self::spec_num_fields(),
    ;

    /// The name of field `i`.
    fn field_name(i: usize) -> (r: &'static str)
        requires
            i < Self::spec_num_fields(),
        ensures
            r.spec_bytes() == Self::spec_field_name(i as int),
    ;

    /// Whether field `i` may be absent.
    fn field_optional(i: usize) -> (r: bool)
        requires
            i < Self::spec_num_fields(),
        ensures
            r == Self::spec_field_optional(i as int),
    ;

    /// The tag field `i` is read from.
    fn field_tag(i: usize) -> (r: Tag)
        requires
            i < Self::spec_num_fields(),
        ensures
            r == Self::spec_field_tag(i as int),
    ;

    /// Reads the payload of field `i` from the start of `data`; the other fields stay.
    fn read_field(&mut self, i: usize, data: &'d [u8]) -> (r: DeserializationResult<usize>)
        requires
            i < Self::spec_num_fields(),
        ensures
            ok_len(r) == Self::field_payload_len(i as int, data@),
            r matches Ok(k) ==> k <= data@.len() && final(self).field_holds(i as int, data@, k as nat),
            r matches Err(e) ==> Self::field_error(i as int, data@, e),
            forall|j: int, d: Seq<u8>, k: nat| j != i ==> #[trigger] final(self).field_holds(j, d, k) == old(self).field_holds(j, d, k),
            forall|j: int, o: Self| j != i ==> #[trigger] final(self).field_same(&o, j) == old(self).field_same(&o, j),
    ;

    /// Marks field `i`, which the payload leaves out, as absent where it is optional;
    /// the other fields stay.
    fn mark_absent(&mut self, i: usize)
        requires
            i < Self::spec_num_fields(),
        ensures
            Self::spec_field_optional(i as int) ==> final(self).field_absent(i as int),
            forall|j: int, d: Seq<u8>, k: nat| j != i ==> #[trigger] final(self).field_holds(j, d, k) == old(self).field_holds(j, d, k),
            forall|j: int| j != i ==> #[trigger] final(self).field_absent(j) == old(self).field_absent(j),
    ;
}

/// The first field of `C` named `name`, from field `i` on.
pub open spec fn field_named<'d, C: CompoundFields<'d>>(name: Seq<u8>, i: nat) -> Option<nat>
    decreases C::spec_num_fields() - i,
{
    if i >= C::spec_num_fields() {
        None
    } else if C::spec_field_name(i as int) == name {
        Some(i)
    } else {
        field_named::<C>(name, i + 1)
    }
}

/// The bytes taken by the payload of one entry (tag `t`, name `name`) at the start of
/// `rest`, and the fields read once it is read, the fields in `found` having been
/// read before; `None` where reading the entry fails: a field given twice or with
/// another tag, or a payload that cannot be read. Entries of other names are skipped.
pub open spec fn entry_step<'d, C: CompoundFields<'d>>(name: Seq<u8>, t: Tag, rest: Seq<u8>, found: Set<nat>) -> Option<(nat, Set<nat>)> {
    match field_named::<C>(name, 0) {
        Some(i) => if found.contains(i) || C::spec_field_tag(i as int) != t {
            None
        } else {
            match C::field_payload_len(i as int, rest) {
                Some(k) => Some((k, found.insert(i))),
                None => None,
            }
        },
        None => match spec_skip_payload(rest, t) {
            Ok(k) => Some((k, found)),
            Err(_) => None,
        },
    }
}

/// Every field of `C` that is not in `found` may be absent.
pub open spec fn rest_optional<'d, C: CompoundFields<'d>>(found: Set<nat>) -> bool {
    forall|i: nat| i < C::spec_num_fields() && !found.contains(i) ==> C::spec_field_optional(i as int)
}

/// The bytes taken by the rest of a compound payload of `C` at the start of `d`, up to
/// and including its `End` tag, the fields in `found` having been read before; `None`
/// where reading fails.
#[verifier::opaque]
pub open spec fn compound_rest_len<'d, C: CompoundFields<'d>>(d: Seq<u8>, found: Set<nat>) -> Option<nat>
    decreases d.len(),
{
    if d.len() == 0 {
        None
    } else {
        match tag_of(d[0]) {
            None => None,
            Some(Tag::End) => if rest_optional::<C>(found) { Some(1) } else { None },
            Some(t) => match spec_skip_nbt_str(d.skip(1)) {
                Err(_) => None,
                Ok(k1) => {
                    let rest = d.skip(1 + k1 as int);
                    match entry_step::<C>(d.subrange(3, 1 + k1 as int), t, rest, found) {
                        None => None,
                        Some((k2, found2)) => if k2 > rest.len() {
                            None
                        } else {
                            opt_add(compound_rest_len::<C>(rest.skip(k2 as int), found2), 1 + k1 + k2)
                        },
                    }
                },
            },
        }
    }
}

/// The first field of `C`, from field `i` on, that is neither in `found` nor optional.
pub open spec fn first_missing<'d, C: CompoundFields<'d>>(found: Set<nat>, i: nat) -> Option<nat>
    decreases C::spec_num_fields() - i,
{
    if i >= C::spec_num_fields() {
        None
    } else if !found.contains(i) && !C::spec_field_optional(i as int) {
        Some(i)
    } else {
        first_missing::<C>(found, i + 1)
    }
}

/// Whether `e` reports the first field of `C` that is neither in `found` nor optional
/// as not found.
pub open spec fn missing_field_error<'d, C: CompoundFields<'d>>(found: Set<nat>, e: DeserializationError) -> bool {
    &&& e matches DeserializationError::FieldNotFound(s)
    &&& first_missing::<C>(found, 0) matches Some(i)
    &&& s.spec_bytes() == C::spec_field_name(i as int)
}

/// Whether `e` is the error with which reading the rest of a compound payload of `C`
/// at the start of `d` fails, the fields in `found` having been read before: the end
/// of the data, a byte that is no tag, a name that cannot be read, a field given twice
/// or with another tag, a payload that cannot be read or skipped, or, at the `End`
/// tag, a field that is missing.
#[verifier::opaque]
pub open spec fn compound_rest_error<'d, C: CompoundFields<'d>>(d: Seq<u8>, found: Set<nat>, e: DeserializationError) -> bool
    decreases d.len(),
{
    if d.len() == 0 {
        e == DeserializationError::EOF
    } else {
        match tag_of(d[0]) {
            None => e == DeserializationError::UnexpectedTag(d[0]),
            Some(Tag::End) => missing_field_error::<C>(found, e),
            Some(t) => match spec_skip_nbt_str(d.skip(1)) {
                Err(e0) => e == e0,
                Ok(k1) => {
                    let rest = d.skip(1 + k1 as int);
                    match field_named::<C>(d.subrange(3, 1 + k1 as int), 0) {
                        Some(i) => if found.contains(i) {
                            e matches DeserializationError::FieldDuplicate(s) && s.spec_bytes() == C::spec_field_name(i as int)
                        } else if C::spec_field_tag(i as int) != t {
                            e == DeserializationError::UnexpectedTag(d[0])
                        } else {
                            match C::field_payload_len(i as int, rest) {
                                None => C::field_error(i as int, rest, e),
                                Some(k2) => if k2 > rest.len() {
                                    false
                                } else {
                                    compound_rest_error::<C>(rest.skip(k2 as int), found.insert(i), e)
                                },
                            }
                        },
                        None => match spec_skip_payload(rest, t) {
                            Err(e0) => e == e0,
                            Ok(k2) => if k2 > rest.len() {
                                false
                            } else {
                                compound_rest_error::<C>(rest.skip(k2 as int), found, e)
                            },
                        },
                    }
                },
            },
        }
    }
}

/// Moves a position `a` bytes on.
pub open spec fn shift_entry(o: Option<(nat, nat)>, a: nat) -> Option<(nat, nat)> {
    match o {
        Some((s, k)) => Some((s + a, k)),
        None => None,
    }
}

/// Where the payload of field `j` lies in the rest of a compound payload of `C` at the
/// start of `d` (its start and length), the fields in `found` having been read before;
/// `None` where it does not come before the `End` tag or reading fails before it.
#[verifier::opaque]
pub open spec fn field_entry<'d, C: CompoundFields<'d>>(d: Seq<u8>, found: Set<nat>, j: nat) -> Option<(nat, nat)>
    decreases d.len(),
{
    if d.len() == 0 {
        None
    } else {
        match tag_of(d[0]) {
            None => None,
            Some(Tag::End) => None,
            Some(t) => match spec_skip_nbt_str(d.skip(1)) {
                Err(_) => None,
                Ok(k1) => {
                    let rest = d.skip(1 + k1 as int);
                    match entry_step::<C>(d.subrange(3, 1 + k1 as int), t, rest, found) {
                        None => None,
                        Some((k2, found2)) => if k2 > rest.len() {
                            None
                        } else if field_named::<C>(d.subrange(3, 1 + k1 as int), 0) == Some(j) {
                            Some((1 + k1, k2))
                        } else {
                            shift_entry(field_entry::<C>(rest.skip(k2 as int), found2, j), 1 + k1 + k2)
                        },
                    }
                },
            },
        }
    }
}

/// Each field of `c` found in the compound payload at the start of `d` holds what its
/// payload there says.
pub open spec fn compound_holds<'d, C: CompoundFields<'d>>(c: C, d: Seq<u8>) -> bool {
    forall|j: nat| j < C::spec_num_fields() ==> (#[trigger] field_entry::<C>(d, Set::empty(), j) matches Some((s, k))
        ==> c.field_holds(j as int, d.skip(s as int), k))
}

/// Each optional field of `c` that has no entry in the compound payload at the start
/// of `d` reads as absent.
pub open spec fn compound_absent<'d, C: CompoundFields<'d>>(c: C, d: Seq<u8>) -> bool {
    forall|j: nat| j < C::spec_num_fields() && field_entry::<C>(d, Set::empty(), j) is None
        ==> #[trigger] c.field_absent(j as int)
}

/// Whether `field` consists of exactly the bytes of `name`.
pub fn name_is(field: &[u8], name: &str) -> (r: bool)
    ensures
        r <==> field@ == name.spec_bytes(),
{
    let b = name.as_bytes();
    if field.len() != b.len() {
        return false;
    }
    let r = crate::nbt::starts_with(field, b);
    proof {
        assert(field@.subrange(0, b@.len() as int) =~= field@);
    }
    r
}

/// The first field of `C` whose name is `field`, if any.
fn find_field<'d, C: CompoundFields<'d>>(field: &[u8]) -> (r: Option<usize>)
    ensures
        r matches Some(i) ==> i < C::spec_num_fields() && C::spec_field_name(i as int) == field@,
        r is None ==> forall|i: int| 0 <= i < C::spec_num_fields() ==> C::spec_field_name(i) != field@,
        match r {
            Some(i) => field_named::<C>(field@, 0) == Some(i as nat),
            None => field_named::<C>(field@, 0) is None,
        },
{
    let n = C::num_fields();
    let mut i: usize = 0;
    while i < n
        invariant
            n == C::spec_num_fields(),
            i <= n,
            forall|j: int| 0 <= j < i ==> C::spec_field_name(j) != field@,
            field_named::<C>(field@, 0) == field_named::<C>(field@, i as nat),
        decreases n - i,
    {
        if name_is(field, C::field_name(i)) {
            return Some(i);
        }
        i = i + 1;
    }
    None
}

/// One entry of a compound payload: what reading the rest of the payload, and finding
/// each field in it, come to after the entry.
pub(crate) proof fn lemma_entry<'d, C: CompoundFields<'d>>(d: Seq<u8>, fs: Set<nat>, t: Tag, k1: nat, k2: nat, fs2: Set<nat>)
    requires
        d.len() > 0,
        tag_of(d[0]) == Some(t),
        t != Tag::End,
        spec_skip_nbt_str(d.skip(1)) == Ok::<nat, DeserializationError>(k1),
        entry_step::<C>(d.subrange(3, 1 + k1 as int), t, d.skip(1 + k1 as int), fs) == Some((k2, fs2)),
        k2 <= d.len() - 1 - k1,
    ensures
        compound_rest_len::<C>(d, fs) == opt_add(compound_rest_len::<C>(d.skip((1 + k1 + k2) as int), fs2), 1 + k1 + k2),
        forall|j: nat| field_named::<C>(d.subrange(3, 1 + k1 as int), 0) == Some(j) ==> field_entry::<C>(d, fs, j) == Some((1 + k1, k2)),
        forall|j: nat| field_named::<C>(d.subrange(3, 1 + k1 as int), 0) != Some(j) ==> #[trigger] field_entry::<C>(d, fs, j)
            == shift_entry(field_entry::<C>(d.skip((1 + k1 + k2) as int), fs2, j), 1 + k1 + k2),
        forall|e: DeserializationError| #[trigger] compound_rest_error::<C>(d, fs, e)
            == compound_rest_error::<C>(d.skip((1 + k1 + k2) as int), fs2, e),
{
    reveal(compound_rest_len);
    reveal(field_entry);
    reveal(compound_rest_error);
    assert(d.skip(1 + k1 as int).skip(k2 as int) =~= d.skip((1 + k1 + k2) as int));
}

/// Where reading the rest of a compound payload fails at its first entry, or ends there.
pub(crate) proof fn lemma_rest_first<'d, C: CompoundFields<'d>>(d: Seq<u8>, fs: Set<nat>)
    ensures
        d.len() == 0 ==> compound_rest_len::<C>(d, fs) is None,
        d.len() > 0 && tag_of(d[0]) is None ==> compound_rest_len::<C>(d, fs) is None,
        d.len() > 0 && tag_of(d[0]) == Some(Tag::End) ==> {
            &&& compound_rest_len::<C>(d, fs) == if rest_optional::<C>(fs) { Some(1nat) } else { None }
            &&& forall|j: nat| #[trigger] field_entry::<C>(d, fs, j) is None
        },
        d.len() > 0 && tag_of(d[0]) is Some && tag_of(d[0]) != Some(Tag::End) && spec_skip_nbt_str(d.skip(1)) is Err
            ==> compound_rest_len::<C>(d, fs) is None,
        d.len() > 0 && tag_of(d[0]) is Some && tag_of(d[0]) != Some(Tag::End) && spec_skip_nbt_str(d.skip(1)) is Ok
            && entry_step::<C>(d.subrange(3, 1 + spec_skip_nbt_str(d.skip(1))->Ok_0 as int), tag_of(d[0])->Some_0,
                d.skip(1 + spec_skip_nbt_str(d.skip(1))->Ok_0 as int), fs) is None
            ==> compound_rest_len::<C>(d, fs) is None,
{
    reveal(compound_rest_len);
    reveal(field_entry);
}

/// Where the rest of a compound payload of `C` can be read, a field that is neither
/// optional nor read before has an entry in it.
pub proof fn lemma_required_entry<'d, C: CompoundFields<'d>>(d: Seq<u8>, fs: Set<nat>, j: nat)
    requires
        compound_rest_len::<C>(d, fs) is Some,
        j < C::spec_num_fields(),
        !fs.contains(j),
        !C::spec_field_optional(j as int),
    ensures
        field_entry::<C>(d, fs, j) is Some,
    decreases d.len(),
{
    reveal(compound_rest_len);
    reveal(field_entry);
    let t = tag_of(d[0])->Some_0;
    if t != Tag::End {
        let k1 = spec_skip_nbt_str(d.skip(1))->Ok_0;
        let rest = d.skip(1 + k1 as int);
        let name = d.subrange(3, 1 + k1 as int);
        let (k2, fs2) = entry_step::<C>(name, t, rest, fs)->Some_0;
        if field_named::<C>(name, 0) != Some(j) {
            lemma_required_entry::<C>(rest.skip(k2 as int), fs2, j);
        }
    }
}

/// Where field `j` has an entry, its payload is read there.
pub proof fn lemma_entry_payload<'d, C: CompoundFields<'d>>(d: Seq<u8>, fs: Set<nat>, j: nat)
    requires
        field_entry::<C>(d, fs, j) is Some,
    ensures
        field_entry::<C>(d, fs, j) matches Some((s, k))
            && s <= d.len() && C::field_payload_len(j as int, d.skip(s as int)) == Some(k),
    decreases d.len(),
{
    reveal(field_entry);
    let t = tag_of(d[0])->Some_0;
    let k1 = spec_skip_nbt_str(d.skip(1))->Ok_0;
    let rest = d.skip(1 + k1 as int);
    let name = d.subrange(3, 1 + k1 as int);
    let (k2, fs2) = entry_step::<C>(name, t, rest, fs)->Some_0;
    if field_named::<C>(name, 0) != Some(j) {
        lemma_entry_payload::<C>(rest.skip(k2 as int), fs2, j);
        let (s0, k0) = field_entry::<C>(rest.skip(k2 as int), fs2, j)->Some_0;
        assert(rest.skip(k2 as int).skip(s0 as int) =~= d.skip((1 + k1 + k2 + s0) as int));
    }
}

/// The fields marked read in `found`.
spec fn found_set(found: Seq<bool>) -> Set<nat> {
    Set::new(|j: nat| j < found.len() && found[j as int])
}

/// Reading the whole payload `d` comes to reading its rest from `off` on, with the
/// fields in `fs` read before.
#[verifier::opaque]
spec fn rest_from<'d, C: CompoundFields<'d>>(d: Seq<u8>, off: nat, fs: Set<nat>) -> bool {
    compound_rest_len::<C>(d, Set::empty()) == opt_add(compound_rest_len::<C>(d.skip(off as int), fs), off)
}

/// The fields not yet read (`found` false) are found in `d` where they are found in
/// its rest from `off` on, with the fields in `fs` read before.
#[verifier::opaque]
spec fn unread_from<'d, C: CompoundFields<'d>>(d: Seq<u8>, off: nat, fs: Set<nat>, found: Seq<bool>) -> bool {
    forall|j: nat| j < found.len() && !found[j as int] ==> #[trigger] field_entry::<C>(d, Set::empty(), j)
        == shift_entry(field_entry::<C>(d.skip(off as int), fs, j), off)
}

/// Reading the rest of `d` from `off` on, with the fields in `fs` read before, fails
/// with no error that reading the whole payload `d` does not fail with.
#[verifier::opaque]
spec fn err_from<'d, C: CompoundFields<'d>>(d: Seq<u8>, off: nat, fs: Set<nat>) -> bool {
    forall|e: DeserializationError| #[trigger] compound_rest_error::<C>(d.skip(off as int), fs, e)
        ==> compound_rest_error::<C>(d, Set::empty(), e)
}

/// An error of the rest of `d` from `off` on is an error of the whole payload.
proof fn lemma_err_from<'d, C: CompoundFields<'d>>(d: Seq<u8>, off: nat, fs: Set<nat>, e: DeserializationError)
    requires
        err_from::<C>(d, off, fs),
        compound_rest_error::<C>(d.skip(off as int), fs, e),
    ensures
        compound_rest_error::<C>(d, Set::empty(), e),
{
    reveal(err_from);
}

/// The fields read (`found` true) hold what their payloads in `d` say.
#[verifier::opaque]
spec fn read_hold<'d, C: CompoundFields<'d>>(c: C, d: Seq<u8>, found: Seq<bool>) -> bool {
    forall|j: nat| j < found.len() && found[j as int] ==> (#[trigger] field_entry::<C>(d, Set::empty(), j) matches Some((s, k))
        && c.field_holds(j as int, d.skip(s as int), k))
}

/// Reading one more entry, whose payload of `k2` bytes (read as field `fld`, if any)
/// follows a name of `k1` bytes, moves the rest `1 + k1 + k2` bytes on.
proof fn lemma_step<'d, C: CompoundFields<'d>>(d: Seq<u8>, off: nat, fs: Set<nat>, found: Seq<bool>, t: Tag, k1: nat, k2: nat, fld: Option<nat>)
    requires
        off < d.len(),
        rest_from::<C>(d, off, fs),
        unread_from::<C>(d, off, fs, found),
        err_from::<C>(d, off, fs),
        found_set(found) == fs,
        tag_of(d[off as int]) == Some(t),
        t != Tag::End,
        spec_skip_nbt_str(d.skip(off + 1 as int)) == Ok::<nat, DeserializationError>(k1),
        field_named::<C>(d.subrange(off + 3 as int, off + 1 + k1 as int), 0) == fld,
        fld matches Some(i) ==> i < found.len() && !found[i as int] && C::spec_field_tag(i as int) == t
            && C::field_payload_len(i as int, d.skip(off + 1 + k1 as int)) == Some(k2),
        fld is None ==> spec_skip_payload(d.skip(off + 1 + k1 as int), t) == Ok::<nat, DeserializationError>(k2),
        k2 <= d.len() - off - 1 - k1,
    ensures
        fld matches Some(i) ==> {
            &&& rest_from::<C>(d, off + 1 + k1 + k2, fs.insert(i))
            &&& unread_from::<C>(d, off + 1 + k1 + k2, fs.insert(i), found.update(i as int, true))
            &&& err_from::<C>(d, off + 1 + k1 + k2, fs.insert(i))
            &&& found_set(found.update(i as int, true)) == fs.insert(i)
            &&& field_entry::<C>(d, Set::empty(), i) == Some((off + 1 + k1, k2))
        },
        fld is None ==> rest_from::<C>(d, off + 1 + k1 + k2, fs) && unread_from::<C>(d, off + 1 + k1 + k2, fs, found)
            && err_from::<C>(d, off + 1 + k1 + k2, fs),
{
    reveal(rest_from);
    reveal(unread_from);
    reveal(err_from);
    let d1 = d.skip(off as int);
    assert(d1[0] == d[off as int]);
    assert(d1.skip(1) =~= d.skip(off + 1 as int));
    assert(d1.subrange(3, 1 + k1 as int) =~= d.subrange(off + 3 as int, off + 1 + k1 as int));
    assert(d1.skip(1 + k1 as int) =~= d.skip(off + 1 + k1 as int));
    assert(d1.skip((1 + k1 + k2) as int) =~= d.skip(off + 1 + k1 + k2 as int));
    let fs2 = match fld { Some(i) => fs.insert(i), None => fs };
    assert(entry_step::<C>(d1.subrange(3, 1 + k1 as int), t, d1.skip(1 + k1 as int), fs) == Some((k2, fs2)));
    lemma_entry::<C>(d1, fs, t, k1, k2, fs2);
    assert forall|e: DeserializationError| #[trigger] compound_rest_error::<C>(d.skip(off + 1 + k1 + k2 as int), fs2, e)
        implies compound_rest_error::<C>(d, Set::empty(), e) by {
        assert(compound_rest_error::<C>(d1, fs, e) == compound_rest_error::<C>(d1.skip((1 + k1 + k2) as int), fs2, e));
    }
    if let Some(i) = fld {
        let f2 = found.update(i as int, true);
        assert(found_set(f2) =~= fs.insert(i));
        assert forall|j: nat| j < f2.len() && !f2[j as int] implies #[trigger] field_entry::<C>(d, Set::empty(), j)
            == shift_entry(field_entry::<C>(d.skip(off + 1 + k1 + k2 as int), fs2, j), off + 1 + k1 + k2) by {
            assert(!found[j as int]);
            assert(field_entry::<C>(d1, fs, j) == shift_entry(field_entry::<C>(d1.skip((1 + k1 + k2) as int), fs2, j), 1 + k1 + k2));
        }
        assert(field_entry::<C>(d, Set::empty(), i) == shift_entry(field_entry::<C>(d1, fs, i), off));
    } else {
        assert forall|j: nat| j < found.len() && !found[j as int] implies #[trigger] field_entry::<C>(d, Set::empty(), j)
            == shift_entry(field_entry::<C>(d.skip(off + 1 + k1 + k2 as int), fs2, j), off + 1 + k1 + k2) by {
            assert(field_entry::<C>(d1, fs, j) == shift_entry(field_entry::<C>(d1.skip((1 + k1 + k2) as int), fs2, j), 1 + k1 + k2));
        }
    }
}

/// Reading field `i` into `c` keeps what the other fields hold, and field `i` holds
/// its payload.
proof fn lemma_read_hold<'d, C: CompoundFields<'d>>(c0: C, c1: C, d: Seq<u8>, found: Seq<bool>, i: nat, s: nat, k: nat)
    requires
        read_hold::<C>(c0, d, found),
        i < found.len(),
        forall|j: int, dd: Seq<u8>, kk: nat| j != i ==> #[trigger] c1.field_holds(j, dd, kk) == c0.field_holds(j, dd, kk),
        field_entry::<C>(d, Set::empty(), i) == Some((s, k)),
        c1.field_holds(i as int, d.skip(s as int), k),
    ensures
        read_hold::<C>(c1, d, found.update(i as int, true)),
{
    reveal(read_hold);
    let f2 = found.update(i as int, true);
    assert forall|j: nat| j < f2.len() && f2[j as int] implies (#[trigger] field_entry::<C>(d, Set::empty(), j) matches Some((s2, k2))
        && c1.field_holds(j as int, d.skip(s2 as int), k2)) by {
        if j != i {
            assert(found[j as int]);
        }
    }
}

/// Reads a compound payload into the fields of `c`: entries (tag, name, payload) up
/// to an `End` tag. A field given twice is rejected with `FieldDuplicate`, an entry
/// whose tag is not the field's with `UnexpectedTag`, and a missing non-optional
/// field with `FieldNotFound`; entries with other names are skipped. Returns the
/// number of bytes read, the `End` tag included. Optional fields that the payload
/// leaves out are marked absent, so that nothing from an earlier reading stays visible.
#[verifier::rlimit(60)]
pub fn deserialize_compound<'d, C: CompoundFields<'d>>(c: &mut C, data: &'d [u8]) -> (r: DeserializationResult<usize>)
    ensures
        data@.len() == 0 ==> (r matches Err(e) && e == DeserializationError::EOF),
        data@.len() > 0 && tag_of(data@[0]) is None ==> (r matches Err(e) && e == DeserializationError::UnexpectedTag(data@[0])),
        r matches Ok(k) ==> 1 <= k <= data@.len() && data@[k - 1] == 0,
        data@.len() > 0 && data@[0] == 0 && r is Ok ==> forall|i: int| 0 <= i < C::spec_num_fields() ==> C::spec_field_optional(i),
        data@.len() > 0 && data@[0] == 0 && (forall|i: int| 0 <= i < C::spec_num_fields() ==> C::spec_field_optional(i)) ==> r == Ok::<usize, DeserializationError>(1),
        data@.len() > 0 && data@[0] == 0 && !(forall|i: int| 0 <= i < C::spec_num_fields() ==> C::spec_field_optional(i)) ==> (r matches Err(e) && e is FieldNotFound),
        ok_len(r) == compound_rest_len::<C>(data@, Set::empty()),
        r is Ok ==> compound_holds::<C>(*final(c), data@),
        r is Ok ==> forall|j: nat| j < C::spec_num_fields() && field_entry::<C>(data@, Set::empty(), j) is None
            ==> C::spec_field_optional(j as int) && #[trigger] final(c).field_absent(j as int),
        r matches Err(e) ==> compound_rest_error::<C>(data@, Set::empty(), e),
{
    let n = C::num_fields();
    let mut found: Vec<bool> = Vec::new();
    while found.len() < n
        invariant
            found@.len() <= n,
            forall|j: int| 0 <= j < found@.len() ==> !found@[j],
        decreases n - found@.len(),
    {
        found.push(false);
    }
    proof {
        assert(found_set(found@) =~= Set::<nat>::empty());
        assert(data@.skip(0) =~= data@);
        reveal(rest_from);
        reveal(unread_from);
        reveal(read_hold);
        reveal(err_from);
        assert(rest_from::<C>(data@, 0, found_set(found@)));
        assert(err_from::<C>(data@, 0, found_set(found@)));
        assert forall|j: nat| j < found@.len() && !found@[j as int] implies #[trigger] field_entry::<C>(data@, Set::empty(), j)
            == shift_entry(field_entry::<C>(data@.skip(0), found_set(found@), j), 0) by {
        }
        assert(unread_from::<C>(data@, 0, found_set(found@), found@));
        assert(read_hold::<C>(*c, data@, found@));
    }
    let mut off: usize = 0;
    loop
        invariant_except_break
            off > 0 ==> data@[0] != 0,
            rest_from::<C>(data@, off as nat, found_set(found@)),
            unread_from::<C>(data@, off as nat, found_set(found@), found@),
            err_from::<C>(data@, off as nat, found_set(found@)),
        invariant
            off <= data@.len(),
            n == C::spec_num_fields(),
            found@.len() == n,
            off == 0 ==> forall|j: int| 0 <= j < n ==> !found@[j],
            off > 0 ==> data@.len() > 0 && tag_of(data@[0]) is Some,
            read_hold::<C>(*c, data@, found@),
            forall|j: nat, o: C| j < n && !found@[j as int] ==> #[trigger] c.field_same(&o, j as int) == old(c).field_same(&o, j as int),
        ensures
            1 <= off <= data@.len(),
            n == C::spec_num_fields(),
            found@.len() == n,
            data@[off - 1] == 0,
            tag_of(data@[0]) is Some,
            data@[0] == 0 ==> off == 1,
            off == 1 ==> forall|j: int| 0 <= j < n ==> !found@[j],
            compound_rest_len::<C>(data@, Set::empty())
                == if rest_optional::<C>(found_set(found@)) { Some(off as nat) } else { None },
            forall|j: nat| j < n && !found@[j as int] ==> #[trigger] field_entry::<C>(data@, Set::empty(), j) is None,
            forall|j: nat, o: C| j < n && !found@[j as int] ==> #[trigger] c.field_same(&o, j as int) == old(c).field_same(&o, j as int),
            err_from::<C>(data@, (off - 1) as nat, found_set(found@)),
        decreases data@.len() - off,
    {
        let ghost d1 = data@.skip(off as int);
        let ghost fs = found_set(found@);
        proof {
            lemma_rest_first::<C>(d1, fs);
            reveal(rest_from);
        }
        if off >= data.len() {
            proof {
                assert(compound_rest_error::<C>(d1, fs, DeserializationError::EOF)) by {
                    reveal(compound_rest_error);
                }
                lemma_err_from::<C>(data@, off as nat, fs, DeserializationError::EOF);
            }
            return Err(DeserializationError::EOF);
        }
        proof {
            assert(d1[0] == data@[off as int]);
        }
        let t = match Tag::try_from(data[off]) {
            Ok(t) => t,
            Err(e) => {
                proof {
                    assert(compound_rest_error::<C>(d1, fs, e)) by {
                        reveal(compound_rest_error);
                    }
                    lemma_err_from::<C>(data@, off as nat, fs, e);
                }
                return Err(e);
            },
        };
        off = off + 1;
        if t == Tag::End {
            proof {
                reveal(unread_from);
                assert forall|j: nat| j < n && !found@[j as int] implies #[trigger] field_entry::<C>(data@, Set::empty(), j) is None by {
                    assert(field_entry::<C>(d1, fs, j) is None);
                }
            }
            break;
        }
        let name_data = slice_subrange(data, off, data.len());
        proof {
            assert(name_data@ =~= d1.skip(1));
        }
        let (field_name, k) = match deserialize_nbt_str_bytes(name_data) {
            Ok(p) => p,
            Err(e) => {
                proof {
                    assert(compound_rest_error::<C>(d1, fs, e)) by {
                        reveal(compound_rest_error);
                    }
                    lemma_err_from::<C>(data@, (off - 1) as nat, fs, e);
                }
                return Err(e);
            },
        };
        let ghost k1 = k as nat;
        let ghost off0 = (off - 1) as nat;
        proof {
            assert(field_name@ =~= d1.subrange(3, 1 + k1 as int));
            assert(d1.subrange(3, 1 + k1 as int) =~= data@.subrange(off0 + 3 as int, off0 + 1 + k1 as int));
            assert(d1.skip(1) =~= data@.skip(off0 + 1 as int));
        }
        off = off + k;
        let tail = slice_subrange(data, off, data.len());
        proof {
            assert(tail@ =~= d1.skip(1 + k1 as int));
            assert(tail@ =~= data@.skip(off0 + 1 + k1 as int));
        }
        match find_field::<C>(field_name) {
            Some(i) => {
                if found[i] {
                    let e = DeserializationError::FieldDuplicate(C::field_name(i));
                    proof {
                        assert(fs.contains(i as nat));
                        assert(compound_rest_error::<C>(d1, fs, e)) by {
                            reveal(compound_rest_error);
                        }
                        lemma_err_from::<C>(data@, off0, fs, e);
                    }
                    return Err(e);
                }
                if C::field_tag(i) != t {
                    let e = DeserializationError::UnexpectedTag(t.to_u8());
                    proof {
                        assert(!fs.contains(i as nat));
                        assert(compound_rest_error::<C>(d1, fs, e)) by {
                            reveal(compound_rest_error);
                        }
                        lemma_err_from::<C>(data@, off0, fs, e);
                    }
                    return Err(e);
                }
                let ghost c0 = *c;
                let k2 = match c.read_field(i, tail) {
                    Ok(k) => k,
                    Err(e) => {
                        proof {
                            assert(!fs.contains(i as nat));
                            assert(compound_rest_error::<C>(d1, fs, e)) by {
                                reveal(compound_rest_error);
                            }
                            lemma_err_from::<C>(data@, off0, fs, e);
                        }
                        return Err(e);
                    },
                };
                proof {
                    lemma_step::<C>(data@, off0, fs, found@, t, k1, k2 as nat, Some(i as nat));
                    lemma_read_hold::<C>(c0, *c, data@, found@, i as nat, off as nat, k2 as nat);
                }
                found.set(i, true);
                off = off + k2;
            },
            None => {
                let k2 = match skip_payload(tail, t) {
                    Ok(k) => k,
                    Err(e) => {
                        proof {
                            assert(compound_rest_error::<C>(d1, fs, e)) by {
                                reveal(compound_rest_error);
                            }
                            lemma_err_from::<C>(data@, off0, fs, e);
                        }
                        return Err(e);
                    },
                };
                proof {
                    crate::nbt::helper::lemma_skip_within(tail@, t);
                    lemma_step::<C>(data@, off0, fs, found@, t, k1, k2 as nat, None);
                }
                off = off + k2;
            },
        }
    }
    let mut i: usize = 0;
    while i < n
        invariant
            n == C::spec_num_fields(),
            found@.len() == n,
            i <= n,
            1 <= off <= data@.len(),
            data@[off - 1] == 0,
            off == 1 ==> forall|j: int| 0 <= j < n ==> !found@[j],
            tag_of(data@[0]) is Some,
            data@[0] == 0 ==> off == 1,
            forall|j: int| 0 <= j < i ==> found@[j] || C::spec_field_optional(j),
            first_missing::<C>(found_set(found@), 0) == first_missing::<C>(found_set(found@), i as nat),
            err_from::<C>(data@, (off - 1) as nat, found_set(found@)),
            compound_rest_len::<C>(data@, Set::empty())
                == if rest_optional::<C>(found_set(found@)) { Some(off as nat) } else { None },
            read_hold::<C>(*c, data@, found@),
            forall|j: nat| j < n && !found@[j as int] ==> #[trigger] field_entry::<C>(data@, Set::empty(), j) is None,
            forall|j: int| 0 <= j < i && !found@[j] ==> #[trigger] c.field_absent(j),
        decreases n - i,
    {
        if !found[i] && !C::field_optional(i) {
            let e = DeserializationError::FieldNotFound(C::field_name(i));
            proof {
                let fs = found_set(found@);
                assert(!fs.contains(i as nat));
                assert(!rest_optional::<C>(fs));
                assert(first_missing::<C>(fs, i as nat) == Some(i as nat));
                let d1 = data@.skip(off - 1);
                assert(d1[0] == data@[off - 1]);
                assert(compound_rest_error::<C>(d1, fs, e)) by {
                    reveal(compound_rest_error);
                }
                lemma_err_from::<C>(data@, (off - 1) as nat, fs, e);
            }
            return Err(e);
        }
        proof {
            let fs = found_set(found@);
            assert(fs.contains(i as nat) || C::spec_field_optional(i as int));
            assert(first_missing::<C>(fs, i as nat) == first_missing::<C>(fs, (i + 1) as nat));
        }
        if !found[i] {
            let ghost c0 = *c;
            c.mark_absent(i);
            proof {
                reveal(read_hold);
                assert forall|j: nat| j < found@.len() && found@[j as int] implies (#[trigger] field_entry::<C>(data@, Set::empty(), j) matches Some((s, k))
                    && c.field_holds(j as int, data@.skip(s as int), k)) by {
                    assert(j != i);
                    assert(c0.field_holds(j as int, data@.skip(field_entry::<C>(data@, Set::empty(), j)->Some_0.0 as int), field_entry::<C>(data@, Set::empty(), j)->Some_0.1));
                }
                assert forall|j: int| 0 <= j < i + 1 && !found@[j] implies #[trigger] c.field_absent(j) by {
                    if j != i {
                        assert(c0.field_absent(j));
                    }
                }
            }
        }
        i = i + 1;
    }
    proof {
        assert forall|j: nat| j < C::spec_num_fields() && !found_set(found@).contains(j) implies C::spec_field_optional(j as int) by {
            assert(!found@[j as int]);
        }
        reveal(read_hold);
        assert forall|j: nat| j < C::spec_num_fields() implies (#[trigger] field_entry::<C>(data@, Set::empty(), j) matches Some((s, k))
            ==> c.field_holds(j as int, data@.skip(s as int), k)) by {
            if found@[j as int] {
            }
        }
        assert forall|j: nat| j < C::spec_num_fields() && field_entry::<C>(data@, Set::empty(), j) is None
            implies C::spec_field_optional(j as int) && #[trigger] c.field_absent(j as int) by {
            if found@[j as int] {
                assert(field_entry::<C>(data@, Set::empty(), j) is Some);
            }
            assert(c.field_absent(j as int));
        }
    }
    Ok(off)
}

/// A struct written as a compound payload field by field: each field has a name and a
/// tag, and writes its own payload. The structs of this crate define each spec
/// function; the defaults stand for structs defined elsewhere, of which nothing is
/// proved.
pub trait SerializeFields {
    /// Number of fields (none unless an implementation says otherwise).
    open spec fn spec_num_fields() -> nat {
        0
    }

    /// The name of field `i`.
    open spec fn spec_field_name(i: int) -> Seq<u8> {
        Seq::empty()
    }

    /// The tag of field `i`.
    open spec fn spec_field_tag(i: int) -> Tag {
        Tag::End
    }

    /// Number of fields.
    fn num_fields() -> (r: usize)
        ensures
            r == Self::spec_num_fields(),
    ;

    /// The name of field `i` (at most `u16::MAX` bytes).
    fn field_name(i: usize) -> (r: &'static str)
        requires
            i < Self::spec_num_fields(),
        ensures
            r.spec_bytes() == Self::spec_field_name(i as int),
            r.spec_bytes().len() <= u16::MAX,
    ;

    /// The tag of field `i`.
    fn field_tag(i: usize) -> (r: Tag)
        requires
            i < Self::spec_num_fields(),
        ensures
            r == Self::spec_field_tag(i as int),
    ;

    /// The bytes of the payload of field `i`, or `None` where writing it fails.
    open spec fn field_bytes(&self, i: int) -> Option<Seq<u8>> {
        None
    }

    /// Appends the payload of field `i` to `buf`; what was in `buf` stays in front.
    fn write_field(&self, i: usize, buf: &mut Vec<u8>) -> (r: Result<(), SerializationError>)
        requires
            i < Self::spec_num_fields(),
        ensures
            old(buf)@.is_prefix_of(final(buf)@),
            r is Ok <==> self.field_bytes(i as int) is Some,
            r is Ok ==> final(buf)@ == old(buf)@ + self.field_bytes(i as int)->Some_0,
    ;
}

/// The bytes in front of a field's payload: its tag, the length of its name, its name.
pub open spec fn field_header(t: Tag, name: Seq<u8>) -> Seq<u8> {
    seq![tag_byte(t)] + be_u16_bytes(name.len()) + name
}

/// The bytes of the first `n` fields of `c` in a compound payload: each field's header
/// and payload; `None` where one of them cannot be written.
pub open spec fn fields_bytes<C: SerializeFields>(c: &C, n: nat) -> Option<Seq<u8>>
    decreases n,
{
    if n == 0 {
        Some(Seq::empty())
    } else {
        match fields_bytes::<C>(c, (n - 1) as nat) {
            None => None,
            Some(b) => match c.field_bytes(n - 1) {
                None => None,
                Some(p) => Some(b + field_header(C::spec_field_tag(n - 1), C::spec_field_name(n - 1)) + p),
            },
        }
    }
}

/// The compound payload written for `c`: its fields in order, then an `End` tag; `None`
/// where a field cannot be written.
pub open spec fn compound_bytes<C: SerializeFields>(c: &C) -> Option<Seq<u8>> {
    match fields_bytes::<C>(c, C::spec_num_fields()) {
        Some(b) => Some(b.push(0)),
        None => None,
    }
}

/// Fields that cannot all be written up to field `j` cannot be written.
proof fn lemma_fields_bytes_prefix<C: SerializeFields>(c: &C, j: nat, n: nat)
    requires
        j <= n,
        fields_bytes::<C>(c, j) is None,
    ensures
        fields_bytes::<C>(c, n) is None,
    decreases n - j,
{
    if j < n {
        lemma_fields_bytes_prefix::<C>(c, j + 1, n);
    }
}

/// Writes `c` as a compound payload: for each field its tag, name and payload, then an
/// `End` tag.
pub fn serialize_compound<C: SerializeFields>(c: &C, buf: &mut Vec<u8>) -> (r: Result<(), SerializationError>)
    ensures
        old(buf)@.is_prefix_of(final(buf)@),
        r is Ok <==> compound_bytes::<C>(c) is Some,
        r is Ok ==> final(buf)@ == old(buf)@ + compound_bytes::<C>(c)->Some_0,
{
    let n = C::num_fields();
    let mut i: usize = 0;
    proof {
        assert(buf@ =~= old(buf)@ + fields_bytes::<C>(c, 0)->Some_0);
    }
    while i < n
        invariant
            n == C::spec_num_fields(),
            i <= n,
            fields_bytes::<C>(c, i as nat) is Some,
            buf@ == old(buf)@ + fields_bytes::<C>(c, i as nat)->Some_0,
        decreases n - i,
    {
        let ghost before = buf@;
        let name = C::field_name(i);
        buf.push(C::field_tag(i).to_u8());
        let b = name.as_bytes();
        let l = b.len() as u16;
        buf.push((l / 256) as u8);
        buf.push((l % 256) as u8);
        let mut k: usize = 0;
        while k < b.len()
            invariant
                k <= b@.len(),
                b@ == name.spec_bytes(),
                buf@ == before + seq![tag_byte(C::spec_field_tag(i as int)), (l / 256) as u8, (l % 256) as u8] + b@.take(k as int),
            decreases b@.len() - k,
        {
            buf.push(b[k]);
            proof {
                assert(b@.take(k + 1) =~= b@.take(k as int).push(b@[k as int]));
            }
            k = k + 1;
        }
        let ghost after_header = buf@;
        proof {
            assert(b@.take(b@.len() as int) =~= b@);
            let h = field_header(C::spec_field_tag(i as int), C::spec_field_name(i as int));
            assert(be_u16_bytes(b@.len()) =~= seq![(l / 256) as u8, (l % 256) as u8]);
            assert(buf@ =~= before + h);
        }
        match c.write_field(i, buf) {
            Ok(()) => {},
            Err(e) => {
                proof {
                    lemma_fields_bytes_prefix::<C>(c, (i + 1) as nat, n as nat);
                    assert(old(buf)@.is_prefix_of(final(buf)@)) by {
                        assert(final(buf)@.subrange(0, old(buf)@.len() as int) =~= after_header.subrange(0, old(buf)@.len() as int));
                        assert(after_header.subrange(0, old(buf)@.len() as int) =~= old(buf)@);
                    }
                }
                return Err(e);
            },
        }
        proof {
            let h = field_header(C::spec_field_tag(i as int), C::spec_field_name(i as int));
            assert(buf@ =~= old(buf)@ + fields_bytes::<C>(c, (i + 1) as nat)->Some_0);
        }
        i = i + 1;
    }
    buf.push(0);
    proof {
        assert(buf@ =~= old(buf)@ + compound_bytes::<C>(c)->Some_0);
        assert(buf@.subrange(0, old(buf)@.len() as int) =~= old(buf)@);
    }
    Ok(())
}

} // verus!
