use vstd::prelude::*;
use vstd::slice::slice_subrange;
use crate::nbt::deserialize::{
    DeserializePayload, Optional, elems_len, elem_start, elems_hold, elems_error, lemma_elems_len_extend, lemma_elems_error_at,
};
use crate::nbt::error::{DeserializationError, DeserializationResult};
use crate::nbt::helper::{read_i32_len, spec_read_i32_len, opt_add};
use crate::nbt::tag::{Tag, tag_of};
use crate::nbt::helper::{deserialize_nbt_str, spec_skip_nbt_str};
use crate::nbt::{name_end, value_at_holds};
use vstd::utf8::decode_utf8;

verus! {

/// An optional value that keeps its storage while absent, so that reading into it
/// again can reuse it.
#[derive(Default, Debug)]
pub struct OptionalValue<T> {
    is_some: bool,
    value: T,
}

impl<T> OptionalValue<T> {
    /// Whether the value is present.
    pub closed spec fn present(&self) -> bool {
        self.is_some
    }

    /// The stored value (meaningful when present).
    pub closed spec fn stored(&self) -> T {
        self.value
    }

    /// The value as an option: the stored value where present, else nothing.
    pub open spec fn spec_option(&self) -> Option<T> {
        if self.present() { Some(self.stored()) } else { None }
    }

    /// The value, if present.
    pub fn as_option(&self) -> (r: Option<&T>)
        ensures
            self.present() ==> r == Some(&self.stored()),
            !self.present() ==> r is None,
    {
        if self.is_some {
            Some(&self.value)
        } else {
            None
        }
    }

    /// The value, if present, for changing it.
    pub fn as_option_mut(&mut self) -> (r: Option<&mut T>)
        ensures
            old(self).present() ==> (r matches Some(v) && *v == old(self).stored()
                && final(self).stored() == *final(v) && final(self).present()),
            !old(self).present() ==> (r is None && *final(self) == *old(self)),
    {
        if self.is_some {
            Some(&mut self.value)
        } else {
            None
        }
    }

    /// The value, if present.
    pub fn into_option(self) -> (r: Option<T>)
        ensures
            self.present() ==> r == Some(self.stored()),
            !self.present() ==> r is None,
    {
        if self.is_some {
            Some(self.value)
        } else {
            None
        }
    }
}

impl<'d, T: DeserializePayload<'d>> DeserializePayload<'d> for OptionalValue<T> {
    const TAG: Tag = T::TAG;

    open spec fn payload_len(data: Seq<u8>) -> Option<nat> {
        T::payload_len(data)
    }

    open spec fn holds_payload(&self, data: Seq<u8>, k: nat) -> bool {
        self.present() && self.stored().holds_payload(data, k)
    }

    open spec fn payload_error(data: Seq<u8>, e: DeserializationError) -> bool {
        T::payload_error(data, e)
    }

    /// Reads into the stored value; on success the value is present.
    fn deserialize_payload(&mut self, data: &'d [u8]) -> (r: DeserializationResult<usize>)
        ensures
            r is Ok ==> final(self).present(),
            r is Err ==> final(self).present() == old(self).present(),
    {
        let k = match self.value.deserialize_payload(data) {
            Ok(k) => k,
            Err(e) => return Err(e),
        };
        self.is_some = true;
        Ok(k)
    }
}

/// An optional value that holds a payload read into it gives the value read, and one
/// marked absent gives nothing (with `deserialize_payload`, which leaves the value
/// present on success and its presence unchanged on failure, and `handle_absent`).
pub proof fn lemma_optional_value<'d, T: DeserializePayload<'d>>(v: OptionalValue<T>, data: Seq<u8>, k: nat)
    ensures
        v.holds_payload(data, k) ==> (v.spec_option() matches Some(x) && x.holds_payload(data, k)),
        !v.present() ==> v.spec_option() is None,
{
}

impl<T> Optional for OptionalValue<T> {
    /// Marks the value absent; its storage is kept.
    fn handle_absent(&mut self)
        ensures
            !final(self).present(),
            final(self).stored() == old(self).stored(),
    {
        self.is_some = false
    }
}

/// A list that keeps the storage of its elements across readings: reading a shorter
/// list keeps the elements beyond its length for later reuse.
#[derive(Debug)]
pub struct List<T> {
    inner: Vec<T>,
    logical_len: usize,
}

impl<T> Default for List<T> {
    /// An empty list.
    fn default() -> (r: Self)
        ensures
            r.elems().len() == 0,
    {
        Self { inner: Vec::new(), logical_len: 0 }
    }
}

impl<T> List<T> {
    /// The list's elements.
    pub closed spec fn elems(&self) -> Seq<T> {
        self.inner@.subrange(0, self.logical_len as int)
    }

    /// The number of elements is never more than the storage holds.
    #[verifier::type_invariant]
    spec fn storage_holds_elems(&self) -> bool {
        self.logical_len <= self.inner@.len()
    }

    /// An empty list with room for `cap` elements.
    pub fn with_capacity(cap: usize) -> (r: Self)
        ensures
            r.elems().len() == 0,
    {
        Self { inner: Vec::with_capacity(cap), logical_len: 0 }
    }

    /// The number of elements.
    pub fn len(&self) -> (r: usize)
        ensures
            r == self.elems().len(),
    {
        proof { use_type_invariant(self); }
        self.logical_len
    }

    /// Whether there are no elements.
    pub fn is_empty(&self) -> (r: bool)
        ensures
            r <==> self.elems().len() == 0,
    {
        proof { use_type_invariant(self); }
        self.logical_len == 0
    }

    /// The elements as a slice.
    pub fn as_slice(&self) -> (r: &[T])
        ensures
            r@ == self.elems(),
    {
        proof { use_type_invariant(self); }
        slice_subrange(self.inner.as_slice(), 0, self.logical_len)
    }

    /// Element `i`.
    pub fn get(&self, i: usize) -> (r: &T)
        requires
            i < self.elems().len(),
        ensures
            *r == self.elems()[i as int],
    {
        proof { use_type_invariant(self); }
        &self.inner[i]
    }

    /// Element `i`, for changing it.
    pub fn get_mut(&mut self, i: usize) -> (r: &mut T)
        requires
            i < old(self).elems().len(),
        ensures
            *r == old(self).elems()[i as int],
            final(self).elems() == old(self).elems().update(i as int, *final(r)),
    {
        proof { use_type_invariant(&*self); }
        let r = &mut self.inner[i];
        r
    }
}

impl<'d, T: DeserializePayload<'d> + Default> DeserializePayload<'d> for List<T> {
    const TAG: Tag = Tag::List;

    /// The element tag byte must be a tag; it is not compared with `T`'s.
    open spec fn payload_len(data: Seq<u8>) -> Option<nat> {
        if data.len() == 0 || tag_of(data[0]) is None {
            None
        } else {
            match spec_read_i32_len(data.skip(1)) {
                Err(_) => None,
                Ok(l) => opt_add(elems_len::<T>(data.skip(5), l), 5),
            }
        }
    }

    open spec fn holds_payload(&self, data: Seq<u8>, k: nat) -> bool {
        &&& spec_read_i32_len(data.skip(1)) == Ok::<nat, DeserializationError>(self.elems().len())
        &&& elems_hold::<T>(self.elems(), data.skip(5))
    }

    open spec fn payload_error(data: Seq<u8>, e: DeserializationError) -> bool {
        if data.len() == 0 {
            e == DeserializationError::EOF
        } else if tag_of(data[0]) is None {
            e == DeserializationError::UnexpectedTag(data[0])
        } else {
            match spec_read_i32_len(data.skip(1)) {
                Err(e0) => e == e0,
                Ok(l) => elems_error::<T>(data.skip(5), l, e),
            }
        }
    }

    /// Reads a list: the element tag byte (which must be a valid tag), the count, and
    /// each element into the storage kept from earlier readings.
    fn deserialize_payload(&mut self, data: &'d [u8]) -> (r: DeserializationResult<usize>)
        ensures
            data@.len() == 0 ==> (r matches Err(e) && e == DeserializationError::EOF),
            data@.len() > 0 && tag_of(data@[0]) is None ==> (r matches Err(e) && e == DeserializationError::UnexpectedTag(data@[0])),
            r is Ok ==> {
                &&& data@.len() >= 5
                &&& tag_of(data@[0]) is Some
                &&& spec_read_i32_len(data@.skip(1)) == Ok::<nat, DeserializationError>(final(self).elems().len())
            },
    {
        if data.len() == 0 {
            return Err(DeserializationError::EOF);
        }
        let _elem_tag = match Tag::try_from(data[0]) {
            Ok(t) => t,
            Err(e) => return Err(e),
        };
        let mut off: usize = 1;
        let rest = slice_subrange(data, 1, data.len());
        proof {
            assert(rest@ =~= data@.skip(1));
        }
        let l = match read_i32_len(rest) {
            Ok(l) => l,
            Err(e) => return Err(e),
        };
        off = off + 4;
        self.logical_len = 0;
        let mut inner: Vec<T> = Vec::new();
        std::mem::swap(&mut inner, &mut self.inner);
        while inner.len() < l
            invariant
                self.logical_len == 0,
            decreases l - inner@.len(),
        {
            inner.push(T::default());
        }
        let ghost d5 = data@.skip(5);
        proof {
            assert(data@.skip(off as int) =~= d5);
        }
        let mut i: usize = 0;
        while i < l
            invariant
                self.logical_len == 0,
                l <= inner@.len(),
                i <= l,
                5 <= off <= data@.len(),
                data@.len() >= 5,
                tag_of(data@[0]) is Some,
                spec_read_i32_len(data@.skip(1)) == Ok::<nat, DeserializationError>(l as nat),
                d5 == data@.skip(5),
                elems_len::<T>(d5, i as nat) == Some((off - 5) as nat),
                elems_len::<T>(d5, l as nat) == opt_add(elems_len::<T>(data@.skip(off as int), (l - i) as nat), (off - 5) as nat),
                forall|j: int| 0 <= j < i ==> #[trigger] inner@[j].holds_payload(
                    d5.skip(elem_start::<T>(d5, j) as int), T::payload_len(d5.skip(elem_start::<T>(d5, j) as int))->Some_0),
            decreases l - i,
        {
            let tail = slice_subrange(data, off, data.len());
            proof {
                assert(tail@ =~= data@.skip(off as int));
                assert(d5.skip(off - 5) =~= tail@);
            }
            let ghost before = inner@;
            let k = match inner[i].deserialize_payload(tail) {
                Ok(k) => k,
                Err(e) => {
                    proof {
                        lemma_elems_error_at::<T>(d5, i as nat, (off - 5) as nat, l as nat, e);
                    }
                    self.inner = inner;
                    self.logical_len = l;
                    return Err(e);
                },
            };
            proof {
                assert(tail@.skip(k as int) =~= data@.skip(off + k));
                lemma_elems_len_extend::<T>(d5, i as nat, (off - 5) as nat, k as nat);
                assert forall|j: int| 0 <= j < i + 1 implies #[trigger] inner@[j].holds_payload(
                    d5.skip(elem_start::<T>(d5, j) as int), T::payload_len(d5.skip(elem_start::<T>(d5, j) as int))->Some_0) by {
                    if j < i {
                        assert(inner@[j] == before[j]);
                    }
                }
            }
            off = off + k;
            i = i + 1;
        }
        self.inner = inner;
        self.logical_len = l;
        proof {
            assert(self.elems() =~= inner@.subrange(0, l as int));
            assert forall|j: int| 0 <= j < self.elems().len() implies #[trigger] self.elems()[j].holds_payload(
                d5.skip(elem_start::<T>(d5, j) as int), T::payload_len(d5.skip(elem_start::<T>(d5, j) as int))->Some_0) by {
                assert(self.elems()[j] == inner@[j]);
            }
        }
        Ok(off)
    }
}

/// Storage for a value that is read again and again from different data.
#[derive(Default, Debug)]
pub struct Reusable<T> {
    inner: T,
}

/// Access to the value last read into a [`Reusable`], for as long as the data it was
/// read from lives.
pub struct RefGuard<'d, T> {
    origin: &'d Reusable<T>,
}

impl<'d, T> RefGuard<'d, T> {
    /// The value held.
    pub closed spec fn value(&self) -> T {
        self.origin.inner
    }

    /// The value.
    pub fn get(&self) -> (r: &T)
        ensures
            *r == self.value(),
    {
        &self.origin.inner
    }
}

impl<T> Reusable<T> {
    /// The stored value.
    pub closed spec fn stored(&self) -> T {
        self.inner
    }

    /// Reads a named value (tag byte other than `End`, UTF-8 name, payload) into the
    /// stored value, and returns the name, access to the value, and the number of bytes read.
    pub fn try_deserialize_into<'d>(&'d mut self, data: &'d [u8]) -> (r: DeserializationResult<(&'d str, RefGuard<'d, T>, usize)>)
        where
            T: DeserializePayload<'d>,
        ensures
            data@.len() == 0 ==> (r matches Err(e) && e == DeserializationError::EOF),
            data@.len() > 0 && tag_of(data@[0]) is None ==> (r matches Err(e) && e == DeserializationError::UnexpectedTag(data@[0])),
            data@.len() > 0 && tag_of(data@[0]) == Some(Tag::End) ==> (r matches Err(e) && e == DeserializationError::UnexpectedTag(0)),
            r matches Ok(res) ==> res.2 <= data@.len() && res.1.value() == final(self).stored(),
            r is Ok <==> (name_end(data@) matches Some(p) && T::payload_len(data@.skip(p as int)) is Some),
            r matches Ok(res) ==> value_at_holds::<T>(data@, name_end(data@)->Some_0, final(self).stored())
                && res.2 == name_end(data@)->Some_0 + T::payload_len(data@.skip(name_end(data@)->Some_0 as int))->Some_0
                && res.0@ == decode_utf8(data@.subrange(3, name_end(data@)->Some_0 as int)),
            r matches Err(e) ==> (name_end(data@) matches Some(p) ==> T::payload_error(data@.skip(p as int), e)),
    {
        if data.len() == 0 {
            return Err(DeserializationError::EOF);
        }
        let t = match Tag::try_from(data[0]) {
            Ok(t) => t,
            Err(e) => return Err(e),
        };
        if t == Tag::End {
            return Err(DeserializationError::UnexpectedTag(0));
        }
        let mut off: usize = 1;
        let rest = slice_subrange(data, 1, data.len());
        proof {
            assert(rest@ =~= data@.skip(1));
            if let Ok(n) = spec_skip_nbt_str(rest@) {
                assert(rest@.subrange(2, n as int) =~= data@.subrange(3, 1 + n as int));
            }
        }
        let (root_name, k) = match deserialize_nbt_str(rest) {
            Ok(p) => p,
            Err(e) => {
            proof {
                assert(name_end(data@) is None);
            }
            return Err(e);
        },
        };
        off = off + k;
        let tail = slice_subrange(data, off, data.len());
        proof {
            assert(tail@ =~= data@.skip(off as int));
        }
        let k2 = match self.inner.deserialize_payload(tail) {
            Ok(k) => k,
            Err(e) => {
            proof {
                assert(name_end(data@) == Some(off as nat));
            }
            return Err(e);
        },
        };
        off = off + k2;
        Ok((root_name, RefGuard { origin: self }, off))
    }
}

} // verus!
