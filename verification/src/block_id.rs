use vstd::prelude::*;

verus! {

/// Identifiers that come in a contiguous range and can be stepped through in order.
pub trait SeqId: Sized + Copy {
    /// The identifier as a number.
    spec fn id_value(self) -> nat;

    /// The smallest identifier of the range.
    spec fn min_value() -> nat;

    /// The largest identifier of the range.
    spec fn max_value() -> nat;

    /// The smallest identifier.
    fn min_id() -> (r: Self)
        ensures
            r.id_value() == Self::min_value(),
    ;

    /// The largest identifier.
    fn max_id() -> (r: Self)
        ensures
            r.id_value() == Self::max_value(),
    ;

    /// The identifier as a `usize`.
    fn to_usize(self) -> (r: usize)
        ensures
            r == self.id_value(),
    ;

    /// The identifier that follows `self`; there is none after the largest.
    fn next(self) -> (r: Self)
        requires
            self.id_value() < Self::max_value(),
        ensures
            r.id_value() == self.id_value() + 1,
    ;
}

/// A block identifier: 0 is invalid, `1..=32767` are static identifiers of the
/// palette's blocks, `32768..=65535` are identifiers handed out while rendering.
#[derive(PartialEq, Eq, Structural, PartialOrd, Ord, Debug, Clone, Copy, Hash)]
pub struct BlockId(pub u16);

/// A static block identifier (`1..=32767`).
#[derive(PartialEq, Eq, Structural, PartialOrd, Ord, Debug, Clone, Copy, Hash)]
pub struct StaticId(pub u16);

/// A dynamic block identifier (`32768..=65535`).
#[derive(PartialEq, Eq, Structural, PartialOrd, Ord, Debug, Clone, Copy, Hash)]
pub struct DynId(pub u16);

/// A block identifier sorted into its kind.
#[derive(Debug, Clone, Copy)]
pub enum BlockIdVariants {
    Invalid,
    Static(StaticId),
    Dyn(DynId),
}

/// The largest static identifier.
pub const STATIC_ID_MAX: u16 = 32767;

/// The smallest dynamic identifier.
pub const DYN_ID_MIN: u16 = 32768;

/// Which kind an identifier number belongs to, and the identifier of that kind.
pub open spec fn specialize(v: u16) -> BlockIdVariants {
    if v == 0 {
        BlockIdVariants::Invalid
    } else if v <= STATIC_ID_MAX {
        BlockIdVariants::Static(StaticId(v))
    } else {
        BlockIdVariants::Dyn(DynId(v))
    }
}

impl BlockId {
    /// The invalid identifier.
    pub fn invalid() -> (r: BlockId)
        ensures
            r == BlockId(0),
    {
        BlockId(0)
    }

    /// Sorts the identifier into invalid, static or dynamic.
    pub fn into_specialized(self) -> (r: BlockIdVariants)
        ensures
            r == specialize(self.0),
    {
        if self.0 == 0 {
            BlockIdVariants::Invalid
        } else if self.0 <= STATIC_ID_MAX {
            BlockIdVariants::Static(StaticId(self.0))
        } else {
            BlockIdVariants::Dyn(DynId(self.0))
        }
    }
}

impl SeqId for StaticId {
    open spec fn id_value(self) -> nat {
        self.0 as nat
    }

    open spec fn min_value() -> nat {
        1
    }

    open spec fn max_value() -> nat {
        STATIC_ID_MAX as nat
    }

    fn min_id() -> (r: Self) {
        StaticId(1)
    }

    fn max_id() -> (r: Self) {
        StaticId(STATIC_ID_MAX)
    }

    fn to_usize(self) -> (r: usize) {
        self.0 as usize
    }

    fn next(self) -> (r: Self) {
        StaticId(self.0 + 1)
    }
}

impl SeqId for DynId {
    open spec fn id_value(self) -> nat {
        self.0 as nat
    }

    open spec fn min_value() -> nat {
        DYN_ID_MIN as nat
    }

    open spec fn max_value() -> nat {
        u16::MAX as nat
    }

    fn min_id() -> (r: Self) {
        DynId(DYN_ID_MIN)
    }

    fn max_id() -> (r: Self) {
        DynId(u16::MAX)
    }

    fn to_usize(self) -> (r: usize) {
        self.0 as usize
    }

    fn next(self) -> (r: Self) {
        DynId(self.0 + 1)
    }
}

impl SeqId for usize {
    open spec fn id_value(self) -> nat {
        self as nat
    }

    open spec fn min_value() -> nat {
        0
    }

    open spec fn max_value() -> nat {
        usize::MAX as nat
    }

    fn min_id() -> (r: Self) {
        0
    }

    fn max_id() -> (r: Self) {
        usize::MAX
    }

    fn to_usize(self) -> (r: usize) {
        self
    }

    fn next(self) -> (r: Self) {
        self + 1
    }
}

impl From<u16> for BlockId {
    fn from(value: u16) -> (r: Self)
    {
        BlockId(value)
    }
}

impl vstd::std_specs::convert::FromSpecImpl<u16> for BlockId {
    open spec fn obeys_from_spec() -> bool {
        true
    }

    open spec fn from_spec(v: u16) -> Self {
        BlockId(v)
    }
}

impl From<StaticId> for BlockId {
    fn from(value: StaticId) -> (r: Self)
    {
        BlockId(value.0)
    }
}

impl vstd::std_specs::convert::FromSpecImpl<StaticId> for BlockId {
    open spec fn obeys_from_spec() -> bool {
        true
    }

    open spec fn from_spec(v: StaticId) -> Self {
        BlockId(v.0)
    }
}

impl From<DynId> for BlockId {
    fn from(value: DynId) -> (r: Self)
    {
        BlockId(value.0)
    }
}

impl vstd::std_specs::convert::FromSpecImpl<DynId> for BlockId {
    open spec fn obeys_from_spec() -> bool {
        true
    }

    open spec fn from_spec(v: DynId) -> Self {
        BlockId(v.0)
    }
}

impl From<BlockId> for u16 {
    fn from(value: BlockId) -> (r: Self)
    {
        value.0
    }
}

impl vstd::std_specs::convert::FromSpecImpl<BlockId> for u16 {
    open spec fn obeys_from_spec() -> bool {
        true
    }

    open spec fn from_spec(v: BlockId) -> Self {
        v.0
    }
}

impl From<BlockId> for usize {
    fn from(value: BlockId) -> (r: Self)
    {
        value.0 as usize
    }
}

impl vstd::std_specs::convert::FromSpecImpl<BlockId> for usize {
    open spec fn obeys_from_spec() -> bool {
        true
    }

    open spec fn from_spec(v: BlockId) -> Self {
        v.0 as usize
    }
}

} // verus!
