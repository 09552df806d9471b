//! The parts of a chunk's NBT data that the renderer reads: block palettes and their
//! packed indices per 16x16x16 section, and two heightmaps.

use vstd::prelude::*;
use vstd::string::StringSliceAdditionalSpecFns;
use vstd::arithmetic::power2::pow2;
use crate::bitpack::{
    bit_len, bits_required, unpack_from_u64_bytes_dispatch, unpack_u9_from_u64s, packed_get,
    packed_get_be, word_in_bytes, be_value, read_be_word,
};
use crate::nbt::ConstBytes;
use crate::nbt::RawString;
use crate::nbt::{named_value_holds, payload_start};
use crate::nbt::arrays::LongArrayBytes;
use crate::nbt::compound::{
    CompoundFields, deserialize_compound, compound_rest_len, compound_rest_error, compound_holds, compound_absent, field_entry,
    lemma_required_entry, lemma_entry_payload,
};
use crate::nbt::deserialize::{elem_start, elems_len, lemma_elems_prefix};
use crate::nbt::deserialize::{DeserializePayload, Optional};
use crate::nbt::error::{DeserializationError, DeserializationResult};
use crate::nbt::helper::{read_i32_len, spec_read_i32_len};
use crate::nbt::reuse::List;
use crate::nbt::tag::Tag;
use std::borrow::Cow;

verus! {

/// The name of the block where nothing else is stored: `minecraft:air`.
pub open spec fn air_name() -> Seq<u8> {
    "minecraft:air".spec_bytes()
}

/// The bytes of `minecraft:air`.
pub fn minecraft_air() -> (r: &'static [u8])
    ensures
        r@ == air_name(),
{
    let s = "minecraft:air";
    proof {
        reveal_strlit("minecraft:air");
        vstd::string::is_ascii_spec_bytes(s);
    }
    s.as_bytes()
}

/// The status of a fully generated chunk: the string `minecraft:full`.
#[derive(Default)]
pub struct StatusMinecraftFull;

impl ConstBytes for StatusMinecraftFull {
    const TAG: Tag = Tag::String;

    /// A string payload: length 14, then `minecraft:full`.
    open spec fn const_bytes() -> Seq<u8> {
        seq![0u8, 14, 109, 105, 110, 101, 99, 114, 97, 102, 116, 58, 102, 117, 108, 108]
    }

    fn bytes() -> (r: &'static [u8]) {
        let s = "\x00\x0eminecraft:full";
        proof {
            reveal_strlit("\x00\x0eminecraft:full");
            vstd::string::is_ascii_spec_bytes(s);
        }
        let r = s.as_bytes();
        proof {
            assert(r@ =~= Self::const_bytes());
        }
        r
    }

    open spec fn spec_err_msg() -> Option<Seq<char>> {
        Some("status not minecraft:full"@)
    }

    fn err_msg() -> (r: Option<&'static str>) {
        Some("status not minecraft:full")
    }
}

/// A block of a section's palette, known by its name.
#[derive(Default)]
pub struct Block<'a> {
    pub name: RawString<'a>,
}

impl<'d> CompoundFields<'d> for Block<'d> {
    open spec fn field_same(&self, other: &Self, i: int) -> bool {
        if i == 0 {
            self.name == other.name
        } else {
            true
        }
    }

    open spec fn spec_field_tag(i: int) -> Tag {
        Tag::String
    }

    open spec fn field_payload_len(i: int, data: Seq<u8>) -> Option<nat> {
        if i == 0 {
            <RawString<'d> as DeserializePayload<'d>>::payload_len(data)
        } else {
            None
        }
    }

    open spec fn field_error(i: int, data: Seq<u8>, e: DeserializationError) -> bool {
        if i == 0 {
            <RawString<'d> as DeserializePayload<'d>>::payload_error(data, e)
        } else {
            true
        }
    }

    open spec fn field_holds(&self, i: int, data: Seq<u8>, k: nat) -> bool {
        if i == 0 {
            self.name.holds_payload(data, k)
        } else {
            true
        }
    }

    open spec fn spec_num_fields() -> nat {
        1
    }

    open spec fn spec_field_name(i: int) -> Seq<u8> {
        "Name".spec_bytes()
    }

    open spec fn spec_field_optional(i: int) -> bool {
        false
    }

    fn num_fields() -> (r: usize) {
        1
    }

    fn field_name(i: usize) -> (r: &'static str) {
        "Name"
    }

    fn field_optional(i: usize) -> (r: bool) {
        false
    }

    fn field_tag(i: usize) -> (r: Tag) {
        Tag::String
    }

    fn read_field(&mut self, i: usize, data: &'d [u8]) -> (r: DeserializationResult<usize>) {
        self.name.deserialize_payload(data)
    }

    fn mark_absent(&mut self, i: usize) {
    }
}

impl<'d> DeserializePayload<'d> for Block<'d> {
    const TAG: Tag = Tag::Compound;

    open spec fn payload_len(data: Seq<u8>) -> Option<nat> {
        compound_rest_len::<Self>(data, Set::empty())
    }

    open spec fn payload_error(data: Seq<u8>, e: DeserializationError) -> bool {
        compound_rest_error::<Self>(data, Set::empty(), e)
    }

    open spec fn holds_payload(&self, data: Seq<u8>, k: nat) -> bool {
        compound_holds::<Self>(*self, data) && compound_absent::<Self>(*self, data)
    }

    fn deserialize_payload(&mut self, data: &'d [u8]) -> (r: DeserializationResult<usize>) {
        deserialize_compound(self, data)
    }
}

/// The blocks of a section: a palette of block names, and for each of the 4096
/// positions an index into it, packed into big-endian words.
pub struct BlockStates<'a> {
    pub palette: List<Block<'a>>,
    data: Option<LongArrayBytes<'a>>,
    bit_width: usize,
}

impl<'a> Default for BlockStates<'a> {
    fn default() -> (r: Self)
        ensures
            r.spec_palette().len() == 0,
            r.spec_data() is None,
            r.spec_bit_width() == 0,
    {
        Self { palette: List::with_capacity(7), data: None, bit_width: 0 }
    }
}

impl<'a> BlockStates<'a> {
    /// The palette's blocks.
    pub closed spec fn spec_palette(&self) -> Seq<Block<'a>> {
        self.palette.elems()
    }

    /// The packed palette indices, if the data holds any.
    pub closed spec fn spec_data(&self) -> Option<Seq<u8>> {
        match self.data {
            Some(d) => Some(d.spec_bytes()),
            None => None,
        }
    }

    /// The number of bits of each packed palette index.
    pub closed spec fn spec_bit_width(&self) -> nat {
        self.bit_width as nat
    }

    /// The name of block `idx` of the section. An empty palette means air, a palette
    /// of one block means that block everywhere. Otherwise the packed index at `idx`
    /// picks the block; where there is no packed data, where it is too short or its
    /// width is outside `4..=12`, or where the index lies beyond the palette, the block
    /// is air.
    pub open spec fn spec_get_block(&self, idx: nat) -> Seq<u8> {
        let pal = self.spec_palette();
        if pal.len() == 0 {
            air_name()
        } else if pal.len() == 1 {
            pal[0].name.0@
        } else {
            match self.spec_data() {
                Some(d) => {
                    let bw = self.spec_bit_width();
                    if 4 <= bw <= 12 && word_in_bytes(d.len(), bw, idx) {
                        let p = packed_get_be(d, bw, idx);
                        if p < pal.len() {
                            pal[p as int].name.0@
                        } else {
                            air_name()
                        }
                    } else {
                        air_name()
                    }
                },
                None => air_name(),
            }
        }
    }

    /// The name of block `idx` (`y * 256 + z * 16 + x` within the section).
    pub fn get_block(&self, idx: u16) -> (r: &'a [u8])
        requires
            idx < 4096,
        ensures
            r@ == self.spec_get_block(idx as nat),
    {
        let n = self.palette.len();
        if n == 0 {
            minecraft_air()
        } else if n == 1 {
            self.palette.get(0).name.inner_lifetimed()
        } else {
            match &self.data {
                Some(d) => {
                    let bs = d.bytes();
                    let bw = self.bit_width;
                    if bw < 4 || bw > 12 {
                        return minecraft_air();
                    }
                    let per = 64 / bw;
                    assert(per >= 5) by (nonlinear_arith) requires per == 64usize / bw, 4usize <= bw <= 12usize;
                    let word = (idx as usize) / per;
                    if bs.len() < 8 || word > bs.len() / 8 - 1 {
                        proof {
                            if word_in_bytes(bs@.len(), bw as nat, idx as nat) {
                                assert(word * 8 + 8 <= bs@.len());
                                assert(word <= bs@.len() / 8 - 1) by (nonlinear_arith)
                                    requires word * 8 + 8 <= bs@.len();
                            }
                        }
                        return minecraft_air();
                    }
                    proof {
                        assert(word * 8 + 8 <= bs@.len()) by (nonlinear_arith)
                            requires word <= bs@.len() / 8 - 1, bs@.len() >= 8;
                    }
                    let pal_idx = unpack_from_u64_bytes_dispatch(bs, bw, idx as usize) as usize;
                    if pal_idx >= n {
                        minecraft_air()
                    } else {
                        self.palette.get(pal_idx).name.inner_lifetimed()
                    }
                },
                None => minecraft_air(),
            }
        }
    }
}

impl<'d> CompoundFields<'d> for BlockStates<'d> {
    closed spec fn field_same(&self, other: &Self, i: int) -> bool {
        if i == 0 {
            self.palette == other.palette
        } else if i == 1 {
            self.data == other.data
        } else {
            true
        }
    }

    open spec fn spec_field_tag(i: int) -> Tag {
        if i == 0 {
            Tag::List
        } else {
            Tag::LongArray
        }
    }

    closed spec fn field_payload_len(i: int, data: Seq<u8>) -> Option<nat> {
        if i == 0 {
            <List<Block<'d>> as DeserializePayload<'d>>::payload_len(data)
        } else if i == 1 {
            <Option<LongArrayBytes<'d>> as DeserializePayload<'d>>::payload_len(data)
        } else {
            None
        }
    }

    closed spec fn field_error(i: int, data: Seq<u8>, e: DeserializationError) -> bool {
        if i == 0 {
            <List<Block<'d>> as DeserializePayload<'d>>::payload_error(data, e)
        } else if i == 1 {
            <Option<LongArrayBytes<'d>> as DeserializePayload<'d>>::payload_error(data, e)
        } else {
            true
        }
    }

    closed spec fn field_absent(&self, i: int) -> bool {
        i == 1 ==> self.data is None
    }

    closed spec fn field_holds(&self, i: int, data: Seq<u8>, k: nat) -> bool {
        if i == 0 {
            self.palette.holds_payload(data, k)
        } else if i == 1 {
            self.data.holds_payload(data, k)
        } else {
            true
        }
    }

    open spec fn spec_num_fields() -> nat {
        2
    }

    open spec fn spec_field_name(i: int) -> Seq<u8> {
        if i == 0 {
            "palette".spec_bytes()
        } else {
            "data".spec_bytes()
        }
    }

    open spec fn spec_field_optional(i: int) -> bool {
        i == 1
    }

    fn num_fields() -> (r: usize) {
        2
    }

    fn field_name(i: usize) -> (r: &'static str) {
        if i == 0 {
            "palette"
        } else {
            "data"
        }
    }

    fn field_optional(i: usize) -> (r: bool) {
        i == 1
    }

    fn field_tag(i: usize) -> (r: Tag) {
        if i == 0 {
            Tag::List
        } else {
            Tag::LongArray
        }
    }

    fn read_field(&mut self, i: usize, data: &'d [u8]) -> (r: DeserializationResult<usize>) {
        if i == 0 {
            self.palette.deserialize_payload(data)
        } else {
            self.data.deserialize_payload(data)
        }
    }

    fn mark_absent(&mut self, i: usize) {
        if i == 1 {
            self.data.handle_absent();
        }
    }
}

impl<'d> DeserializePayload<'d> for BlockStates<'d> {
    const TAG: Tag = Tag::Compound;

    open spec fn payload_len(data: Seq<u8>) -> Option<nat> {
        compound_rest_len::<Self>(data, Set::empty())
    }

    open spec fn payload_error(data: Seq<u8>, e: DeserializationError) -> bool {
        compound_rest_error::<Self>(data, Set::empty(), e)
    }

    open spec fn holds_payload(&self, data: Seq<u8>, k: nat) -> bool {
        compound_holds::<Self>(*self, data) && compound_absent::<Self>(*self, data)
    }

    fn deserialize_payload(&mut self, data: &'d [u8]) -> (r: DeserializationResult<usize>) {
        deserialize_compound(self, data)
    }
}

/// A 16x16x16 section of a chunk, at height `y` (in sections).
#[derive(Default)]
pub struct Section<'a> {
    pub y: i8,
    pub block_states: BlockStates<'a>,
}

impl<'d> CompoundFields<'d> for Section<'d> {
    open spec fn field_same(&self, other: &Self, i: int) -> bool {
        if i == 0 {
            self.y == other.y
        } else if i == 1 {
            self.block_states == other.block_states
        } else {
            true
        }
    }

    open spec fn spec_field_tag(i: int) -> Tag {
        if i == 0 {
            Tag::Byte
        } else {
            Tag::Compound
        }
    }

    open spec fn field_payload_len(i: int, data: Seq<u8>) -> Option<nat> {
        if i == 0 {
            <i8 as DeserializePayload<'d>>::payload_len(data)
        } else if i == 1 {
            <BlockStates<'d> as DeserializePayload<'d>>::payload_len(data)
        } else {
            None
        }
    }

    open spec fn field_error(i: int, data: Seq<u8>, e: DeserializationError) -> bool {
        if i == 0 {
            <i8 as DeserializePayload<'d>>::payload_error(data, e)
        } else if i == 1 {
            <BlockStates<'d> as DeserializePayload<'d>>::payload_error(data, e)
        } else {
            true
        }
    }

    open spec fn field_holds(&self, i: int, data: Seq<u8>, k: nat) -> bool {
        if i == 0 {
            self.y.holds_payload(data, k)
        } else if i == 1 {
            self.block_states.holds_payload(data, k)
        } else {
            true
        }
    }

    open spec fn spec_num_fields() -> nat {
        2
    }

    open spec fn spec_field_name(i: int) -> Seq<u8> {
        if i == 0 {
            "Y".spec_bytes()
        } else {
            "block_states".spec_bytes()
        }
    }

    open spec fn spec_field_optional(i: int) -> bool {
        false
    }

    fn num_fields() -> (r: usize) {
        2
    }

    fn field_name(i: usize) -> (r: &'static str) {
        if i == 0 {
            "Y"
        } else {
            "block_states"
        }
    }

    fn field_optional(i: usize) -> (r: bool) {
        false
    }

    fn field_tag(i: usize) -> (r: Tag) {
        if i == 0 {
            Tag::Byte
        } else {
            Tag::Compound
        }
    }

    fn read_field(&mut self, i: usize, data: &'d [u8]) -> (r: DeserializationResult<usize>) {
        if i == 0 {
            self.y.deserialize_payload(data)
        } else {
            self.block_states.deserialize_payload(data)
        }
    }

    fn mark_absent(&mut self, i: usize) {
    }
}

impl<'d> DeserializePayload<'d> for Section<'d> {
    const TAG: Tag = Tag::Compound;

    open spec fn payload_len(data: Seq<u8>) -> Option<nat> {
        compound_rest_len::<Self>(data, Set::empty())
    }

    open spec fn payload_error(data: Seq<u8>, e: DeserializationError) -> bool {
        compound_rest_error::<Self>(data, Set::empty(), e)
    }

    open spec fn holds_payload(&self, data: Seq<u8>, k: nat) -> bool {
        compound_holds::<Self>(*self, data) && compound_absent::<Self>(*self, data)
    }

    fn deserialize_payload(&mut self, data: &'d [u8]) -> (r: DeserializationResult<usize>) {
        deserialize_compound(self, data)
    }
}

/// A heightmap: 256 values of 9 bits, seven to a 64-bit word (37 words).
pub struct Heightmap([u64; 37]);

impl Default for Heightmap {
    fn default() -> (r: Self)
        ensures
            forall|i: int| 0 <= i < 37 ==> r.words()[i] == 0,
    {
        let a = [0u64; 37];
        proof {
            assert forall|i: int| 0 <= i < 37 implies a@[i] == 0 by {
                assert(a == vstd::array::spec_array_fill_for_copy_type::<u64, 37>(0u64));
            }
        }
        Self(a)
    }
}

impl Heightmap {
    /// The heightmap's words.
    pub closed spec fn words(&self) -> Seq<u64> {
        self.0@
    }
}

/// Word `i` of a long array payload: the big-endian value of bytes `4 + 8i .. 12 + 8i`.
pub open spec fn long_at(data: Seq<u8>, i: int) -> nat {
    be_value(data.subrange(4 + 8 * i, 12 + 8 * i))
}

/// Reads 37 big-endian words from the bytes `4..300` of `bs`.
fn u64x37_from_be_bytes(us: &mut [u64; 37], bs: &[u8])
    requires
        bs@.len() >= 300,
    ensures
        forall|i: int| 0 <= i < 37 ==> final(us)@[i] as nat == long_at(bs@, i),
{
    let mut i: usize = 0;
    while i < 37
        invariant
            bs@.len() >= 300,
            i <= 37,
            forall|j: int| 0 <= j < i ==> us@[j] as nat == long_at(bs@, j),
        decreases 37 - i,
    {
        let w = read_be_word(bs, 4 + 8 * i);
        us[i] = w;
        i = i + 1;
    }
}

impl<'d> DeserializePayload<'d> for Heightmap {
    const TAG: Tag = Tag::LongArray;

    open spec fn payload_len(data: Seq<u8>) -> Option<nat> {
        if spec_read_i32_len(data) == Ok::<nat, DeserializationError>(37) && data.len() >= 300 {
            Some(300)
        } else {
            None
        }
    }

    open spec fn holds_payload(&self, data: Seq<u8>, k: nat) -> bool {
        forall|i: int| 0 <= i < 37 ==> self.words()[i] as nat == long_at(data, i)
    }

    open spec fn payload_error(data: Seq<u8>, e: DeserializationError) -> bool {
        match spec_read_i32_len(data) {
            Err(e0) => e == e0,
            Ok(l) => if l != 37 {
                e matches DeserializationError::Custom(m) && m@ == "unexected array length"@
            } else {
                e == DeserializationError::EOF
            },
        }
    }

    /// Reads a long array of exactly 37 words.
    fn deserialize_payload(&mut self, data: &'d [u8]) -> (r: DeserializationResult<usize>)
        ensures
            spec_read_i32_len(data@) matches Err(e) ==> r == Err::<usize, DeserializationError>(e),
            spec_read_i32_len(data@) matches Ok(l) && l != 37 ==> (r matches Err(DeserializationError::Custom(_))),
            spec_read_i32_len(data@) == Ok::<nat, DeserializationError>(37) && data@.len() < 300 ==> r == Err::<usize, DeserializationError>(DeserializationError::EOF),
            spec_read_i32_len(data@) == Ok::<nat, DeserializationError>(37) && data@.len() >= 300 ==> {
                &&& r == Ok::<usize, DeserializationError>(300)
                &&& forall|i: int| 0 <= i < 37 ==> final(self).words()[i] as nat == long_at(data@, i)
            },
    {
        let l = match read_i32_len(data) {
            Ok(l) => l,
            Err(e) => return Err(e),
        };
        if l != 37 {
            return Err(DeserializationError::Custom(Cow::Borrowed("unexected array length")));
        }
        if data.len() < 4 + 37 * 8 {
            return Err(DeserializationError::EOF);
        }
        u64x37_from_be_bytes(&mut self.0, data);
        Ok(4 + 37 * 8)
    }
}

/// The two heightmaps the renderer reads: the highest non-air block, and the highest
/// block that is not air or water.
pub struct Heightmaps {
    world_surface: Heightmap,
    ocean_floor: Heightmap,
}

impl Default for Heightmaps {
    fn default() -> (r: Self)
        ensures
            forall|i: int| 0 <= i < 37 ==> r.world_surface_words()[i] == 0 && r.ocean_floor_words()[i] == 0,
    {
        Self { world_surface: Heightmap::default(), ocean_floor: Heightmap::default() }
    }
}

impl Heightmaps {
    /// The words of the world surface heightmap.
    pub closed spec fn world_surface_words(&self) -> Seq<u64> {
        self.world_surface.words()
    }

    /// The words of the ocean floor heightmap.
    pub closed spec fn ocean_floor_words(&self) -> Seq<u64> {
        self.ocean_floor.words()
    }

    /// The world surface height at column `(x, z)`: value `z * 16 + x`.
    pub fn world_surface_at(&self, x: u16, z: u16) -> (r: u16)
        requires
            z * 16 + x < 259,
        ensures
            r as nat == packed_get(self.world_surface_words(), 9, (z * 16 + x) as nat),
            r < 512,
    {
        let idx = z * 16 + x;
        let longs = self.world_surface.0.as_slice();
        proof {
            assert(crate::bitpack::slots_per_word(9) == 7);
            assert(longs@.len() == 37);
        }
        unpack_u9_from_u64s(longs, idx as usize)
    }

    /// The ocean floor height at column `(x, z)`: value `z * 16 + x`.
    pub fn ocean_floor_at(&self, x: u16, z: u16) -> (r: u16)
        requires
            z * 16 + x < 259,
        ensures
            r as nat == packed_get(self.ocean_floor_words(), 9, (z * 16 + x) as nat),
            r < 512,
    {
        let idx = z * 16 + x;
        let longs = self.ocean_floor.0.as_slice();
        proof {
            assert(crate::bitpack::slots_per_word(9) == 7);
            assert(longs@.len() == 37);
        }
        unpack_u9_from_u64s(longs, idx as usize)
    }
}

impl<'d> CompoundFields<'d> for Heightmaps {
    closed spec fn field_same(&self, other: &Self, i: int) -> bool {
        if i == 0 {
            self.world_surface == other.world_surface
        } else if i == 1 {
            self.ocean_floor == other.ocean_floor
        } else {
            true
        }
    }

    open spec fn spec_field_tag(i: int) -> Tag {
        if i == 0 {
            Tag::LongArray
        } else {
            Tag::LongArray
        }
    }

    closed spec fn field_payload_len(i: int, data: Seq<u8>) -> Option<nat> {
        if i == 0 {
            <Heightmap as DeserializePayload<'d>>::payload_len(data)
        } else if i == 1 {
            <Heightmap as DeserializePayload<'d>>::payload_len(data)
        } else {
            None
        }
    }

    closed spec fn field_error(i: int, data: Seq<u8>, e: DeserializationError) -> bool {
        if i == 0 {
            <Heightmap as DeserializePayload<'d>>::payload_error(data, e)
        } else if i == 1 {
            <Heightmap as DeserializePayload<'d>>::payload_error(data, e)
        } else {
            true
        }
    }

    closed spec fn field_holds(&self, i: int, data: Seq<u8>, k: nat) -> bool {
        if i == 0 {
            self.world_surface.holds_payload(data, k)
        } else if i == 1 {
            self.ocean_floor.holds_payload(data, k)
        } else {
            true
        }
    }

    open spec fn spec_num_fields() -> nat {
        2
    }

    open spec fn spec_field_name(i: int) -> Seq<u8> {
        if i == 0 {
            "WORLD_SURFACE".spec_bytes()
        } else {
            "OCEAN_FLOOR".spec_bytes()
        }
    }

    open spec fn spec_field_optional(i: int) -> bool {
        false
    }

    fn num_fields() -> (r: usize) {
        2
    }

    fn field_name(i: usize) -> (r: &'static str) {
        if i == 0 {
            "WORLD_SURFACE"
        } else {
            "OCEAN_FLOOR"
        }
    }

    fn field_optional(i: usize) -> (r: bool) {
        false
    }

    fn field_tag(i: usize) -> (r: Tag) {
        Tag::LongArray
    }

    fn read_field(&mut self, i: usize, data: &'d [u8]) -> (r: DeserializationResult<usize>) {
        if i == 0 {
            self.world_surface.deserialize_payload(data)
        } else {
            self.ocean_floor.deserialize_payload(data)
        }
    }

    fn mark_absent(&mut self, i: usize) {
    }
}

impl<'d> DeserializePayload<'d> for Heightmaps {
    const TAG: Tag = Tag::Compound;

    open spec fn payload_len(data: Seq<u8>) -> Option<nat> {
        compound_rest_len::<Self>(data, Set::empty())
    }

    open spec fn payload_error(data: Seq<u8>, e: DeserializationError) -> bool {
        compound_rest_error::<Self>(data, Set::empty(), e)
    }

    open spec fn holds_payload(&self, data: Seq<u8>, k: nat) -> bool {
        compound_holds::<Self>(*self, data) && compound_absent::<Self>(*self, data)
    }

    fn deserialize_payload(&mut self, data: &'d [u8]) -> (r: DeserializationResult<usize>) {
        deserialize_compound(self, data)
    }
}

/// Why a chunk's sections cannot be used.
#[derive(Debug, PartialEq, Eq, Structural)]
pub enum ChunkError {
    /// The chunk has no sections.
    NoSections,
    /// The section heights leave a gap.
    UnexpectedSectionsLayout,
}

impl ChunkError {
    /// A short description of the error.
    pub fn message(&self) -> (r: &'static str)
        ensures
            r@ == (match *self {
                ChunkError::NoSections => "no sections"@,
                ChunkError::UnexpectedSectionsLayout => "unexpected sections layout"@,
            }),
    {
        match self {
            ChunkError::NoSections => "no sections",
            ChunkError::UnexpectedSectionsLayout => "unexpected sections layout",
        }
    }
}

/// The lowest section height among `s` (0 for none).
pub open spec fn min_section_y(s: Seq<Section>) -> int
    decreases s.len(),
{
    if s.len() == 0 {
        0
    } else if s.len() == 1 {
        s[0].y as int
    } else {
        let m = min_section_y(s.drop_last());
        if s.last().y < m { s.last().y as int } else { m }
    }
}

/// The highest section height among `s` (0 for none).
pub open spec fn max_section_y(s: Seq<Section>) -> int
    decreases s.len(),
{
    if s.len() == 0 {
        0
    } else if s.len() == 1 {
        s[0].y as int
    } else {
        let m = max_section_y(s.drop_last());
        if s.last().y > m { s.last().y as int } else { m }
    }
}

/// The bit width of the packed indices into a palette of `n` blocks: enough bits to
/// tell the blocks apart, and at least 4.
pub open spec fn palette_bit_width(n: nat) -> nat {
    if n == 0 {
        4
    } else {
        let b = bit_len((n - 1) as nat);
        if b < 4 { 4 } else { b }
    }
}

/// The lowest and highest heights are heights of sections, and bound all others.
proof fn lemma_min_max_section_y(s: Seq<Section>)
    requires
        s.len() > 0,
    ensures
        exists|i: int| 0 <= i < s.len() && s[i].y == min_section_y(s),
        exists|i: int| 0 <= i < s.len() && s[i].y == max_section_y(s),
        forall|i: int| 0 <= i < s.len() ==> min_section_y(s) <= #[trigger] s[i].y <= max_section_y(s),
    decreases s.len(),
{
    if s.len() > 1 {
        lemma_min_max_section_y(s.drop_last());
        let m = min_section_y(s.drop_last());
        let mx = max_section_y(s.drop_last());
        let i = choose|i: int| 0 <= i < s.drop_last().len() && s.drop_last()[i].y == m;
        let j = choose|j: int| 0 <= j < s.drop_last().len() && s.drop_last()[j].y == mx;
        assert(s[i].y == m);
        assert(s[j].y == mx);
        assert forall|k: int| 0 <= k < s.len() implies min_section_y(s) <= #[trigger] s[k].y <= max_section_y(s) by {
            if k < s.len() - 1 {
                assert(s[k] == s.drop_last()[k]);
            }
        }
    } else {
        assert(s[0].y == min_section_y(s));
    }
}

/// The parts of a chunk the renderer reads, with a lookup from section height to
/// section that `validate_and_init` fills.
pub struct Chunk<'a> {
    pub status: StatusMinecraftFull,
    pub sections: List<Section<'a>>,
    pub heightmaps: Heightmaps,
    sections_lookup: Vec<Option<usize>>,
    pub y_limit: u16,
}

impl<'a> Default for Chunk<'a> {
    fn default() -> (r: Self)
        ensures
            r.spec_sections().len() == 0,
            r.spec_y_limit() == 0,
            r.wf(),
    {
        Self {
            status: StatusMinecraftFull,
            sections: List::with_capacity(24),
            heightmaps: Heightmaps::default(),
            sections_lookup: Vec::with_capacity(24),
            y_limit: 0,
        }
    }
}

impl<'a> Chunk<'a> {
    /// The chunk's sections.
    pub closed spec fn spec_sections(&self) -> Seq<Section<'a>> {
        self.sections.elems()
    }

    /// The height below which blocks can be read.
    pub closed spec fn spec_y_limit(&self) -> u16 {
        self.y_limit
    }

    /// The chunk's heightmaps.
    pub closed spec fn spec_heightmaps(&self) -> Heightmaps {
        self.heightmaps
    }

    /// The height below which blocks can be read (0 until `validate_and_init`).
    pub fn y_limit(&self) -> (r: u16)
        ensures
            r == self.spec_y_limit(),
    {
        self.y_limit
    }

    /// An initialised chunk is at most 256 sections high.
    pub proof fn lemma_y_limit_bound(&self)
        requires
            self.wf(),
        ensures
            self.spec_y_limit() <= 4096,
    {
    }

    /// The chunk's heightmaps.
    pub fn heightmaps(&self) -> (r: &Heightmaps)
        ensures
            *r == self.spec_heightmaps(),
    {
        &self.heightmaps
    }

    /// Entry `k` of the lookup: the section at height `k` above the lowest, if any.
    pub closed spec fn lookup(&self) -> Seq<Option<usize>> {
        self.sections_lookup@
    }

    /// The lookup covers every height below `y_limit` and refers to sections only.
    pub closed spec fn wf(&self) -> bool {
        &&& self.y_limit as nat <= 16 * self.lookup().len()
        &&& self.y_limit <= 4096
        &&& forall|k: int| 0 <= k < self.lookup().len() ==> (#[trigger] self.lookup()[k] matches Some(i)
            ==> i < self.sections.elems().len())
    }

    /// The name of the block at `(x, y, z)`, `y` counted from the bottom of the lowest
    /// section; air where no section holds that height.
    pub open spec fn spec_block_at(&self, x: nat, y: nat, z: nat) -> Seq<u8> {
        match self.lookup()[(y / 16) as int] {
            Some(i) => self.spec_sections()[i as int].block_states.spec_get_block((y % 16) * 256 + 16 * z + x),
            None => air_name(),
        }
    }

    /// The name of the block at `(x, y, z)` of an initialised chunk.
    pub fn block_at(&'a self, x: u16, y: u16, z: u16) -> (r: &'a [u8])
        requires
            self.wf(),
            x < 16,
            z < 16,
            y < self.spec_y_limit(),
        ensures
            r@ == self.spec_block_at(x as nat, y as nat, z as nat),
    {
        match self.section_for_y(y) {
            Some(s) => {
                let block_idx = (y % 16) * 256 + 16 * z + x;
                s.block_states.get_block(block_idx)
            },
            None => minecraft_air(),
        }
    }

    /// The section at height `y / 16` above the lowest, if any.
    fn section_for_y(&self, y: u16) -> (r: Option<&Section<'a>>)
        requires
            self.wf(),
            (y / 16) < self.lookup().len(),
        ensures
            match self.lookup()[(y / 16) as int] {
                Some(i) => r == Some(&self.spec_sections()[i as int]),
                None => r is None,
            },
    {
        let idx = (y as usize) / 16;
        match self.sections_lookup[idx] {
            Some(i) => Some(self.sections.get(i)),
            None => None,
        }
    }

    /// Checks the section heights and prepares the chunk for reading blocks: sets
    /// `y_limit` to 16 blocks per height from the lowest section to the highest, the bit
    /// width of each section's packed indices from its palette length, and the lookup
    /// from height to section. Fails where there are no sections, or where a section
    /// lies `n` or more heights above the lowest, `n` being the number of sections.
    pub fn validate_and_init(&mut self) -> (r: Result<(), ChunkError>)
        ensures
            ({
                let s = old(self).spec_sections();
                let n = s.len();
                let lo = min_section_y(s);
                &&& n == 0 ==> r == Err::<(), ChunkError>(ChunkError::NoSections)
                &&& n > 0 && (exists|i: int| 0 <= i < n && #[trigger] s[i].y - lo >= n)
                    ==> r == Err::<(), ChunkError>(ChunkError::UnexpectedSectionsLayout)
                &&& n > 0 && (forall|i: int| 0 <= i < n ==> #[trigger] s[i].y - lo < n) ==> r is Ok
            }),
            final(self).spec_sections().len() == old(self).spec_sections().len(),
            final(self).spec_heightmaps() == old(self).spec_heightmaps(),
            forall|d: Seq<u8>, k: nat| old(self).holds_payload(d, k) ==> #[trigger] final(self).holds_payload(d, k),
            forall|i: int| 0 <= i < final(self).spec_sections().len() ==> {
                let a = #[trigger] final(self).spec_sections()[i];
                let b = old(self).spec_sections()[i];
                &&& a.y == b.y
                &&& a.block_states.spec_palette() == b.block_states.spec_palette()
                &&& a.block_states.spec_data() == b.block_states.spec_data()
            },
            r is Ok ==> ({
                let s0 = old(self).spec_sections();
                let s = final(self).spec_sections();
                let lo = min_section_y(s0);
                &&& final(self).wf()
                &&& final(self).spec_y_limit() == 16 * (max_section_y(s0) - lo + 1)
                &&& final(self).lookup().len() == s.len()
                &&& forall|i: int| 0 <= i < s.len() ==> (#[trigger] s[i]).block_states.spec_bit_width()
                    == palette_bit_width(s[i].block_states.spec_palette().len())
                &&& forall|i: int| 0 <= i < s.len() ==> final(self).lookup()[#[trigger] s[i].y - lo] is Some
                &&& forall|k: int| 0 <= k < s.len() ==> (#[trigger] final(self).lookup()[k] matches Some(i)
                    ==> s[i as int].y - lo == k)
            }),
    {
        let n = self.sections.len();
        if n == 0 {
            return Err(ChunkError::NoSections);
        }
        let ghost s0 = self.sections.elems();
        let mut lo: i8 = self.sections.get(0).y;
        let mut hi: i8 = lo;
        let mut i: usize = 1;
        while i < n
            invariant
                self.heightmaps == old(self).heightmaps,
                n == s0.len(),
                s0 == self.sections.elems(),
                s0 == old(self).sections.elems(),
                1 <= i <= n,
                lo == min_section_y(s0.take(i as int)),
                hi == max_section_y(s0.take(i as int)),
            decreases n - i,
        {
            let y = self.sections.get(i).y;
            proof {
                assert(s0.take(i + 1).drop_last() =~= s0.take(i as int));
            }
            if y < lo {
                lo = y;
            }
            if y > hi {
                hi = y;
            }
            i = i + 1;
        }
        proof {
            assert(s0.take(n as int) =~= s0);
            lemma_min_max_section_y(s0);
        }
        let span: i16 = hi as i16 - lo as i16;
        self.y_limit = 16 * (span as u16 + 1);
        let ghost yl = self.y_limit;

        let mut i: usize = 0;
        while i < n
            invariant
                self.heightmaps == old(self).heightmaps,
                n == s0.len() == self.sections.elems().len(),
                s0 == old(self).sections.elems(),
                self.y_limit == yl,
                i <= n,
                forall|j: int| 0 <= j < n ==> {
                    let a = #[trigger] self.sections.elems()[j];
                    let b = s0[j];
                    &&& a.y == b.y
                    &&& a.block_states.spec_palette() == b.block_states.spec_palette()
                    &&& a.block_states.spec_data() == b.block_states.spec_data()
                },
                forall|j: int| 0 <= j < i ==> (#[trigger] self.sections.elems()[j]).block_states.spec_bit_width()
                    == palette_bit_width(s0[j].block_states.spec_palette().len()),
            decreases n - i,
        {
            let sec = self.sections.get_mut(i);
            let l = sec.block_states.palette.len();
            let bw: usize = if l == 0 {
                4
            } else {
                let b = bits_required(l);
                if b < 4 { 4 } else { b }
            };
            sec.block_states.bit_width = bw;
            i = i + 1;
        }

        let ghost s1 = self.sections.elems();
        self.sections_lookup.truncate(n);
        let mut k: usize = 0;
        while k < self.sections_lookup.len()
            invariant
                self.heightmaps == old(self).heightmaps,
                self.sections.elems() == s1,
                s0 == old(self).sections.elems(),
                self.y_limit == yl,
                self.sections_lookup@.len() <= n,
                k <= self.sections_lookup@.len(),
                forall|j: int| 0 <= j < k ==> self.sections_lookup@[j] is None,
            decreases self.sections_lookup@.len() - k,
        {
            self.sections_lookup.set(k, None);
            k = k + 1;
        }
        while self.sections_lookup.len() < n
            invariant
                self.heightmaps == old(self).heightmaps,
                self.sections.elems() == s1,
                s0 == old(self).sections.elems(),
                self.y_limit == yl,
                self.sections_lookup@.len() <= n,
                forall|j: int| 0 <= j < self.sections_lookup@.len() ==> self.sections_lookup@[j] is None,
            decreases n - self.sections_lookup@.len(),
        {
            self.sections_lookup.push(None);
        }

        let mut i: usize = 0;
        while i < n
            invariant
                self.heightmaps == old(self).heightmaps,
                n == s1.len() == s0.len(),
                s1 == self.sections.elems(),
                s0 == old(self).sections.elems(),
                self.y_limit == yl,
                forall|j: int| 0 <= j < n ==> {
                    let a = #[trigger] s1[j];
                    let b = s0[j];
                    &&& a.y == b.y
                    &&& a.block_states.spec_palette() == b.block_states.spec_palette()
                    &&& a.block_states.spec_data() == b.block_states.spec_data()
                },
                lo == min_section_y(s0),
                forall|j: int| 0 <= j < n ==> lo <= #[trigger] s0[j].y,
                self.sections_lookup@.len() == n,
                i <= n,
                forall|j: int| 0 <= j < i ==> self.sections_lookup@[#[trigger] s0[j].y - lo] is Some,
                forall|k: int| 0 <= k < n ==> (#[trigger] self.sections_lookup@[k] matches Some(j)
                    ==> j < i && s0[j as int].y - lo == k),
                forall|j: int| 0 <= j < i ==> #[trigger] s0[j].y - lo < n,
            decreases n - i,
        {
            let y = self.sections.get(i).y;
            let idx = (y as i16 - lo as i16) as usize;
            if idx >= self.sections_lookup.len() {
                proof {
                    assert forall|d: Seq<u8>, k: nat| old(self).holds_payload(d, k) implies #[trigger] self.holds_payload(d, k) by {
                        lemma_payload_kept(*old(self), *self, d, k);
                    }
                }
                return Err(ChunkError::UnexpectedSectionsLayout);
            }
            self.sections_lookup.set(idx, Some(i));
            i = i + 1;
        }
        proof {
            let j = choose|j: int| 0 <= j < s0.len() && s0[j].y == max_section_y(s0);
            assert(s0[j].y - lo < n);
        }
        proof {
            assert forall|d: Seq<u8>, k: nat| old(self).holds_payload(d, k) implies #[trigger] self.holds_payload(d, k) by {
                lemma_payload_kept(*old(self), *self, d, k);
            }
        }
        Ok(())
    }
}

/// What a chunk holds of its payload is kept by changes that keep its heightmaps and
/// each section's height, palette and packed data.
proof fn lemma_payload_kept(a: Chunk, b: Chunk, d: Seq<u8>, k: nat)
    requires
        a.holds_payload(d, k),
        a.heightmaps == b.heightmaps,
        a.spec_sections().len() == b.spec_sections().len(),
        forall|i: int| 0 <= i < a.spec_sections().len() ==> {
            let x = #[trigger] b.spec_sections()[i];
            let y = a.spec_sections()[i];
            &&& x.y == y.y
            &&& x.block_states.spec_palette() == y.block_states.spec_palette()
            &&& x.block_states.spec_data() == y.block_states.spec_data()
        },
    ensures
        b.holds_payload(d, k),
{
    assert forall|j: nat| j < 3 implies (#[trigger] field_entry::<Chunk>(d, Set::empty(), j) matches Some((s, kk))
        ==> b.field_holds(j as int, d.skip(s as int), kk)) by {
        if let Some((s, kk)) = field_entry::<Chunk>(d, Set::empty(), j) {
            assert(a.field_holds(j as int, d.skip(s as int), kk));
            if j == 1 {
                let d5 = d.skip(s as int).skip(5);
                assert forall|i: int| 0 <= i < b.sections.elems().len() implies #[trigger] b.sections.elems()[i].holds_payload(
                    d5.skip(elem_start::<Section>(d5, i) as int), <Section as DeserializePayload>::payload_len(d5.skip(elem_start::<Section>(d5, i) as int))->Some_0) by {
                    let e = d5.skip(elem_start::<Section>(d5, i) as int);
                    let ke = <Section as DeserializePayload>::payload_len(e)->Some_0;
                    let sa = a.sections.elems()[i];
                    let sb = b.sections.elems()[i];
                    assert(sa.holds_payload(e, ke));
                    assert(sb == b.spec_sections()[i]);
                    assert forall|jj: nat| jj < 2 implies (#[trigger] field_entry::<Section>(e, Set::empty(), jj) matches Some((s2, k2))
                        ==> sb.field_holds(jj as int, e.skip(s2 as int), k2)) by {
                        if let Some((s2, k2)) = field_entry::<Section>(e, Set::empty(), jj) {
                            assert(sa.field_holds(jj as int, e.skip(s2 as int), k2));
                            if jj == 1 {
                                let e2 = e.skip(s2 as int);
                                assert forall|j3: nat| j3 < 2 implies (#[trigger] field_entry::<BlockStates>(e2, Set::empty(), j3) matches Some((s3, k3))
                                    ==> sb.block_states.field_holds(j3 as int, e2.skip(s3 as int), k3)) by {
                                    if let Some((s3, k3)) = field_entry::<BlockStates>(e2, Set::empty(), j3) {
                                        assert(sa.block_states.field_holds(j3 as int, e2.skip(s3 as int), k3));
                                    }
                                }
                                assert(sa.block_states.holds_payload(e2, k2));
                                assert forall|j3: nat| j3 < 2 && field_entry::<BlockStates>(e2, Set::empty(), j3) is None
                                    implies #[trigger] sb.block_states.field_absent(j3 as int) by {
                                    assert(sa.block_states.field_absent(j3 as int));
                                }
                            }
                        }
                    }
                }
            }
        }
    }
}

impl<'d> CompoundFields<'d> for Chunk<'d> {
    closed spec fn field_same(&self, other: &Self, i: int) -> bool {
        if i == 0 {
            self.status == other.status
        } else if i == 1 {
            self.sections == other.sections
        } else if i == 2 {
            self.heightmaps == other.heightmaps
        } else {
            true
        }
    }

    open spec fn spec_field_tag(i: int) -> Tag {
        if i == 0 {
            Tag::String
        } else if i == 1 {
            Tag::List
        } else {
            Tag::Compound
        }
    }

    closed spec fn field_payload_len(i: int, data: Seq<u8>) -> Option<nat> {
        if i == 0 {
            <StatusMinecraftFull as DeserializePayload<'d>>::payload_len(data)
        } else if i == 1 {
            <List<Section<'d>> as DeserializePayload<'d>>::payload_len(data)
        } else if i == 2 {
            <Heightmaps as DeserializePayload<'d>>::payload_len(data)
        } else {
            None
        }
    }

    closed spec fn field_error(i: int, data: Seq<u8>, e: DeserializationError) -> bool {
        if i == 0 {
            <StatusMinecraftFull as DeserializePayload<'d>>::payload_error(data, e)
        } else if i == 1 {
            <List<Section<'d>> as DeserializePayload<'d>>::payload_error(data, e)
        } else if i == 2 {
            <Heightmaps as DeserializePayload<'d>>::payload_error(data, e)
        } else {
            true
        }
    }

    closed spec fn field_holds(&self, i: int, data: Seq<u8>, k: nat) -> bool {
        if i == 0 {
            self.status.holds_payload(data, k)
        } else if i == 1 {
            self.sections.holds_payload(data, k)
        } else if i == 2 {
            self.heightmaps.holds_payload(data, k)
        } else {
            true
        }
    }

    open spec fn spec_num_fields() -> nat {
        3
    }

    open spec fn spec_field_name(i: int) -> Seq<u8> {
        if i == 0 {
            "Status".spec_bytes()
        } else if i == 1 {
            "sections".spec_bytes()
        } else {
            "Heightmaps".spec_bytes()
        }
    }

    open spec fn spec_field_optional(i: int) -> bool {
        false
    }

    fn num_fields() -> (r: usize) {
        3
    }

    fn field_name(i: usize) -> (r: &'static str) {
        if i == 0 {
            "Status"
        } else if i == 1 {
            "sections"
        } else {
            "Heightmaps"
        }
    }

    fn field_optional(i: usize) -> (r: bool) {
        false
    }

    fn field_tag(i: usize) -> (r: Tag) {
        if i == 0 {
            Tag::String
        } else if i == 1 {
            Tag::List
        } else {
            Tag::Compound
        }
    }

    fn read_field(&mut self, i: usize, data: &'d [u8]) -> (r: DeserializationResult<usize>) {
        if i == 0 {
            self.status.deserialize_payload(data)
        } else if i == 1 {
            self.sections.deserialize_payload(data)
        } else {
            self.heightmaps.deserialize_payload(data)
        }
    }

    fn mark_absent(&mut self, i: usize) {
    }
}

impl<'d> DeserializePayload<'d> for Chunk<'d> {
    const TAG: Tag = Tag::Compound;

    open spec fn payload_len(data: Seq<u8>) -> Option<nat> {
        compound_rest_len::<Self>(data, Set::empty())
    }

    open spec fn payload_error(data: Seq<u8>, e: DeserializationError) -> bool {
        compound_rest_error::<Self>(data, Set::empty(), e)
    }

    open spec fn holds_payload(&self, data: Seq<u8>, k: nat) -> bool {
        compound_holds::<Self>(*self, data) && compound_absent::<Self>(*self, data)
    }

    fn deserialize_payload(&mut self, data: &'d [u8]) -> (r: DeserializationResult<usize>) {
        deserialize_compound(self, data)
    }
}


/// The sections' layout of a chunk read from a named value is fixed by the bytes: any
/// two chunks that hold what `x` holds have as many sections, at the same heights.
pub proof fn lemma_sections_determined(x: Seq<u8>, c1: Chunk, c2: Chunk)
    requires
        named_value_holds::<Chunk>(x, c1),
        named_value_holds::<Chunk>(x, c2),
    ensures
        c1.spec_sections().len() == c2.spec_sections().len(),
        forall|i: int| 0 <= i < c1.spec_sections().len() ==> #[trigger] c1.spec_sections()[i].y == c2.spec_sections()[i].y,
{
    let p = payload_start(x)->Some_0;
    let pd = x.skip(p as int);
    lemma_required_entry::<Chunk>(pd, Set::empty(), 1);
    lemma_entry_payload::<Chunk>(pd, Set::empty(), 1);
    let (s, k) = field_entry::<Chunk>(pd, Set::empty(), 1)->Some_0;
    let ds = pd.skip(s as int);
    assert(c1.field_holds(1, ds, k));
    assert(c2.field_holds(1, ds, k));
    assert(c1.sections.holds_payload(ds, k));
    assert(c2.sections.holds_payload(ds, k));
    let n = c1.sections.elems().len();
    let d5 = ds.skip(5);
    assert(elems_len::<Section>(d5, n) is Some);
    assert forall|i: int| 0 <= i < n implies #[trigger] c1.spec_sections()[i].y == c2.spec_sections()[i].y by {
        lemma_elems_prefix::<Section>(d5, n, i as nat);
        let e = d5.skip(elem_start::<Section>(d5, i) as int);
        let ke = <Section as DeserializePayload>::payload_len(e)->Some_0;
        assert(c1.sections.elems()[i].holds_payload(e, ke));
        assert(c2.sections.elems()[i].holds_payload(e, ke));
        lemma_required_entry::<Section>(e, Set::empty(), 0);
        let (s0, k0) = field_entry::<Section>(e, Set::empty(), 0)->Some_0;
        assert(c1.sections.elems()[i].field_holds(0, e.skip(s0 as int), k0));
        assert(c2.sections.elems()[i].field_holds(0, e.skip(s0 as int), k0));
    }
}


/// The slot of a block within its section: `x` varies fastest, then `z`, then the height
/// within the section, 16 blocks to a row and 256 to a layer.
proof fn lemma_slot_coords(p: nat)
    requires
        p < 4096,
    ensures
        (p / 256) * 256 + 16 * ((p / 16) % 16) + p % 16 == p,
        p / 256 < 16,
{
    let q = p as u32;
    assert((q / 256) * 256 + 16 * ((q / 16) % 16) + q % 16 == q && q / 256 < 16) by (bit_vector)
        requires q < 4096;
}

/// Where the blocks of an initialised chunk lie in its sections: the section for the
/// 16 heights from `16 * (y / 16)` holds block `(x, y, z)` at slot
/// `x + 16 * z + 256 * (y % 16)`, so that neighbours along `x` lie in consecutive
/// slots, along `z` 16 slots apart and along `y` 256 apart; where no section holds
/// those heights the block is air. Conversely every slot `p` of a section is the block
/// at `(p % 16, 16 * k + p / 256, (p / 16) % 16)`, `k` the section's place.
pub proof fn lemma_block_layout(c: Chunk, x: nat, y: nat, z: nat, k: nat, p: nat)
    requires
        c.wf(),
        x < 16,
        z < 16,
        y < c.spec_y_limit(),
    ensures
        c.lookup()[(y / 16) as int] matches Some(i) ==> c.spec_block_at(x, y, z)
            == c.spec_sections()[i as int].block_states.spec_get_block(x + 16 * z + 256 * (y % 16)),
        c.lookup()[(y / 16) as int] is None ==> c.spec_block_at(x, y, z) == air_name(),
        k < c.lookup().len() && p < 4096 ==> (c.lookup()[k as int] matches Some(i)
            ==> c.spec_block_at(p % 16, 16 * k + p / 256, (p / 16) % 16)
                == c.spec_sections()[i as int].block_states.spec_get_block(p)),
{
    if k < c.lookup().len() && p < 4096 {
        lemma_slot_coords(p);
        let yy = 16 * k + p / 256;
        assert(yy / 16 == k && yy % 16 == p / 256) by {
            vstd::arithmetic::div_mod::lemma_fundamental_div_mod_converse(yy as int, 16, k as int, (p / 256) as int);
        }
    }
}

/// The bit width of the packed indices into a palette of `n` blocks is at least 4,
/// wide enough to write every index below `n`, and, where it is above 4, no wider
/// than that needs: the index `n - 1` needs its top bit.
pub proof fn lemma_palette_bit_width(n: nat)
    requires
        n >= 1,
    ensures
        palette_bit_width(n) >= 4,
        n - 1 < pow2(palette_bit_width(n)),
        palette_bit_width(n) > 4 ==> pow2((palette_bit_width(n) - 1) as nat) <= n - 1,
{
    let b = bit_len((n - 1) as nat);
    crate::bitpack::lemma_bit_len_bound((n - 1) as nat, b);
    if b > 4 {
        crate::bitpack::lemma_bit_len_bound((n - 1) as nat, (b - 1) as nat);
    } else {
        crate::bitpack::lemma_bit_len_bound((n - 1) as nat, 4);
    }
}

} // verus!
