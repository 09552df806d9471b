//! Drawing a region as a 512x512 map tile: for each column the colour of its top
//! block, shaded by the heights of the neighbouring columns, and water coloured by its
//! depth and the block below it.

use vstd::prelude::*;
use vstd::string::StringSliceAdditionalSpecFns;
use crate::block_id::{BlockId, BlockIdVariants, specialize, STATIC_ID_MAX};
use crate::block_map::PackedBlockMap;
use crate::chunk::{Chunk, Section, minecraft_air, air_name, min_section_y, lemma_sections_determined};
use crate::colors::{
    calc_water_color, modulate_col, soft_depth_darken_col, spec_modulate_col, spec_water_color,
    spec_alpha_blend_cols, spec_alpha_soft_depth_darken,
};
use crate::loader::{McaLoader, chunk_span, zlib_decode, is_chunk_nbt, max_decompressed_len};
use crate::nbt::{from_bytes, named_value_holds, payload_start};
use crate::nbt::deserialize::DeserializePayload;
use crate::palette::{BlockInterner, Palette, bytes_eq, get_water_col, minecraft_water, water_name};

verus! {

/// The height of a column whose height is not known.
pub const INVALID_HEIGHT: u16 = 65535;

/// The side of a region in blocks.
pub const REGION_SIDE: usize = 512;

/// The number of bytes of a region's RGBA image.
pub const IMAGE_BYTES: usize = 1048576;

/// Heights at the edges of the chunks drawn before the current one, for shading across
/// chunk borders: the bottom row of the chunk above in each chunk column, the left
/// column of the chunk to the right, and south-west corners.
pub struct HeightCache {
    prev_lower_contours: [u16; 512],
    prev_left_contour: [u16; 16],
    next_left_contour: [u16; 16],
    prev_sw_corner: [u16; 32],
    next_sw_corner: [u16; 32],
}

impl Default for HeightCache {
    fn default() -> (r: Self)
        ensures
            forall|i: int| 0 <= i < 512 ==> r.lower_contours()[i] == INVALID_HEIGHT,
            forall|i: int| 0 <= i < 16 ==> r.left_contour()[i] == INVALID_HEIGHT,
            forall|i: int| 0 <= i < 32 ==> r.sw_corners()[i] == INVALID_HEIGHT,
            forall|i: int| 0 <= i < 16 ==> r.next_left()[i] == INVALID_HEIGHT,
            forall|i: int| 0 <= i < 32 ==> r.next_sw()[i] == INVALID_HEIGHT,
    {
        HeightCache {
            prev_lower_contours: [INVALID_HEIGHT; 512],
            prev_left_contour: [INVALID_HEIGHT; 16],
            next_left_contour: [INVALID_HEIGHT; 16],
            prev_sw_corner: [INVALID_HEIGHT; 32],
            next_sw_corner: [INVALID_HEIGHT; 32],
        }
    }
}

impl HeightCache {
    /// Entry `16 * chunk_x + block_x`: the height of the bottom row of the last chunk
    /// drawn in chunk column `chunk_x`.
    pub closed spec fn lower_contours(&self) -> Seq<u16> {
        self.prev_lower_contours@
    }

    /// The heights of the left column of the chunk drawn before, by row.
    pub closed spec fn left_contour(&self) -> Seq<u16> {
        self.prev_left_contour@
    }

    /// The south-west corner heights of the previous row of chunks.
    pub closed spec fn sw_corners(&self) -> Seq<u16> {
        self.prev_sw_corner@
    }

    /// The heights of the left column of the chunk being drawn, by row.
    pub closed spec fn next_left(&self) -> Seq<u16> {
        self.next_left_contour@
    }

    /// The south-west corner heights of the current row of chunks.
    pub closed spec fn next_sw(&self) -> Seq<u16> {
        self.next_sw_corner@
    }

    /// The lengths of the cached edges.
    pub proof fn lemma_sizes(&self)
        ensures
            self.lower_contours().len() == 512,
            self.left_contour().len() == 16,
            self.sw_corners().len() == 32,
            self.next_left().len() == 16,
            self.next_sw().len() == 32,
    {
    }

    /// Forgets the bottom row and the corner of chunk column `chunk_x`, after a chunk
    /// there could not be drawn.
    pub fn invalidate(&mut self, chunk_x: usize)
        requires
            chunk_x < 32,
        ensures
            forall|i: int| 0 <= i < 512 ==> #[trigger] final(self).lower_contours()[i]
                == if 16 * chunk_x <= i < 16 * chunk_x + 16 { INVALID_HEIGHT } else { old(self).lower_contours()[i] },
            final(self).next_sw() == old(self).next_sw().update(chunk_x as int, INVALID_HEIGHT),
            final(self).left_contour() == old(self).left_contour(),
            final(self).sw_corners() == old(self).sw_corners(),
            final(self).next_left() == old(self).next_left(),
    {
        let mut i: usize = 0;
        while i < 16
            invariant
                chunk_x < 32,
                i <= 16,
                self.prev_left_contour@ == old(self).prev_left_contour@,
                self.prev_sw_corner@ == old(self).prev_sw_corner@,
                self.next_left_contour@ == old(self).next_left_contour@,
                self.next_sw_corner@ == old(self).next_sw_corner@,
                forall|j: int| 0 <= j < 512 ==> #[trigger] self.prev_lower_contours@[j]
                    == if 16 * chunk_x <= j < 16 * chunk_x + i { INVALID_HEIGHT } else { old(self).prev_lower_contours@[j] },
            decreases 16 - i,
        {
            self.prev_lower_contours[16 * chunk_x + i] = INVALID_HEIGHT;
            i = i + 1;
        }
        self.next_sw_corner[chunk_x] = INVALID_HEIGHT;
    }
}

/// The bottom-row heights `hs[240..256]` of a chunk drawn in chunk column `cx`,
/// written over `lower`.
pub open spec fn with_lower_row(lower: Seq<u16>, hs: Seq<u16>, cx: int) -> Seq<u16> {
    Seq::new(512, |j: int| if 16 * cx <= j < 16 * cx + 16 { hs[240 + j - 16 * cx] } else { lower[j] })
}

/// The bottom row of chunk column `cx` forgotten in `lower`.
pub open spec fn without_lower_row(lower: Seq<u16>, cx: int) -> Seq<u16> {
    Seq::new(512, |j: int| if 16 * cx <= j < 16 * cx + 16 { INVALID_HEIGHT } else { lower[j] })
}

/// The left-column heights of a chunk, by row.
pub open spec fn left_column(hs: Seq<u16>) -> Seq<u16> {
    Seq::new(16, |bz: int| hs[16 * bz])
}

/// Unknown heights for `n` entries.
pub open spec fn unknown_heights(n: nat) -> Seq<u16> {
    Seq::new(n, |j: int| INVALID_HEIGHT)
}

/// The index of the `k`-th chunk in drawing order: rows of chunks from north to south,
/// each from east to west.
pub open spec fn drawn_kth(k: int) -> int {
    32 * (k / 32) + 31 - k % 32
}

/// How a column's height compares with a neighbour's: -1 lower, 0 level or unknown,
/// 1 higher.
pub open spec fn spec_height_diff(h: u16, other: u16) -> i8 {
    if h == INVALID_HEIGHT || other == INVALID_HEIGHT {
        0i8
    } else if h < other {
        -1i8
    } else if h == other {
        0i8
    } else {
        1i8
    }
}

/// How a column's height compares with a neighbour's.
pub fn height_diff(h: u16, other: u16) -> (r: i8)
    ensures
        r == spec_height_diff(h, other),
{
    if h == INVALID_HEIGHT || other == INVALID_HEIGHT {
        0
    } else if h < other {
        -1
    } else if h == other {
        0
    } else {
        1
    }
}

/// The block identifier of each column of a region, row by row (`x + 512 * z`).
pub struct ColorLookup([BlockId; 262144]);

impl Default for ColorLookup {
    fn default() -> (r: Self)
        ensures
            forall|i: int| 0 <= i < 262144 ==> r.ids()[i] == BlockId(0),
    {
        ColorLookup([BlockId(0); 262144])
    }
}

impl ColorLookup {
    /// The identifiers.
    pub closed spec fn ids(&self) -> Seq<BlockId> {
        self.0@
    }

    /// The identifiers.
    pub fn as_array(&self) -> (r: &[BlockId; 262144])
        ensures
            r@ == self.ids(),
    {
        &self.0
    }

    /// The identifier of column `i`.
    pub fn get(&self, i: usize) -> (r: BlockId)
        requires
            i < 262144,
        ensures
            r == self.ids()[i as int],
    {
        self.0[i]
    }

    /// Sets the identifier of column `i`.
    pub fn set(&mut self, i: usize, id: BlockId)
        requires
            i < 262144,
        ensures
            final(self).ids() == old(self).ids().update(i as int, id),
    {
        self.0[i] = id;
    }

    /// Sets every identifier to the invalid one.
    pub fn clear(&mut self)
        ensures
            final(self).ids().len() == 262144,
            forall|i: int| 0 <= i < 262144 ==> final(self).ids()[i] == BlockId(0),
    {
        let mut i: usize = 0;
        while i < 262144
            invariant
                i <= 262144,
                self.0@.len() == 262144,
                forall|j: int| 0 <= j < i ==> self.0@[j] == BlockId(0),
            decreases 262144 - i,
        {
            self.0[i] = BlockId::invalid();
            i = i + 1;
        }
    }
}

/// The heights north, east and north-east of column `(bx, bz)` of chunk
/// `(chunk_x, chunk_z)`: from the chunk's own heights `hs` (row by row) where the
/// neighbour lies in the chunk, else from the edges of neighbouring chunks kept in the
/// cache, else unknown.
pub open spec fn spec_neighbours(hs: Seq<u16>, c: HeightCache, chunk_x: int, chunk_z: int, bx: int, bz: int) -> (u16, u16, u16) {
    let n = if bz > 0 {
        hs[16 * (bz - 1) + bx]
    } else if chunk_z > 0 {
        c.lower_contours()[16 * chunk_x + bx]
    } else {
        INVALID_HEIGHT
    };
    let e = if bx < 15 {
        hs[16 * bz + bx + 1]
    } else if chunk_x < 31 {
        c.left_contour()[bz]
    } else {
        INVALID_HEIGHT
    };
    let ne = if bz > 0 && bx < 15 {
        hs[16 * (bz - 1) + bx + 1]
    } else if bz == 0 && bx == 15 && chunk_z > 0 && chunk_x < 31 {
        c.sw_corners()[chunk_x + 1]
    } else if bz == 0 && chunk_z > 0 && bx < 15 {
        c.lower_contours()[16 * chunk_x + bx + 1]
    } else if bx == 15 && bz > 0 && chunk_x < 31 {
        c.left_contour()[bz - 1]
    } else {
        INVALID_HEIGHT
    };
    (n, e, ne)
}

/// The heights north, east and north-east of a column.
pub fn neighbour_heights(hs: &[u16; 256], c: &HeightCache, chunk_x: usize, chunk_z: usize, bx: usize, bz: usize) -> (r: (u16, u16, u16))
    requires
        chunk_x < 32,
        chunk_z < 32,
        bx < 16,
        bz < 16,
    ensures
        r == spec_neighbours(hs@, *c, chunk_x as int, chunk_z as int, bx as int, bz as int),
{
    let n = if bz > 0 {
        hs[16 * (bz - 1) + bx]
    } else if chunk_z > 0 {
        c.prev_lower_contours[16 * chunk_x + bx]
    } else {
        INVALID_HEIGHT
    };
    let e = if bx < 15 {
        hs[16 * bz + bx + 1]
    } else if chunk_x < 31 {
        c.prev_left_contour[bz]
    } else {
        INVALID_HEIGHT
    };
    let ne = if bz > 0 && bx < 15 {
        hs[16 * (bz - 1) + bx + 1]
    } else if bz == 0 && bx == 15 && chunk_z > 0 && chunk_x < 31 {
        c.prev_sw_corner[chunk_x + 1]
    } else if bz == 0 && chunk_z > 0 && bx < 15 {
        c.prev_lower_contours[16 * chunk_x + bx + 1]
    } else if bx == 15 && bz > 0 && chunk_x < 31 {
        c.prev_left_contour[bz - 1]
    } else {
        INVALID_HEIGHT
    };
    (n, e, ne)
}

/// The neighbour heights of the first renderer: as [`spec_neighbours`], except that the
/// north-east neighbour of a column on a chunk's east edge is taken from the cached left
/// contour also in the easternmost chunk column.
pub open spec fn spec_classic_neighbours(hs: Seq<u16>, c: HeightCache, chunk_x: int, chunk_z: int, bx: int, bz: int) -> (u16, u16, u16) {
    let nb = spec_neighbours(hs, c, chunk_x, chunk_z, bx, bz);
    if bx == 15 && bz > 0 && chunk_x == 31 {
        (nb.0, nb.1, c.left_contour()[bz - 1])
    } else {
        nb
    }
}

/// The neighbour heights of the first renderer.
pub fn classic_neighbour_heights(hs: &[u16; 256], c: &HeightCache, chunk_x: usize, chunk_z: usize, bx: usize, bz: usize) -> (r: (u16, u16, u16))
    requires
        chunk_x < 32,
        chunk_z < 32,
        bx < 16,
        bz < 16,
    ensures
        r == spec_classic_neighbours(hs@, *c, chunk_x as int, chunk_z as int, bx as int, bz as int),
{
    let nb = neighbour_heights(hs, c, chunk_x, chunk_z, bx, bz);
    if bx == 15 && bz > 0 && chunk_x == 31 {
        (nb.0, nb.1, c.prev_left_contour[bz - 1])
    } else {
        nb
    }
}

/// A colour shaded by the slope around a column: lighter for each neighbour below it,
/// darker for each neighbour above it.
pub open spec fn spec_shade(col: [u8; 4], h: u16, nb: (u16, u16, u16)) -> [u8; 4] {
    spec_modulate_col(col, (spec_height_diff(h, nb.0) + spec_height_diff(h, nb.1) + spec_height_diff(h, nb.2)) as i8)
}

/// A colour shaded by the slope around a column.
pub fn shade(col: [u8; 4], h: u16, nb: (u16, u16, u16)) -> (r: [u8; 4])
    ensures
        r@ == spec_shade(col, h, nb)@,
{
    let mut modulus: i8 = 0;
    modulus = modulus + height_diff(h, nb.0);
    modulus = modulus + height_diff(h, nb.1);
    modulus = modulus + height_diff(h, nb.2);
    modulate_col(col, modulus)
}

/// Records the height of a drawn column at the chunk's edges: its bottom row for the
/// chunk below, its left column for the chunk to the left.
pub fn record_edges(c: &mut HeightCache, chunk_x: usize, bx: usize, bz: usize, h: u16)
    requires
        chunk_x < 32,
        bx < 16,
        bz < 16,
    ensures
        final(c).lower_contours() == if bz == 15 {
            old(c).lower_contours().update(16 * chunk_x + bx, h)
        } else {
            old(c).lower_contours()
        },
        final(c).next_left() == if bx == 0 { old(c).next_left().update(bz as int, h) } else { old(c).next_left() },
        final(c).left_contour() == old(c).left_contour(),
        final(c).sw_corners() == old(c).sw_corners(),
        final(c).next_sw() == old(c).next_sw(),
{
    if bz == 15 {
        c.prev_lower_contours[16 * chunk_x + bx] = h;
    }
    if bx == 0 {
        c.next_left_contour[bz] = h;
    }
    if bz == 0 && bz == 15 {
        c.next_sw_corner[chunk_x] = h;
    }
}

/// After a chunk is drawn: its left column becomes the left contour for the next chunk.
pub fn finish_chunk(c: &mut HeightCache)
    ensures
        final(c).left_contour() == old(c).next_left(),
        final(c).lower_contours() == old(c).lower_contours(),
        final(c).sw_corners() == old(c).sw_corners(),
        final(c).next_left() == old(c).next_left(),
        final(c).next_sw() == old(c).next_sw(),
{
    c.prev_left_contour = c.next_left_contour;
}

/// After a row of chunks is drawn: its corners become the corners for the next row.
pub fn finish_row(c: &mut HeightCache)
    ensures
        final(c).sw_corners() == old(c).next_sw(),
        final(c).lower_contours() == old(c).lower_contours(),
        final(c).left_contour() == old(c).left_contour(),
        final(c).next_left() == old(c).next_left(),
        final(c).next_sw() == old(c).next_sw(),
{
    c.prev_sw_corner = c.next_sw_corner;
}

/// The bytes of `minecraft:cave_air`.
pub open spec fn cave_air_name() -> Seq<u8> {
    "minecraft:cave_air".spec_bytes()
}

/// The bytes of `minecraft:bubble_column`.
pub open spec fn bubble_column_name() -> Seq<u8> {
    "minecraft:bubble_column".spec_bytes()
}

fn minecraft_cave_air() -> (r: &'static [u8])
    ensures
        r@ == cave_air_name(),
{
    let s = "minecraft:cave_air";
    proof {
        reveal_strlit("minecraft:cave_air");
        vstd::string::is_ascii_spec_bytes(s);
    }
    s.as_bytes()
}

fn minecraft_bubble_column() -> (r: &'static [u8])
    ensures
        r@ == bubble_column_name(),
{
    let s = "minecraft:bubble_column";
    proof {
        reveal_strlit("minecraft:bubble_column");
        vstd::string::is_ascii_spec_bytes(s);
    }
    s.as_bytes()
}

/// Whether a block is air (to look through when slicing).
pub fn is_airy(block: &[u8]) -> (r: bool)
    ensures
        r <==> (block@ == air_name() || block@ == cave_air_name()),
{
    bytes_eq(block, minecraft_air()) || bytes_eq(block, minecraft_cave_air())
}

/// Whether a block is air or water (to look through for the ground below water).
pub fn is_watery(block: &[u8]) -> (r: bool)
    ensures
        r <==> (block@ == air_name() || block@ == cave_air_name() || block@ == water_name()
            || block@ == bubble_column_name()),
{
    bytes_eq(block, minecraft_air()) || bytes_eq(block, minecraft_cave_air())
        || bytes_eq(block, minecraft_water()) || bytes_eq(block, minecraft_bubble_column())
}

/// Why a region could not be drawn.
#[derive(Debug, PartialEq, Eq, Structural)]
pub enum RenderError {
    /// No chunk of the region could be read.
    NoChunkOk,
    /// The region has more block names than there are dynamic identifiers.
    InternerFull,
    /// The region has more than 4096 distinct blocks for its block map.
    TooManyBlocks,
}

impl RenderError {
    /// A short description of the error.
    pub fn message(&self) -> (r: &'static str)
        ensures
            r@ == (match *self {
                RenderError::NoChunkOk => "no chunk ok"@,
                RenderError::InternerFull => "interner overflowed"@,
                RenderError::TooManyBlocks => "too many distinct blocks"@,
            }),
    {
        match self {
            RenderError::NoChunkOk => "no chunk ok",
            RenderError::InternerFull => "interner overflowed",
            RenderError::TooManyBlocks => "too many distinct blocks",
        }
    }
}

/// The block at `(x, y, z)` of an initialised chunk, or air at heights above it.
pub open spec fn spec_block_or_air(c: &Chunk, x: nat, y: nat, z: nat) -> Seq<u8> {
    if y < c.spec_y_limit() {
        c.spec_block_at(x, y, z)
    } else {
        air_name()
    }
}

/// The block at `(x, y, z)` of an initialised chunk, or air at heights above it.
pub fn block_or_air<'a>(c: &'a Chunk<'a>, x: u16, y: u16, z: u16) -> (r: &'a [u8])
    requires
        c.wf(),
        x < 16,
        z < 16,
    ensures
        r@ == spec_block_or_air(c, x as nat, y as nat, z as nat),
{
    if y < c.y_limit() {
        c.block_at(x, y, z)
    } else {
        minecraft_air()
    }
}

/// Writes colour `col` at pixel `(x, y)` of a 512x512 RGBA image.
pub fn put_pixel(img: &mut Vec<u8>, x: usize, y: usize, col: [u8; 4])
    requires
        old(img)@.len() == IMAGE_BYTES,
        x < 512,
        y < 512,
    ensures
        final(img)@.len() == IMAGE_BYTES,
        forall|k: int| 0 <= k < 4 ==> final(img)@[4 * (512 * y + x) + k] == col[k],
        forall|i: int| 0 <= i < IMAGE_BYTES && !(4 * (512 * y + x) <= i < 4 * (512 * y + x) + 4)
            ==> final(img)@[i] == old(img)@[i],
{
    let base = 4 * (512 * y + x);
    img.set(base, col[0]);
    img.set(base + 1, col[1]);
    img.set(base + 2, col[2]);
    img.set(base + 3, col[3]);
}

/// Sets every byte of the image to 0.
pub fn clear_image(img: &mut Vec<u8>)
    requires
        old(img)@.len() == IMAGE_BYTES,
    ensures
        final(img)@.len() == IMAGE_BYTES,
        forall|i: int| 0 <= i < IMAGE_BYTES ==> final(img)@[i] == 0,
{
    let mut i: usize = 0;
    while i < IMAGE_BYTES
        invariant
            img@.len() == IMAGE_BYTES,
            i <= IMAGE_BYTES,
            forall|j: int| 0 <= j < i ==> img@[j] == 0,
        decreases IMAGE_BYTES - i,
    {
        img.set(i, 0);
        i = i + 1;
    }
}

/// The interner and palette agree: one colour per static identifier.
pub open spec fn colors_ready(pal: &Palette, interner: &BlockInterner) -> bool {
    &&& interner.wf()
    &&& interner.static_interner.spec_names().len() == pal.colors().len()
}

/// The colour of the block named `name`: the palette colour of its static identifier
/// among `names`, or the default colour.
pub open spec fn name_color(pal: &Palette, names: Seq<Seq<u8>>, name: Seq<u8>) -> [u8; 4] {
    if names.contains(name) {
        pal.colors()[choose|k: int| 0 <= k < names.len() && names[k] == name]
    } else {
        pal.spec_default_col()
    }
}

/// With names that occur once, the colour of a name is that of its position.
proof fn lemma_name_color(pal: &Palette, interner: &BlockInterner, name: Seq<u8>, k: int)
    requires
        colors_ready(pal, interner),
        0 <= k < interner.static_interner.spec_names().len(),
        interner.static_interner.spec_names()[k] == name,
    ensures
        name_color(pal, interner.static_interner.spec_names(), name) == pal.colors()[k],
{
    let names = interner.static_interner.spec_names();
    interner.static_interner.lemma_names_distinct();
    assert(names.contains(name));
    let c = choose|c: int| 0 <= c < names.len() && names[c] == name;
    assert(c == k);
}

/// The colour of the block named `bs`.
fn color_by_name(pal: &Palette, interner: &BlockInterner, bs: &[u8]) -> (r: [u8; 4])
    requires
        colors_ready(pal, interner),
    ensures
        r == name_color(pal, interner.static_interner.spec_names(), bs@),
{
    let r = pal.get_static_color_by_bytes(interner, bs);
    proof {
        if interner.static_interner.spec_names().contains(bs@) {
            let k = choose|k: int| 0 <= k < pal.colors().len() && interner.static_interner.spec_names()[k] == bs@ && r == pal.colors()[k];
            lemma_name_color(pal, interner, bs@, k);
        }
    }
    r
}

/// The colour of water of the given depth over the block below it.
pub fn water_color(pal: &Palette, interner: &BlockInterner, block_below: &[u8], depth: u16) -> (r: [u8; 4])
    requires
        colors_ready(pal, interner),
    ensures
        r@ == spec_water_color(pal.spec_water_col(), name_color(pal, interner.static_interner.spec_names(), block_below@), depth)@,
{
    let block_col = color_by_name(pal, interner, block_below);
    calc_water_color(get_water_col(pal), block_col, depth)
}

/// The colour of a column's top block: with a block map, the block gets an identifier
/// (recorded at `idx`) and the colour of that identifier; otherwise the colour of its
/// name.
fn top_color(
    pal: &Palette,
    interner: &mut BlockInterner,
    col_lookup: &mut ColorLookup,
    block: &[u8],
    idx: usize,
    with_block_map: bool,
) -> (r: Result<[u8; 4], RenderError>)
    requires
        colors_ready(pal, old(interner)),
        idx < 262144,
    ensures
        colors_ready(pal, final(interner)),
        final(interner).static_interner == old(interner).static_interner,
        r matches Ok(c) ==> c == name_color(pal, old(interner).static_interner.spec_names(), block@),
        r matches Err(e) ==> with_block_map && e == RenderError::InternerFull,
        final(col_lookup).ids().len() == old(col_lookup).ids().len(),
        forall|j: int| 0 <= j < old(col_lookup).ids().len() && j != idx ==> #[trigger] final(col_lookup).ids()[j] == old(col_lookup).ids()[j],
        !with_block_map ==> *final(col_lookup) == *old(col_lookup),
        interner_grows(old(interner), final(interner)),
        with_block_map && r is Ok ==> id_name(final(interner), final(col_lookup).ids()[idx as int]) == Some(block@),
        r is Err ==> interner_full(final(interner)),
{
    if with_block_map {
        let ghost sn = interner.static_interner.spec_names();
        let ghost dn = interner.dyn_interner.spec_names();
        let known: bool = match interner.get_idx_static(block) {
            Some(i) => {
                proof {
                    assert(interner.static_interner.spec_names()[i.0 - 1] == block@);
                }
                true
            },
            None => match interner.get_idx_dyn(block) {
                Some(i) => {
                    proof {
                        assert(interner.dyn_interner.spec_names()[i.0 - 32768] == block@);
                        assert(interner.dyn_interner.spec_names().contains(block@));
                    }
                    true
                },
                None => false,
            },
        };
        assert(known ==> sn.contains(block@) || dn.contains(block@));
        if !known && !interner.can_intern() {
            return Err(RenderError::InternerFull);
        }
        let ghost before = *interner;
        let id = interner.get_or_intern(block);
        col_lookup.set(idx, id);
        let c = pal.get_static_color_by_id(id);
        proof {
            if sn.contains(block@) {
                lemma_name_color(pal, &before, block@, id.0 - 1);
            }
        }
        Ok(c)
    } else {
        Ok(color_by_name(pal, interner, block))
    }
}

/// The world surface heights of a chunk's columns, row by row.
fn surface_heights(c: &Chunk) -> (r: [u16; 256])
    ensures
        forall|i: int| 0 <= i < 256 ==> r@[i] as nat == crate::bitpack::packed_get(c.spec_heightmaps().world_surface_words(), 9, i as nat),
        forall|i: int| 0 <= i < 256 ==> r@[i] < 512,
{
    let mut hs = [0u16; 256];
    let mut i: usize = 0;
    while i < 256
        invariant
            i <= 256,
            forall|j: int| 0 <= j < i ==> hs@[j] as nat == crate::bitpack::packed_get(c.spec_heightmaps().world_surface_words(), 9, j as nat),
            forall|j: int| 0 <= j < i ==> hs@[j] < 512,
        decreases 256 - i,
    {
        let x = (i % 16) as u16;
        let z = (i / 16) as u16;
        hs[i] = c.heightmaps().world_surface_at(x, z);
        i = i + 1;
    }
    hs
}

/// One below a height, or 0.
pub open spec fn below(h: u16) -> u16 {
    if h >= 1 { (h - 1) as u16 } else { 0u16 }
}

/// The world surface heights of a chunk's columns, row by row.
pub open spec fn surface_of(chunk: &Chunk) -> Seq<u16> {
    Seq::new(256, |i: int| crate::bitpack::packed_get(chunk.spec_heightmaps().world_surface_words(), 9, i as nat) as u16)
}

/// The colour of column `i` (row by row) of a chunk drawn from its heightmaps, with
/// static block names `names` and the cache `c` of the chunks drawn before: the colour
/// of its top block shaded by the slope and darkened below height 127 (if asked), or
/// for water, the water colour over the ground below it.
pub open spec fn surface_color(chunk: &Chunk, pal: &Palette, names: Seq<Seq<u8>>, c: HeightCache, cx: int, cz: int, i: int, depth_darken: bool) -> [u8; 4] {
    let hs = surface_of(chunk);
    let bx = i % 16;
    let bz = i / 16;
    let h = hs[i];
    let top = spec_block_or_air(chunk, bx as nat, below(h) as nat, bz as nat);
    let col = name_color(pal, names, top);
    if top != water_name() {
        let s = spec_shade(col, h, spec_neighbours(hs, c, cx, cz, bx, bz));
        if depth_darken && h < 127 {
            spec_alpha_blend_cols(s, [0u8, 0, 0, 255], spec_alpha_soft_depth_darken((127 - h) as u16))
        } else {
            s
        }
    } else {
        let hof = crate::bitpack::packed_get(chunk.spec_heightmaps().ocean_floor_words(), 9, i as nat) as u16;
        let under = spec_block_or_air(chunk, bx as nat, below(hof) as nat, bz as nat);
        let depth = ((if h >= hof { h - hof } else { 0 }) + 1) as u16;
        spec_water_color(pal.spec_water_col(), name_color(pal, names, under), depth)
    }
}

/// The four bytes of pixel `(x, y)` of a 512x512 RGBA image.
pub open spec fn pixel_at(img: Seq<u8>, x: int, y: int) -> Seq<u8> {
    img.subrange(4 * (512 * y + x), 4 * (512 * y + x) + 4)
}

/// The block name that identifier `id` stands for in the interner `i`, if any.
pub open spec fn id_name(i: &BlockInterner, id: BlockId) -> Option<Seq<u8>> {
    if 1 <= id.0 <= STATIC_ID_MAX && id.0 - 1 < i.static_interner.spec_names().len() {
        Some(i.static_interner.spec_names()[id.0 - 1])
    } else if id.0 >= 32768 && id.0 - 32768 < i.dyn_interner.spec_names().len() {
        Some(i.dyn_interner.spec_names()[id.0 - 32768])
    } else {
        None
    }
}

/// The interner has handed out every dynamic identifier.
pub open spec fn interner_full(i: &BlockInterner) -> bool {
    32768 + i.dyn_interner.spec_names().len() >= 65535
}

/// The interner `b` keeps every name of `a` under the same identifier.
pub open spec fn interner_grows(a: &BlockInterner, b: &BlockInterner) -> bool {
    &&& b.static_interner == a.static_interner
    &&& a.dyn_interner.spec_names().is_prefix_of(b.dyn_interner.spec_names())
}

/// A name an interner has, a grown interner has under the same identifier.
proof fn lemma_id_name_kept(a: &BlockInterner, b: &BlockInterner, id: BlockId)
    requires
        interner_grows(a, b),
        id_name(a, id) is Some,
    ensures
        id_name(b, id) == id_name(a, id),
{
    if id.0 >= 32768 && id.0 - 32768 < a.dyn_interner.spec_names().len() {
        assert(b.dyn_interner.spec_names().subrange(0, a.dyn_interner.spec_names().len() as int)[id.0 - 32768]
            == b.dyn_interner.spec_names()[id.0 - 32768]);
    }
}

/// The column (`16 * bz + bx`) of its chunk that cell `j` of the block lookup is.
pub open spec fn cell_col(j: int) -> int {
    16 * ((j / 512) % 16) + (j % 512) % 16
}

/// The block at the top of column `i` of a chunk drawn from its heightmaps.
pub open spec fn surface_block(chunk: &Chunk, i: int) -> Seq<u8> {
    spec_block_or_air(chunk, (i % 16) as nat, below(surface_of(chunk)[i]) as nat, (i / 16) as nat)
}

/// The block at the top of column `i` of a chunk cut at height `s`.
pub open spec fn slice_block(chunk: &Chunk, s: u16, i: int) -> Seq<u8> {
    spec_block_or_air(chunk, (i % 16) as nat, below(synth_of(chunk, s, false)[i]) as nat, (i / 16) as nat)
}

/// The place in drawing order of chunk `c`.
pub open spec fn order_of(c: int) -> int {
    32 * (c / 32) + 31 - c % 32
}

/// The chunk (index `32 * cz + cx`) whose column cell `j` of the block lookup is.
pub open spec fn cell_chunk(j: int) -> int {
    32 * (j / 8192) + (j % 512) / 16
}

/// The cell of column `(bx, bz)` of chunk `(cx, cz)` lies in that chunk.
proof fn lemma_cell_chunk(cx: int, cz: int, bx: int, bz: int)
    requires
        0 <= cx < 32,
        0 <= cz < 32,
        0 <= bx < 16,
        0 <= bz < 16,
    ensures
        cell_chunk(16 * cx + bx + 512 * (16 * cz + bz)) == 32 * cz + cx,
        cell_col(16 * cx + bx + 512 * (16 * cz + bz)) == 16 * bz + bx,
        0 <= 16 * cx + bx + 512 * (16 * cz + bz) < 262144,
{
    let j = 16 * cx + bx + 512 * (16 * cz + bz);
    vstd::arithmetic::div_mod::lemma_fundamental_div_mod_converse(j, 512, 16 * cz + bz, 16 * cx + bx);
    vstd::arithmetic::div_mod::lemma_fundamental_div_mod_converse(j, 8192, cz, 512 * bz + 16 * cx + bx);
    vstd::arithmetic::div_mod::lemma_fundamental_div_mod_converse(16 * cx + bx, 16, cx, bx);
    vstd::arithmetic::div_mod::lemma_fundamental_div_mod_converse(16 * cz + bz, 16, cz, bz);
}

/// Byte `t` of the image belongs to a pixel of chunk `(cx, cz)`.
pub open spec fn in_chunk(t: int, cx: int, cz: int) -> bool {
    let p = t / 4;
    &&& 16 * cz <= p / 512 < 16 * cz + 16
    &&& 16 * cx <= p % 512 < 16 * cx + 16
}

/// Draws the columns of one chunk from its heightmaps: each pixel of the chunk gets
/// [`surface_color`], every other pixel stays.
#[verifier::rlimit(60)]
#[verifier::spinoff_prover]
fn draw_chunk_surface(
    chunk: &Chunk,
    pal: &Palette,
    interner: &mut BlockInterner,
    img: &mut Vec<u8>,
    col_lookup: &mut ColorLookup,
    cache: &mut HeightCache,
    chunk_x: usize,
    chunk_z: usize,
    depth_darken: bool,
    with_block_map: bool,
) -> (r: Result<(), RenderError>)
    requires
        chunk.wf(),
        colors_ready(pal, old(interner)),
        old(img)@.len() == IMAGE_BYTES,
        chunk_x < 32,
        chunk_z < 32,
    ensures
        colors_ready(pal, final(interner)),
        final(interner).static_interner == old(interner).static_interner,
        final(img)@.len() == IMAGE_BYTES,
        r matches Err(e) ==> with_block_map && e == RenderError::InternerFull,
        r is Ok ==> forall|i: int| 0 <= i < 256 ==> pixel_at(final(img)@, 16 * chunk_x + i % 16, 16 * chunk_z + i / 16)
            == (#[trigger] surface_color(chunk, pal, old(interner).static_interner.spec_names(), *old(cache), chunk_x as int, chunk_z as int, i, depth_darken))@,
        r is Ok ==> forall|t: int| 0 <= t < IMAGE_BYTES && !in_chunk(t, chunk_x as int, chunk_z as int) ==> final(img)@[t] == old(img)@[t],
        r is Ok ==> final(cache).lower_contours() == with_lower_row(old(cache).lower_contours(), surface_of(chunk), chunk_x as int),
        r is Ok ==> final(cache).left_contour() == left_column(surface_of(chunk)),
        r is Ok ==> final(cache).sw_corners() == old(cache).sw_corners(),
        r is Ok ==> final(cache).next_sw() == old(cache).next_sw(),
        final(col_lookup).ids().len() == old(col_lookup).ids().len(),
        forall|j: int| 0 <= j < old(col_lookup).ids().len() && cell_chunk(j) != 32 * chunk_z + chunk_x
            ==> #[trigger] final(col_lookup).ids()[j] == old(col_lookup).ids()[j],
        !with_block_map ==> *final(col_lookup) == *old(col_lookup),
        interner_grows(old(interner), final(interner)),
        r is Err ==> interner_full(final(interner)),
        with_block_map && r is Ok ==> forall|j: int| 0 <= j < 262144 && cell_chunk(j) == 32 * chunk_z + chunk_x
            ==> #[trigger] id_name(final(interner), final(col_lookup).ids()[j]) == Some(surface_block(chunk, cell_col(j))),
{
    let hs = surface_heights(chunk);
    let ghost names = interner.static_interner.spec_names();
    let ghost c0 = *cache;
    let ghost img0 = img@;
    let ghost lk0 = *col_lookup;
    let ghost it0 = *interner;
    proof {
        assert(hs@ =~= surface_of(chunk));
    }
    proof {
        cache.lemma_sizes();
        assert(cache.lower_contours() =~= Seq::new(512, |j: int|
            if 16 * chunk_x <= j < 16 * chunk_x + 16 && 240 + j - 16 * chunk_x < 0 { hs@[240 + j - 16 * chunk_x] } else { c0.lower_contours()[j] }));
        assert(cache.next_left() =~= Seq::new(16, |bz: int| if 16 * bz < 0 { hs@[16 * bz] } else { c0.next_left()[bz] }));
    }
    let mut i: usize = 0;
    while i < 256
        invariant
            chunk.wf(),
            hs@ == surface_of(chunk),
            forall|j: int| 0 <= j < 256 ==> hs@[j] < 512,
            colors_ready(pal, interner),
            interner.static_interner == old(interner).static_interner,
            names == old(interner).static_interner.spec_names(),
            c0 == *old(cache),
            img0 == old(img)@,
            img@.len() == IMAGE_BYTES,
            chunk_x < 32,
            chunk_z < 32,
            i <= 256,
            cache.left_contour() == c0.left_contour(),
            cache.sw_corners() == c0.sw_corners(),
            cache.next_sw() == c0.next_sw(),
            cache.lower_contours() == Seq::new(512, |j: int|
                if 16 * chunk_x <= j < 16 * chunk_x + 16 && 240 + j - 16 * chunk_x < i { hs@[240 + j - 16 * chunk_x] } else { c0.lower_contours()[j] }),
            cache.next_left() == Seq::new(16, |bz: int| if 16 * bz < i { hs@[16 * bz] } else { c0.next_left()[bz] }),
            i <= 240 ==> cache.lower_contours() == c0.lower_contours(),
            forall|j: int| 0 <= j < i ==> pixel_at(img@, 16 * chunk_x + j % 16, 16 * chunk_z + j / 16)
                == (#[trigger] surface_color(chunk, pal, names, c0, chunk_x as int, chunk_z as int, j, depth_darken))@,
            forall|t: int| 0 <= t < IMAGE_BYTES && !in_chunk(t, chunk_x as int, chunk_z as int) ==> img@[t] == img0[t],
            lk0 == *old(col_lookup),
            col_lookup.ids().len() == lk0.ids().len(),
            forall|j: int| 0 <= j < lk0.ids().len() && cell_chunk(j) != 32 * chunk_z + chunk_x
                ==> #[trigger] col_lookup.ids()[j] == lk0.ids()[j],
            !with_block_map ==> *col_lookup == lk0,
            it0 == *old(interner),
            interner_grows(&it0, &*interner),
            col_lookup.ids().len() == 262144,
            with_block_map ==> forall|j: int| 0 <= j < 262144 && cell_chunk(j) == 32 * chunk_z + chunk_x && cell_col(j) < i
                ==> #[trigger] id_name(&*interner, col_lookup.ids()[j]) == Some(surface_block(chunk, cell_col(j))),
        decreases 256 - i,
    {
        let bx = i % 16;
        let bz = i / 16;
        let h = hs[i];
        let block = block_or_air(chunk, bx as u16, h.saturating_sub(1), bz as u16);
        let idx = 16 * chunk_x + bx + 512 * (16 * chunk_z + bz);
        proof {
            lemma_cell_chunk(chunk_x as int, chunk_z as int, bx as int, bz as int);
        }
        let ghost pre = *col_lookup;
        let ghost ipre = *interner;
        let res = top_color(pal, interner, col_lookup, block, idx, with_block_map);
        proof {
            assert(interner_grows(&it0, &*interner)) by {
                assert(it0.dyn_interner.spec_names().is_prefix_of(interner.dyn_interner.spec_names())) by {
                    assert(interner.dyn_interner.spec_names().subrange(0, it0.dyn_interner.spec_names().len() as int)
                        =~= ipre.dyn_interner.spec_names().subrange(0, it0.dyn_interner.spec_names().len() as int));
                }
            }
            if with_block_map && res is Ok {
                assert(block@ == surface_block(chunk, i as int));
                assert forall|j: int| 0 <= j < 262144 && cell_chunk(j) == 32 * chunk_z + chunk_x && cell_col(j) < i + 1
                    implies #[trigger] id_name(&*interner, col_lookup.ids()[j]) == Some(surface_block(chunk, cell_col(j))) by {
                    if j != idx {
                        assert(cell_col(j) < i);
                        assert(id_name(&ipre, pre.ids()[j]) == Some(surface_block(chunk, cell_col(j))));
                        lemma_id_name_kept(&ipre, &*interner, pre.ids()[j]);
                    }
                }
            }
            assert forall|j: int| 0 <= j < lk0.ids().len() && cell_chunk(j) != 32 * chunk_z + chunk_x
                implies #[trigger] col_lookup.ids()[j] == lk0.ids()[j] by {
                assert(j != idx);
                assert(pre.ids()[j] == lk0.ids()[j]);
            }
        }
        let mut col = match res {
            Ok(c) => c,
            Err(e) => return Err(e),
        };
        let ghost want = surface_color(chunk, pal, names, c0, chunk_x as int, chunk_z as int, i as int, depth_darken);
        if !bytes_eq(block, minecraft_water()) {
            let nb = neighbour_heights(&hs, cache, chunk_x, chunk_z, bx, bz);
            proof {
                assert(nb == spec_neighbours(hs@, c0, chunk_x as int, chunk_z as int, bx as int, bz as int));
            }
            col = shade(col, h, nb);
            if depth_darken && h < 127 {
                let ghost s = col;
                col = soft_depth_darken_col(col, 127 - h);
                proof {
                    assert(s =~= spec_shade(name_color(pal, names, block@), h, nb));
                }
            }
            proof {
                assert(col@ == want@);
            }
        } else {
            let h_ocean_floor = chunk.heightmaps().ocean_floor_at(bx as u16, bz as u16);
            let block_below = block_or_air(chunk, bx as u16, h_ocean_floor.saturating_sub(1), bz as u16);
            let depth = h.saturating_sub(h_ocean_floor) + 1;
            col = water_color(pal, interner, block_below, depth);
            proof {
                assert(bz * 16 + bx == i);
                assert(col@ == want@);
            }
        }
        let ghost before = img@;
        put_pixel(img, 16 * chunk_x + bx, 16 * chunk_z + bz, col);
        proof {
            let p = 512 * (16 * chunk_z + bz) + 16 * chunk_x + bx;
            assert(pixel_at(img@, 16 * chunk_x + bx, 16 * chunk_z + bz) =~= col@);
            assert forall|j: int| 0 <= j < i + 1 implies pixel_at(img@, 16 * chunk_x + j % 16, 16 * chunk_z + j / 16)
                == (#[trigger] surface_color(chunk, pal, names, c0, chunk_x as int, chunk_z as int, j, depth_darken))@ by {
                if j < i {
                    let q = 512 * (16 * chunk_z + j / 16) + 16 * chunk_x + j % 16;
                    assert(q != p);
                    assert(pixel_at(img@, 16 * chunk_x + j % 16, 16 * chunk_z + j / 16)
                        =~= pixel_at(before, 16 * chunk_x + j % 16, 16 * chunk_z + j / 16));
                }
            }
            assert forall|t: int| 0 <= t < IMAGE_BYTES && !in_chunk(t, chunk_x as int, chunk_z as int) implies img@[t] == img0[t] by {
                if 4 * p <= t < 4 * p + 4 {
                    assert(t / 4 == p);
                    assert(p / 512 == 16 * chunk_z + bz);
                    assert(p % 512 == 16 * chunk_x + bx);
                }
            }
        }
        record_edges(cache, chunk_x, bx, bz, h);
        proof {
            cache.lemma_sizes();
            assert(cache.lower_contours() =~= Seq::new(512, |j: int|
                if 16 * chunk_x <= j < 16 * chunk_x + 16 && 240 + j - 16 * chunk_x < i + 1 { hs@[240 + j - 16 * chunk_x] } else { c0.lower_contours()[j] }));
            assert(cache.next_left() =~= Seq::new(16, |z: int| if 16 * z < i + 1 { hs@[16 * z] } else { c0.next_left()[z] }));
            if i + 1 <= 240 {
                assert(cache.lower_contours() =~= c0.lower_contours());
            }
        }
        i = i + 1;
    }
    finish_chunk(cache);
    proof {
        cache.lemma_sizes();
        assert(cache.lower_contours() =~= with_lower_row(c0.lower_contours(), surface_of(chunk), chunk_x as int));
        assert(cache.left_contour() =~= left_column(surface_of(chunk)));
    }
    Ok(())
}

/// The four bytes of a transparent pixel.
pub open spec fn clear_pixel() -> Seq<u8> {
    seq![0u8, 0u8, 0u8, 0u8]
}

/// Every pixel of the 16x16 tile of chunk `(cx, cz)` is transparent.
pub open spec fn tile_clear(img: Seq<u8>, cx: int, cz: int) -> bool {
    forall|i: int| 0 <= i < 256 ==> #[trigger] pixel_at(img, 16 * cx + i % 16, 16 * cz + i / 16) == clear_pixel()
}

/// The tile of chunk `(cx, cz)` shows `chunk` drawn from its heightmaps, after the
/// chunks whose edges the cache `c` holds.
pub open spec fn tile_shows_surface(img: Seq<u8>, chunk: &Chunk, pal: &Palette, names: Seq<Seq<u8>>, c: HeightCache, cx: int, cz: int, depth_darken: bool) -> bool {
    forall|i: int| 0 <= i < 256 ==> pixel_at(img, 16 * cx + i % 16, 16 * cz + i / 16)
        == (#[trigger] surface_color(chunk, pal, names, c, cx, cz, i, depth_darken))@
}

/// The chunk data that slot `idx` of the region file `d` decompresses to, where the
/// slot's compressed bytes can be found and decompress to data that starts with a
/// compound tag and ends with an `End` tag.
pub open spec fn slot_nbt(d: Seq<u8>, idx: nat) -> Option<Seq<u8>> {
    match chunk_span(d, idx) {
        Ok((s, l)) => match zlib_decode(d.subrange(s as int, (s + l) as int)) {
            Some(x) => if is_chunk_nbt(x) { Some(x) } else { None },
            None => None,
        },
        Err(_) => None,
    }
}

/// Sections laid out so that their chunk can be drawn: at least one, and none `n` or
/// more heights above the lowest, `n` being their number.
pub open spec fn sections_laid_out(s: Seq<Section>) -> bool {
    &&& s.len() > 0
    &&& forall|i: int| 0 <= i < s.len() ==> #[trigger] s[i].y - min_section_y(s) < s.len()
}

/// Whether chunk data `x` reads as a chunk whose sections are laid out to be drawn.
pub open spec fn drawable_nbt(x: Seq<u8>) -> bool {
    exists|ch: Chunk| #[trigger] named_value_holds::<Chunk>(x, ch) && sections_laid_out(ch.spec_sections())
}

/// Whether slot `idx` of the region file `d` holds a chunk that can be drawn.
pub open spec fn slot_drawable(d: Seq<u8>, idx: nat) -> bool {
    slot_nbt(d, idx) matches Some(x) && drawable_nbt(x)
}

/// What drawing slot `idx` of the region file `d` came to: `Some` of a chunk that the
/// slot's data holds, its sections laid out to be drawn; or `None`, where the slot's
/// data does not read as such a chunk (or decompresses to more than the loader's
/// buffer can grow to).
pub open spec fn slot_outcome(d: Seq<u8>, o: Option<Chunk>, idx: nat) -> bool {
    match o {
        Some(ch) => slot_nbt(d, idx) matches Some(x) && named_value_holds::<Chunk>(x, ch)
            && sections_laid_out(ch.spec_sections()),
        None => slot_nbt(d, idx) matches Some(x) ==> (x.len() > max_decompressed_len() || !drawable_nbt(x)),
    }
}

/// Whether `r` is the error `e`.
pub open spec fn is_err_of<T>(r: Result<T, RenderError>, e: RenderError) -> bool {
    r matches Err(x) && x == e
}

/// Sections at the same heights have the same lowest height.
proof fn lemma_min_section_y_same(s1: Seq<Section>, s2: Seq<Section>)
    requires
        s1.len() == s2.len(),
        forall|i: int| 0 <= i < s1.len() ==> #[trigger] s1[i].y == s2[i].y,
    ensures
        min_section_y(s1) == min_section_y(s2),
        sections_laid_out(s1) == sections_laid_out(s2),
    decreases s1.len(),
{
    if s1.len() > 1 {
        lemma_min_section_y_same(s1.drop_last(), s2.drop_last());
    }
    if s1.len() > 0 {
        assert(s1.last().y == s2.last().y);
    }
    assert(sections_laid_out(s1) ==> sections_laid_out(s2)) by {
        if sections_laid_out(s1) {
            assert forall|i: int| 0 <= i < s2.len() implies #[trigger] s2[i].y - min_section_y(s2) < s2.len() by {
                assert(s1[i].y == s2[i].y);
            }
        }
    }
    assert(sections_laid_out(s2) ==> sections_laid_out(s1)) by {
        if sections_laid_out(s2) {
            assert forall|i: int| 0 <= i < s1.len() implies #[trigger] s1[i].y - min_section_y(s1) < s1.len() by {
                assert(s1[i].y == s2[i].y);
            }
        }
    }
}

/// Data that reads as a chunk whose sections are not laid out to be drawn does not
/// read as any chunk laid out to be drawn.
proof fn lemma_not_drawable(x: Seq<u8>, parsed: Chunk)
    requires
        named_value_holds::<Chunk>(x, parsed),
        !sections_laid_out(parsed.spec_sections()),
    ensures
        !drawable_nbt(x),
{
    if drawable_nbt(x) {
        let ch = choose|ch: Chunk| #[trigger] named_value_holds::<Chunk>(x, ch) && sections_laid_out(ch.spec_sections());
        lemma_sections_determined(x, parsed, ch);
        lemma_min_section_y_same(parsed.spec_sections(), ch.spec_sections());
    }
}

/// `ch` holds what chunk `idx` of the region file `d` holds: the named compound that
/// the chunk's compressed data decompresses to.
pub open spec fn chunk_of_file(d: Seq<u8>, idx: nat, ch: Chunk) -> bool {
    &&& chunk_span(d, idx) matches Ok((s, l))
    &&& zlib_decode(d.subrange(s as int, (s + l) as int)) matches Some(x)
    &&& named_value_holds::<Chunk>(x, ch)
}

/// The bottom-row heights cached after the first `k` chunks in drawing order, where
/// `drawn[i]` is the chunk drawn at index `i` and `None` where none could be: a drawn
/// chunk leaves its bottom row of surface heights, one that could not be drawn forgets
/// the row of its chunk column.
pub open spec fn surface_lower(drawn: Seq<Option<Chunk>>, k: nat) -> Seq<u16>
    decreases k,
{
    if k == 0 {
        unknown_heights(512)
    } else {
        let prev = surface_lower(drawn, (k - 1) as nat);
        let cx = 31 - (k - 1) % 32;
        match drawn[drawn_kth(k - 1)] {
            Some(ch) => with_lower_row(prev, surface_of(&ch), cx),
            None => without_lower_row(prev, cx),
        }
    }
}

/// The left-column heights cached after the first `k` chunks in drawing order: those of
/// the last chunk drawn.
pub open spec fn surface_left(drawn: Seq<Option<Chunk>>, k: nat) -> Seq<u16>
    decreases k,
{
    if k == 0 {
        unknown_heights(16)
    } else {
        match drawn[drawn_kth(k - 1)] {
            Some(ch) => left_column(surface_of(&ch)),
            None => surface_left(drawn, (k - 1) as nat),
        }
    }
}

/// The tile of chunk `(cx, cz)` of a region drawn from the file `d`, `drawn` holding the
/// chunks drawn: transparent where no chunk is drawn; else the surface of a well-formed
/// chunk that holds what the file holds for it, drawn with the edges that the chunks
/// drawn before it left in the cache (no corner heights).
pub open spec fn surface_tile(img: Seq<u8>, d: Seq<u8>, pal: &Palette, names: Seq<Seq<u8>>, drawn: Seq<Option<Chunk>>, cx: int, cz: int, depth_darken: bool) -> bool {
    let k = (32 * cz + 31 - cx) as nat;
    match drawn[32 * cz + cx] {
        None => tile_clear(img, cx, cz),
        Some(ch) => {
            &&& ch.wf()
            &&& chunk_of_file(d, (32 * cz + cx) as nat, ch)
            &&& exists|c: HeightCache| c.lower_contours() == surface_lower(drawn, k)
                && c.left_contour() == surface_left(drawn, k)
                && c.sw_corners() == unknown_heights(32)
                && #[trigger] tile_shows_surface(img, &ch, pal, names, c, cx, cz, depth_darken)
        },
    }
}

/// The tile of chunk `(cx, cz)` after the first `k` chunks in drawing order.
spec fn surface_tile_upto(img: Seq<u8>, d: Seq<u8>, pal: &Palette, names: Seq<Seq<u8>>, drawn: Seq<Option<Chunk>>, cx: int, cz: int, depth_darken: bool, k: int) -> bool {
    if 32 * cz + 31 - cx < k {
        surface_tile(img, d, pal, names, drawn, cx, cz, depth_darken)
    } else {
        drawn[32 * cz + cx] is None && tile_clear(img, cx, cz)
    }
}

/// Different places in drawing order are different chunks.
proof fn lemma_drawn_kth_distinct(m: int, k: int)
    requires
        0 <= m < k < 1024,
    ensures
        drawn_kth(m) != drawn_kth(k),
        0 <= drawn_kth(m) < 1024,
        0 <= drawn_kth(k) < 1024,
{
    assert(m == 32 * (m / 32) + m % 32);
    assert(k == 32 * (k / 32) + k % 32);
}

/// The chunk index at place `k` in drawing order, and back.
proof fn lemma_drawn_kth_of(cx: int, cz: int)
    requires
        0 <= cx < 32,
        0 <= cz < 32,
    ensures
        drawn_kth(32 * cz + 31 - cx) == 32 * cz + cx,
{
    let k = 32 * cz + 31 - cx;
    assert(k / 32 == cz);
    assert(k % 32 == 31 - cx);
}

/// The cached edges after the first `k` chunks depend only on those chunks.
proof fn lemma_surface_cache_prefix(drawn: Seq<Option<Chunk>>, drawn2: Seq<Option<Chunk>>, k: nat)
    requires
        k <= 1024,
        forall|m: int| 0 <= m < k ==> drawn2[drawn_kth(m)] == drawn[drawn_kth(m)],
    ensures
        surface_lower(drawn2, k) == surface_lower(drawn, k),
        surface_left(drawn2, k) == surface_left(drawn, k),
    decreases k,
{
    if k > 0 {
        lemma_surface_cache_prefix(drawn, drawn2, (k - 1) as nat);
        assert(drawn2[drawn_kth(k - 1)] == drawn[drawn_kth(k - 1)]);
    }
}

/// An image whose bytes are all 0 has every tile transparent.
pub(crate) proof fn lemma_zero_tiles(img: Seq<u8>)
    requires
        img.len() == IMAGE_BYTES,
        forall|t: int| 0 <= t < IMAGE_BYTES ==> img[t] == 0,
    ensures
        forall|cx: int, cz: int| 0 <= cx < 32 && 0 <= cz < 32 ==> #[trigger] tile_clear(img, cx, cz),
{
    assert forall|cx: int, cz: int| 0 <= cx < 32 && 0 <= cz < 32 implies #[trigger] tile_clear(img, cx, cz) by {
        assert forall|i: int| 0 <= i < 256 implies #[trigger] pixel_at(img, 16 * cx + i % 16, 16 * cz + i / 16) == clear_pixel() by {
            let p = 512 * (16 * cz + i / 16) + 16 * cx + i % 16;
            assert(pixel_at(img, 16 * cx + i % 16, 16 * cz + i / 16) =~= clear_pixel());
        }
    }
}

/// Drawing into the tile of chunk `(dx, dz)` keeps the pixels of every other tile.
pub(crate) proof fn lemma_other_tile_kept(img1: Seq<u8>, img2: Seq<u8>, cx: int, cz: int, dx: int, dz: int)
    requires
        img1.len() == IMAGE_BYTES,
        img2.len() == IMAGE_BYTES,
        0 <= cx < 32,
        0 <= cz < 32,
        0 <= dx < 32,
        0 <= dz < 32,
        cx != dx || cz != dz,
        forall|t: int| 0 <= t < IMAGE_BYTES && !in_chunk(t, dx, dz) ==> img2[t] == img1[t],
    ensures
        forall|i: int| 0 <= i < 256 ==> #[trigger] pixel_at(img2, 16 * cx + i % 16, 16 * cz + i / 16)
            == pixel_at(img1, 16 * cx + i % 16, 16 * cz + i / 16),
{
    assert forall|i: int| 0 <= i < 256 implies #[trigger] pixel_at(img2, 16 * cx + i % 16, 16 * cz + i / 16)
        == pixel_at(img1, 16 * cx + i % 16, 16 * cz + i / 16) by {
        let x = 16 * cx + i % 16;
        let y = 16 * cz + i / 16;
        let p = 512 * y + x;
        assert forall|t: int| 4 * p <= t < 4 * p + 4 implies #[trigger] img2[t] == img1[t] by {
            assert(t / 4 == p);
            assert(p / 512 == y);
            assert(p % 512 == x);
        }
        assert(pixel_at(img2, x, y) =~= pixel_at(img1, x, y));
    }
}

/// Drawing chunk `drawn2[drawn_kth(k)]` into its tile keeps what every other tile
/// shows.
proof fn lemma_surface_tile_kept(img1: Seq<u8>, img2: Seq<u8>, d: Seq<u8>, pal: &Palette, names: Seq<Seq<u8>>,
    drawn: Seq<Option<Chunk>>, drawn2: Seq<Option<Chunk>>, cx: int, cz: int, k: int, depth_darken: bool)
    requires
        img1.len() == IMAGE_BYTES,
        img2.len() == IMAGE_BYTES,
        drawn.len() == 1024,
        0 <= cx < 32,
        0 <= cz < 32,
        0 <= k < 1024,
        32 * cz + 31 - cx != k,
        forall|m: int| 0 <= m < 1024 && m != k ==> drawn2[drawn_kth(m)] == drawn[drawn_kth(m)],
        forall|t: int| 0 <= t < IMAGE_BYTES && !in_chunk(t, 31 - k % 32, k / 32) ==> img2[t] == img1[t],
        surface_tile_upto(img1, d, pal, names, drawn, cx, cz, depth_darken, k),
    ensures
        surface_tile_upto(img2, d, pal, names, drawn2, cx, cz, depth_darken, k + 1),
{
    let pos = 32 * cz + 31 - cx;
    lemma_drawn_kth_of(cx, cz);
    assert(k == 32 * (k / 32) + k % 32);
    assert(drawn2[32 * cz + cx] == drawn[32 * cz + cx]);
    lemma_other_tile_kept(img1, img2, cx, cz, 31 - k % 32, k / 32);
    if tile_clear(img1, cx, cz) {
        assert(tile_clear(img2, cx, cz));
    }
    if pos < k {
        if let Some(ch) = drawn[32 * cz + cx] {
            assert forall|m: int| 0 <= m < pos implies drawn2[drawn_kth(m)] == drawn[drawn_kth(m)] by {
                lemma_drawn_kth_distinct(m, k);
            }
            lemma_surface_cache_prefix(drawn, drawn2, pos as nat);
            let c = choose|c: HeightCache| c.lower_contours() == surface_lower(drawn, pos as nat)
                && c.left_contour() == surface_left(drawn, pos as nat)
                && c.sw_corners() == unknown_heights(32)
                && #[trigger] tile_shows_surface(img1, &ch, pal, names, c, cx, cz, depth_darken);
            assert(tile_shows_surface(img2, &ch, pal, names, c, cx, cz, depth_darken));
        }
    }
}

/// Draws a loaded region from its chunks' heightmaps into a 512x512 RGBA image.
/// Chunks that cannot be read are left transparent. With `with_block_map`, also
/// records the block of each column and returns them packed. Fails if no chunk can be
/// read.
pub fn render_region(
    loader: &mut McaLoader,
    pal: &Palette,
    interner: &mut BlockInterner,
    img: &mut Vec<u8>,
    col_lookup: &mut ColorLookup,
    depth_darken: bool,
    with_block_map: bool,
) -> (r: Result<Option<PackedBlockMap>, RenderError>)
    requires
        old(loader).spec_data().len() > 0,
        colors_ready(pal, old(interner)),
        old(img)@.len() == IMAGE_BYTES,
    ensures
        final(loader).spec_data() == old(loader).spec_data(),
        colors_ready(pal, final(interner)),
        final(interner).static_interner == old(interner).static_interner,
        final(img)@.len() == IMAGE_BYTES,
        r is Ok || is_err_of(r, RenderError::NoChunkOk) || is_err_of(r, RenderError::TooManyBlocks) ==> exists|drawn: Seq<Option<Chunk>>| {
            &&& drawn.len() == 1024
            &&& forall|i: int| 0 <= i < 1024 ==> #[trigger] slot_outcome(old(loader).spec_data(), drawn[i], i as nat)
            &&& forall|cx: int, cz: int| 0 <= cx < 32 && 0 <= cz < 32 ==> #[trigger] surface_tile(
                final(img)@, old(loader).spec_data(), pal, old(interner).static_interner.spec_names(), drawn, cx, cz, depth_darken)
            &&& is_err_of(r, RenderError::NoChunkOk) <==> forall|i: int| 0 <= i < 1024 ==> #[trigger] drawn[i] is None
            &&& with_block_map ==> forall|j: int| 0 <= j < 262144 && drawn[cell_chunk(j)] is None
                ==> #[trigger] final(col_lookup).ids()[j] == BlockId(0)
            &&& with_block_map ==> forall|j: int| 0 <= j < 262144 && drawn[cell_chunk(j)] is Some
                ==> #[trigger] id_name(final(interner), final(col_lookup).ids()[j])
                    == Some(surface_block(&drawn[cell_chunk(j)]->Some_0, cell_col(j)))
        },
        !with_block_map ==> *final(col_lookup) == *old(col_lookup),
        is_err_of(r, RenderError::InternerFull) ==> exists|i: nat| i < 1024 && #[trigger] slot_drawable(old(loader).spec_data(), i),
        is_err_of(r, RenderError::InternerFull) ==> interner_full(final(interner)),
        r matches Ok(m) ==> (m is Some <==> with_block_map),
        r matches Ok(Some(m)) ==> m.built_from(final(col_lookup).ids()),
        r matches Err(e) && e == RenderError::NoChunkOk ==> forall|cx: int, cz: int| 0 <= cx < 32 && 0 <= cz < 32
            ==> #[trigger] tile_clear(final(img)@, cx, cz),
        r matches Err(e) && e == RenderError::InternerFull ==> with_block_map,
        r matches Err(e) && e == RenderError::TooManyBlocks ==> with_block_map && final(col_lookup).ids().to_set().len() > 4096,
{
    let ghost d = loader.spec_data();
    let ghost names = interner.static_interner.spec_names();
    clear_image(img);
    proof {
        lemma_zero_tiles(img@);
    }
    if with_block_map {
        col_lookup.clear();
    }
    let mut height_cache = HeightCache::default();
    let ghost mut drawn: Seq<Option<Chunk>> = Seq::new(1024, |i: int| None);
    proof {
        height_cache.lemma_sizes();
        assert(height_cache.lower_contours() =~= unknown_heights(512));
        assert(height_cache.left_contour() =~= unknown_heights(16));
        assert(height_cache.sw_corners() =~= unknown_heights(32));
        assert(height_cache.next_sw() =~= unknown_heights(32));
    }
    let mut any_chunk_ok = false;
    let ghost mut wit: int = 0;
    let ghost lk_start = *col_lookup;
    let mut chunk_z: usize = 0;
    while chunk_z < 32
        invariant
            loader.spec_data() == d,
            d == old(loader).spec_data(),
            d.len() > 0,
            names == old(interner).static_interner.spec_names(),
            colors_ready(pal, interner),
            interner.static_interner == old(interner).static_interner,
            img@.len() == IMAGE_BYTES,
            chunk_z <= 32,
            drawn.len() == 1024,
            forall|m: int| 32 * chunk_z <= m < 1024 ==> drawn[drawn_kth(m)] is None,
            height_cache.lower_contours() == surface_lower(drawn, (32 * chunk_z) as nat),
            height_cache.left_contour() == surface_left(drawn, (32 * chunk_z) as nat),
            height_cache.sw_corners() == unknown_heights(32),
            height_cache.next_sw() == unknown_heights(32),
            forall|cx: int, cz: int| 0 <= cx < 32 && 0 <= cz < 32 ==> #[trigger] surface_tile_upto(
                img@, d, pal, names, drawn, cx, cz, depth_darken, 32 * chunk_z),
            !any_chunk_ok ==> forall|cx: int, cz: int| 0 <= cx < 32 && 0 <= cz < 32 ==> #[trigger] tile_clear(img@, cx, cz),
            forall|m: int| 0 <= m < 32 * chunk_z ==> #[trigger] slot_outcome(d, drawn[drawn_kth(m)], drawn_kth(m) as nat),
            !any_chunk_ok ==> forall|m: int| 0 <= m < 32 * chunk_z ==> #[trigger] drawn[drawn_kth(m)] is None,
            any_chunk_ok ==> 0 <= wit < 1024 && drawn[wit] is Some,
            !with_block_map ==> *col_lookup == *old(col_lookup),
            with_block_map ==> col_lookup.ids().len() == 262144,
            with_block_map ==> forall|j: int| 0 <= j < 262144 && drawn[cell_chunk(j)] is None
                ==> #[trigger] col_lookup.ids()[j] == BlockId(0),
            with_block_map ==> forall|j: int| 0 <= j < 262144 && drawn[cell_chunk(j)] is Some
                ==> #[trigger] id_name(&*interner, col_lookup.ids()[j]) == Some(surface_block(&drawn[cell_chunk(j)]->Some_0, cell_col(j))),
        decreases 32 - chunk_z,
    {
        let mut step: usize = 0;
        while step < 32
            invariant
                loader.spec_data() == d,
                d == old(loader).spec_data(),
                d.len() > 0,
                names == old(interner).static_interner.spec_names(),
                colors_ready(pal, interner),
                interner.static_interner == old(interner).static_interner,
                img@.len() == IMAGE_BYTES,
                chunk_z < 32,
                step <= 32,
                drawn.len() == 1024,
                forall|m: int| 32 * chunk_z + step <= m < 1024 ==> drawn[drawn_kth(m)] is None,
                height_cache.lower_contours() == surface_lower(drawn, (32 * chunk_z + step) as nat),
                height_cache.left_contour() == surface_left(drawn, (32 * chunk_z + step) as nat),
                height_cache.sw_corners() == unknown_heights(32),
                height_cache.next_sw() == unknown_heights(32),
                forall|cx: int, cz: int| 0 <= cx < 32 && 0 <= cz < 32 ==> #[trigger] surface_tile_upto(
                    img@, d, pal, names, drawn, cx, cz, depth_darken, 32 * chunk_z + step),
                !any_chunk_ok ==> forall|cx: int, cz: int| 0 <= cx < 32 && 0 <= cz < 32 ==> #[trigger] tile_clear(img@, cx, cz),
            forall|m: int| 0 <= m < 32 * chunk_z + step ==> #[trigger] slot_outcome(d, drawn[drawn_kth(m)], drawn_kth(m) as nat),
            !any_chunk_ok ==> forall|m: int| 0 <= m < 32 * chunk_z + step ==> #[trigger] drawn[drawn_kth(m)] is None,
            any_chunk_ok ==> 0 <= wit < 1024 && drawn[wit] is Some,
            !with_block_map ==> *col_lookup == *old(col_lookup),
            with_block_map ==> col_lookup.ids().len() == 262144,
            with_block_map ==> forall|j: int| 0 <= j < 262144 && drawn[cell_chunk(j)] is None
                ==> #[trigger] col_lookup.ids()[j] == BlockId(0),
                with_block_map ==> forall|j: int| 0 <= j < 262144 && drawn[cell_chunk(j)] is Some
                    ==> #[trigger] id_name(&*interner, col_lookup.ids()[j]) == Some(surface_block(&drawn[cell_chunk(j)]->Some_0, cell_col(j))),
            decreases 32 - step,
        {
            let chunk_x = 31 - step;
            let chunk_idx = 32 * chunk_z + chunk_x;
            let ghost k = 32 * chunk_z + step;
            let ghost img1 = img@;
            let ghost drawn1 = drawn;
            let ghost cache1 = height_cache;
            let ghost lk1 = *col_lookup;
            let ghost it1 = *interner;
            proof {
                assert(k / 32 == chunk_z);
                assert(k % 32 == step);
                assert(drawn_kth(k) == chunk_idx);
            }
            step = step + 1;
            let done: bool = match loader.get_chunk_data(chunk_idx) {
                Err(_) => {
                    proof {
                        assert(slot_outcome(d, None, chunk_idx as nat));
                    }
                    false
                },
                Ok(cd) => match from_bytes::<Chunk>(cd) {
                    Err(_) => {
                        proof {
                            assert(slot_nbt(d, chunk_idx as nat) == Some(cd@));
                            if drawable_nbt(cd@) {
                                let ch = choose|ch: Chunk| #[trigger] named_value_holds::<Chunk>(cd@, ch) && sections_laid_out(ch.spec_sections());
                                assert(named_value_holds::<Chunk>(cd@, ch));
                            }
                            assert(slot_outcome(d, None, chunk_idx as nat));
                        }
                        false
                    },
                    Ok((_, chunk0, _)) => {
                        let mut chunk = chunk0;
                        let ghost parsed = chunk;
                        proof {
                            assert(slot_nbt(d, chunk_idx as nat) == Some(cd@));
                            assert(named_value_holds::<Chunk>(cd@, parsed));
                        }
                        if chunk.validate_and_init().is_err() {
                            proof {
                                assert(!sections_laid_out(parsed.spec_sections()));
                                lemma_not_drawable(cd@, parsed);
                                assert(slot_outcome(d, None, chunk_idx as nat));
                            }
                            false
                        } else {
                            proof {
                                let p = payload_start(cd@)->Some_0;
                                let kk = <Chunk as DeserializePayload>::payload_len(cd@.skip(p as int))->Some_0;
                                assert(parsed.holds_payload(cd@.skip(p as int), kk));
                                assert(chunk.holds_payload(cd@.skip(p as int), kk));
                                assert(chunk_of_file(d, chunk_idx as nat, chunk));
                                assert(sections_laid_out(parsed.spec_sections()));
                                lemma_min_section_y_same(parsed.spec_sections(), chunk.spec_sections());
                                assert(slot_outcome(d, Some(chunk), chunk_idx as nat));
                                assert(drawable_nbt(cd@));
                            }
                            match draw_chunk_surface(&chunk, pal, interner, img, col_lookup, &mut height_cache, chunk_x, chunk_z, depth_darken, with_block_map) {
                                Ok(()) => {},
                                Err(e) => {
                                    proof {
                                        assert(slot_drawable(d, chunk_idx as nat));
                                        assert(0 <= chunk_idx < 1024);
                                        assert(slot_drawable(old(loader).spec_data(), chunk_idx as nat));
                                    }
                                    return Err(e);
                                },
                            }
                            proof {
                                drawn = drawn1.update(chunk_idx as int, Some(chunk));
                                wit = chunk_idx as int;
                                assert(tile_shows_surface(img@, &chunk, pal, names, cache1, chunk_x as int, chunk_z as int, depth_darken));
                            }
                            true
                        }
                    },
                },
            };
            proof {
                assert(slot_outcome(d, drawn[chunk_idx as int], chunk_idx as nat));
                assert(*col_lookup == lk1 || done);
            }
            if !done {
                height_cache.invalidate(chunk_x);
                proof {
                    height_cache.lemma_sizes();
                    assert(height_cache.lower_contours() =~= without_lower_row(cache1.lower_contours(), chunk_x as int));
                    assert(height_cache.next_sw() =~= unknown_heights(32));
                }
            } else {
                any_chunk_ok = true;
            }
            proof {
                assert forall|m: int| 0 <= m < 1024 && m != k implies drawn[drawn_kth(m)] == drawn1[drawn_kth(m)] by {
                    if m < k {
                        lemma_drawn_kth_distinct(m, k);
                    } else {
                        lemma_drawn_kth_distinct(k, m);
                    }
                }
                assert forall|m: int| 0 <= m < k implies drawn[drawn_kth(m)] == drawn1[drawn_kth(m)] by {
                    lemma_drawn_kth_distinct(m, k);
                }
                lemma_surface_cache_prefix(drawn1, drawn, k as nat);
                assert(height_cache.lower_contours() == surface_lower(drawn, (k + 1) as nat));
                assert(height_cache.left_contour() == surface_left(drawn, (k + 1) as nat));
                assert forall|cx: int, cz: int| 0 <= cx < 32 && 0 <= cz < 32 implies #[trigger] surface_tile_upto(
                    img@, d, pal, names, drawn, cx, cz, depth_darken, 32 * chunk_z + step) by {
                    assert(surface_tile_upto(img1, d, pal, names, drawn1, cx, cz, depth_darken, k));
                    if 32 * cz + 31 - cx != k {
                        lemma_surface_tile_kept(img1, img@, d, pal, names, drawn1, drawn, cx, cz, k, depth_darken);
                    } else {
                        lemma_drawn_kth_of(cx, cz);
                        if done {
                            lemma_surface_cache_prefix(drawn1, drawn, k as nat);
                        }
                    }
                }
                assert forall|m: int| 0 <= m < 32 * chunk_z + step implies #[trigger] slot_outcome(d, drawn[drawn_kth(m)], drawn_kth(m) as nat) by {
                    if m < k {
                        lemma_drawn_kth_distinct(m, k);
                    }
                }
                if !any_chunk_ok {
                    assert forall|m: int| 0 <= m < 32 * chunk_z + step implies #[trigger] drawn[drawn_kth(m)] is None by {
                        if m < k {
                            lemma_drawn_kth_distinct(m, k);
                        }
                    }
                }
                if with_block_map {
                    assert forall|j: int| 0 <= j < 262144 && drawn[cell_chunk(j)] is None implies #[trigger] col_lookup.ids()[j] == BlockId(0) by {
                        if cell_chunk(j) != chunk_idx {
                            assert(drawn[cell_chunk(j)] == drawn1[cell_chunk(j)]);
                            assert(lk1.ids()[j] == BlockId(0));
                        }
                    }
                    assert forall|j: int| 0 <= j < 262144 && drawn[cell_chunk(j)] is Some implies #[trigger] id_name(&*interner, col_lookup.ids()[j])
                        == Some(surface_block(&drawn[cell_chunk(j)]->Some_0, cell_col(j))) by {
                        if cell_chunk(j) != chunk_idx {
                            assert(drawn[cell_chunk(j)] == drawn1[cell_chunk(j)]);
                            assert(col_lookup.ids()[j] == lk1.ids()[j]);
                            assert(id_name(&it1, lk1.ids()[j]) == Some(surface_block(&drawn1[cell_chunk(j)]->Some_0, cell_col(j))));
                            lemma_id_name_kept(&it1, &*interner, lk1.ids()[j]);
                        }
                    }
                }
            }
        }
        finish_row(&mut height_cache);
        chunk_z = chunk_z + 1;
    }
    proof {
        assert forall|cx: int, cz: int| 0 <= cx < 32 && 0 <= cz < 32 implies #[trigger] surface_tile(
            img@, d, pal, names, drawn, cx, cz, depth_darken) by {
            assert(surface_tile_upto(img@, d, pal, names, drawn, cx, cz, depth_darken, 1024));
        }
        assert forall|i: int| 0 <= i < 1024 implies #[trigger] slot_outcome(d, drawn[i], i as nat) by {
            lemma_drawn_kth_of(i % 32, i / 32);
            assert(slot_outcome(d, drawn[drawn_kth(32 * (i / 32) + 31 - i % 32)], drawn_kth(32 * (i / 32) + 31 - i % 32) as nat));
        }
        if !any_chunk_ok {
            assert forall|i: int| 0 <= i < 1024 implies #[trigger] drawn[i] is None by {
                lemma_drawn_kth_of(i % 32, i / 32);
                assert(drawn[drawn_kth(32 * (i / 32) + 31 - i % 32)] is None);
            }
        }
    }
    if !any_chunk_ok {
        return Err(RenderError::NoChunkOk);
    }
    if with_block_map {
        match PackedBlockMap::try_new(col_lookup.as_array()) {
            Some(pack) => Ok(Some(pack)),
            None => Err(RenderError::TooManyBlocks),
        }
    } else {
        Ok(None)
    }
}

/// Whether a block counts as air (`watery` false) or as air or water (`watery` true).
pub open spec fn see_through(name: Seq<u8>, watery: bool) -> bool {
    if watery {
        name == air_name() || name == cave_air_name() || name == water_name() || name == bubble_column_name()
    } else {
        name == air_name() || name == cave_air_name()
    }
}

/// Looking down a column from height `s`, from `s - k` on: one above the first height
/// whose block does not count as see-through, looking no further than `s - 99`.
pub open spec fn spec_scan_down(c: &Chunk, s: u16, x: nat, z: nat, k: nat, watery: bool) -> u16
    decreases 100 - k,
{
    let h = if s >= k { (s - k) as u16 } else { 0u16 };
    if k >= 99 || !see_through(spec_block_or_air(c, x, h as nat, z), watery) {
        (h + 1) as u16
    } else {
        spec_scan_down(c, s, x, z, k + 1, watery)
    }
}

/// The synthetic height of a column cut at height `s`: `s` if the block just below
/// the cut does not count as see-through, else one above the first block below it that
/// does not.
pub open spec fn spec_synth_height(c: &Chunk, s: u16, x: nat, z: nat, watery: bool) -> u16 {
    let top = if s >= 1 { (s - 1) as u16 } else { 0u16 };
    if see_through(spec_block_or_air(c, x, top as nat, z), watery) {
        spec_scan_down(c, s, x, z, 2, watery)
    } else {
        s
    }
}

/// The scan ends at most one above the bottom of the chunk or one below the cut.
proof fn lemma_scan_bound(c: &Chunk, s: u16, x: nat, z: nat, k: nat, watery: bool)
    requires
        k >= 2,
    ensures
        spec_scan_down(c, s, x, z, k, watery) <= if s >= 2 { s - 1 } else { 1 },
    decreases 100 - k,
{
    let h = if s >= k { (s - k) as u16 } else { 0u16 };
    if k >= 99 || !see_through(spec_block_or_air(c, x, h as nat, z), watery) {
    } else {
        lemma_scan_bound(c, s, x, z, k + 1, watery);
    }
}

/// Whether a block counts as see-through.
fn is_see_through(block: &[u8], watery: bool) -> (r: bool)
    ensures
        r == see_through(block@, watery),
{
    if watery {
        is_watery(block)
    } else {
        is_airy(block)
    }
}

/// The synthetic height of column `(x, z)` of a chunk cut at height `s`.
fn synth_height(c: &Chunk, s: u16, x: u16, z: u16, watery: bool) -> (r: u16)
    requires
        c.wf(),
        x < 16,
        z < 16,
        s < 65535,
    ensures
        r == spec_synth_height(c, s, x as nat, z as nat, watery),
{
    let top = block_or_air(c, x, s.saturating_sub(1), z);
    if !is_see_through(top, watery) {
        return s;
    }
    let mut k: u16 = 2;
    loop
        invariant
            c.wf(),
            x < 16,
            z < 16,
            s < 65535,
            2 <= k <= 99,
            spec_synth_height(c, s, x as nat, z as nat, watery) == spec_scan_down(c, s, x as nat, z as nat, k as nat, watery),
        decreases 100 - k,
    {
        let h = s.saturating_sub(k);
        let below = block_or_air(c, x, h, z);
        if k == 99 || !is_see_through(below, watery) {
            return h + 1;
        }
        k = k + 1;
    }
}

/// The synthetic heights of a chunk cut at height `s`, row by row: looking through air
/// (`watery` false) or through air and water (`watery` true).
pub open spec fn synth_of(chunk: &Chunk, s: u16, watery: bool) -> Seq<u16> {
    Seq::new(256, |i: int| spec_synth_height(chunk, s, (i % 16) as nat, (i / 16) as nat, watery))
}

/// The colour of column `i` of a chunk cut at height `s`: the first block that is not
/// air below the cut, shaded by the synthetic heights around it, or for water the water
/// colour over the first block below that is neither air nor water; darkened by the
/// distance below the cut (if asked).
pub open spec fn slice_color(chunk: &Chunk, pal: &Palette, names: Seq<Seq<u8>>, c: HeightCache, cx: int, cz: int, s: u16, i: int, depth_darken: bool) -> [u8; 4] {
    let ws = synth_of(chunk, s, false);
    let bx = i % 16;
    let bz = i / 16;
    let h = ws[i];
    let top = spec_block_or_air(chunk, bx as nat, below(h) as nat, bz as nat);
    let col = if top != water_name() {
        spec_shade(name_color(pal, names, top), h, spec_neighbours(ws, c, cx, cz, bx, bz))
    } else {
        let hof = synth_of(chunk, s, true)[i];
        let under = spec_block_or_air(chunk, bx as nat, below(hof) as nat, bz as nat);
        let depth = ((if h >= hof { h - hof } else { 0 }) + 1) as u16;
        spec_water_color(pal.spec_water_col(), name_color(pal, names, under), depth)
    };
    if depth_darken && h < s {
        spec_alpha_blend_cols(col, [0u8, 0, 0, 255], spec_alpha_soft_depth_darken((s - h) as u16))
    } else {
        col
    }
}

/// Draws the columns of one chunk cut at height `slice_height`: each pixel of the chunk
/// gets [`slice_color`], every other pixel stays.
#[verifier::rlimit(60)]
#[verifier::spinoff_prover]
fn draw_chunk_slice(
    chunk: &Chunk,
    pal: &Palette,
    interner: &mut BlockInterner,
    img: &mut Vec<u8>,
    col_lookup: &mut ColorLookup,
    cache: &mut HeightCache,
    chunk_x: usize,
    chunk_z: usize,
    slice_height: u16,
    depth_darken: bool,
) -> (r: Result<(), RenderError>)
    requires
        chunk.wf(),
        colors_ready(pal, old(interner)),
        old(img)@.len() == IMAGE_BYTES,
        chunk_x < 32,
        chunk_z < 32,
        slice_height <= 4096,
    ensures
        colors_ready(pal, final(interner)),
        final(interner).static_interner == old(interner).static_interner,
        final(img)@.len() == IMAGE_BYTES,
        r matches Err(e) ==> e == RenderError::InternerFull,
        r is Ok ==> forall|i: int| 0 <= i < 256 ==> pixel_at(final(img)@, 16 * chunk_x + i % 16, 16 * chunk_z + i / 16)
            == (#[trigger] slice_color(chunk, pal, old(interner).static_interner.spec_names(), *old(cache), chunk_x as int, chunk_z as int, slice_height, i, depth_darken))@,
        r is Ok ==> forall|t: int| 0 <= t < IMAGE_BYTES && !in_chunk(t, chunk_x as int, chunk_z as int) ==> final(img)@[t] == old(img)@[t],
        r is Ok ==> final(cache).lower_contours() == with_lower_row(old(cache).lower_contours(), synth_of(chunk, slice_height, false), chunk_x as int),
        r is Ok ==> final(cache).left_contour() == left_column(synth_of(chunk, slice_height, false)),
        r is Ok ==> final(cache).sw_corners() == old(cache).sw_corners(),
        r is Ok ==> final(cache).next_sw() == old(cache).next_sw(),
        final(col_lookup).ids().len() == old(col_lookup).ids().len(),
        forall|j: int| 0 <= j < old(col_lookup).ids().len() && cell_chunk(j) != 32 * chunk_z + chunk_x
            ==> #[trigger] final(col_lookup).ids()[j] == old(col_lookup).ids()[j],
        interner_grows(old(interner), final(interner)),
        r is Err ==> interner_full(final(interner)),
        r is Ok ==> forall|j: int| 0 <= j < 262144 && cell_chunk(j) == 32 * chunk_z + chunk_x
            ==> #[trigger] id_name(final(interner), final(col_lookup).ids()[j]) == Some(slice_block(chunk, slice_height, cell_col(j))),
{
    let mut synth_world_surface = [slice_height; 256];
    let mut synth_ocean_floor = [slice_height; 256];
    let mut j: usize = 0;
    while j < 256
        invariant
            chunk.wf(),
            slice_height <= 4096,
            j <= 256,
            forall|t: int| 0 <= t < 256 ==> synth_world_surface@[t] <= 4096,
            forall|t: int| 0 <= t < 256 ==> synth_ocean_floor@[t] <= 4096,
            forall|t: int| 0 <= t < j ==> synth_world_surface@[t] == synth_of(chunk, slice_height, false)[t],
            forall|t: int| 0 <= t < j ==> synth_ocean_floor@[t] == synth_of(chunk, slice_height, true)[t],
        decreases 256 - j,
    {
        let bx = (j % 16) as u16;
        let bz = (j / 16) as u16;
        let ws = synth_height(chunk, slice_height, bx, bz, false);
        let of = synth_height(chunk, slice_height, bx, bz, true);
        proof {
            lemma_scan_bound(chunk, slice_height, bx as nat, bz as nat, 2, false);
            lemma_scan_bound(chunk, slice_height, bx as nat, bz as nat, 2, true);
        }
        synth_world_surface[j] = ws;
        synth_ocean_floor[j] = of;
        j = j + 1;
    }
    proof {
        assert(synth_world_surface@ =~= synth_of(chunk, slice_height, false));
        assert(synth_ocean_floor@ =~= synth_of(chunk, slice_height, true));
    }
    let ghost names = interner.static_interner.spec_names();
    let ghost c0 = *cache;
    let ghost img0 = img@;
    let ghost lk0 = *col_lookup;
    let ghost it0 = *interner;
    proof {
        cache.lemma_sizes();
        assert(cache.lower_contours() =~= Seq::new(512, |j: int|
            if 16 * chunk_x <= j < 16 * chunk_x + 16 && 240 + j - 16 * chunk_x < 0 { synth_world_surface@[240 + j - 16 * chunk_x] } else { c0.lower_contours()[j] }));
        assert(cache.next_left() =~= Seq::new(16, |bz: int| if 16 * bz < 0 { synth_world_surface@[16 * bz] } else { c0.next_left()[bz] }));
    }
    let mut i: usize = 0;
    while i < 256
        invariant
            chunk.wf(),
            synth_world_surface@ == synth_of(chunk, slice_height, false),
            synth_ocean_floor@ == synth_of(chunk, slice_height, true),
            forall|t: int| 0 <= t < 256 ==> synth_world_surface@[t] <= 4096,
            forall|t: int| 0 <= t < 256 ==> synth_ocean_floor@[t] <= 4096,
            colors_ready(pal, interner),
            interner.static_interner == old(interner).static_interner,
            names == old(interner).static_interner.spec_names(),
            c0 == *old(cache),
            img0 == old(img)@,
            img@.len() == IMAGE_BYTES,
            chunk_x < 32,
            chunk_z < 32,
            slice_height <= 4096,
            i <= 256,
            cache.left_contour() == c0.left_contour(),
            cache.sw_corners() == c0.sw_corners(),
            cache.next_sw() == c0.next_sw(),
            cache.lower_contours() == Seq::new(512, |j: int|
                if 16 * chunk_x <= j < 16 * chunk_x + 16 && 240 + j - 16 * chunk_x < i { synth_world_surface@[240 + j - 16 * chunk_x] } else { c0.lower_contours()[j] }),
            cache.next_left() == Seq::new(16, |bz: int| if 16 * bz < i { synth_world_surface@[16 * bz] } else { c0.next_left()[bz] }),
            i <= 240 ==> cache.lower_contours() == c0.lower_contours(),
            forall|j: int| 0 <= j < i ==> pixel_at(img@, 16 * chunk_x + j % 16, 16 * chunk_z + j / 16)
                == (#[trigger] slice_color(chunk, pal, names, c0, chunk_x as int, chunk_z as int, slice_height, j, depth_darken))@,
            forall|t: int| 0 <= t < IMAGE_BYTES && !in_chunk(t, chunk_x as int, chunk_z as int) ==> img@[t] == img0[t],
            lk0 == *old(col_lookup),
            col_lookup.ids().len() == lk0.ids().len(),
            forall|j: int| 0 <= j < lk0.ids().len() && cell_chunk(j) != 32 * chunk_z + chunk_x
                ==> #[trigger] col_lookup.ids()[j] == lk0.ids()[j],
            it0 == *old(interner),
            interner_grows(&it0, &*interner),
            col_lookup.ids().len() == 262144,
            forall|j: int| 0 <= j < 262144 && cell_chunk(j) == 32 * chunk_z + chunk_x && cell_col(j) < i
                ==> #[trigger] id_name(&*interner, col_lookup.ids()[j]) == Some(slice_block(chunk, slice_height, cell_col(j))),
        decreases 256 - i,
    {
        let bx = i % 16;
        let bz = i / 16;
        let h = synth_world_surface[i];
        let block = block_or_air(chunk, bx as u16, h.saturating_sub(1), bz as u16);
        let idx = 16 * chunk_x + bx + 512 * (16 * chunk_z + bz);
        proof {
            lemma_cell_chunk(chunk_x as int, chunk_z as int, bx as int, bz as int);
        }
        let ghost pre = *col_lookup;
        let ghost ipre = *interner;
        let res = top_color(pal, interner, col_lookup, block, idx, true);
        proof {
            assert(interner_grows(&it0, &*interner)) by {
                assert(it0.dyn_interner.spec_names().is_prefix_of(interner.dyn_interner.spec_names())) by {
                    assert(interner.dyn_interner.spec_names().subrange(0, it0.dyn_interner.spec_names().len() as int)
                        =~= ipre.dyn_interner.spec_names().subrange(0, it0.dyn_interner.spec_names().len() as int));
                }
            }
            if res is Ok {
                assert(block@ == slice_block(chunk, slice_height, i as int));
                assert forall|j: int| 0 <= j < 262144 && cell_chunk(j) == 32 * chunk_z + chunk_x && cell_col(j) < i + 1
                    implies #[trigger] id_name(&*interner, col_lookup.ids()[j]) == Some(slice_block(chunk, slice_height, cell_col(j))) by {
                    if j != idx {
                        assert(cell_col(j) < i);
                        assert(id_name(&ipre, pre.ids()[j]) == Some(slice_block(chunk, slice_height, cell_col(j))));
                        lemma_id_name_kept(&ipre, &*interner, pre.ids()[j]);
                    }
                }
            }
            assert forall|j: int| 0 <= j < lk0.ids().len() && cell_chunk(j) != 32 * chunk_z + chunk_x
                implies #[trigger] col_lookup.ids()[j] == lk0.ids()[j] by {
                assert(j != idx);
                assert(pre.ids()[j] == lk0.ids()[j]);
            }
        }
        let mut col = match res {
            Ok(c) => c,
            Err(e) => return Err(e),
        };
        let ghost want = slice_color(chunk, pal, names, c0, chunk_x as int, chunk_z as int, slice_height, i as int, depth_darken);
        if !bytes_eq(block, minecraft_water()) {
            let nb = neighbour_heights(&synth_world_surface, cache, chunk_x, chunk_z, bx, bz);
            proof {
                assert(nb == spec_neighbours(synth_world_surface@, c0, chunk_x as int, chunk_z as int, bx as int, bz as int));
            }
            col = shade(col, h, nb);
        } else {
            let h_ocean_floor = synth_ocean_floor[i];
            let block_below = block_or_air(chunk, bx as u16, h_ocean_floor.saturating_sub(1), bz as u16);
            let depth = h.saturating_sub(h_ocean_floor) + 1;
            col = water_color(pal, interner, block_below, depth);
        }
        if depth_darken && h < slice_height {
            let ghost s = col;
            col = soft_depth_darken_col(col, slice_height - h);
            proof {
                assert(s =~= if block@ != water_name() {
                    spec_shade(name_color(pal, names, block@), h, spec_neighbours(synth_world_surface@, c0, chunk_x as int, chunk_z as int, bx as int, bz as int))
                } else {
                    let hof = synth_ocean_floor@[i as int];
                    let under = spec_block_or_air(chunk, bx as nat, below(hof) as nat, bz as nat);
                    let depth = ((if h >= hof { h - hof } else { 0 }) + 1) as u16;
                    spec_water_color(pal.spec_water_col(), name_color(pal, names, under), depth)
                });
            }
        }
        proof {
            assert(col@ == want@);
        }
        let ghost before = img@;
        put_pixel(img, 16 * chunk_x + bx, 16 * chunk_z + bz, col);
        proof {
            let p = 512 * (16 * chunk_z + bz) + 16 * chunk_x + bx;
            assert(pixel_at(img@, 16 * chunk_x + bx, 16 * chunk_z + bz) =~= col@);
            assert forall|j: int| 0 <= j < i + 1 implies pixel_at(img@, 16 * chunk_x + j % 16, 16 * chunk_z + j / 16)
                == (#[trigger] slice_color(chunk, pal, names, c0, chunk_x as int, chunk_z as int, slice_height, j, depth_darken))@ by {
                if j < i {
                    let q = 512 * (16 * chunk_z + j / 16) + 16 * chunk_x + j % 16;
                    assert(q != p);
                    assert(pixel_at(img@, 16 * chunk_x + j % 16, 16 * chunk_z + j / 16)
                        =~= pixel_at(before, 16 * chunk_x + j % 16, 16 * chunk_z + j / 16));
                }
            }
            assert forall|t: int| 0 <= t < IMAGE_BYTES && !in_chunk(t, chunk_x as int, chunk_z as int) implies img@[t] == img0[t] by {
                if 4 * p <= t < 4 * p + 4 {
                    assert(t / 4 == p);
                    assert(p / 512 == 16 * chunk_z + bz);
                    assert(p % 512 == 16 * chunk_x + bx);
                }
            }
        }
        record_edges(cache, chunk_x, bx, bz, h);
        proof {
            cache.lemma_sizes();
            assert(cache.lower_contours() =~= Seq::new(512, |j: int|
                if 16 * chunk_x <= j < 16 * chunk_x + 16 && 240 + j - 16 * chunk_x < i + 1 { synth_world_surface@[240 + j - 16 * chunk_x] } else { c0.lower_contours()[j] }));
            assert(cache.next_left() =~= Seq::new(16, |z: int| if 16 * z < i + 1 { synth_world_surface@[16 * z] } else { c0.next_left()[z] }));
            if i + 1 <= 240 {
                assert(cache.lower_contours() =~= c0.lower_contours());
            }
        }
        i = i + 1;
    }
    finish_chunk(cache);
    proof {
        cache.lemma_sizes();
        assert(cache.lower_contours() =~= with_lower_row(c0.lower_contours(), synth_of(chunk, slice_height, false), chunk_x as int));
        assert(cache.left_contour() =~= left_column(synth_of(chunk, slice_height, false)));
    }
    Ok(())
}

/// The tile of chunk `(cx, cz)` shows `chunk` cut at height `s`, after the chunks
/// whose edges the cache `c` holds.
pub open spec fn tile_shows_slice(img: Seq<u8>, chunk: &Chunk, pal: &Palette, names: Seq<Seq<u8>>, c: HeightCache, cx: int, cz: int, s: u16, depth_darken: bool) -> bool {
    forall|i: int| 0 <= i < 256 ==> pixel_at(img, 16 * cx + i % 16, 16 * cz + i / 16)
        == (#[trigger] slice_color(chunk, pal, names, c, cx, cz, s, i, depth_darken))@
}

/// The height a region is cut at after the first `k` chunks in drawing order, `drawn`
/// holding the chunks drawn: `top`, lowered to the height limit of each chunk drawn.
pub open spec fn slice_cut(drawn: Seq<Option<Chunk>>, top: u16, k: nat) -> u16
    decreases k,
{
    if k == 0 {
        top
    } else {
        let prev = slice_cut(drawn, top, (k - 1) as nat);
        match drawn[drawn_kth(k - 1)] {
            Some(ch) => if ch.spec_y_limit() < prev { ch.spec_y_limit() } else { prev },
            None => prev,
        }
    }
}

/// The bottom-row heights cached after the first `k` chunks of a region cut at height
/// `top`: a drawn chunk leaves its bottom row of heights as cut, one that could not be
/// drawn forgets the row of its chunk column.
pub open spec fn slice_lower(drawn: Seq<Option<Chunk>>, top: u16, k: nat) -> Seq<u16>
    decreases k,
{
    if k == 0 {
        unknown_heights(512)
    } else {
        let prev = slice_lower(drawn, top, (k - 1) as nat);
        let cx = 31 - (k - 1) % 32;
        match drawn[drawn_kth(k - 1)] {
            Some(ch) => with_lower_row(prev, synth_of(&ch, slice_cut(drawn, top, k), false), cx),
            None => without_lower_row(prev, cx),
        }
    }
}

/// The left-column heights cached after the first `k` chunks of a region cut at height
/// `top`: those of the last chunk drawn, as cut.
pub open spec fn slice_left(drawn: Seq<Option<Chunk>>, top: u16, k: nat) -> Seq<u16>
    decreases k,
{
    if k == 0 {
        unknown_heights(16)
    } else {
        match drawn[drawn_kth(k - 1)] {
            Some(ch) => left_column(synth_of(&ch, slice_cut(drawn, top, k), false)),
            None => slice_left(drawn, top, (k - 1) as nat),
        }
    }
}

/// The tile of chunk `(cx, cz)` of a region cut at height `top` and drawn from the file
/// `d`, `drawn` holding the chunks drawn: transparent where no chunk is drawn; else a
/// well-formed chunk that holds what the file holds for it, cut at the height reached
/// once it is drawn, with the edges that the chunks drawn before it left in the cache
/// (no corner heights).
pub open spec fn slice_tile(img: Seq<u8>, d: Seq<u8>, pal: &Palette, names: Seq<Seq<u8>>, top: u16, drawn: Seq<Option<Chunk>>, cx: int, cz: int, depth_darken: bool) -> bool {
    let k = (32 * cz + 31 - cx) as nat;
    match drawn[32 * cz + cx] {
        None => tile_clear(img, cx, cz),
        Some(ch) => {
            &&& ch.wf()
            &&& chunk_of_file(d, (32 * cz + cx) as nat, ch)
            &&& exists|c: HeightCache| c.lower_contours() == slice_lower(drawn, top, k)
                && c.left_contour() == slice_left(drawn, top, k)
                && c.sw_corners() == unknown_heights(32)
                && #[trigger] tile_shows_slice(img, &ch, pal, names, c, cx, cz, slice_cut(drawn, top, k + 1), depth_darken)
        },
    }
}

/// The tile of chunk `(cx, cz)` after the first `k` chunks in drawing order.
spec fn slice_tile_upto(img: Seq<u8>, d: Seq<u8>, pal: &Palette, names: Seq<Seq<u8>>, top: u16, drawn: Seq<Option<Chunk>>, cx: int, cz: int, depth_darken: bool, k: int) -> bool {
    if 32 * cz + 31 - cx < k {
        slice_tile(img, d, pal, names, top, drawn, cx, cz, depth_darken)
    } else {
        drawn[32 * cz + cx] is None && tile_clear(img, cx, cz)
    }
}

/// The cut and the cached edges after the first `k` chunks depend only on those chunks.
proof fn lemma_slice_cache_prefix(drawn: Seq<Option<Chunk>>, drawn2: Seq<Option<Chunk>>, top: u16, k: nat)
    requires
        k <= 1024,
        forall|m: int| 0 <= m < k ==> drawn2[drawn_kth(m)] == drawn[drawn_kth(m)],
    ensures
        slice_cut(drawn2, top, k) == slice_cut(drawn, top, k),
        slice_lower(drawn2, top, k) == slice_lower(drawn, top, k),
        slice_left(drawn2, top, k) == slice_left(drawn, top, k),
    decreases k,
{
    if k > 0 {
        lemma_slice_cache_prefix(drawn, drawn2, top, (k - 1) as nat);
        assert(drawn2[drawn_kth(k - 1)] == drawn[drawn_kth(k - 1)]);
    }
}

/// Drawing chunk `drawn2[drawn_kth(k)]` into its tile keeps what every other tile
/// shows.
proof fn lemma_slice_tile_kept(img1: Seq<u8>, img2: Seq<u8>, d: Seq<u8>, pal: &Palette, names: Seq<Seq<u8>>, top: u16,
    drawn: Seq<Option<Chunk>>, drawn2: Seq<Option<Chunk>>, cx: int, cz: int, k: int, depth_darken: bool)
    requires
        img1.len() == IMAGE_BYTES,
        img2.len() == IMAGE_BYTES,
        drawn.len() == 1024,
        0 <= cx < 32,
        0 <= cz < 32,
        0 <= k < 1024,
        32 * cz + 31 - cx != k,
        forall|m: int| 0 <= m < 1024 && m != k ==> drawn2[drawn_kth(m)] == drawn[drawn_kth(m)],
        forall|t: int| 0 <= t < IMAGE_BYTES && !in_chunk(t, 31 - k % 32, k / 32) ==> img2[t] == img1[t],
        slice_tile_upto(img1, d, pal, names, top, drawn, cx, cz, depth_darken, k),
    ensures
        slice_tile_upto(img2, d, pal, names, top, drawn2, cx, cz, depth_darken, k + 1),
{
    let pos = 32 * cz + 31 - cx;
    lemma_drawn_kth_of(cx, cz);
    assert(k == 32 * (k / 32) + k % 32);
    assert(drawn2[32 * cz + cx] == drawn[32 * cz + cx]);
    lemma_other_tile_kept(img1, img2, cx, cz, 31 - k % 32, k / 32);
    if tile_clear(img1, cx, cz) {
        assert(tile_clear(img2, cx, cz));
    }
    if pos < k {
        if let Some(ch) = drawn[32 * cz + cx] {
            assert forall|m: int| 0 <= m < pos + 1 implies drawn2[drawn_kth(m)] == drawn[drawn_kth(m)] by {
                lemma_drawn_kth_distinct(m, k);
            }
            lemma_slice_cache_prefix(drawn, drawn2, top, pos as nat);
            lemma_slice_cache_prefix(drawn, drawn2, top, (pos + 1) as nat);
            let c = choose|c: HeightCache| c.lower_contours() == slice_lower(drawn, top, pos as nat)
                && c.left_contour() == slice_left(drawn, top, pos as nat)
                && c.sw_corners() == unknown_heights(32)
                && #[trigger] tile_shows_slice(img1, &ch, pal, names, c, cx, cz, slice_cut(drawn, top, (pos + 1) as nat), depth_darken);
            assert(tile_shows_slice(img2, &ch, pal, names, c, cx, cz, slice_cut(drawn, top, (pos + 1) as nat), depth_darken));
        }
    }
}

/// Draws a loaded region cut at height `slice_height` into a 512x512 RGBA image: each
/// column shows the first block that is not air below the cut (the cut is lowered to
/// the height of the lowest chunk seen so far). Every drawn column's block is recorded,
/// and with `with_block_map` returned packed. Fails if no chunk can be read.
#[verifier::rlimit(60)]
#[verifier::spinoff_prover]
pub fn render_slice(
    loader: &mut McaLoader,
    pal: &Palette,
    interner: &mut BlockInterner,
    img: &mut Vec<u8>,
    color_lookup: &mut ColorLookup,
    slice_height: u16,
    depth_darken: bool,
    with_block_map: bool,
) -> (r: Result<Option<PackedBlockMap>, RenderError>)
    requires
        old(loader).spec_data().len() > 0,
        colors_ready(pal, old(interner)),
        old(img)@.len() == IMAGE_BYTES,
    ensures
        final(loader).spec_data() == old(loader).spec_data(),
        colors_ready(pal, final(interner)),
        final(interner).static_interner == old(interner).static_interner,
        final(img)@.len() == IMAGE_BYTES,
        r is Ok || is_err_of(r, RenderError::NoChunkOk) || is_err_of(r, RenderError::TooManyBlocks) ==> exists|drawn: Seq<Option<Chunk>>| {
            &&& drawn.len() == 1024
            &&& forall|i: int| 0 <= i < 1024 ==> #[trigger] slot_outcome(old(loader).spec_data(), drawn[i], i as nat)
            &&& forall|cx: int, cz: int| 0 <= cx < 32 && 0 <= cz < 32 ==> #[trigger] slice_tile(
                final(img)@, old(loader).spec_data(), pal, old(interner).static_interner.spec_names(), slice_height, drawn, cx, cz, depth_darken)
            &&& is_err_of(r, RenderError::NoChunkOk) <==> forall|i: int| 0 <= i < 1024 ==> #[trigger] drawn[i] is None
            &&& with_block_map ==> forall|j: int| 0 <= j < 262144 && drawn[cell_chunk(j)] is None
                ==> #[trigger] final(color_lookup).ids()[j] == BlockId(0)
            &&& forall|j: int| 0 <= j < 262144 && drawn[cell_chunk(j)] is Some
                ==> #[trigger] id_name(final(interner), final(color_lookup).ids()[j])
                    == Some(slice_block(&drawn[cell_chunk(j)]->Some_0, slice_cut(drawn, slice_height, (order_of(cell_chunk(j)) + 1) as nat), cell_col(j)))
        },
        is_err_of(r, RenderError::InternerFull) ==> exists|i: nat| i < 1024 && #[trigger] slot_drawable(old(loader).spec_data(), i),
        is_err_of(r, RenderError::InternerFull) ==> interner_full(final(interner)),
        r matches Ok(m) ==> (m is Some <==> with_block_map),
        r matches Ok(Some(m)) ==> m.built_from(final(color_lookup).ids()),
        r matches Err(e) && e == RenderError::NoChunkOk ==> forall|cx: int, cz: int| 0 <= cx < 32 && 0 <= cz < 32
            ==> #[trigger] tile_clear(final(img)@, cx, cz),
        r matches Err(e) && e == RenderError::TooManyBlocks ==> with_block_map && final(color_lookup).ids().to_set().len() > 4096,
{
    let ghost d = loader.spec_data();
    let ghost names = interner.static_interner.spec_names();
    let ghost top = slice_height;
    clear_image(img);
    proof {
        lemma_zero_tiles(img@);
    }
    if with_block_map {
        color_lookup.clear();
    }
    let mut slice_height = slice_height;
    let mut height_cache = HeightCache::default();
    let ghost mut drawn: Seq<Option<Chunk>> = Seq::new(1024, |i: int| None);
    proof {
        height_cache.lemma_sizes();
        assert(height_cache.lower_contours() =~= unknown_heights(512));
        assert(height_cache.left_contour() =~= unknown_heights(16));
        assert(height_cache.sw_corners() =~= unknown_heights(32));
        assert(height_cache.next_sw() =~= unknown_heights(32));
    }
    let mut any_chunk_ok = false;
    let ghost mut wit: int = 0;
    let mut chunk_z: usize = 0;
    while chunk_z < 32
        invariant
            loader.spec_data() == d,
            d == old(loader).spec_data(),
            d.len() > 0,
            names == old(interner).static_interner.spec_names(),
            colors_ready(pal, interner),
            interner.static_interner == old(interner).static_interner,
            img@.len() == IMAGE_BYTES,
            chunk_z <= 32,
            drawn.len() == 1024,
            forall|m: int| 32 * chunk_z <= m < 1024 ==> drawn[drawn_kth(m)] is None,
            slice_height == slice_cut(drawn, top, (32 * chunk_z) as nat),
            height_cache.lower_contours() == slice_lower(drawn, top, (32 * chunk_z) as nat),
            height_cache.left_contour() == slice_left(drawn, top, (32 * chunk_z) as nat),
            height_cache.sw_corners() == unknown_heights(32),
            height_cache.next_sw() == unknown_heights(32),
            forall|cx: int, cz: int| 0 <= cx < 32 && 0 <= cz < 32 ==> #[trigger] slice_tile_upto(
                img@, d, pal, names, top, drawn, cx, cz, depth_darken, 32 * chunk_z),
            !any_chunk_ok ==> forall|cx: int, cz: int| 0 <= cx < 32 && 0 <= cz < 32 ==> #[trigger] tile_clear(img@, cx, cz),
            forall|m: int| 0 <= m < 32 * chunk_z ==> #[trigger] slot_outcome(d, drawn[drawn_kth(m)], drawn_kth(m) as nat),
            !any_chunk_ok ==> forall|m: int| 0 <= m < 32 * chunk_z ==> #[trigger] drawn[drawn_kth(m)] is None,
            any_chunk_ok ==> 0 <= wit < 1024 && drawn[wit] is Some,
            with_block_map ==> color_lookup.ids().len() == 262144,
            with_block_map ==> forall|j: int| 0 <= j < 262144 && drawn[cell_chunk(j)] is None
                ==> #[trigger] color_lookup.ids()[j] == BlockId(0),
            color_lookup.ids().len() == 262144,
            forall|c: int| 0 <= c < 1024 && drawn[c] is Some ==> 0 <= #[trigger] order_of(c) < 32 * chunk_z,
            forall|j: int| 0 <= j < 262144 && drawn[cell_chunk(j)] is Some
                ==> #[trigger] id_name(&*interner, color_lookup.ids()[j])
                    == Some(slice_block(&drawn[cell_chunk(j)]->Some_0, slice_cut(drawn, top, (order_of(cell_chunk(j)) + 1) as nat), cell_col(j))),
        decreases 32 - chunk_z,
    {
        let mut step: usize = 0;
        while step < 32
            invariant
                loader.spec_data() == d,
                d == old(loader).spec_data(),
                d.len() > 0,
                names == old(interner).static_interner.spec_names(),
                colors_ready(pal, interner),
                interner.static_interner == old(interner).static_interner,
                img@.len() == IMAGE_BYTES,
                chunk_z < 32,
                step <= 32,
                drawn.len() == 1024,
                forall|m: int| 32 * chunk_z + step <= m < 1024 ==> drawn[drawn_kth(m)] is None,
                slice_height == slice_cut(drawn, top, (32 * chunk_z + step) as nat),
                height_cache.lower_contours() == slice_lower(drawn, top, (32 * chunk_z + step) as nat),
                height_cache.left_contour() == slice_left(drawn, top, (32 * chunk_z + step) as nat),
                height_cache.sw_corners() == unknown_heights(32),
                height_cache.next_sw() == unknown_heights(32),
                forall|cx: int, cz: int| 0 <= cx < 32 && 0 <= cz < 32 ==> #[trigger] slice_tile_upto(
                    img@, d, pal, names, top, drawn, cx, cz, depth_darken, 32 * chunk_z + step),
                !any_chunk_ok ==> forall|cx: int, cz: int| 0 <= cx < 32 && 0 <= cz < 32 ==> #[trigger] tile_clear(img@, cx, cz),
            forall|m: int| 0 <= m < 32 * chunk_z + step ==> #[trigger] slot_outcome(d, drawn[drawn_kth(m)], drawn_kth(m) as nat),
            !any_chunk_ok ==> forall|m: int| 0 <= m < 32 * chunk_z + step ==> #[trigger] drawn[drawn_kth(m)] is None,
            any_chunk_ok ==> 0 <= wit < 1024 && drawn[wit] is Some,
            with_block_map ==> color_lookup.ids().len() == 262144,
            with_block_map ==> forall|j: int| 0 <= j < 262144 && drawn[cell_chunk(j)] is None
                ==> #[trigger] color_lookup.ids()[j] == BlockId(0),
            color_lookup.ids().len() == 262144,
            forall|c: int| 0 <= c < 1024 && drawn[c] is Some ==> 0 <= #[trigger] order_of(c) < 32 * chunk_z + step,
            forall|j: int| 0 <= j < 262144 && drawn[cell_chunk(j)] is Some
                ==> #[trigger] id_name(&*interner, color_lookup.ids()[j])
                    == Some(slice_block(&drawn[cell_chunk(j)]->Some_0, slice_cut(drawn, top, (order_of(cell_chunk(j)) + 1) as nat), cell_col(j))),
            decreases 32 - step,
        {
            let chunk_x = 31 - step;
            let chunk_idx = 32 * chunk_z + chunk_x;
            let ghost k = 32 * chunk_z + step;
            let ghost img1 = img@;
            let ghost drawn1 = drawn;
            let ghost cache1 = height_cache;
            let ghost cut1 = slice_height;
            let ghost lk1 = *color_lookup;
            let ghost it1 = *interner;
            proof {
                assert(k / 32 == chunk_z);
                assert(k % 32 == step);
                assert(drawn_kth(k) == chunk_idx);
            }
            step = step + 1;
            let done: bool = match loader.get_chunk_data(chunk_idx) {
                Err(_) => {
                    proof {
                        assert(slot_outcome(d, None, chunk_idx as nat));
                    }
                    false
                },
                Ok(cd) => match from_bytes::<Chunk>(cd) {
                    Err(_) => {
                        proof {
                            assert(slot_nbt(d, chunk_idx as nat) == Some(cd@));
                            if drawable_nbt(cd@) {
                                let ch = choose|ch: Chunk| #[trigger] named_value_holds::<Chunk>(cd@, ch) && sections_laid_out(ch.spec_sections());
                                assert(named_value_holds::<Chunk>(cd@, ch));
                            }
                            assert(slot_outcome(d, None, chunk_idx as nat));
                        }
                        false
                    },
                    Ok((_, chunk0, _)) => {
                        let mut chunk = chunk0;
                        let ghost parsed = chunk;
                        proof {
                            assert(slot_nbt(d, chunk_idx as nat) == Some(cd@));
                            assert(named_value_holds::<Chunk>(cd@, parsed));
                        }
                        if chunk.validate_and_init().is_err() {
                            proof {
                                assert(!sections_laid_out(parsed.spec_sections()));
                                lemma_not_drawable(cd@, parsed);
                                assert(slot_outcome(d, None, chunk_idx as nat));
                            }
                            false
                        } else {
                            proof {
                                let p = payload_start(cd@)->Some_0;
                                let kk = <Chunk as DeserializePayload>::payload_len(cd@.skip(p as int))->Some_0;
                                assert(parsed.holds_payload(cd@.skip(p as int), kk));
                                assert(chunk.holds_payload(cd@.skip(p as int), kk));
                                assert(chunk_of_file(d, chunk_idx as nat, chunk));
                                assert(sections_laid_out(parsed.spec_sections()));
                                lemma_min_section_y_same(parsed.spec_sections(), chunk.spec_sections());
                                assert(slot_outcome(d, Some(chunk), chunk_idx as nat));
                                assert(drawable_nbt(cd@));
                            }
                            let y_limit = chunk.y_limit();
                            if y_limit < slice_height {
                                slice_height = y_limit;
                            }
                            proof {
                                chunk.lemma_y_limit_bound();
                            }
                            match draw_chunk_slice(&chunk, pal, interner, img, color_lookup, &mut height_cache, chunk_x, chunk_z, slice_height, depth_darken) {
                                Ok(()) => {},
                                Err(e) => {
                                    proof {
                                        assert(slot_drawable(d, chunk_idx as nat));
                                        assert(0 <= chunk_idx < 1024);
                                        assert(slot_drawable(old(loader).spec_data(), chunk_idx as nat));
                                    }
                                    return Err(e);
                                },
                            }
                            proof {
                                drawn = drawn1.update(chunk_idx as int, Some(chunk));
                                wit = chunk_idx as int;
                                assert(tile_shows_slice(img@, &chunk, pal, names, cache1, chunk_x as int, chunk_z as int, slice_height, depth_darken));
                            }
                            true
                        }
                    },
                },
            };
            proof {
                assert(slot_outcome(d, drawn[chunk_idx as int], chunk_idx as nat));
            }
            if !done {
                height_cache.invalidate(chunk_x);
                proof {
                    height_cache.lemma_sizes();
                    assert(height_cache.lower_contours() =~= without_lower_row(cache1.lower_contours(), chunk_x as int));
                    assert(height_cache.next_sw() =~= unknown_heights(32));
                }
            } else {
                any_chunk_ok = true;
            }
            proof {
                assert forall|m: int| 0 <= m < 1024 && m != k implies drawn[drawn_kth(m)] == drawn1[drawn_kth(m)] by {
                    if m < k {
                        lemma_drawn_kth_distinct(m, k);
                    } else {
                        lemma_drawn_kth_distinct(k, m);
                    }
                }
                assert forall|m: int| 0 <= m < k implies drawn[drawn_kth(m)] == drawn1[drawn_kth(m)] by {
                    lemma_drawn_kth_distinct(m, k);
                }
                lemma_slice_cache_prefix(drawn1, drawn, top, k as nat);
                assert(slice_height == slice_cut(drawn, top, (k + 1) as nat));
                assert(height_cache.lower_contours() == slice_lower(drawn, top, (k + 1) as nat));
                assert(height_cache.left_contour() == slice_left(drawn, top, (k + 1) as nat));
                assert forall|cx: int, cz: int| 0 <= cx < 32 && 0 <= cz < 32 implies #[trigger] slice_tile_upto(
                    img@, d, pal, names, top, drawn, cx, cz, depth_darken, 32 * chunk_z + step) by {
                    assert(slice_tile_upto(img1, d, pal, names, top, drawn1, cx, cz, depth_darken, k));
                    if 32 * cz + 31 - cx != k {
                        lemma_slice_tile_kept(img1, img@, d, pal, names, top, drawn1, drawn, cx, cz, k, depth_darken);
                    } else {
                        lemma_drawn_kth_of(cx, cz);
                    }
                }
                assert forall|m: int| 0 <= m < 32 * chunk_z + step implies #[trigger] slot_outcome(d, drawn[drawn_kth(m)], drawn_kth(m) as nat) by {
                    if m < k {
                        lemma_drawn_kth_distinct(m, k);
                    }
                }
                if !any_chunk_ok {
                    assert forall|m: int| 0 <= m < 32 * chunk_z + step implies #[trigger] drawn[drawn_kth(m)] is None by {
                        if m < k {
                            lemma_drawn_kth_distinct(m, k);
                        }
                    }
                }
                assert(chunk_idx / 32 == chunk_z && chunk_idx % 32 == chunk_x) by {
                    vstd::arithmetic::div_mod::lemma_fundamental_div_mod_converse(chunk_idx as int, 32, chunk_z as int, chunk_x as int);
                }
                assert(order_of(chunk_idx as int) == k);
                assert forall|c: int| 0 <= c < 1024 && drawn[c] is Some implies 0 <= #[trigger] order_of(c) < 32 * chunk_z + step by {
                    if c != chunk_idx {
                        assert(drawn[c] == drawn1[c]);
                    }
                }
                assert forall|j: int| 0 <= j < 262144 && drawn[cell_chunk(j)] is Some implies #[trigger] id_name(&*interner, color_lookup.ids()[j])
                    == Some(slice_block(&drawn[cell_chunk(j)]->Some_0, slice_cut(drawn, top, (order_of(cell_chunk(j)) + 1) as nat), cell_col(j))) by {
                    let c = cell_chunk(j);
                    if c != chunk_idx {
                        assert(drawn[c] == drawn1[c]);
                        assert(color_lookup.ids()[j] == lk1.ids()[j]);
                        assert(0 <= order_of(c) < k);
                        assert forall|m: int| 0 <= m < order_of(c) + 1 implies drawn[drawn_kth(m)] == drawn1[drawn_kth(m)] by {
                            lemma_drawn_kth_distinct(m, k as int);
                        }
                        lemma_slice_cache_prefix(drawn1, drawn, top, (order_of(c) + 1) as nat);
                        assert(id_name(&it1, lk1.ids()[j]) == Some(slice_block(&drawn1[c]->Some_0, slice_cut(drawn1, top, (order_of(c) + 1) as nat), cell_col(j))));
                        lemma_id_name_kept(&it1, &*interner, lk1.ids()[j]);
                    }
                }
                if with_block_map {
                    assert forall|j: int| 0 <= j < 262144 && drawn[cell_chunk(j)] is None implies #[trigger] color_lookup.ids()[j] == BlockId(0) by {
                        if cell_chunk(j) != chunk_idx {
                            assert(drawn[cell_chunk(j)] == drawn1[cell_chunk(j)]);
                            assert(lk1.ids()[j] == BlockId(0));
                        }
                    }
                }
            }
        }
        finish_row(&mut height_cache);
        chunk_z = chunk_z + 1;
    }
    proof {
        assert forall|cx: int, cz: int| 0 <= cx < 32 && 0 <= cz < 32 implies #[trigger] slice_tile(
            img@, d, pal, names, top, drawn, cx, cz, depth_darken) by {
            assert(slice_tile_upto(img@, d, pal, names, top, drawn, cx, cz, depth_darken, 1024));
        }
        assert forall|i: int| 0 <= i < 1024 implies #[trigger] slot_outcome(d, drawn[i], i as nat) by {
            lemma_drawn_kth_of(i % 32, i / 32);
            assert(slot_outcome(d, drawn[drawn_kth(32 * (i / 32) + 31 - i % 32)], drawn_kth(32 * (i / 32) + 31 - i % 32) as nat));
        }
        if !any_chunk_ok {
            assert forall|i: int| 0 <= i < 1024 implies #[trigger] drawn[i] is None by {
                lemma_drawn_kth_of(i % 32, i / 32);
                assert(drawn[drawn_kth(32 * (i / 32) + 31 - i % 32)] is None);
            }
        }
    }
    if !any_chunk_ok {
        return Err(RenderError::NoChunkOk);
    }
    if with_block_map {
        match PackedBlockMap::try_new(color_lookup.as_array()) {
            Some(pack) => Ok(Some(pack)),
            None => Err(RenderError::TooManyBlocks),
        }
    } else {
        Ok(None)
    }
}


/// The palette's colours, and the colour of other blocks, are opaque.
pub open spec fn palette_opaque(pal: &Palette) -> bool {
    &&& forall|k: int| 0 <= k < pal.colors().len() ==> (#[trigger] pal.colors()[k])[3] == 255
    &&& pal.spec_default_col()[3] == 255
}

/// Every pixel drawn of a chunk is opaque where the palette's colours are: a block's
/// colour keeps its opacity when shaded, and water and darkening blend to opaque
/// colours.
pub proof fn lemma_drawn_pixels_opaque(chunk: &Chunk, pal: &Palette, names: Seq<Seq<u8>>, c: HeightCache, cx: int, cz: int, s: u16, i: int, depth_darken: bool)
    requires
        palette_opaque(pal),
        names.len() == pal.colors().len(),
    ensures
        surface_color(chunk, pal, names, c, cx, cz, i, depth_darken)[3] == 255,
        slice_color(chunk, pal, names, c, cx, cz, s, i, depth_darken)[3] == 255,
{
    assert forall|name: Seq<u8>| #[trigger] name_color(pal, names, name)[3] == 255 by {
        if names.contains(name) {
            let k = choose|k: int| 0 <= k < names.len() && names[k] == name;
            assert(pal.colors()[k][3] == 255);
        }
    }
}


/// The block names that the looks below a cut pass through, told apart by length.
proof fn lemma_name_lengths()
    ensures
        air_name().len() == 13,
        water_name().len() == 15,
        cave_air_name().len() == 18,
        bubble_column_name().len() == 23,
{
    reveal_strlit("minecraft:air");
    reveal_strlit("minecraft:water");
    reveal_strlit("minecraft:cave_air");
    reveal_strlit("minecraft:bubble_column");
    vstd::string::is_ascii_spec_bytes("minecraft:air");
    vstd::string::is_ascii_spec_bytes("minecraft:water");
    vstd::string::is_ascii_spec_bytes("minecraft:cave_air");
    vstd::string::is_ascii_spec_bytes("minecraft:bubble_column");
}

/// Looking down a column cut at a height passes only through air and cave air: water,
/// like every other block, stops the look, so water just below the cut is drawn at the
/// cut. The look for the ocean floor passes through water and bubble columns as well.
pub proof fn lemma_see_through(name: Seq<u8>, c: &Chunk, s: u16, x: nat, z: nat)
    ensures
        see_through(name, false) ==> name == air_name() || name == cave_air_name(),
        see_through(name, true) ==> name == air_name() || name == cave_air_name() || name == water_name()
            || name == bubble_column_name(),
        !see_through(water_name(), false),
        !see_through(bubble_column_name(), false),
        see_through(air_name(), false) && see_through(cave_air_name(), false),
        see_through(water_name(), true) && see_through(bubble_column_name(), true),
        spec_block_or_air(c, x, below(s) as nat, z) == water_name() ==> spec_synth_height(c, s, x, z, false) == s,
        spec_synth_height(c, s, x, z, false) != s ==> see_through(spec_block_or_air(c, x, below(s) as nat, z), false),
{
    lemma_name_lengths();
}


/// The look down from `s - k` on passes the blocks it looks through and stops above
/// the first one it does not, at the bottom, or 99 blocks below `s`.
proof fn lemma_scan_walk(c: &Chunk, s: u16, x: nat, z: nat, k: nat, watery: bool)
    requires
        2 <= k <= 99,
        s >= 1,
        forall|t: int| s - k < t < s && 0 <= t ==> #[trigger] see_through(spec_block_or_air(c, x, t as nat, z), watery),
    ensures
        ({
            let r = spec_scan_down(c, s, x, z, k, watery);
            &&& 1 <= r <= s
            &&& forall|t: int| r <= t < s ==> #[trigger] see_through(spec_block_or_air(c, x, t as nat, z), watery)
            &&& r == 1 || s - r + 1 >= 99 || !see_through(spec_block_or_air(c, x, (r - 1) as nat, z), watery)
        }),
    decreases 100 - k,
{
    let h = if s >= k { (s - k) as u16 } else { 0u16 };
    if !(k >= 99 || !see_through(spec_block_or_air(c, x, h as nat, z), watery)) {
        lemma_scan_walk(c, s, x, z, k + 1, watery);
    }
}

/// Looking down from the bottom ends one above it.
proof fn lemma_scan_bottom(c: &Chunk, x: nat, z: nat, k: nat, watery: bool)
    requires
        k <= 99,
    ensures
        spec_scan_down(c, 0, x, z, k, watery) == 1,
    decreases 100 - k,
{
    if !(k >= 99 || !see_through(spec_block_or_air(c, x, 0, z), watery)) {
        lemma_scan_bottom(c, x, z, k + 1, watery);
    }
}

/// A column cut at height `s` is drawn at the height `h` that the look down from the
/// cut reaches: every block from `h` up to the cut is looked through (air or cave air;
/// with `watery` also water and bubble columns), and the block just below `h` is not,
/// unless the look reached the bottom or went 99 blocks down.
pub proof fn lemma_synth_height(c: &Chunk, s: u16, x: nat, z: nat, watery: bool)
    ensures
        ({
            let h = spec_synth_height(c, s, x, z, watery);
            &&& forall|t: int| h <= t < s ==> #[trigger] see_through(spec_block_or_air(c, x, t as nat, z), watery)
            &&& h == s || h == 1 || s - h + 1 >= 99 || !see_through(spec_block_or_air(c, x, (h - 1) as nat, z), watery)
        }),
{
    if s >= 1 && see_through(spec_block_or_air(c, x, (s - 1) as nat, z), watery) {
        lemma_scan_walk(c, s, x, z, 2, watery);
    }
    if s == 0 {
        lemma_scan_bottom(c, x, z, 2, watery);
    }
}

} // verus!
