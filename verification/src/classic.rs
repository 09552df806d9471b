//! The shading rules of the first map renderer, which reads chunks through a
//! generic NBT deserializer: its tables differ from [`crate::colors`] in places.

use vstd::prelude::*;
use vstd::string::StringSliceAdditionalSpecFns;
use crate::bitpack::{bit_len, bits_required, longs_as_words, packed_get, slot_in_range, slots_per_word, unpack_from_longs};
use crate::palette::{bytes_eq, entry_color, parse_hex_rgb};
use crate::render::{
    HeightCache, IMAGE_BYTES, INVALID_HEIGHT, below, classic_neighbour_heights, finish_chunk, finish_row, height_diff,
    in_chunk, lemma_other_tile_kept, lemma_zero_tiles, pixel_at, put_pixel, record_edges, spec_height_diff,
    spec_classic_neighbours, spec_shade, tile_clear, with_lower_row, left_column, drawn_kth, unknown_heights,
};
use crate::colors::{
    alpha_blend_cols, alpha_water_dark, spec_alpha_blend_cols, spec_alpha_water_dark,
    spec_scale_channel, modulation_scale, spec_modulate_col,
};

verus! {

/// Opacity of the ground seen through water of a given depth.
pub open spec fn spec_alpha_water_transparency(depth: u16) -> u8 {
    if depth == 0 {
        140
    } else if depth == 1 {
        109
    } else if depth == 2 || depth == 3 {
        73
    } else if depth == 4 {
        10
    } else {
        0
    }
}

/// Opacity against black below the surface, or `None` where the colour is kept.
pub open spec fn spec_depth_darken_alpha(depth: u16) -> Option<u8> {
    if depth < 3 {
        None
    } else if depth < 8 {
        Some(255u8)
    } else if depth < 16 {
        Some(180u8)
    } else if depth < 24 {
        Some(130u8)
    } else if depth < 28 {
        Some(60u8)
    } else {
        Some(30u8)
    }
}

/// The colour of water of a given depth over ground of colour `block_col`.
pub open spec fn spec_water_color(water_col: [u8; 4], block_col: [u8; 4], depth: u16) -> [u8; 4] {
    let water_col_dark = spec_alpha_blend_cols(water_col, [0, 0, 0, 255], 153);
    let darkened = spec_alpha_blend_cols(water_col, water_col_dark, spec_alpha_water_dark(depth));
    spec_alpha_blend_cols(block_col, darkened, spec_alpha_water_transparency(depth))
}

/// Opacity of the ground seen through water of a given depth.
pub fn alpha_water_transparency(depth: u16) -> (r: u8)
    ensures
        r == spec_alpha_water_transparency(depth),
{
    match depth {
        0 => 140,
        1 => 109,
        2 => 73,
        3 => 73,
        4 => 10,
        _ => 0,
    }
}

/// One channel brightened or darkened by `m` steps (`-3..=3`).
pub fn modulate_u8(a: u8, m: i8) -> (r: u8)
    requires
        -3 <= m <= 3,
    ensures
        m == 0 ==> r == a,
        m != 0 ==> r == spec_scale_channel(a, modulation_scale(m)),
{
    let scale: u32 = match m {
        3 => 341,
        2 => 310,
        1 => 282,
        0 => return a,
        -1 => 230,
        -2 => 207,
        _ => 187,
    };
    proof {
        assert((a as u32) * scale <= 255 * 341) by (nonlinear_arith) requires a <= 255, scale <= 341;
    }
    let v = ((a as u32) * scale + 128) >> 8;
    proof {
        vstd::bits::lemma_u32_shr_is_div(((a as u32) * scale + 128) as u32, 8);
        vstd::arithmetic::power2::lemma2_to64();
    }
    (if v > 255 { 255 } else { v }) as u8
}

/// A colour brightened or darkened by `m` steps (`-3..=3`); alpha is kept.
pub fn modulate_col(col: [u8; 4], m: i8) -> (r: [u8; 4])
    requires
        -3 <= m <= 3,
    ensures
        r@ == spec_modulate_col(col, m)@,
{
    let r = modulate_u8(col[0], m);
    let g = modulate_u8(col[1], m);
    let b = modulate_u8(col[2], m);
    let res = [r, g, b, col[3]];
    proof {
        assert(res@ =~= spec_modulate_col(col, m)@);
    }
    res
}

/// The colour of water of a given depth over ground of colour `block_col`.
pub fn calc_water_color(water_col: [u8; 4], block_col: [u8; 4], depth: u16) -> (r: [u8; 4])
    ensures
        r@ == spec_water_color(water_col, block_col, depth)@,
{
    let water_col_dark = alpha_blend_cols(water_col, [0, 0, 0, 255], 153);
    let darkened_water_col = alpha_blend_cols(water_col, water_col_dark, alpha_water_dark(depth));
    proof {
        assert(water_col_dark =~= spec_alpha_blend_cols(water_col, [0, 0, 0, 255], 153));
        assert(darkened_water_col =~= spec_alpha_blend_cols(water_col, spec_alpha_blend_cols(water_col, [0, 0, 0, 255], 153), spec_alpha_water_dark(depth)));
    }
    alpha_blend_cols(block_col, darkened_water_col, alpha_water_transparency(depth))
}

/// Darkens a colour `depth` blocks below the reference height; within 3 blocks it is kept.
pub fn soft_depth_darken_col(c: [u8; 4], depth: u16) -> (r: [u8; 4])
    ensures
        spec_depth_darken_alpha(depth) is None ==> r == c,
        spec_depth_darken_alpha(depth) matches Some(a) ==> r@ == spec_alpha_blend_cols(c, [0, 0, 0, 255], a)@,
{
    let alpha: u8 = if depth < 3 {
        return c;
    } else if depth < 8 {
        255
    } else if depth < 16 {
        180
    } else if depth < 24 {
        130
    } else if depth < 28 {
        60
    } else {
        30
    };
    alpha_blend_cols(c, [0, 0, 0, 255], alpha)
}

/// The heightmaps of a chunk as signed 64-bit words, 9 bits per column.
pub struct Heightmaps {
    pub world_surface: Vec<i64>,
    pub ocean_floor: Vec<i64>,
}

impl Heightmaps {
    /// The world surface height at column `(x, z)`.
    pub fn world_surface_at(&self, x: u16, z: u16) -> (r: u16)
        requires
            z * 16 + x <= u16::MAX,
            slot_in_range(self.world_surface@.len(), 9, (z * 16 + x) as nat),
        ensures
            r as nat == packed_get(longs_as_words(self.world_surface@), 9, (z * 16 + x) as nat),
            r < 512,
    {
        let idx = z * 16 + x;
        proof { vstd::arithmetic::power2::lemma2_to64(); }
        unpack_from_longs(self.world_surface.as_slice(), 9, idx as usize)
    }

    /// The ocean floor height at column `(x, z)`.
    pub fn ocean_floor_at(&self, x: u16, z: u16) -> (r: u16)
        requires
            z * 16 + x <= u16::MAX,
            slot_in_range(self.ocean_floor@.len(), 9, (z * 16 + x) as nat),
        ensures
            r as nat == packed_get(longs_as_words(self.ocean_floor@), 9, (z * 16 + x) as nat),
            r < 512,
    {
        let idx = z * 16 + x;
        proof { vstd::arithmetic::power2::lemma2_to64(); }
        unpack_from_longs(self.ocean_floor.as_slice(), 9, idx as usize)
    }
}

/// The blocks of a section: a palette of names and packed indices into it.
pub struct BlockState {
    pub palette: Vec<String>,
    pub data: Option<Vec<i64>>,
}

/// A 16x16x16 section at height `y` (in sections).
pub struct Section {
    pub y: i8,
    pub block_states: BlockState,
}

/// The parts of a chunk the first renderer reads.
pub struct Chunk {
    pub status: String,
    pub sections: Vec<Section>,
    pub y_pos: i32,
    pub heightmaps: Heightmaps,
}

/// The section height of block height `y` in a chunk whose lowest section is at
/// `y_pos`, computed in 8 bits with wrap-around.
pub open spec fn section_index(y: u16, y_pos: i32) -> i8 {
    ((y / 16) as i8).wrapping_add(y_pos as i8)
}

/// The name `minecraft:air`.
pub open spec fn air_str() -> Seq<char> {
    "minecraft:air"@
}

/// The name of block `idx` of a section: air for an empty palette, the one block of a
/// palette of one, else the packed index at `idx` (with at least 4 bits) into the
/// palette; air where there is no packed data, where it is too short or wider than 12
/// bits, or where the index lies beyond the palette.
pub open spec fn spec_section_block(b: BlockState, idx: nat) -> Seq<char> {
    let n = b.palette@.len();
    if n == 0 {
        air_str()
    } else if n == 1 {
        b.palette@[0]@
    } else {
        match b.data {
            None => air_str(),
            Some(d) => {
                let bw = if bit_len((n - 1) as nat) < 4 { 4 } else { bit_len((n - 1) as nat) };
                if bw <= 12 && slot_in_range(d@.len(), bw, idx) {
                    let p = packed_get(longs_as_words(d@), bw, idx);
                    if p < n { b.palette@[p as int]@ } else { air_str() }
                } else {
                    air_str()
                }
            },
        }
    }
}

impl Chunk {
    /// The first section at the section height of block height `y`, if any.
    pub fn section_for_y(&self, y: u16) -> (r: Option<&Section>)
        ensures
            r matches Some(s) ==> exists|i: int| 0 <= i < self.sections@.len() && s == &self.sections@[i]
                && s.y == section_index(y, self.y_pos)
                && forall|j: int| 0 <= j < i ==> self.sections@[j].y != section_index(y, self.y_pos),
            r is None ==> forall|j: int| 0 <= j < self.sections@.len() ==> self.sections@[j].y != section_index(y, self.y_pos),
    {
        let section_idx = ((y / 16) as i8).wrapping_add(self.y_pos as i8);
        let mut i: usize = 0;
        while i < self.sections.len()
            invariant
                i <= self.sections@.len(),
                section_idx == section_index(y, self.y_pos),
                forall|j: int| 0 <= j < i ==> self.sections@[j].y != section_idx,
            decreases self.sections@.len() - i,
        {
            if self.sections[i].y == section_idx {
                return Some(&self.sections[i]);
            }
            i = i + 1;
        }
        None
    }

    /// The name of the block at `(x, y, z)`: air where no section holds that height.
    pub fn block_at(&self, x: u16, y: u16, z: u16) -> (r: &str)
        requires
            x < 16,
            z < 16,
        ensures
            match self.section_for_y_spec(y) {
                Some(s) => r@ == spec_section_block(s.block_states, ((y % 16) * 256 + 16 * z + x) as nat),
                None => r@ == air_str(),
            },
    {
        let air = "minecraft:air";
        match self.section_for_y(y) {
            Some(s) => {
                proof {
                    let i = choose|i: int| 0 <= i < self.sections@.len() && s == &self.sections@[i]
                        && s.y == section_index(y, self.y_pos)
                        && forall|j: int| 0 <= j < i ==> self.sections@[j].y != section_index(y, self.y_pos);
                    lemma_first_section_unique(self, y, i);
                }
                let n = s.block_states.palette.len();
                if n == 0 {
                    air
                } else if n == 1 {
                    s.block_states.palette[0].as_str()
                } else {
                    match &s.block_states.data {
                        None => air,
                        Some(data) => {
                            let b = bits_required(n);
                            let bit_width: usize = if b < 4 { 4 } else { b };
                            assert(bit_width >= 4);
                            if bit_width > 12 {
                                return air;
                            }
                            let block_idx = ((y % 16) * 256 + 16 * z + x) as usize;
                            let per = 64 / bit_width;
                            assert(per >= 5) by (nonlinear_arith) requires per == 64usize / bit_width, 4usize <= bit_width <= 12usize;
                            if block_idx / per >= data.len() {
                                return air;
                            }
                            let idx = unpack_from_longs(data.as_slice(), bit_width, block_idx) as usize;
                            if idx >= n {
                                air
                            } else {
                                s.block_states.palette[idx].as_str()
                            }
                        },
                    }
                }
            },
            None => air,
        }
    }

    /// The first section at the section height of `y`, if any.
    pub open spec fn section_for_y_spec(&self, y: u16) -> Option<Section> {
        let k = section_index(y, self.y_pos);
        if exists|i: int| 0 <= i < self.sections@.len() && self.sections@[i].y == k {
            let i = choose|i: int| 0 <= i < self.sections@.len() && self.sections@[i].y == k
                && forall|j: int| 0 <= j < i ==> self.sections@[j].y != k;
            Some(self.sections@[i])
        } else {
            None
        }
    }
}

/// The first section with a given height is the one `section_for_y_spec` picks.
proof fn lemma_first_section_unique(c: &Chunk, y: u16, i: int)
    requires
        0 <= i < c.sections@.len(),
        c.sections@[i].y == section_index(y, c.y_pos),
        forall|j: int| 0 <= j < i ==> c.sections@[j].y != section_index(y, c.y_pos),
    ensures
        c.section_for_y_spec(y) == Some(c.sections@[i]),
{
    let k = section_index(y, c.y_pos);
    let i2 = choose|i2: int| 0 <= i2 < c.sections@.len() && c.sections@[i2].y == k
        && forall|j: int| 0 <= j < i2 ==> c.sections@[j].y != k;
    assert(i2 == i) by {
        if i2 < i {
            assert(c.sections@[i2].y != k);
        } else if i2 > i {
            assert(c.sections@[i].y != k);
        }
    }
}

/// Block colours by name.
pub struct Palette {
    pub blocks: Vec<(String, [u8; 4])>,
}

/// The colour of the first entry named `name`, if any.
pub open spec fn spec_lookup(blocks: Seq<(String, [u8; 4])>, name: Seq<char>) -> Option<[u8; 4]>
    decreases blocks.len(),
{
    if blocks.len() == 0 {
        None
    } else if blocks[0].0@ == name {
        Some(blocks[0].1)
    } else {
        spec_lookup(blocks.skip(1), name)
    }
}

/// Whether two strings are equal.
pub fn str_eq(a: &str, b: &str) -> (r: bool)
    ensures
        r <==> a@ == b@,
{
    let r = bytes_eq(a.as_bytes(), b.as_bytes());
    proof {
        vstd::utf8::encode_utf8_decode_utf8(a@);
        vstd::utf8::encode_utf8_decode_utf8(b@);
    }
    r
}

impl Palette {
    /// The palette of named colour texts, each a `#RRGGBB` colour made fully opaque;
    /// fails with the message of the first text that is not one.
    pub fn from_strings(raw: &Vec<(String, String)>) -> (r: Result<Palette, String>)
        ensures
            r matches Ok(p) ==> p.blocks@.len() == raw@.len() && forall|k: int| 0 <= k < raw@.len() ==> {
                &&& (#[trigger] p.blocks@[k]).0@ == raw@[k].0@
                &&& entry_color(vstd::utf8::encode_utf8(raw@[k].1@)) == Some(p.blocks@[k].1)
            },
            r is Err <==> exists|k: int| 0 <= k < raw@.len() && entry_color(#[trigger] vstd::utf8::encode_utf8(raw@[k].1@)) is None,
    {
        let mut blocks: Vec<(String, [u8; 4])> = Vec::new();
        let mut k: usize = 0;
        while k < raw.len()
            invariant
                k <= raw@.len(),
                blocks@.len() == k,
                forall|j: int| 0 <= j < k ==> {
                    &&& (#[trigger] blocks@[j]).0@ == raw@[j].0@
                    &&& entry_color(vstd::utf8::encode_utf8(raw@[j].1@)) == Some(blocks@[j].1)
                },
            decreases raw@.len() - k,
        {
            let text = raw[k].1.as_str();
            match parse_hex_rgb(text) {
                Ok(c) => {
                    let col = [c[0], c[1], c[2], 255];
                    proof {
                        assert(entry_color(text.spec_bytes()) == Some(col));
                    }
                    blocks.push((raw[k].0.clone(), col));
                },
                Err(m) => {
                    proof {
                        assert(entry_color(vstd::utf8::encode_utf8(raw@[k as int].1@)) is None);
                    }
                    return Err(m);
                },
            }
            k = k + 1;
        }
        proof {
            assert forall|j: int| 0 <= j < raw@.len() implies entry_color(#[trigger] vstd::utf8::encode_utf8(raw@[j].1@)) is Some by {
                assert(entry_color(vstd::utf8::encode_utf8(raw@[j].1@)) == Some(blocks@[j].1));
            }
        }
        Ok(Palette { blocks })
    }

    /// The colour of the block named `name`, if the palette has one.
    pub fn get(&self, name: &str) -> (r: Option<[u8; 4]>)
        ensures
            r == spec_lookup(self.blocks@, name@),
    {
        let mut i: usize = 0;
        proof {
            assert(self.blocks@.skip(0) =~= self.blocks@);
        }
        while i < self.blocks.len()
            invariant
                i <= self.blocks@.len(),
                spec_lookup(self.blocks@, name@) == spec_lookup(self.blocks@.skip(i as int), name@),
            decreases self.blocks@.len() - i,
        {
            proof {
                assert(self.blocks@.skip(i as int).skip(1) =~= self.blocks@.skip(i + 1));
            }
            if str_eq(self.blocks[i].0.as_str(), name) {
                return Some(self.blocks[i].1);
            }
            i = i + 1;
        }
        None
    }
}

/// The name `minecraft:water`.
pub open spec fn water_str() -> Seq<char> {
    "minecraft:water"@
}

/// The world surface heights of a chunk's columns, row by row.
pub open spec fn classic_heights(c: Chunk) -> Seq<u16> {
    Seq::new(256, |i: int| packed_get(longs_as_words(c.heightmaps.world_surface@), 9, i as nat) as u16)
}

/// The world surface heights of a chunk's columns, row by row.
fn surface_heights(c: &Chunk) -> (r: [u16; 256])
    requires
        c.heightmaps.world_surface@.len() >= 37,
    ensures
        r@ == classic_heights(*c),
        forall|i: int| 0 <= i < 256 ==> r@[i] < 512,
{
    let mut hs = [0u16; 256];
    let mut i: usize = 0;
    while i < 256
        invariant
            c.heightmaps.world_surface@.len() >= 37,
            i <= 256,
            forall|j: int| 0 <= j < i ==> hs@[j] == classic_heights(*c)[j],
            forall|j: int| 0 <= j < i ==> hs@[j] < 512,
        decreases 256 - i,
    {
        let x = (i % 16) as u16;
        let z = (i / 16) as u16;
        proof {
            assert(slots_per_word(9) == 7);
        }
        hs[i] = c.heightmaps.world_surface_at(x, z);
        i = i + 1;
    }
    proof {
        assert(hs@ =~= classic_heights(*c));
    }
    hs
}

/// The name of the block at `(x, y, z)` of a chunk: air where no section holds that
/// height.
pub open spec fn classic_block(c: Chunk, x: u16, y: u16, z: u16) -> Seq<char> {
    match c.section_for_y_spec(y) {
        Some(s) => spec_section_block(s.block_states, ((y % 16) * 256 + 16 * z + x) as nat),
        None => air_str(),
    }
}

/// The colour that the palette gives a block, or `default`.
pub open spec fn color_or(pal: Palette, name: Seq<char>, default: [u8; 4]) -> [u8; 4] {
    match spec_lookup(pal.blocks@, name) {
        Some(c) => c,
        None => default,
    }
}

/// A colour darkened `depth` blocks below the reference height.
pub open spec fn spec_soft_darken(c: [u8; 4], depth: u16) -> [u8; 4] {
    match spec_depth_darken_alpha(depth) {
        None => c,
        Some(a) => spec_alpha_blend_cols(c, [0, 0, 0, 255], a),
    }
}

/// The colour of column `i` (row by row) of chunk `(cx, cz)`, drawn after the chunks
/// whose edges the cache `cache` holds: the palette colour of its top block (blue if
/// the palette has none) shaded by the slope and darkened below height 127, or for
/// water, the water colour over the ground below it.
pub open spec fn classic_color(c: Chunk, pal: Palette, water_col: [u8; 4], cache: HeightCache, cx: int, cz: int, i: int) -> [u8; 4] {
    let hs = classic_heights(c);
    let bx = i % 16;
    let bz = i / 16;
    let h = hs[i];
    let block = classic_block(c, bx as u16, below(h), bz as u16);
    let col = color_or(pal, block, [0, 0, 255, 255]);
    if block != water_str() {
        let m = spec_shade(col, h, spec_classic_neighbours(hs, cache, cx, cz, bx, bz));
        if h < 127 { spec_soft_darken(m, (127 - h) as u16) } else { m }
    } else {
        let hof = packed_get(longs_as_words(c.heightmaps.ocean_floor@), 9, i as nat) as u16;
        let under = classic_block(c, bx as u16, below(hof), bz as u16);
        let depth = ((if h >= hof { h - hof } else { 0 }) + 1) as u16;
        spec_water_color(water_col, color_or(pal, under, water_col), depth)
    }
}

/// The tile of chunk `(cx, cz)` shows chunk `c` drawn after the chunks whose edges the
/// cache holds.
pub open spec fn tile_shows_classic(img: Seq<u8>, c: Chunk, pal: Palette, water_col: [u8; 4], cache: HeightCache, cx: int, cz: int) -> bool {
    forall|i: int| 0 <= i < 256 ==> pixel_at(img, 16 * cx + i % 16, 16 * cz + i / 16)
        == (#[trigger] classic_color(c, pal, water_col, cache, cx, cz, i))@
}

/// Draws the columns of one chunk: each pixel of the chunk gets [`classic_color`],
/// every other pixel stays, and the cache takes the chunk's bottom row and left column.
#[verifier::rlimit(60)]
#[verifier::spinoff_prover]
fn draw_chunk(c: &Chunk, pal: &Palette, water_col: [u8; 4], img: &mut Vec<u8>, cache: &mut HeightCache, chunk_x: usize, chunk_z: usize)
    requires
        c.heightmaps.world_surface@.len() >= 37,
        c.heightmaps.ocean_floor@.len() >= 37,
        old(img)@.len() == IMAGE_BYTES,
        chunk_x < 32,
        chunk_z < 32,
    ensures
        final(img)@.len() == IMAGE_BYTES,
        tile_shows_classic(final(img)@, *c, *pal, water_col, *old(cache), chunk_x as int, chunk_z as int),
        forall|t: int| 0 <= t < IMAGE_BYTES && !in_chunk(t, chunk_x as int, chunk_z as int) ==> final(img)@[t] == old(img)@[t],
        final(cache).lower_contours() == with_lower_row(old(cache).lower_contours(), classic_heights(*c), chunk_x as int),
        final(cache).left_contour() == left_column(classic_heights(*c)),
        final(cache).sw_corners() == old(cache).sw_corners(),
        final(cache).next_sw() == old(cache).next_sw(),
{
    let hs = surface_heights(c);
    let ghost c0 = *cache;
    let ghost img0 = img@;
    let mut i: usize = 0;
    proof {
        cache.lemma_sizes();
        assert(cache.lower_contours() =~= Seq::new(512, |j: int|
            if 16 * chunk_x <= j < 16 * chunk_x + 16 && 240 + j - 16 * chunk_x < i { hs@[240 + j - 16 * chunk_x] } else { c0.lower_contours()[j] }));
        assert(cache.next_left() =~= Seq::new(16, |bz: int| if 16 * bz < i { hs@[16 * bz] } else { c0.next_left()[bz] }));
    }
    while i < 256
        invariant
            c.heightmaps.world_surface@.len() >= 37,
            c.heightmaps.ocean_floor@.len() >= 37,
            hs@ == classic_heights(*c),
            forall|j: int| 0 <= j < 256 ==> hs@[j] < 512,
            img@.len() == IMAGE_BYTES,
            img0 == old(img)@,
            c0 == *old(cache),
            chunk_x < 32,
            chunk_z < 32,
            i <= 256,
            cache.left_contour() == c0.left_contour(),
            cache.sw_corners() == c0.sw_corners(),
            cache.next_sw() == c0.next_sw(),
            cache.lower_contours() == Seq::new(512, |j: int|
                if 16 * chunk_x <= j < 16 * chunk_x + 16 && 240 + j - 16 * chunk_x < i { hs@[240 + j - 16 * chunk_x] } else { c0.lower_contours()[j] }),
            cache.next_left() == Seq::new(16, |bz: int| if 16 * bz < i { hs@[16 * bz] } else { c0.next_left()[bz] }),
            forall|j: int| 0 <= j < i ==> pixel_at(img@, 16 * chunk_x + j % 16, 16 * chunk_z + j / 16)
                == (#[trigger] classic_color(*c, *pal, water_col, c0, chunk_x as int, chunk_z as int, j))@,
            forall|t: int| 0 <= t < IMAGE_BYTES && !in_chunk(t, chunk_x as int, chunk_z as int) ==> img@[t] == img0[t],
        decreases 256 - i,
    {
        let bx = i % 16;
        let bz = i / 16;
        let h = hs[i];
        let block = c.block_at(bx as u16, h.saturating_sub(1), bz as u16);
        let mut col = match pal.get(block) {
            Some(col) => col,
            None => [0, 0, 255, 255],
        };
        let ghost want = classic_color(*c, *pal, water_col, c0, chunk_x as int, chunk_z as int, i as int);
        if !str_eq(block, "minecraft:water") {
            let nb = classic_neighbour_heights(&hs, cache, chunk_x, chunk_z, bx, bz);
            proof {
                assert(nb == spec_classic_neighbours(hs@, c0, chunk_x as int, chunk_z as int, bx as int, bz as int));
            }
            let mut modulus: i8 = 0;
            modulus = modulus + height_diff(h, nb.0);
            modulus = modulus + height_diff(h, nb.1);
            modulus = modulus + height_diff(h, nb.2);
            col = modulate_col(col, modulus);
            proof {
                assert(col =~= spec_shade(color_or(*pal, block@, [0, 0, 255, 255]), h, nb));
            }
            if h < 127 {
                col = soft_depth_darken_col(col, 127 - h);
            }
            proof {
                assert(col@ == want@);
            }
        } else {
            proof {
                assert(slots_per_word(9) == 7);
            }
            let h_ocean_floor = c.heightmaps.ocean_floor_at(bx as u16, bz as u16);
            let block_below = c.block_at(bx as u16, h_ocean_floor.saturating_sub(1), bz as u16);
            let depth = h.saturating_sub(h_ocean_floor) + 1;
            let block_col = match pal.get(block_below) {
                Some(col) => col,
                None => water_col,
            };
            col = calc_water_color(water_col, block_col, depth);
            proof {
                assert(bz * 16 + bx == i);
                assert(col@ == want@);
            }
        }
        let ghost before = img@;
        put_pixel(img, 16 * chunk_x + bx, 16 * chunk_z + bz, col);
        proof {
            let p = 512 * (16 * chunk_z + bz) + 16 * chunk_x + bx;
            assert(pixel_at(img@, 16 * chunk_x + bx, 16 * chunk_z + bz) =~= col@);
            assert forall|j: int| 0 <= j < i + 1 implies pixel_at(img@, 16 * chunk_x + j % 16, 16 * chunk_z + j / 16)
                == (#[trigger] classic_color(*c, *pal, water_col, c0, chunk_x as int, chunk_z as int, j))@ by {
                if j < i {
                    let q = 512 * (16 * chunk_z + j / 16) + 16 * chunk_x + j % 16;
                    assert(q != p);
                    assert(pixel_at(img@, 16 * chunk_x + j % 16, 16 * chunk_z + j / 16)
                        =~= pixel_at(before, 16 * chunk_x + j % 16, 16 * chunk_z + j / 16));
                }
            }
            assert forall|t: int| 0 <= t < IMAGE_BYTES && !in_chunk(t, chunk_x as int, chunk_z as int) implies img@[t] == img0[t] by {
                if 4 * p <= t < 4 * p + 4 {
                    assert(t / 4 == p);
                    assert(p / 512 == 16 * chunk_z + bz);
                    assert(p % 512 == 16 * chunk_x + bx);
                }
            }
        }
        record_edges(cache, chunk_x, bx, bz, h);
        proof {
            cache.lemma_sizes();
            assert(cache.lower_contours() =~= Seq::new(512, |j: int|
                if 16 * chunk_x <= j < 16 * chunk_x + 16 && 240 + j - 16 * chunk_x < i + 1 { hs@[240 + j - 16 * chunk_x] } else { c0.lower_contours()[j] }));
            assert(cache.next_left() =~= Seq::new(16, |z: int| if 16 * z < i + 1 { hs@[16 * z] } else { c0.next_left()[z] }));
        }
        i = i + 1;
    }
    finish_chunk(cache);
    proof {
        cache.lemma_sizes();
        assert(cache.lower_contours() =~= with_lower_row(c0.lower_contours(), classic_heights(*c), chunk_x as int));
        assert(cache.left_contour() =~= left_column(classic_heights(*c)));
    }
}

/// Whether the first renderer draws a chunk: it was read and both of its heightmaps
/// hold all 256 heights.
pub open spec fn drawable(o: Option<Chunk>) -> bool {
    o matches Some(c) && c.heightmaps.world_surface@.len() >= 37 && c.heightmaps.ocean_floor@.len() >= 37
}

/// The bottom-row heights cached after the first `k` chunks in drawing order.
pub open spec fn lower_after(chunks: Seq<Option<Chunk>>, k: nat) -> Seq<u16>
    decreases k,
{
    if k == 0 {
        unknown_heights(512)
    } else {
        let prev = lower_after(chunks, (k - 1) as nat);
        let o = chunks[drawn_kth(k - 1)];
        if drawable(o) {
            with_lower_row(prev, classic_heights(o->Some_0), 31 - (k - 1) % 32)
        } else {
            prev
        }
    }
}

/// The left-column heights cached after the first `k` chunks in drawing order: those
/// of the last chunk drawn.
pub open spec fn left_after(chunks: Seq<Option<Chunk>>, k: nat) -> Seq<u16>
    decreases k,
{
    if k == 0 {
        unknown_heights(16)
    } else {
        let o = chunks[drawn_kth(k - 1)];
        if drawable(o) {
            left_column(classic_heights(o->Some_0))
        } else {
            left_after(chunks, (k - 1) as nat)
        }
    }
}

/// The tile of chunk `(cx, cz)` of a region drawn by the first renderer: transparent
/// where the chunk is not drawn, else the chunk drawn with the edges that the chunks
/// drawn before it left in the cache (no corner heights).
pub open spec fn classic_tile(img: Seq<u8>, chunks: Seq<Option<Chunk>>, pal: Palette, water_col: [u8; 4], cx: int, cz: int) -> bool {
    let o = chunks[32 * cz + cx];
    let k = (32 * cz + 31 - cx) as nat;
    if drawable(o) {
        exists|cache: HeightCache| cache.lower_contours() == lower_after(chunks, k)
            && cache.left_contour() == left_after(chunks, k)
            && cache.sw_corners() == unknown_heights(32)
            && #[trigger] tile_shows_classic(img, o->Some_0, pal, water_col, cache, cx, cz)
    } else {
        tile_clear(img, cx, cz)
    }
}

/// The tile of chunk `(cx, cz)` after the first `k` chunks in drawing order.
spec fn classic_tile_upto(img: Seq<u8>, chunks: Seq<Option<Chunk>>, pal: Palette, water_col: [u8; 4], cx: int, cz: int, k: int) -> bool {
    if 32 * cz + 31 - cx < k {
        classic_tile(img, chunks, pal, water_col, cx, cz)
    } else {
        tile_clear(img, cx, cz)
    }
}

/// Drawing into the tile of chunk `(dx, dz)` keeps what every other tile shows.
proof fn lemma_classic_tile_kept(img1: Seq<u8>, img2: Seq<u8>, chunks: Seq<Option<Chunk>>, pal: Palette, water_col: [u8; 4], cx: int, cz: int, dx: int, dz: int, k: int)
    requires
        img1.len() == IMAGE_BYTES,
        img2.len() == IMAGE_BYTES,
        0 <= cx < 32,
        0 <= cz < 32,
        0 <= dx < 32,
        0 <= dz < 32,
        cx != dx || cz != dz,
        forall|t: int| 0 <= t < IMAGE_BYTES && !in_chunk(t, dx, dz) ==> img2[t] == img1[t],
        classic_tile_upto(img1, chunks, pal, water_col, cx, cz, k),
    ensures
        classic_tile_upto(img2, chunks, pal, water_col, cx, cz, k),
{
    lemma_other_tile_kept(img1, img2, cx, cz, dx, dz);
    if tile_clear(img1, cx, cz) {
        assert(tile_clear(img2, cx, cz));
    }
    if 32 * cz + 31 - cx < k && drawable(chunks[32 * cz + cx]) {
        let o = chunks[32 * cz + cx];
        let kk = (32 * cz + 31 - cx) as nat;
        let cache = choose|cache: HeightCache| cache.lower_contours() == lower_after(chunks, kk)
            && cache.left_contour() == left_after(chunks, kk)
            && cache.sw_corners() == unknown_heights(32)
            && #[trigger] tile_shows_classic(img1, o->Some_0, pal, water_col, cache, cx, cz);
        assert(tile_shows_classic(img2, o->Some_0, pal, water_col, cache, cx, cz));
    }
}

/// Draws a region from its 1024 chunks (`None` for chunks that could not be read)
/// into a 512x512 RGBA image, darkening columns below height 127. Chunks whose
/// heightmaps are too short are left transparent. The palette must have a colour for
/// water.
#[verifier::rlimit(60)]
pub fn render_mca(chunks: &Vec<Option<Chunk>>, pal: &Palette) -> (r: Vec<u8>)
    requires
        chunks@.len() == 1024,
        spec_lookup(pal.blocks@, water_str()) is Some,
    ensures
        r@.len() == IMAGE_BYTES,
        forall|cx: int, cz: int| 0 <= cx < 32 && 0 <= cz < 32 ==> #[trigger] classic_tile(
            r@, chunks@, *pal, spec_lookup(pal.blocks@, water_str())->Some_0, cx, cz),
{
    let water_col = match pal.get("minecraft:water") {
        Some(c) => c,
        None => [0, 0, 255, 255],
    };
    let mut img: Vec<u8> = vec![0; IMAGE_BYTES];
    proof {
        assert forall|t: int| 0 <= t < IMAGE_BYTES implies img@[t] == 0 by {
            assert(vstd::pervasive::cloned(0u8, img@[t]));
        }
        lemma_zero_tiles(img@);
    }
    let mut height_cache = HeightCache::default();
    proof {
        height_cache.lemma_sizes();
        assert(height_cache.lower_contours() =~= unknown_heights(512));
        assert(height_cache.left_contour() =~= unknown_heights(16));
        assert(height_cache.sw_corners() =~= unknown_heights(32));
        assert(height_cache.next_sw() =~= unknown_heights(32));
    }
    let mut chunk_z: usize = 0;
    while chunk_z < 32
        invariant
            chunks@.len() == 1024,
            water_col == spec_lookup(pal.blocks@, water_str())->Some_0,
            img@.len() == IMAGE_BYTES,
            chunk_z <= 32,
            height_cache.lower_contours() == lower_after(chunks@, (32 * chunk_z) as nat),
            height_cache.left_contour() == left_after(chunks@, (32 * chunk_z) as nat),
            height_cache.sw_corners() == unknown_heights(32),
            height_cache.next_sw() == unknown_heights(32),
            forall|cx: int, cz: int| 0 <= cx < 32 && 0 <= cz < 32 ==> #[trigger] classic_tile_upto(
                img@, chunks@, *pal, water_col, cx, cz, 32 * chunk_z),
        decreases 32 - chunk_z,
    {
        let mut step: usize = 0;
        while step < 32
            invariant
                chunks@.len() == 1024,
                water_col == spec_lookup(pal.blocks@, water_str())->Some_0,
                img@.len() == IMAGE_BYTES,
                chunk_z < 32,
                step <= 32,
                height_cache.lower_contours() == lower_after(chunks@, (32 * chunk_z + step) as nat),
                height_cache.left_contour() == left_after(chunks@, (32 * chunk_z + step) as nat),
                height_cache.sw_corners() == unknown_heights(32),
                height_cache.next_sw() == unknown_heights(32),
                forall|cx: int, cz: int| 0 <= cx < 32 && 0 <= cz < 32 ==> #[trigger] classic_tile_upto(
                    img@, chunks@, *pal, water_col, cx, cz, 32 * chunk_z + step),
            decreases 32 - step,
        {
            let chunk_x = 31 - step;
            let ghost k = 32 * chunk_z + step;
            let ghost img1 = img@;
            let ghost cache1 = height_cache;
            proof {
                assert(k / 32 == chunk_z);
                assert(k % 32 == step);
                assert(drawn_kth(k) == 32 * chunk_z + chunk_x);
            }
            step = step + 1;
            match &chunks[32 * chunk_z + chunk_x] {
                Some(c) => {
                    if c.heightmaps.world_surface.len() >= 37 && c.heightmaps.ocean_floor.len() >= 37 {
                        draw_chunk(c, pal, water_col, &mut img, &mut height_cache, chunk_x, chunk_z);
                    }
                },
                None => {},
            }
            proof {
                let o = chunks@[32 * chunk_z + chunk_x];
                if drawable(o) {
                    assert(tile_shows_classic(img@, o->Some_0, *pal, water_col, cache1, chunk_x as int, chunk_z as int));
                }
                assert forall|cx: int, cz: int| 0 <= cx < 32 && 0 <= cz < 32 implies #[trigger] classic_tile_upto(
                    img@, chunks@, *pal, water_col, cx, cz, 32 * chunk_z + step) by {
                    if cx != chunk_x || cz != chunk_z {
                        assert(classic_tile_upto(img1, chunks@, *pal, water_col, cx, cz, k));
                        if drawable(o) {
                            lemma_classic_tile_kept(img1, img@, chunks@, *pal, water_col, cx, cz, chunk_x as int, chunk_z as int, k);
                        }
                        assert(32 * cz + 31 - cx != k);
                    } else {
                        assert(classic_tile_upto(img1, chunks@, *pal, water_col, cx, cz, k));
                        assert(32 * cz + 31 - cx == k);
                    }
                }
            }
        }
        finish_row(&mut height_cache);
        chunk_z = chunk_z + 1;
    }
    proof {
        assert forall|cx: int, cz: int| 0 <= cx < 32 && 0 <= cz < 32 implies #[trigger] classic_tile(
            img@, chunks@, *pal, water_col, cx, cz) by {
            assert(classic_tile_upto(img@, chunks@, *pal, water_col, cx, cz, 1024));
        }
    }
    img
}

} // verus!
