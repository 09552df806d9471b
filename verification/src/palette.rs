//! Block colours: a palette of named blocks with static identifiers, an interner
//! that hands out identifiers for the names met while rendering, and the parsing of
//! `#RRGGBB` colours.

use vstd::prelude::*;
use vstd::string::StringSliceAdditionalSpecFns;
use crate::block_id::{BlockId, BlockIdVariants, DynId, SeqId, StaticId, specialize, STATIC_ID_MAX};

verus! {

/// Whether two byte strings are equal.
pub fn bytes_eq(a: &[u8], b: &[u8]) -> (r: bool)
    ensures
        r <==> a@ == b@,
{
    if a.len() != b.len() {
        return false;
    }
    let mut i: usize = 0;
    while i < a.len()
        invariant
            a@.len() == b@.len(),
            i <= a@.len(),
            forall|j: int| 0 <= j < i ==> a@[j] == b@[j],
        decreases a@.len() - i,
    {
        if a[i] != b[i] {
            return false;
        }
        i = i + 1;
    }
    proof {
        assert(a@ =~= b@);
    }
    true
}

/// A copy of a byte string.
pub fn copy_bytes(a: &[u8]) -> (r: Vec<u8>)
    ensures
        r@ == a@,
{
    let mut v: Vec<u8> = Vec::with_capacity(a.len());
    let mut i: usize = 0;
    while i < a.len()
        invariant
            i <= a@.len(),
            v@ == a@.take(i as int),
        decreases a@.len() - i,
    {
        v.push(a[i]);
        proof {
            assert(a@.take(i + 1) =~= a@.take(i as int).push(a@[i as int]));
        }
        i = i + 1;
    }
    proof {
        assert(a@.take(a@.len() as int) =~= a@);
    }
    v
}

/// The value of a hexadecimal digit, if `c` is one.
pub open spec fn hex_digit(c: u8) -> Option<nat> {
    if 48 <= c <= 57 {
        Some((c - 48) as nat)
    } else if 97 <= c <= 102 {
        Some((c - 87) as nat)
    } else if 65 <= c <= 70 {
        Some((c - 55) as nat)
    } else {
        None
    }
}

/// Two hexadecimal digits read as a byte.
pub open spec fn hex_pair(a: u8, b: u8) -> Option<nat> {
    match (hex_digit(a), hex_digit(b)) {
        (Some(x), Some(y)) => Some(16 * x + y),
        _ => None,
    }
}

/// A colour written `#` and six hexadecimal digits.
pub open spec fn hex_rgb_digits(s: Seq<u8>) -> bool {
    &&& s.len() == 7
    &&& s[0] == 35
    &&& forall|i: int| 1 <= i < 7 ==> (#[trigger] hex_digit(s[i])) is Some
}

/// A colour written `#RRGGBB`: seven ASCII characters starting with `#`.
pub open spec fn hex_rgb_format(s: Seq<u8>) -> bool {
    &&& s.len() == 7
    &&& forall|i: int| 0 <= i < 7 ==> s[i] < 128
    &&& s[0] == 35
}

/// The value of one hexadecimal character.
fn parse_hex_digit(c: u8) -> (r: Option<u8>)
    ensures
        r matches Some(v) ==> hex_digit(c) == Some(v as nat),
        r is None ==> hex_digit(c) is None,
{
    if 48 <= c && c <= 57 {
        Some(c - 48)
    } else if 97 <= c && c <= 102 {
        Some(c - 87)
    } else if 65 <= c && c <= 70 {
        Some(c - 55)
    } else {
        None
    }
}

/// Two hexadecimal characters as a byte.
fn parse_hex_pair(a: u8, b: u8) -> (r: Option<u8>)
    ensures
        r matches Some(v) ==> hex_pair(a, b) == Some(v as nat),
        r is None ==> hex_pair(a, b) is None,
{
    match (parse_hex_digit(a), parse_hex_digit(b)) {
        (Some(x), Some(y)) => Some(16 * x + y),
        _ => None,
    }
}

/// Parses a colour written `#RRGGBB` (hexadecimal digits in either case).
pub fn parse_hex_rgb(s: &str) -> (r: Result<[u8; 3], String>)
    ensures
        !hex_rgb_format(s.spec_bytes()) ==> (r matches Err(m) && m@ == "expected hex color with format #RRGGBB"@),
        hex_rgb_format(s.spec_bytes()) ==> ({
            let b = s.spec_bytes();
            match (hex_pair(b[1], b[2]), hex_pair(b[3], b[4]), hex_pair(b[5], b[6])) {
                (Some(x), Some(y), Some(z)) => r matches Ok(c) && c@ == seq![x as u8, y as u8, z as u8],
                _ => r matches Err(m) && m@ == "invalid digit found in string"@,
            }
        }),
        r is Ok <==> hex_rgb_digits(s.spec_bytes()),
        r matches Ok(c) ==> c@ == seq![
            hex_pair(s.spec_bytes()[1], s.spec_bytes()[2])->Some_0 as u8,
            hex_pair(s.spec_bytes()[3], s.spec_bytes()[4])->Some_0 as u8,
            hex_pair(s.spec_bytes()[5], s.spec_bytes()[6])->Some_0 as u8,
        ],
{
    let b = s.as_bytes();
    let mut ascii = true;
    if b.len() == 7 {
        let mut i: usize = 0;
        while i < 7
            invariant
                b@.len() == 7,
                i <= 7,
                ascii <==> forall|j: int| 0 <= j < i ==> b@[j] < 128,
            decreases 7 - i,
        {
            if b[i] >= 128 {
                ascii = false;
            }
            i = i + 1;
        }
    }
    if b.len() != 7 || !ascii || b[0] != 35 {
        return Err("expected hex color with format #RRGGBB".to_string());
    }
    let r = parse_hex_pair(b[1], b[2]);
    let g = parse_hex_pair(b[3], b[4]);
    let bl = parse_hex_pair(b[5], b[6]);
    match (r, g, bl) {
        (Some(r), Some(g), Some(bl)) => {
            let c = [r, g, bl];
            proof {
                assert(c@ =~= seq![r, g, bl]);
            }
            Ok(c)
        },
        _ => Err("invalid digit found in string".to_string()),
    }
}

/// Names interned under consecutive identifiers, starting at the smallest identifier
/// of `I`.
pub struct Interner<I> {
    next: I,
    names: Vec<Vec<u8>>,
    ids: Vec<I>,
}

impl<I: SeqId> Interner<I> {
    /// The interned names, in the order of their identifiers.
    pub closed spec fn spec_names(&self) -> Seq<Seq<u8>> {
        self.names@.map_values(|v: Vec<u8>| v@)
    }

    /// Name `k` has identifier `min + k`, no name occurs twice, and the next identifier
    /// follows the last one handed out.
    pub closed spec fn wf(&self) -> bool {
        &&& self.names@.len() == self.ids@.len()
        &&& forall|k: int| 0 <= k < self.ids@.len() ==> (#[trigger] self.ids@[k]).id_value() == I::min_value() + k
        &&& self.next.id_value() == I::min_value() + self.names@.len()
        &&& self.next.id_value() <= I::max_value()
        &&& forall|j: int, k: int| 0 <= j < k < self.names@.len() ==> self.spec_names()[j] != self.spec_names()[k]
    }

    /// A well-formed interner holds no name twice.
    pub proof fn lemma_names_distinct(&self)
        requires
            self.wf(),
        ensures
            forall|j: int, k: int| 0 <= j < self.spec_names().len() && 0 <= k < self.spec_names().len() && j != k
                ==> self.spec_names()[j] != self.spec_names()[k],
    {
        assert forall|j: int, k: int| 0 <= j < self.spec_names().len() && 0 <= k < self.spec_names().len() && j != k
            implies self.spec_names()[j] != self.spec_names()[k] by {
            if j > k {
                assert(self.spec_names()[k] != self.spec_names()[j]);
            }
        }
    }

    /// An empty interner.
    pub fn new() -> (r: Self)
        requires
            I::min_value() <= I::max_value(),
        ensures
            r.wf(),
            r.spec_names().len() == 0,
    {
        let r = Interner { next: I::min_id(), names: Vec::new(), ids: Vec::new() };
        proof {
            assert(r.spec_names() =~= Seq::<Seq<u8>>::empty());
        }
        r
    }

    /// The number of interned names.
    pub fn len(&self) -> (r: usize)
        ensures
            r == self.spec_names().len(),
    {
        self.names.len()
    }

    /// The identifier of `bs`, if it is interned.
    pub fn get_idx(&self, bs: &[u8]) -> (r: Option<I>)
        requires
            self.wf(),
        ensures
            r matches Some(i) ==> exists|k: int| 0 <= k < self.spec_names().len() && self.spec_names()[k] == bs@
                && i.id_value() == I::min_value() + k,
            r is None ==> !self.spec_names().contains(bs@),
    {
        let mut k: usize = 0;
        while k < self.names.len()
            invariant
                self.wf(),
                k <= self.names@.len(),
                forall|j: int| 0 <= j < k ==> self.spec_names()[j] != bs@,
            decreases self.names@.len() - k,
        {
            if bytes_eq(self.names[k].as_slice(), bs) {
                proof {
                    assert(self.spec_names()[k as int] == bs@);
                }
                return Some(self.ids[k]);
            }
            k = k + 1;
        }
        None
    }

    /// The identifier of `bs`, interning it under the next identifier if it is new.
    pub fn get_or_intern(&mut self, bs: &[u8]) -> (r: I)
        requires
            old(self).wf(),
            old(self).spec_names().contains(bs@) || I::min_value() + old(self).spec_names().len() < I::max_value(),
        ensures
            final(self).wf(),
            old(self).spec_names().contains(bs@) ==> final(self).spec_names() == old(self).spec_names(),
            !old(self).spec_names().contains(bs@) ==> final(self).spec_names() == old(self).spec_names().push(bs@),
            exists|k: int| 0 <= k < final(self).spec_names().len() && final(self).spec_names()[k] == bs@
                && r.id_value() == I::min_value() + k,
    {
        match self.get_idx(bs) {
            Some(i) => {
                return i;
            },
            None => {},
        }
        let idx = self.next;
        self.next = idx.next();
        let ghost old_names = self.spec_names();
        self.names.push(copy_bytes(bs));
        self.ids.push(idx);
        proof {
            assert(self.spec_names() =~= old_names.push(bs@));
            assert(self.spec_names()[old_names.len() as int] == bs@);
        }
        idx
    }

    /// The name interned under `idx`, if any.
    pub fn get_bs(&self, idx: I) -> (r: Option<&[u8]>)
        requires
            self.wf(),
        ensures
            idx.id_value() >= I::min_value() && idx.id_value() - I::min_value() < self.spec_names().len() ==> (r matches Some(b)
                && b@ == self.spec_names()[idx.id_value() - I::min_value()]),
            !(idx.id_value() >= I::min_value() && idx.id_value() - I::min_value() < self.spec_names().len()) ==> r is None,
    {
        let v = idx.to_usize();
        let lo = I::min_id().to_usize();
        if v < lo || v - lo >= self.names.len() {
            return None;
        }
        Some(self.names[v - lo].as_slice())
    }
}

/// The identifiers of block names: static ones for the palette's blocks, dynamic ones
/// for other names met while rendering.
pub struct BlockInterner {
    pub static_interner: Interner<StaticId>,
    pub dyn_interner: Interner<DynId>,
}

impl BlockInterner {
    /// Both interners are well formed.
    pub open spec fn wf(&self) -> bool {
        self.static_interner.wf() && self.dyn_interner.wf()
    }

    /// An interner with the given static names and no dynamic ones.
    pub fn new(static_interner: Interner<StaticId>) -> (r: Self)
        requires
            static_interner.wf(),
        ensures
            r.wf(),
            r.static_interner == static_interner,
            r.dyn_interner.spec_names().len() == 0,
    {
        BlockInterner { static_interner, dyn_interner: Interner::new() }
    }

    /// The static identifier of `bs`, if it is a palette block.
    pub fn get_idx_static(&self, bs: &[u8]) -> (r: Option<StaticId>)
        requires
            self.wf(),
        ensures
            r matches Some(i) ==> i.0 >= 1 && self.static_interner.spec_names()[i.0 - 1] == bs@
                && i.0 - 1 < self.static_interner.spec_names().len(),
            r is None ==> !self.static_interner.spec_names().contains(bs@),
    {
        self.static_interner.get_idx(bs)
    }

    /// The dynamic identifier of `bs`, if it has one.
    pub fn get_idx_dyn(&self, bs: &[u8]) -> (r: Option<BlockId>)
        requires
            self.wf(),
        ensures
            r matches Some(i) ==> i.0 >= 32768 && i.0 - 32768 < self.dyn_interner.spec_names().len()
                && self.dyn_interner.spec_names()[i.0 - 32768] == bs@,
            r is None ==> !self.dyn_interner.spec_names().contains(bs@),
    {
        match self.dyn_interner.get_idx(bs) {
            Some(i) => Some(BlockId::from(i)),
            None => None,
        }
    }

    /// Whether another dynamic identifier can be handed out.
    pub fn can_intern(&self) -> (r: bool)
        requires
            self.wf(),
        ensures
            r <==> 32768 + self.dyn_interner.spec_names().len() < 65535,
    {
        self.dyn_interner.len() < 65535 - 32768
    }

    /// The identifier of `bs`: its static identifier if it is a palette block, else its
    /// dynamic one, handed out now if it has none yet.
    pub fn get_or_intern(&mut self, bs: &[u8]) -> (r: BlockId)
        requires
            old(self).wf(),
            old(self).static_interner.spec_names().contains(bs@) || old(self).dyn_interner.spec_names().contains(bs@)
                || 32768 + old(self).dyn_interner.spec_names().len() < 65535,
        ensures
            final(self).wf(),
            final(self).static_interner == old(self).static_interner,
            old(self).static_interner.spec_names().contains(bs@) ==> ({
                &&& final(self).dyn_interner == old(self).dyn_interner
                &&& 1 <= r.0 <= STATIC_ID_MAX
                &&& r.0 - 1 < old(self).static_interner.spec_names().len()
                &&& old(self).static_interner.spec_names()[r.0 - 1] == bs@
            }),
            !old(self).static_interner.spec_names().contains(bs@) ==> ({
                &&& r.0 >= 32768
                &&& r.0 - 32768 < final(self).dyn_interner.spec_names().len()
                &&& final(self).dyn_interner.spec_names()[r.0 - 32768] == bs@
                &&& old(self).dyn_interner.spec_names().contains(bs@) ==> final(self).dyn_interner.spec_names() == old(self).dyn_interner.spec_names()
                &&& !old(self).dyn_interner.spec_names().contains(bs@) ==> final(self).dyn_interner.spec_names() == old(self).dyn_interner.spec_names().push(bs@)
            }),
    {
        match self.get_idx_static(bs) {
            Some(i) => {
                return BlockId::from(i);
            },
            None => {},
        }
        let i = self.dyn_interner.get_or_intern(bs);
        BlockId::from(i)
    }

    /// The name of block `idx`, if it has been handed out.
    pub fn get_bytes(&self, idx: BlockId) -> (r: Option<&[u8]>)
        requires
            self.wf(),
        ensures
            match specialize(idx.0) {
                BlockIdVariants::Invalid => r is None,
                BlockIdVariants::Static(s) => (s.0 - 1 < self.static_interner.spec_names().len()) ==> (r matches Some(b)
                    && b@ == self.static_interner.spec_names()[s.0 - 1]),
                BlockIdVariants::Dyn(d) => (d.0 - 32768 < self.dyn_interner.spec_names().len()) ==> (r matches Some(b)
                    && b@ == self.dyn_interner.spec_names()[d.0 - 32768]),
            },
    {
        match idx.into_specialized() {
            BlockIdVariants::Invalid => None,
            BlockIdVariants::Dyn(i) => self.dyn_interner.get_bs(i),
            BlockIdVariants::Static(i) => self.static_interner.get_bs(i),
        }
    }
}

/// The colours of the palette's blocks, by static identifier, with the colour of
/// other blocks and the colour of water.
pub struct Palette {
    static_palette: Vec<[u8; 4]>,
    default_col: [u8; 4],
    water_col: [u8; 4],
}

/// Why a palette could not be built.
#[derive(Debug, PartialEq, Eq, Structural)]
pub enum PaletteError {
    /// The palette has no colour for `minecraft:water`.
    NoWater,
    /// The palette names more blocks than there are static identifiers.
    TooManyBlocks,
}

/// The bytes of `minecraft:water`.
pub open spec fn water_name() -> Seq<u8> {
    "minecraft:water".spec_bytes()
}

/// The bytes of `minecraft:water`.
pub fn minecraft_water() -> (r: &'static [u8])
    ensures
        r@ == water_name(),
{
    let s = "minecraft:water";
    proof {
        reveal_strlit("minecraft:water");
        vstd::string::is_ascii_spec_bytes(s);
    }
    s.as_bytes()
}

impl Palette {
    /// The colour of static identifier `k + 1`.
    pub closed spec fn colors(&self) -> Seq<[u8; 4]> {
        self.static_palette@
    }

    /// The colour of blocks outside the palette.
    pub closed spec fn spec_default_col(&self) -> [u8; 4] {
        self.default_col
    }

    /// The colour of water.
    pub closed spec fn spec_water_col(&self) -> [u8; 4] {
        self.water_col
    }

    /// A palette with colour `p[k]` for static identifier `k + 1`; `default` for the rest.
    pub fn new(p: Vec<[u8; 4]>, default: [u8; 4], water: [u8; 4]) -> (r: Self)
        ensures
            r.colors() == p@,
            r.spec_default_col() == default,
            r.spec_water_col() == water,
    {
        Palette { static_palette: p, default_col: default, water_col: water }
    }

    /// The colour of block `id`: its palette colour if it is a static identifier,
    /// otherwise the default colour.
    pub open spec fn spec_color(&self, id: BlockId) -> [u8; 4] {
        match specialize(id.0) {
            BlockIdVariants::Static(s) => self.colors()[s.0 - 1],
            _ => self.spec_default_col(),
        }
    }

    /// The colour of block `id`.
    pub fn get_static_color_by_id(&self, id: BlockId) -> (r: [u8; 4])
        requires
            specialize(id.0) matches BlockIdVariants::Static(s) ==> s.0 <= self.colors().len(),
        ensures
            r == self.spec_color(id),
    {
        match id.into_specialized() {
            BlockIdVariants::Static(s) => self.static_palette[(s.0 - 1) as usize],
            _ => self.default_col,
        }
    }

    /// The colour of block `id`.
    pub fn get(&self, id: BlockId) -> (r: [u8; 4])
        requires
            specialize(id.0) matches BlockIdVariants::Static(s) ==> s.0 <= self.colors().len(),
        ensures
            r == self.spec_color(id),
    {
        self.get_static_color_by_id(id)
    }

    /// The colour of the block named `bs`: its palette colour if it is a palette block,
    /// otherwise the default colour.
    pub fn get_static_color_by_bytes(&self, interner: &BlockInterner, bs: &[u8]) -> (r: [u8; 4])
        requires
            interner.wf(),
            interner.static_interner.spec_names().len() == self.colors().len(),
        ensures
            self.colors().len() == interner.static_interner.spec_names().len(),
            interner.static_interner.spec_names().contains(bs@) ==> exists|k: int|
                0 <= k < self.colors().len() && interner.static_interner.spec_names()[k] == bs@ && r == self.colors()[k],
            !interner.static_interner.spec_names().contains(bs@) ==> r == self.spec_default_col(),
    {
        match interner.get_idx_static(bs) {
            Some(i) => self.static_palette[(i.0 - 1) as usize],
            None => {
                proof {
                    assert(!interner.static_interner.spec_names().contains(bs@));
                }
                self.default_col
            },
        }
    }
}

/// The colour of water.
pub fn get_water_col(pal: &Palette) -> (r: [u8; 4])
    ensures
        r == pal.spec_water_col(),
{
    pal.water_col
}

/// The names of `entries`, once each, in order of first occurrence.
pub open spec fn entry_names(entries: Seq<(Vec<u8>, [u8; 4])>) -> Seq<Seq<u8>>
    decreases entries.len(),
{
    if entries.len() == 0 {
        seq![]
    } else {
        let p = entry_names(entries.drop_last());
        let n = entries.last().0@;
        if p.contains(n) { p } else { p.push(n) }
    }
}

/// The colour of the last entry named `n` (black where there is none).
pub open spec fn last_color(entries: Seq<(Vec<u8>, [u8; 4])>, n: Seq<u8>) -> [u8; 4]
    decreases entries.len(),
{
    if entries.len() == 0 {
        [0u8, 0, 0, 0]
    } else if entries.last().0@ == n {
        entries.last().1
    } else {
        last_color(entries.drop_last(), n)
    }
}

/// The names of a prefix of the entries are a prefix of their names.
proof fn lemma_entry_names_prefix(e: Seq<(Vec<u8>, [u8; 4])>, j: int)
    requires
        0 <= j <= e.len(),
    ensures
        entry_names(e.take(j)).is_prefix_of(entry_names(e)),
    decreases e.len() - j,
{
    if j < e.len() {
        lemma_entry_names_prefix(e, j + 1);
        assert(e.take(j + 1).drop_last() =~= e.take(j));
    } else {
        assert(e.take(j) =~= e);
    }
}

/// Builds the palette and the interner from named colours: each new name gets the next
/// static identifier, and each name the colour of its last entry; water is drawn in
/// the colour of its last entry, blocks outside the palette blue. Fails with more than
/// 32766 names, or else without an entry for water.
pub fn palette_from_entries(entries: &Vec<(Vec<u8>, [u8; 4])>) -> (r: Result<(Palette, BlockInterner), PaletteError>)
    ensures
        r matches Ok((p, i)) ==> {
            &&& i.wf()
            &&& i.dyn_interner.spec_names().len() == 0
            &&& i.static_interner.spec_names() == entry_names(entries@)
            &&& i.static_interner.spec_names().len() == p.colors().len()
            &&& forall|k: int| 0 <= k < p.colors().len()
                ==> #[trigger] p.colors()[k] == last_color(entries@, i.static_interner.spec_names()[k])
            &&& p.spec_water_col() == last_color(entries@, water_name())
            &&& p.spec_default_col() == [0u8, 0, 255, 255]
        },
        r is Ok <==> entry_names(entries@).len() <= 32766 && entry_names(entries@).contains(water_name()),
        entry_names(entries@).len() > 32766 ==> r == Err::<(Palette, BlockInterner), PaletteError>(PaletteError::TooManyBlocks),
        entry_names(entries@).len() <= 32766 && !entry_names(entries@).contains(water_name())
            ==> r == Err::<(Palette, BlockInterner), PaletteError>(PaletteError::NoWater),
{
    let mut names: Interner<StaticId> = Interner::new();
    let mut pal: Vec<[u8; 4]> = Vec::new();
    let mut k: usize = 0;
    proof {
        assert(entries@.take(0) =~= Seq::<(Vec<u8>, [u8; 4])>::empty());
    }
    while k < entries.len()
        invariant
            names.wf(),
            names.spec_names().len() == pal@.len(),
            k <= entries@.len(),
            names.spec_names() == entry_names(entries@.take(k as int)),
            forall|n: int| 0 <= n < pal@.len() ==> #[trigger] pal@[n] == last_color(entries@.take(k as int), names.spec_names()[n]),
            names.spec_names().len() <= 32766,
        decreases entries@.len() - k,
    {
        let name = entries[k].0.as_slice();
        let col = entries[k].1;
        let ghost e1 = entries@.take(k + 1);
        proof {
            assert(e1.drop_last() =~= entries@.take(k as int));
            assert(e1.last() == entries@[k as int]);
        }
        if !(names.len() < 32766) {
            match names.get_idx(name) {
                Some(_) => {},
                None => {
                    proof {
                        assert(entry_names(e1).len() > 32766);
                        lemma_entry_names_prefix(entries@, k + 1);
                    }
                    return Err(PaletteError::TooManyBlocks);
                },
            }
        }
        let ghost before = names.spec_names();
        let ghost pal0 = pal@;
        let id = names.get_or_intern(name);
        let slot = (id.0 - 1) as usize;
        proof {
            names.lemma_names_distinct();
            assert(names.spec_names() == entry_names(e1));
            assert(names.spec_names()[slot as int] == name@);
        }
        if slot < pal.len() {
            pal.set(slot, col);
        } else {
            pal.push(col);
        }
        proof {
            assert forall|n: int| 0 <= n < pal@.len() implies #[trigger] pal@[n] == last_color(e1, names.spec_names()[n]) by {
                if n != slot {
                    assert(names.spec_names()[n] != name@);
                    assert(pal@[n] == pal0[n]);
                    assert(names.spec_names()[n] == before[n]);
                }
            }
        }
        k = k + 1;
    }
    proof {
        assert(entries@.take(entries@.len() as int) =~= entries@);
    }
    let block_interner = BlockInterner::new(names);
    let water_id = match block_interner.get_idx_static(minecraft_water()) {
        Some(i) => i,
        None => {
            return Err(PaletteError::NoWater);
        },
    };
    let water_col = pal[(water_id.0 - 1) as usize];
    let p = Palette::new(pal, [0, 0, 255, 255], water_col);
    proof {
        assert(p.colors() == pal@);
    }
    Ok((p, block_interner))
}

/// The colour of a palette entry: its `#RRGGBB` text parsed, fully opaque.
pub open spec fn entry_color(b: Seq<u8>) -> Option<[u8; 4]> {
    if !hex_rgb_format(b) {
        None
    } else {
        match (hex_pair(b[1], b[2]), hex_pair(b[3], b[4]), hex_pair(b[5], b[6])) {
            (Some(x), Some(y), Some(z)) => Some([x as u8, y as u8, z as u8, 255u8]),
            _ => None,
        }
    }
}

/// Turns the named colour texts of a palette file into named colours; fails with the
/// message of the first text that is not a `#RRGGBB` colour.
pub fn palette_entries_from_strings(raw: &Vec<(String, String)>) -> (r: Result<Vec<(Vec<u8>, [u8; 4])>, String>)
    ensures
        r matches Ok(v) ==> v@.len() == raw@.len() && forall|k: int| 0 <= k < raw@.len() ==> {
            &&& (#[trigger] v@[k]).0@ == vstd::utf8::encode_utf8(raw@[k].0@)
            &&& entry_color(vstd::utf8::encode_utf8(raw@[k].1@)) == Some(v@[k].1)
        },
        r is Err <==> exists|k: int| 0 <= k < raw@.len() && entry_color(#[trigger] vstd::utf8::encode_utf8(raw@[k].1@)) is None,
{
    let mut out: Vec<(Vec<u8>, [u8; 4])> = Vec::new();
    let mut k: usize = 0;
    while k < raw.len()
        invariant
            k <= raw@.len(),
            out@.len() == k,
            forall|j: int| 0 <= j < k ==> {
                &&& (#[trigger] out@[j]).0@ == vstd::utf8::encode_utf8(raw@[j].0@)
                &&& entry_color(vstd::utf8::encode_utf8(raw@[j].1@)) == Some(out@[j].1)
            },
        decreases raw@.len() - k,
    {
        let name = raw[k].0.as_str();
        let text = raw[k].1.as_str();
        match parse_hex_rgb(text) {
            Ok(c) => {
                let col = [c[0], c[1], c[2], 255];
                proof {
                    assert(entry_color(text.spec_bytes()) == Some(col));
                }
                out.push((copy_bytes(name.as_bytes()), col));
            },
            Err(m) => {
                proof {
                    assert(entry_color(vstd::utf8::encode_utf8(raw@[k as int].1@)) is None);
                }
                return Err(m);
            },
        }
        k = k + 1;
    }
    proof {
        assert forall|j: int| 0 <= j < raw@.len() implies entry_color(#[trigger] vstd::utf8::encode_utf8(raw@[j].1@)) is Some by {
            assert(entry_color(vstd::utf8::encode_utf8(raw@[j].1@)) == Some(out@[j].1));
        }
    }
    Ok(out)
}

/// An interned name has one identifier: two identifiers handed out for the same name
/// by a well-formed interner are equal. So interning a name again gives the
/// identifier it got the first time.
pub proof fn lemma_intern_stable<I: SeqId>(int_state: Interner<I>, bs: Seq<u8>, i: I, j: I)
    requires
        int_state.wf(),
        exists|k: int| 0 <= k < int_state.spec_names().len() && int_state.spec_names()[k] == bs && i.id_value() == I::min_value() + k,
        exists|k: int| 0 <= k < int_state.spec_names().len() && int_state.spec_names()[k] == bs && j.id_value() == I::min_value() + k,
    ensures
        i.id_value() == j.id_value(),
{
    let ki = choose|k: int| 0 <= k < int_state.spec_names().len() && int_state.spec_names()[k] == bs && i.id_value() == I::min_value() + k;
    let kj = choose|k: int| 0 <= k < int_state.spec_names().len() && int_state.spec_names()[k] == bs && j.id_value() == I::min_value() + k;
    if ki < kj {
        assert(int_state.spec_names()[ki] != int_state.spec_names()[kj]);
    } else if kj < ki {
        assert(int_state.spec_names()[kj] != int_state.spec_names()[ki]);
    }
}

} // verus!
