use vstd::prelude::*;
use vstd::arithmetic::power2::{pow2, lemma2_to64, lemma2_to64_rest, lemma_pow2_strictly_increases, lemma_pow2_pos};
use crate::bitpack::{
    bits_required, bit_len, fits, field, lemma_pack_step, lemma_pack_word_field, lemma_pack_word_bound,
    lemma_be_digit, lemma_be_value_bound, be_value, packed_get, pack_word, pack_words, word_chunk,
    num_words, slots_per_word, lemma_slot_shift, lemma_extract, lemma_pack_roundtrip,
};
use crate::block_id::{BlockId, BlockIdVariants, DynId, SeqId, StaticId, specialize, STATIC_ID_MAX, DYN_ID_MIN};

verus! {

/// Number of block columns in a region (512 by 512).
pub const REGION_AREA: usize = 262144;

/// The identifier is a static one.
pub open spec fn is_static(b: BlockId) -> bool {
    1 <= b.0 <= STATIC_ID_MAX
}

/// The identifier is a dynamic one.
pub open spec fn is_dyn(b: BlockId) -> bool {
    b.0 >= DYN_ID_MIN
}

/// An inclusive range `min..=max` of identifiers; `size` is its length (0 when `min > max`).
pub struct Bounds<T> {
    pub min: T,
    pub max: T,
    pub size: usize,
}

impl<T: SeqId> Bounds<T> {
    /// The range `min..=max`.
    pub fn new(min: T, max: T) -> (b: Self)
        requires
            min.id_value() > max.id_value() || max.id_value() - min.id_value() < usize::MAX,
        ensures
            b.min == min,
            b.max == max,
            b.size == if min.id_value() > max.id_value() { 0 } else { max.id_value() - min.id_value() + 1 },
    {
        let min_u = min.to_usize();
        let max_u = max.to_usize();
        let size = if min_u > max_u { 0 } else { max_u - min_u + 1 };
        Self { min, max, size }
    }

    /// The position of `v` inside the range.
    pub fn to_index(&self, v: T) -> (r: usize)
        requires
            self.min.id_value() <= v.id_value() <= self.max.id_value(),
        ensures
            r == v.id_value() - self.min.id_value(),
    {
        v.to_usize() - self.min.to_usize()
    }
}

/// Every static identifier among `cs` lies in `lo..=hi`, and if there is one the
/// bounds are attained; otherwise `lo` is the largest and `hi` the smallest static identifier.
pub open spec fn static_bounds_of(cs: Seq<BlockId>, lo: nat, hi: nat) -> bool {
    &&& forall|i: int| 0 <= i < cs.len() && is_static(cs[i]) ==> lo <= (#[trigger] cs[i]).0 <= hi
    &&& (exists|i: int| 0 <= i < cs.len() && is_static(cs[i])) ==> {
        &&& exists|i: int| 0 <= i < cs.len() && is_static(cs[i]) && (#[trigger] cs[i]).0 == lo
        &&& exists|i: int| 0 <= i < cs.len() && is_static(cs[i]) && (#[trigger] cs[i]).0 == hi
    }
    &&& !(exists|i: int| 0 <= i < cs.len() && is_static(cs[i])) ==> lo == STATIC_ID_MAX && hi == 1
}

/// The same as [`static_bounds_of`] for dynamic identifiers.
pub open spec fn dyn_bounds_of(cs: Seq<BlockId>, lo: nat, hi: nat) -> bool {
    &&& forall|i: int| 0 <= i < cs.len() && is_dyn(cs[i]) ==> lo <= (#[trigger] cs[i]).0 <= hi
    &&& (exists|i: int| 0 <= i < cs.len() && is_dyn(cs[i])) ==> {
        &&& exists|i: int| 0 <= i < cs.len() && is_dyn(cs[i]) && (#[trigger] cs[i]).0 == lo
        &&& exists|i: int| 0 <= i < cs.len() && is_dyn(cs[i]) && (#[trigger] cs[i]).0 == hi
    }
    &&& !(exists|i: int| 0 <= i < cs.len() && is_dyn(cs[i])) ==> lo == u16::MAX && hi == DYN_ID_MIN
}

/// The smallest and largest static and dynamic identifiers among `cs`.
pub fn get_bounds(cs: &[BlockId; 262144]) -> (r: (Bounds<StaticId>, Bounds<DynId>))
    ensures
        static_bounds_of(cs@, r.0.min.0 as nat, r.0.max.0 as nat),
        dyn_bounds_of(cs@, r.1.min.0 as nat, r.1.max.0 as nat),
        r.0.size == if r.0.min.0 > r.0.max.0 { 0 } else { r.0.max.0 - r.0.min.0 + 1 },
        r.1.size == if r.1.min.0 > r.1.max.0 { 0 } else { r.1.max.0 - r.1.min.0 + 1 },
        1 <= r.0.min.0 <= STATIC_ID_MAX,
        1 <= r.0.max.0 <= STATIC_ID_MAX,
        DYN_ID_MIN <= r.1.min.0,
        DYN_ID_MIN <= r.1.max.0,
{
    let mut stat_min = StaticId::max_id();
    let mut stat_max = StaticId::min_id();
    let mut dyn_min = DynId::max_id();
    let mut dyn_max = DynId::min_id();
    let mut i: usize = 0;
    let ghost mut any_s = false;
    let ghost mut any_d = false;
    while i < REGION_AREA
        invariant
            i <= REGION_AREA,
            cs@.len() == REGION_AREA,
            any_s <==> exists|k: int| 0 <= k < i && is_static(cs@[k]),
            any_d <==> exists|k: int| 0 <= k < i && is_dyn(cs@[k]),
            forall|k: int| 0 <= k < i && is_static(cs@[k]) ==> stat_min.0 <= (#[trigger] cs@[k]).0 <= stat_max.0,
            forall|k: int| 0 <= k < i && is_dyn(cs@[k]) ==> dyn_min.0 <= (#[trigger] cs@[k]).0 <= dyn_max.0,
            any_s ==> exists|k: int| 0 <= k < i && is_static(cs@[k]) && (#[trigger] cs@[k]).0 == stat_min.0,
            any_s ==> exists|k: int| 0 <= k < i && is_static(cs@[k]) && (#[trigger] cs@[k]).0 == stat_max.0,
            any_d ==> exists|k: int| 0 <= k < i && is_dyn(cs@[k]) && (#[trigger] cs@[k]).0 == dyn_min.0,
            any_d ==> exists|k: int| 0 <= k < i && is_dyn(cs@[k]) && (#[trigger] cs@[k]).0 == dyn_max.0,
            !any_s ==> stat_min.0 == STATIC_ID_MAX && stat_max.0 == 1,
            !any_d ==> dyn_min.0 == u16::MAX && dyn_max.0 == DYN_ID_MIN,
            1 <= stat_min.0 <= STATIC_ID_MAX,
            1 <= stat_max.0 <= STATIC_ID_MAX,
            DYN_ID_MIN <= dyn_min.0,
            DYN_ID_MIN <= dyn_max.0,
        decreases REGION_AREA - i,
    {
        let v = cs[i];
        match v.into_specialized() {
            BlockIdVariants::Dyn(d) => {
                if d.0 < dyn_min.0 {
                    dyn_min = d;
                }
                if d.0 > dyn_max.0 {
                    dyn_max = d;
                }
                proof {
                    any_d = true;
                }
            },
            BlockIdVariants::Static(s) => {
                if s.0 < stat_min.0 {
                    stat_min = s;
                }
                if s.0 > stat_max.0 {
                    stat_max = s;
                }
                proof {
                    any_s = true;
                }
            },
            _ => {},
        }
        proof {
            assert(cs@[i as int] == v);
        }
        i = i + 1;
    }
    (Bounds::new(stat_min, stat_max), Bounds::new(dyn_min, dyn_max))
}

/// Maps the identifiers that occur in a region to positions in a palette, without a hash map.
pub struct BlockIdMapping {
    pal: Vec<BlockId>,
    m: Vec<u16>,
    s_bounds: Bounds<StaticId>,
    d_bounds: Bounds<DynId>,
}

/// A region's identifiers widened to a sequence of static identifiers' numbers.
pub open spec fn static_ids(v: Seq<StaticId>) -> Seq<BlockId> {
    v.map_values(|x: StaticId| BlockId(x.0))
}

/// The same for dynamic identifiers.
pub open spec fn dyn_ids(v: Seq<DynId>) -> Seq<BlockId> {
    v.map_values(|x: DynId| BlockId(x.0))
}

/// A sequence without repetitions whose elements all occur in `cs` is no longer
/// than the number of distinct elements of `cs`.
proof fn lemma_distinct_subset_len(q: Seq<BlockId>, cs: Seq<BlockId>)
    requires
        q.no_duplicates(),
        forall|t: int| 0 <= t < q.len() ==> cs.contains(#[trigger] q[t]),
    ensures
        q.len() <= cs.to_set().len(),
{
    q.unique_seq_to_set();
    assert(q.to_set().subset_of(cs.to_set())) by {
        assert forall|x: BlockId| q.to_set().contains(x) implies cs.to_set().contains(x) by {
            let t = choose|t: int| 0 <= t < q.len() && q[t] == x;
            assert(cs.contains(q[t]));
        }
    }
    vstd::seq_lib::seq_to_set_is_finite(cs);
    vstd::set_lib::lemma_len_subset(q.to_set(), cs.to_set());
}


/// The numbers of static identifiers.
pub open spec fn static_vals(v: Seq<StaticId>) -> Seq<u16> {
    v.map_values(|x: StaticId| x.0)
}

/// The numbers of dynamic identifiers.
pub open spec fn dyn_vals(v: Seq<DynId>) -> Seq<u16> {
    v.map_values(|x: DynId| x.0)
}

/// The identifier's number lies in `klo..=khi`.
pub open spec fn in_kind(b: BlockId, klo: int, khi: int) -> bool {
    klo <= b.0 <= khi
}

/// What the first pass over `cs[..i]` has found of the identifiers in `klo..=khi`:
/// `res` lists them once each in order of first occurrence, `pos` where each occurred,
/// `hits` marks (relative to `lo`) those found, and `wh` gives their place in `res`.
#[verifier::opaque]
pub open spec fn dedup_inv(
    cs: Seq<BlockId>, i: int, klo: int, khi: int, lo: int, hi: int,
    hits: Seq<bool>, res: Seq<u16>, wh: Seq<int>, pos: Seq<int>,
) -> bool {
    &&& hits.len() == wh.len()
    &&& pos.len() == res.len()
    &&& forall|t: int| 0 <= t < res.len() ==> {
        &&& klo <= (#[trigger] res[t]) <= khi
        &&& lo <= res[t] <= hi
        &&& res[t] - lo < hits.len()
        &&& hits[res[t] - lo]
        &&& wh[res[t] - lo] == t
        &&& 0 <= pos[t] < i
        &&& cs[pos[t]].0 == res[t]
    }
    &&& forall|j: int| 0 <= j < hits.len() && (#[trigger] hits[j]) ==>
        0 <= wh[j] < res.len() && res[wh[j]] == lo + j
    &&& forall|k: int| 0 <= k < i && in_kind(#[trigger] cs[k], klo, khi) ==>
        0 <= cs[k].0 - lo < hits.len() && hits[cs[k].0 - lo]
}

/// The numbers of the identifiers of `cs` in `klo..=khi`, once each, in order of
/// first occurrence.
pub open spec fn first_seen(cs: Seq<BlockId>, klo: int, khi: int) -> Seq<u16>
    decreases cs.len(),
{
    if cs.len() == 0 {
        seq![]
    } else {
        let p = first_seen(cs.drop_last(), klo, khi);
        let b = cs.last().0;
        if klo <= b <= khi && !p.contains(b) { p.push(b) } else { p }
    }
}

/// The palette of the mapping built for `cs`: its static identifiers in order of first
/// occurrence, then its dynamic ones in order of first occurrence, then the invalid
/// identifier if it occurs.
#[verifier::opaque]
pub open spec fn mapping_palette(cs: Seq<BlockId>) -> Seq<BlockId> {
    first_seen(cs, 1, STATIC_ID_MAX as int).map_values(|v: u16| BlockId(v))
        + first_seen(cs, DYN_ID_MIN as int, u16::MAX as int).map_values(|v: u16| BlockId(v))
        + if cs.contains(BlockId(0)) { seq![BlockId(0)] } else { Seq::<BlockId>::empty() }
}

/// What the first pass has found of a kind is found in `res` exactly where `hits`
/// marks it.
proof fn lemma_dedup_member(
    cs: Seq<BlockId>, i: int, klo: int, khi: int, lo: int, hi: int,
    hits: Seq<bool>, res: Seq<u16>, wh: Seq<int>, pos: Seq<int>, b: u16,
)
    requires
        dedup_inv(cs, i, klo, khi, lo, hi, hits, res, wh, pos),
        0 <= b - lo < hits.len(),
    ensures
        hits[b - lo] <==> res.contains(b),
{
    reveal(dedup_inv);
    if hits[b - lo] {
        assert(res[wh[b - lo]] == b);
    }
    if res.contains(b) {
        let t = choose|t: int| 0 <= t < res.len() && res[t] == b;
        assert(hits[res[t] - lo]);
    }
}

/// The bounds `lo..=hi` enclose every identifier of `cs` in `klo..=khi`, and `hits` covers them.
pub open spec fn kind_bounded(cs: Seq<BlockId>, klo: int, khi: int, lo: int, hi: int, n: int) -> bool {
    forall|k: int| 0 <= k < cs.len() && in_kind(#[trigger] cs[k], klo, khi) ==>
        lo <= cs[k].0 <= hi && cs[k].0 - lo < n
}

proof fn lemma_dedup_init(cs: Seq<BlockId>, klo: int, khi: int, lo: int, hi: int, hits: Seq<bool>, wh: Seq<int>)
    requires
        hits.len() == wh.len(),
        forall|j: int| 0 <= j < hits.len() ==> !hits[j],
    ensures
        dedup_inv(cs, 0, klo, khi, lo, hi, hits, seq![], wh, seq![]),
{
    reveal(dedup_inv);
}

proof fn lemma_dedup_skip(
    cs: Seq<BlockId>, i: int, klo: int, khi: int, lo: int, hi: int,
    hits: Seq<bool>, res: Seq<u16>, wh: Seq<int>, pos: Seq<int>,
)
    requires
        dedup_inv(cs, i, klo, khi, lo, hi, hits, res, wh, pos),
        0 <= i < cs.len(),
        !in_kind(cs[i], klo, khi),
    ensures
        dedup_inv(cs, i + 1, klo, khi, lo, hi, hits, res, wh, pos),
{
    reveal(dedup_inv);
}

proof fn lemma_dedup_hit(
    cs: Seq<BlockId>, i: int, klo: int, khi: int, lo: int, hi: int,
    hits: Seq<bool>, res: Seq<u16>, wh: Seq<int>, pos: Seq<int>,
)
    requires
        dedup_inv(cs, i, klo, khi, lo, hi, hits, res, wh, pos),
        0 <= i < cs.len(),
        in_kind(cs[i], klo, khi),
        0 <= cs[i].0 - lo < hits.len(),
        hits[cs[i].0 - lo],
    ensures
        dedup_inv(cs, i + 1, klo, khi, lo, hi, hits, res, wh, pos),
{
    reveal(dedup_inv);
}

proof fn lemma_dedup_push(
    cs: Seq<BlockId>, i: int, klo: int, khi: int, lo: int, hi: int,
    hits: Seq<bool>, res: Seq<u16>, wh: Seq<int>, pos: Seq<int>,
)
    requires
        dedup_inv(cs, i, klo, khi, lo, hi, hits, res, wh, pos),
        0 <= i < cs.len(),
        in_kind(cs[i], klo, khi),
        lo <= cs[i].0 <= hi,
        0 <= cs[i].0 - lo < hits.len(),
        !hits[cs[i].0 - lo],
    ensures
        dedup_inv(cs, i + 1, klo, khi, lo, hi,
            hits.update(cs[i].0 - lo, true), res.push(cs[i].0),
            wh.update(cs[i].0 - lo, res.len() as int), pos.push(i)),
{
    reveal(dedup_inv);
    let idx = cs[i].0 - lo;
    let hits2 = hits.update(idx, true);
    let res2 = res.push(cs[i].0);
    let wh2 = wh.update(idx, res.len() as int);
    let pos2 = pos.push(i);
    assert forall|t: int| 0 <= t < res2.len() implies {
        &&& klo <= (#[trigger] res2[t]) <= khi
        &&& lo <= res2[t] <= hi
        &&& res2[t] - lo < hits2.len()
        &&& hits2[res2[t] - lo]
        &&& wh2[res2[t] - lo] == t
        &&& 0 <= pos2[t] < i + 1
        &&& cs[pos2[t]].0 == res2[t]
    } by {
        if t < res.len() {
            assert(res2[t] == res[t]);
            assert(hits[res[t] - lo]);
            assert(res[t] - lo != idx);
        }
    }
    assert forall|j: int| 0 <= j < hits2.len() && (#[trigger] hits2[j]) implies
        0 <= wh2[j] < res2.len() && res2[wh2[j]] == lo + j by {
        if j != idx {
            assert(hits[j]);
        }
    }
    assert forall|k: int| 0 <= k < i + 1 && in_kind(#[trigger] cs[k], klo, khi) implies
        0 <= cs[k].0 - lo < hits2.len() && hits2[cs[k].0 - lo] by {
        if k < i {
            assert(hits[cs[k].0 - lo]);
        }
    }
}

/// What the first pass has established once it has gone through all of `cs`.
proof fn lemma_dedup_facts(
    cs: Seq<BlockId>, i: int, klo: int, khi: int, lo: int, hi: int,
    hits: Seq<bool>, res: Seq<u16>, wh: Seq<int>, pos: Seq<int>,
)
    requires
        dedup_inv(cs, i, klo, khi, lo, hi, hits, res, wh, pos),
        i == cs.len(),
        kind_bounded(cs, klo, khi, lo, hi, hits.len() as int),
    ensures
        hits.len() == wh.len(),
        pos.len() == res.len(),
        forall|t: int| 0 <= t < res.len() ==> {
            &&& klo <= (#[trigger] res[t]) <= khi
            &&& lo <= res[t] <= hi
            &&& res[t] - lo < hits.len()
            &&& wh[res[t] - lo] == t
            &&& 0 <= pos[t] < cs.len()
            &&& cs[pos[t]].0 == res[t]
        },
        forall|k: int| 0 <= k < cs.len() && in_kind(#[trigger] cs[k], klo, khi) ==> {
            &&& 0 <= cs[k].0 - lo < hits.len()
            &&& 0 <= wh[cs[k].0 - lo] < res.len()
            &&& res[wh[cs[k].0 - lo]] == cs[k].0
        },
{
    reveal(dedup_inv);
    assert forall|k: int| 0 <= k < cs.len() && in_kind(#[trigger] cs[k], klo, khi) implies {
        &&& 0 <= cs[k].0 - lo < hits.len()
        &&& 0 <= wh[cs[k].0 - lo] < res.len()
        &&& res[wh[cs[k].0 - lo]] == cs[k].0
    } by {
        assert(hits[cs[k].0 - lo]);
    }
}

impl BlockIdMapping {
    /// The palette: every identifier of the region, once.
    pub closed spec fn palette(&self) -> Seq<BlockId> {
        self.pal@
    }

    /// The palette positions of the identifiers of `cs`, as words.
    pub closed spec fn indices(&self, cs: Seq<BlockId>) -> Seq<u64> {
        Seq::new(cs.len(), |i: int| self.index_of(cs[i]) as u64)
    }

    /// The palette position that the mapping gives `b`.
    pub closed spec fn index_of(&self, b: BlockId) -> int {
        if is_static(b) {
            self.m@[b.0 - self.s_bounds.min.0] as int
        } else if is_dyn(b) {
            self.m@[b.0 - self.d_bounds.min.0 + self.s_bounds.size] as int
        } else {
            self.pal@.len() - 1
        }
    }

    /// `b` can be looked up.
    pub closed spec fn covers(&self, b: BlockId) -> bool {
        &&& is_static(b) ==> self.s_bounds.min.0 <= b.0 <= self.s_bounds.max.0
            && b.0 - self.s_bounds.min.0 < self.m@.len()
        &&& is_dyn(b) ==> self.d_bounds.min.0 <= b.0 <= self.d_bounds.max.0
            && b.0 - self.d_bounds.min.0 + self.s_bounds.size < self.m@.len()
        &&& b.0 == 0 ==> self.pal@.len() >= 1
        &&& self.s_bounds.size < 65536
    }

    /// The mapping was built from `cs`: every identifier of `cs` can be looked up and
    /// the palette entry at its position is that identifier; the palette holds each
    /// identifier of `cs` exactly once and nothing else.
    pub closed spec fn built_for(&self, cs: Seq<BlockId>) -> bool {
        &&& forall|i: int| 0 <= i < cs.len() ==> {
            &&& self.covers(#[trigger] cs[i])
            &&& 0 <= self.index_of(cs[i]) < self.pal@.len()
            &&& self.pal@[self.index_of(cs[i])] == cs[i]
        }
        &&& self.pal@.no_duplicates()
        &&& self.pal@.to_set() == cs.to_set()
        &&& self.pal@.len() >= 1
    }

    /// Builds the mapping for the identifiers of a region: static identifiers first
    /// (in order of first occurrence), then dynamic ones, then the invalid identifier
    /// if it occurs.
    /// At most 4096 distinct identifiers may occur: the packed map, the mapping's one
    /// user, takes no more (its positions are at most 12 bits wide).
    #[verifier::rlimit(50)]
    pub fn new(cs: &[BlockId; 262144]) -> (r: Self)
        requires
            cs@.to_set().len() <= 4096,
        ensures
            r.built_for(cs@),
            r.palette() == mapping_palette(cs@),
    {
        let (s_bounds, d_bounds) = get_bounds(cs);
        let mut s_hits = vec![false; s_bounds.size];
        let mut d_hits = vec![false; d_bounds.size];
        let mut have_invalid = false;
        let mut s_res: Vec<StaticId> = Vec::new();
        let mut d_res: Vec<DynId> = Vec::new();
        let ghost smin = s_bounds.min.0 as int;
        let ghost smax = s_bounds.max.0 as int;
        let ghost dmin = d_bounds.min.0 as int;
        let ghost dmax = d_bounds.max.0 as int;
        let ghost mut s_where: Seq<int> = Seq::new(s_bounds.size as nat, |j: int| 0);
        let ghost mut d_where: Seq<int> = Seq::new(d_bounds.size as nat, |j: int| 0);
        let ghost mut s_pos: Seq<int> = seq![];
        let ghost mut d_pos: Seq<int> = seq![];
        let ghost mut inv_pos: int = 0;
        proof {
            lemma_dedup_init(cs@, 1, STATIC_ID_MAX as int, smin, smax, s_hits@, s_where);
            lemma_dedup_init(cs@, DYN_ID_MIN as int, u16::MAX as int, dmin, dmax, d_hits@, d_where);
            assert(static_vals(s_res@) =~= seq![]);
            assert(dyn_vals(d_res@) =~= seq![]);
        }
        let mut i: usize = 0;
        while i < REGION_AREA
            invariant
                i <= REGION_AREA,
                cs@.len() == REGION_AREA,
                smin == s_bounds.min.0,
                smax == s_bounds.max.0,
                dmin == d_bounds.min.0,
                dmax == d_bounds.max.0,
                static_bounds_of(cs@, s_bounds.min.0 as nat, s_bounds.max.0 as nat),
                dyn_bounds_of(cs@, d_bounds.min.0 as nat, d_bounds.max.0 as nat),
                s_bounds.size == if s_bounds.min.0 > s_bounds.max.0 { 0 } else { s_bounds.max.0 - s_bounds.min.0 + 1 },
                d_bounds.size == if d_bounds.min.0 > d_bounds.max.0 { 0 } else { d_bounds.max.0 - d_bounds.min.0 + 1 },
                s_hits@.len() == s_bounds.size,
                d_hits@.len() == d_bounds.size,
                dedup_inv(cs@, i as int, 1, STATIC_ID_MAX as int, smin, smax, s_hits@, static_vals(s_res@), s_where, s_pos),
                dedup_inv(cs@, i as int, DYN_ID_MIN as int, u16::MAX as int, dmin, dmax, d_hits@, dyn_vals(d_res@), d_where, d_pos),
                forall|k: int| 0 <= k < i && (#[trigger] cs@[k]).0 == 0 ==> have_invalid,
                have_invalid ==> 0 <= inv_pos < i && cs@[inv_pos].0 == 0,
                static_vals(s_res@) == first_seen(cs@.take(i as int), 1, STATIC_ID_MAX as int),
                dyn_vals(d_res@) == first_seen(cs@.take(i as int), DYN_ID_MIN as int, u16::MAX as int),
            decreases REGION_AREA - i,
        {
            let b = cs[i];
            proof {
                assert(cs@[i as int] == b);
                assert(cs@.take(i + 1).drop_last() =~= cs@.take(i as int));
                assert(cs@.take(i + 1).last() == b);
                if 1 <= b.0 <= STATIC_ID_MAX {
                    lemma_dedup_member(cs@, i as int, 1, STATIC_ID_MAX as int, smin, smax, s_hits@, static_vals(s_res@), s_where, s_pos, b.0);
                }
                if DYN_ID_MIN <= b.0 {
                    lemma_dedup_member(cs@, i as int, DYN_ID_MIN as int, u16::MAX as int, dmin, dmax, d_hits@, dyn_vals(d_res@), d_where, d_pos, b.0);
                }
            }
            match b.into_specialized() {
                BlockIdVariants::Static(s) => {
                    let idx = s_bounds.to_index(s);
                    if !s_hits[idx] {
                        proof {
                            lemma_dedup_push(cs@, i as int, 1, STATIC_ID_MAX as int, smin, smax, s_hits@, static_vals(s_res@), s_where, s_pos);
                            lemma_dedup_skip(cs@, i as int, DYN_ID_MIN as int, u16::MAX as int, dmin, dmax, d_hits@, dyn_vals(d_res@), d_where, d_pos);
                            s_where = s_where.update(idx as int, s_res@.len() as int);
                            s_pos = s_pos.push(i as int);
                        }
                        s_hits.set(idx, true);
                        let ghost old_vals = static_vals(s_res@);
                        s_res.push(s);
                        proof {
                            assert(static_vals(s_res@) =~= old_vals.push(b.0));
                        }
                    } else {
                        proof {
                            lemma_dedup_hit(cs@, i as int, 1, STATIC_ID_MAX as int, smin, smax, s_hits@, static_vals(s_res@), s_where, s_pos);
                            lemma_dedup_skip(cs@, i as int, DYN_ID_MIN as int, u16::MAX as int, dmin, dmax, d_hits@, dyn_vals(d_res@), d_where, d_pos);
                        }
                    }
                },
                BlockIdVariants::Dyn(d) => {
                    let idx = d_bounds.to_index(d);
                    if !d_hits[idx] {
                        proof {
                            lemma_dedup_push(cs@, i as int, DYN_ID_MIN as int, u16::MAX as int, dmin, dmax, d_hits@, dyn_vals(d_res@), d_where, d_pos);
                            lemma_dedup_skip(cs@, i as int, 1, STATIC_ID_MAX as int, smin, smax, s_hits@, static_vals(s_res@), s_where, s_pos);
                            d_where = d_where.update(idx as int, d_res@.len() as int);
                            d_pos = d_pos.push(i as int);
                        }
                        d_hits.set(idx, true);
                        let ghost old_vals = dyn_vals(d_res@);
                        d_res.push(d);
                        proof {
                            assert(dyn_vals(d_res@) =~= old_vals.push(b.0));
                        }
                    } else {
                        proof {
                            lemma_dedup_hit(cs@, i as int, DYN_ID_MIN as int, u16::MAX as int, dmin, dmax, d_hits@, dyn_vals(d_res@), d_where, d_pos);
                            lemma_dedup_skip(cs@, i as int, 1, STATIC_ID_MAX as int, smin, smax, s_hits@, static_vals(s_res@), s_where, s_pos);
                        }
                    }
                },
                BlockIdVariants::Invalid => {
                    have_invalid = true;
                    proof {
                        inv_pos = i as int;
                        lemma_dedup_skip(cs@, i as int, DYN_ID_MIN as int, u16::MAX as int, dmin, dmax, d_hits@, dyn_vals(d_res@), d_where, d_pos);
                        lemma_dedup_skip(cs@, i as int, 1, STATIC_ID_MAX as int, smin, smax, s_hits@, static_vals(s_res@), s_where, s_pos);
                    }
                },
            }
            i = i + 1;
        }
        let ghost s_ids = static_ids(s_res@);
        let ghost d_ids = dyn_ids(d_res@);
        let ghost sv = static_vals(s_res@);
        let ghost dv = dyn_vals(d_res@);
        proof {
            assert(kind_bounded(cs@, 1, STATIC_ID_MAX as int, smin, smax, s_bounds.size as int)) by {
                assert forall|k: int| 0 <= k < cs@.len() && in_kind(#[trigger] cs@[k], 1, STATIC_ID_MAX as int) implies
                    smin <= cs@[k].0 <= smax && cs@[k].0 - smin < s_bounds.size by {
                    assert(is_static(cs@[k]));
                }
            }
            assert(kind_bounded(cs@, DYN_ID_MIN as int, u16::MAX as int, dmin, dmax, d_bounds.size as int)) by {
                assert forall|k: int| 0 <= k < cs@.len() && in_kind(#[trigger] cs@[k], DYN_ID_MIN as int, u16::MAX as int) implies
                    dmin <= cs@[k].0 <= dmax && cs@[k].0 - dmin < d_bounds.size by {
                    assert(is_dyn(cs@[k]));
                }
            }
            lemma_dedup_facts(cs@, REGION_AREA as int, 1, STATIC_ID_MAX as int, smin, smax, s_hits@, sv, s_where, s_pos);
            lemma_dedup_facts(cs@, REGION_AREA as int, DYN_ID_MIN as int, u16::MAX as int, dmin, dmax, d_hits@, dv, d_where, d_pos);
            // the identifiers found are distinct identifiers of cs
            let q = s_ids + d_ids;
            assert forall|a: int, b: int| 0 <= a < q.len() && 0 <= b < q.len() && a != b implies q[a] != q[b] by {
                if a < s_ids.len() && b < s_ids.len() {
                    assert(s_where[sv[a] - smin] == a);
                    assert(s_where[sv[b] - smin] == b);
                } else if a >= s_ids.len() && b >= s_ids.len() {
                    let a2 = a - s_ids.len();
                    let b2 = b - s_ids.len();
                    assert(d_where[dv[a2] - dmin] == a2);
                    assert(d_where[dv[b2] - dmin] == b2);
                } else if a < s_ids.len() {
                    assert(sv[a] <= STATIC_ID_MAX);
                    assert(dv[b - s_ids.len()] >= DYN_ID_MIN);
                } else {
                    assert(sv[b] <= STATIC_ID_MAX);
                    assert(dv[a - s_ids.len()] >= DYN_ID_MIN);
                }
            }
            assert forall|t: int| 0 <= t < q.len() implies cs@.contains(#[trigger] q[t]) by {
                if t < s_ids.len() {
                    assert(cs@[s_pos[t]].0 == sv[t]);
                    assert(cs@[s_pos[t]] == q[t]);
                } else {
                    assert(cs@[d_pos[t - s_ids.len()]].0 == dv[t - s_ids.len()]);
                    assert(cs@[d_pos[t - s_ids.len()]] == q[t]);
                }
            }
            lemma_distinct_subset_len(q, cs@);
        }
        let cap = if have_invalid { 1 + s_bounds.size + d_bounds.size } else { s_bounds.size + d_bounds.size };
        let mut m = vec![0u16; cap];
        let mut t: usize = 0;
        while t < s_res.len()
            invariant
                t <= s_res@.len(),
                sv == static_vals(s_res@),
                s_res@.len() + d_res@.len() <= 4096,
                m@.len() == cap,
                cap >= s_bounds.size + d_bounds.size,
                smin == s_bounds.min.0,
                s_where.len() == s_bounds.size,
                forall|u: int| 0 <= u < sv.len() ==> {
                    &&& smin <= (#[trigger] sv[u]) <= s_bounds.max.0
                    &&& sv[u] - smin < s_bounds.size
                    &&& s_where[sv[u] - smin] == u
                },
                forall|u: int| 0 <= u < t ==> m@[(#[trigger] sv[u]) - smin] == u,
            decreases s_res@.len() - t,
        {
            let s = s_res[t];
            proof { assert(sv[t as int] == s.0); }
            let idx = s_bounds.to_index(s);
            m.set(idx, t as u16);
            proof {
                assert forall|u: int| 0 <= u < t + 1 implies m@[(#[trigger] sv[u]) - smin] == u by {
                    assert(s_where[sv[u] - smin] == u);
                    assert(s_where[sv[t as int] - smin] == t);
                }
            }
            t = t + 1;
        }
        let mut t: usize = 0;
        let s_len = s_res.len();
        while t < d_res.len()
            invariant
                t <= d_res@.len(),
                sv == static_vals(s_res@),
                dv == dyn_vals(d_res@),
                s_len == s_res@.len(),
                s_res@.len() + d_res@.len() <= 4096,
                m@.len() == cap,
                cap >= s_bounds.size + d_bounds.size,
                smin == s_bounds.min.0,
                dmin == d_bounds.min.0,
                d_where.len() == d_bounds.size,
                forall|u: int| 0 <= u < sv.len() ==> {
                    &&& smin <= (#[trigger] sv[u]) <= s_bounds.max.0
                    &&& sv[u] - smin < s_bounds.size
                },
                forall|u: int| 0 <= u < dv.len() ==> {
                    &&& dmin <= (#[trigger] dv[u]) <= d_bounds.max.0
                    &&& dv[u] - dmin < d_bounds.size
                    &&& d_where[dv[u] - dmin] == u
                },
                forall|u: int| 0 <= u < sv.len() ==> m@[(#[trigger] sv[u]) - smin] == u,
                forall|u: int| 0 <= u < t ==> m@[(#[trigger] dv[u]) - dmin + s_bounds.size] == u + s_len,
            decreases d_res@.len() - t,
        {
            let d = d_res[t];
            proof { assert(dv[t as int] == d.0); }
            let idx = d_bounds.to_index(d) + s_bounds.size;
            m.set(idx, (t + s_len) as u16);
            proof {
                assert forall|u: int| 0 <= u < t + 1 implies m@[(#[trigger] dv[u]) - dmin + s_bounds.size] == u + s_len by {
                    assert(d_where[dv[u] - dmin] == u);
                    assert(d_where[dv[t as int] - dmin] == t);
                }
            }
            t = t + 1;
        }
        if have_invalid {
            m.set(s_bounds.size + d_bounds.size, (d_res.len() + s_res.len()) as u16);
        }
        let mut pal: Vec<BlockId> = Vec::new();
        let mut t: usize = 0;
        while t < s_res.len()
            invariant
                t <= s_res@.len(),
                pal@ == static_ids(s_res@).subrange(0, t as int),
            decreases s_res@.len() - t,
        {
            pal.push(BlockId::from(s_res[t]));
            proof {
                assert(pal@ =~= static_ids(s_res@).subrange(0, t + 1));
            }
            t = t + 1;
        }
        let mut t: usize = 0;
        while t < d_res.len()
            invariant
                t <= d_res@.len(),
                pal@ == static_ids(s_res@) + dyn_ids(d_res@).subrange(0, t as int),
            decreases d_res@.len() - t,
        {
            pal.push(BlockId::from(d_res[t]));
            proof {
                assert(pal@ =~= static_ids(s_res@) + dyn_ids(d_res@).subrange(0, t + 1));
            }
            t = t + 1;
        }
        proof {
            assert(pal@ =~= s_ids + d_ids);
        }
        if have_invalid {
            pal.push(BlockId::invalid());
        }
        let r = Self { pal, m, s_bounds, d_bounds };
        proof {
            assert forall|t: int| 0 <= t < sv.len() implies r.pal@[t] == BlockId(#[trigger] sv[t]) by {
                assert(s_ids[t] == BlockId(s_res@[t].0));
            }
            assert forall|t: int| 0 <= t < dv.len() implies r.pal@[sv.len() + t] == BlockId(#[trigger] dv[t]) by {
                assert(d_ids[t] == BlockId(d_res@[t].0));
            }
            Self::lemma_mapping_final(cs@, r, sv, dv, s_where, d_where, s_pos, d_pos, have_invalid, inv_pos);
            assert(cs@.take(REGION_AREA as int) =~= cs@);
            assert(s_ids =~= first_seen(cs@, 1, STATIC_ID_MAX as int).map_values(|v: u16| BlockId(v)));
            assert(d_ids =~= first_seen(cs@, DYN_ID_MIN as int, u16::MAX as int).map_values(|v: u16| BlockId(v)));
            if have_invalid {
                assert(cs@[inv_pos] == BlockId(0));
                assert(cs@.contains(BlockId(0)));
                assert(r.pal@ =~= (s_ids + d_ids).push(BlockId(0)));
            } else {
                if cs@.contains(BlockId(0)) {
                    let k = choose|k: int| 0 <= k < cs@.len() && cs@[k] == BlockId(0);
                    assert(cs@[k].0 == 0);
                }
                assert(r.pal@ =~= s_ids + d_ids);
            }
            reveal(mapping_palette);
            assert(r.pal@ =~= mapping_palette(cs@));
        }
        r
    }

    proof fn lemma_mapping_final(
        cs: Seq<BlockId>, r: Self, sv: Seq<u16>, dv: Seq<u16>,
        s_where: Seq<int>, d_where: Seq<int>, s_pos: Seq<int>, d_pos: Seq<int>,
        have_invalid: bool, inv_pos: int,
    )
        requires
            cs.len() == REGION_AREA,
            r.s_bounds.size < 65536,
            r.m@.len() >= r.s_bounds.size + r.d_bounds.size,
            kind_bounded(cs, 1, STATIC_ID_MAX as int, r.s_bounds.min.0 as int, r.s_bounds.max.0 as int, r.s_bounds.size as int),
            kind_bounded(cs, DYN_ID_MIN as int, u16::MAX as int, r.d_bounds.min.0 as int, r.d_bounds.max.0 as int, r.d_bounds.size as int),
            s_pos.len() == sv.len(),
            d_pos.len() == dv.len(),
            forall|t: int| 0 <= t < sv.len() ==> {
                &&& 1 <= (#[trigger] sv[t]) <= STATIC_ID_MAX
                &&& sv[t] - r.s_bounds.min.0 < r.s_bounds.size
                &&& s_where[sv[t] - r.s_bounds.min.0] == t
                &&& 0 <= s_pos[t] < cs.len()
                &&& cs[s_pos[t]].0 == sv[t]
                &&& r.m@[sv[t] - r.s_bounds.min.0] == t
            },
            forall|t: int| 0 <= t < dv.len() ==> {
                &&& DYN_ID_MIN <= (#[trigger] dv[t])
                &&& dv[t] - r.d_bounds.min.0 < r.d_bounds.size
                &&& d_where[dv[t] - r.d_bounds.min.0] == t
                &&& 0 <= d_pos[t] < cs.len()
                &&& cs[d_pos[t]].0 == dv[t]
                &&& r.m@[dv[t] - r.d_bounds.min.0 + r.s_bounds.size] == t + sv.len()
            },
            forall|k: int| 0 <= k < cs.len() && in_kind(#[trigger] cs[k], 1, STATIC_ID_MAX as int) ==> {
                &&& 0 <= s_where[cs[k].0 - r.s_bounds.min.0] < sv.len()
                &&& sv[s_where[cs[k].0 - r.s_bounds.min.0]] == cs[k].0
            },
            forall|k: int| 0 <= k < cs.len() && in_kind(#[trigger] cs[k], DYN_ID_MIN as int, u16::MAX as int) ==> {
                &&& 0 <= d_where[cs[k].0 - r.d_bounds.min.0] < dv.len()
                &&& dv[d_where[cs[k].0 - r.d_bounds.min.0]] == cs[k].0
            },
            r.pal@.len() == sv.len() + dv.len() + (if have_invalid { 1int } else { 0int }),
            forall|t: int| 0 <= t < sv.len() ==> r.pal@[t] == BlockId(#[trigger] sv[t]),
            forall|t: int| 0 <= t < dv.len() ==> r.pal@[sv.len() + t] == BlockId(#[trigger] dv[t]),
            have_invalid ==> r.pal@[r.pal@.len() - 1] == BlockId(0),
            forall|k: int| 0 <= k < cs.len() && (#[trigger] cs[k]).0 == 0 ==> have_invalid,
            have_invalid ==> 0 <= inv_pos < cs.len() && cs[inv_pos].0 == 0,
        ensures
            r.built_for(cs),
    {
        let sl = sv.len() as int;
        let smin = r.s_bounds.min.0 as int;
        let dmin = r.d_bounds.min.0 as int;
        assert forall|k: int| 0 <= k < cs.len() implies {
            &&& r.covers(#[trigger] cs[k])
            &&& 0 <= r.index_of(cs[k]) < r.pal@.len()
            &&& r.pal@[r.index_of(cs[k])] == cs[k]
        } by {
            let b = cs[k];
            if is_static(b) {
                assert(in_kind(b, 1, STATIC_ID_MAX as int));
                let u = s_where[b.0 - smin];
                assert(sv[u] == b.0);
                assert(r.m@[sv[u] - smin] == u);
                assert(r.pal@[u] == BlockId(sv[u]));
            } else if is_dyn(b) {
                assert(in_kind(b, DYN_ID_MIN as int, u16::MAX as int));
                let u = d_where[b.0 - dmin];
                assert(dv[u] == b.0);
                assert(r.m@[dv[u] - dmin + r.s_bounds.size] == u + sl);
                assert(r.pal@[sl + u] == BlockId(dv[u]));
            } else {
                assert(b.0 == 0);
                assert(have_invalid);
            }
        }
        assert forall|a: int, b: int| 0 <= a < r.pal@.len() && 0 <= b < r.pal@.len() && a != b implies r.pal@[a] != r.pal@[b] by {
            let n = sl + dv.len();
            if a < sl && b < sl {
                assert(s_where[sv[a] - smin] == a);
                assert(s_where[sv[b] - smin] == b);
                assert(r.pal@[a] == BlockId(sv[a]));
                assert(r.pal@[b] == BlockId(sv[b]));
            } else if sl <= a < n && sl <= b < n {
                assert(d_where[dv[a - sl] - dmin] == a - sl);
                assert(d_where[dv[b - sl] - dmin] == b - sl);
                assert(r.pal@[a] == BlockId(dv[a - sl]));
                assert(r.pal@[b] == BlockId(dv[b - sl]));
            } else {
                if a < sl { assert(r.pal@[a] == BlockId(sv[a])); }
                if b < sl { assert(r.pal@[b] == BlockId(sv[b])); }
                if sl <= a < n { assert(r.pal@[a] == BlockId(dv[a - sl])); }
                if sl <= b < n { assert(r.pal@[b] == BlockId(dv[b - sl])); }
            }
        }
        assert forall|x: BlockId| r.pal@.to_set().contains(x) <==> cs.to_set().contains(x) by {
            if r.pal@.contains(x) {
                let t = choose|t: int| 0 <= t < r.pal@.len() && r.pal@[t] == x;
                if t < sl {
                    assert(r.pal@[t] == BlockId(sv[t]));
                    assert(cs[s_pos[t]] == x);
                } else if t < sl + dv.len() {
                    assert(r.pal@[t] == BlockId(dv[t - sl]));
                    assert(cs[d_pos[t - sl]] == x);
                } else {
                    assert(cs[inv_pos] == x);
                }
            }
            if cs.contains(x) {
                let k = choose|k: int| 0 <= k < cs.len() && cs[k] == x;
                assert(r.pal@[r.index_of(cs[k])] == x);
            }
        }
        assert(r.pal@.to_set() =~= cs.to_set());
        assert(r.covers(cs[0]));
    }

    /// The palette position of `b`.
    pub fn get_index(&self, b: BlockId) -> (r: usize)
        requires
            self.covers(b),
        ensures
            r == self.index_of(b),
    {
        match b.into_specialized() {
            BlockIdVariants::Static(s) => self.m[self.s_bounds.to_index(s)] as usize,
            BlockIdVariants::Dyn(d) => {
                let idx = self.d_bounds.to_index(d) + self.s_bounds.size;
                self.m[idx] as usize
            },
            BlockIdVariants::Invalid => self.pal.len() - 1,
        }
    }

    /// The palette.
    pub fn into_palette(self) -> (r: Vec<BlockId>)
        ensures
            r@ == self.palette(),
    {
        self.pal
    }
}

/// The palette positions of all of `cs` fit into `bw` bits.
proof fn lemma_indices_fit(m: &BlockIdMapping, cs: Seq<BlockId>, bw: nat)
    requires
        m.built_for(cs),
        m.palette().len() <= pow2(bw),
        bw <= 12,
    ensures
        fits(m.indices(cs), bw),
        m.indices(cs).len() == cs.len(),
        forall|i: int| 0 <= i < cs.len() ==> (#[trigger] m.indices(cs)[i]) as int == m.index_of(cs[i]),
{
    lemma2_to64();
    if bw < 12 {
        lemma_pow2_strictly_increases(bw, 12);
    }
    assert forall|i: int| 0 <= i < cs.len() implies (#[trigger] m.indices(cs)[i]) as int == m.index_of(cs[i]) by {
        assert(m.covers(cs[i]));
        assert(0 <= m.index_of(cs[i]) < m.palette().len());
    }
}

/// Packs the palette positions of a region, `64 / BIT_WIDTH` per word, lowest slot first.
pub fn pack_width_generic<const BIT_WIDTH: usize, const NUMS_PER_U64: usize>(
    m: &BlockIdMapping,
    cs: &[BlockId; 262144],
) -> (r: Vec<u64>)
    requires
        1 <= BIT_WIDTH <= 12,
        NUMS_PER_U64 == 64usize / BIT_WIDTH,
        m.built_for(cs@),
        m.palette().len() <= pow2(BIT_WIDTH as nat),
    ensures
        r@ == pack_words(m.indices(cs@), BIT_WIDTH as nat),
{
    let bw = BIT_WIDTH;
    let per = NUMS_PER_U64;
    let ghost vals = m.indices(cs@);
    proof {
        lemma_indices_fit(m, cs@, bw as nat);
        assert(per * bw <= 64 && per >= 1) by (nonlinear_arith)
            requires per == 64nat / (bw as nat), 1 <= bw <= 64;
    }
    let mut out: Vec<u64> = Vec::new();
    let mut start: usize = 0;
    proof {
        assert(out@.len() * per == 0);
    }
    while start < REGION_AREA
        invariant
            1 <= bw <= 12,
            bw == BIT_WIDTH,
            per == slots_per_word(bw as nat),
            per * bw <= 64,
            per >= 1,
            cs@.len() == REGION_AREA,
            m.built_for(cs@),
            vals == m.indices(cs@),
            vals.len() == REGION_AREA,
            fits(vals, bw as nat),
            forall|i: int| 0 <= i < cs@.len() ==> (#[trigger] vals[i]) as int == m.index_of(cs@[i]),
            start == (if out@.len() * per <= REGION_AREA { out@.len() * per } else { REGION_AREA as int }),
            out@.len() > 0 ==> (out@.len() - 1) * per < start,
            forall|k: int| 0 <= k < out@.len() ==>
                (#[trigger] out@[k]) == pack_word(word_chunk(vals, bw as nat, k), bw as nat) as u64,
        decreases REGION_AREA - start,
    {
        let k = out.len();
        let end = if REGION_AREA - start < per { REGION_AREA } else { start + per };
        proof {
            assert(start == k * per);
            assert((k + 1) * per == start + per) by (nonlinear_arith) requires start == k * per;
            assert(end == (if (k + 1) * per <= vals.len() { ((k + 1) * per) as int } else { vals.len() as int }));
            assert(word_chunk(vals, bw as nat, k as int) =~= vals.subrange(start as int, end as int));
            assert((end - start) * bw <= 64) by (nonlinear_arith)
                requires end - start <= per, per * bw <= 64;
        }
        let mut acc: u64 = 0;
        let mut j = end;
        while j > start
            invariant
                1 <= bw <= 12,
                start <= j <= end <= REGION_AREA,
                (end - start) * bw <= 64,
                cs@.len() == REGION_AREA,
                m.built_for(cs@),
                vals.len() == REGION_AREA,
                fits(vals, bw as nat),
                forall|i: int| 0 <= i < cs@.len() ==> (#[trigger] vals[i]) as int == m.index_of(cs@[i]),
                acc as nat == pack_word(vals.subrange(j as int, end as int), bw as nat),
            decreases j,
        {
            j = j - 1;
            let b = cs[j];
            proof {
                assert(cs@[j as int] == b);
                assert(m.covers(cs@[j as int]));
            }
            let v = m.get_index(b) as u64;
            proof {
                let tail = vals.subrange(j + 1, end as int);
                assert(v == vals[j as int]);
                assert(vals.subrange(j as int, end as int) =~= seq![v] + tail);
                assert(fits(tail, bw as nat)) by {
                    assert forall|t: int| 0 <= t < tail.len() implies (#[trigger] tail[t]) < pow2(bw as nat) by {
                        assert(tail[t] == vals[j + 1 + t]);
                    }
                }
                assert((tail.len() + 1) * bw <= 64) by (nonlinear_arith)
                    requires tail.len() + 1 <= end - start, (end - start) * bw <= 64, bw >= 1;
                lemma_pack_step(acc, v, bw as nat, tail);
            }
            acc = (acc << (bw as u64)) | v;
        }
        out.push(acc);
        proof {
            assert(out@.len() * per == start + per) by (nonlinear_arith)
                requires start == (out@.len() - 1) * per;
        }
        start = end;
    }
    proof {
        let n = REGION_AREA as nat;
        let mm = out@.len();
        assert(mm == num_words(n, bw as nat)) by {
            assert((mm - 1) * per < n && n <= mm * per);
            assert((mm - 1) * per == mm * per - per) by (nonlinear_arith);
            assert(0 <= n + per - 1 - mm * per < per);
            vstd::arithmetic::div_mod::lemma_fundamental_div_mod_converse(
                (n + per - 1) as int, per as int, mm as int, (n + per - 1 - mm * per) as int);
        }
        assert(out@ =~= pack_words(vals, bw as nat));
    }
    out
}

/// Packs the palette positions of a region into bytes, eight per word, lowest slot
/// first.
pub fn pack_width_8(m: &BlockIdMapping, cs: &[BlockId; 262144]) -> (r: Vec<u64>)
    requires
        m.built_for(cs@),
        m.palette().len() <= 256,
    ensures
        r@ == pack_words(m.indices(cs@), 8),
{
    proof {
        lemma2_to64();
    }
    pack_width_generic::<8, 8>(m, cs)
}

/// Packs with the layout that belongs to `bit_width` (`1..=12`).
pub fn pack_dispatch(m: &BlockIdMapping, cs: &[BlockId; 262144], bit_width: usize) -> (r: Vec<u64>)
    requires
        1 <= bit_width <= 12,
        m.built_for(cs@),
        m.palette().len() <= pow2(bit_width as nat),
    ensures
        r@ == pack_words(m.indices(cs@), bit_width as nat),
{
    proof {
        lemma2_to64();
    }
    match bit_width {
        1 => pack_width_generic::<1, 64>(m, cs),
        2 => pack_width_generic::<2, 32>(m, cs),
        3 => pack_width_generic::<3, 21>(m, cs),
        4 => pack_width_generic::<4, 16>(m, cs),
        5 => pack_width_generic::<5, 12>(m, cs),
        6 => pack_width_generic::<6, 10>(m, cs),
        7 => pack_width_generic::<7, 9>(m, cs),
        8 => pack_width_8(m, cs),
        9 => pack_width_generic::<9, 7>(m, cs),
        10 => pack_width_generic::<10, 6>(m, cs),
        11 => pack_width_generic::<11, 5>(m, cs),
        _ => pack_width_generic::<12, 5>(m, cs),
    }
}

/// Storage of one block identifier per column of a region (512 by 512), bit-packed
/// as positions in a palette of the identifiers that occur.
/// Whether at most `limit` distinct identifiers occur in `cs`.
pub fn distinct_at_most(cs: &[BlockId; 262144], limit: usize) -> (r: bool)
    ensures
        r <==> cs@.to_set().len() <= limit,
{
    let mut seen: Vec<bool> = vec![false; 65536];
    let mut count: usize = 0;
    let ghost mut q: Seq<BlockId> = seq![];
    let mut i: usize = 0;
    while i < REGION_AREA
        invariant
            cs@.len() == REGION_AREA,
            seen@.len() == 65536,
            i <= REGION_AREA,
            count == q.len(),
            count <= limit,
            q.no_duplicates(),
            forall|t: int| 0 <= t < q.len() ==> cs@.contains(#[trigger] q[t]),
            forall|j: int| 0 <= j < i ==> q.contains(#[trigger] cs@[j]),
            forall|t: int| 0 <= t < q.len() ==> seen@[(#[trigger] q[t]).0 as int],
            forall|v: int| 0 <= v < 65536 && #[trigger] seen@[v] ==> exists|t: int| 0 <= t < q.len() && q[t].0 == v,
        decreases REGION_AREA - i,
    {
        let b = cs[i];
        let v = b.0 as usize;
        if !seen[v] {
            proof {
                assert forall|t: int| 0 <= t < q.len() implies q[t] != b by {
                    if q[t] == b {
                        assert(seen@[q[t].0 as int]);
                    }
                }
                assert(cs@.contains(b)) by {
                    assert(cs@[i as int] == b);
                }
            }
            seen.set(v, true);
            proof {
                let q0 = q;
                q = q.push(b);
                assert forall|j: int| 0 <= j < i + 1 implies q.contains(#[trigger] cs@[j]) by {
                    if j < i {
                        let t = choose|t: int| 0 <= t < q0.len() && q0[t] == cs@[j];
                        assert(q[t] == cs@[j]);
                    } else {
                        assert(q[q.len() - 1] == cs@[j]);
                    }
                }
                assert forall|w: int| 0 <= w < 65536 && #[trigger] seen@[w] implies exists|t: int| 0 <= t < q.len() && q[t].0 == w by {
                    if w == v {
                        assert(q[q.len() - 1].0 == w);
                    } else {
                        let t = choose|t: int| 0 <= t < q0.len() && q0[t].0 == w;
                        assert(q[t].0 == w);
                    }
                }
            }
            if count == limit {
                proof {
                    lemma_distinct_subset_len(q, cs@);
                }
                return false;
            }
            count = count + 1;
        } else {
            proof {
                let t = choose|t: int| 0 <= t < q.len() && q[t].0 == v;
                assert(q[t] == b);
                assert forall|j: int| 0 <= j < i + 1 implies q.contains(#[trigger] cs@[j]) by {
                    if j == i {
                        assert(q[t] == cs@[j]);
                    }
                }
            }
        }
        i = i + 1;
    }
    proof {
        q.unique_seq_to_set();
        assert(cs@.to_set().subset_of(q.to_set())) by {
            assert forall|x: BlockId| cs@.to_set().contains(x) implies q.to_set().contains(x) by {
                let j = choose|j: int| 0 <= j < cs@.len() && cs@[j] == x;
                assert(q.contains(cs@[j]));
            }
        }
        vstd::seq_lib::seq_to_set_is_finite(q);
        vstd::set_lib::lemma_len_subset(cs@.to_set(), q.to_set());
    }
    true
}

pub struct PackedBlockMap {
    palette: Vec<BlockId>,
    bit_width: u64,
    u64_div_bit_width: usize,
    mask: u64,
    packed: Vec<u64>,
}

impl PackedBlockMap {
    /// Packs the identifiers of a region if at most 4096 distinct ones occur.
    pub fn try_new(cs: &[BlockId; 262144]) -> (r: Option<Self>)
        ensures
            r is Some <==> cs@.to_set().len() <= 4096,
            r matches Some(m) ==> m.built_from(cs@) && m.palette_view().to_set() == cs@.to_set(),
    {
        if distinct_at_most(cs, 4096) {
            Some(Self::new(cs))
        } else {
            None
        }
    }
    /// The palette of identifiers.
    pub closed spec fn palette_view(&self) -> Seq<BlockId> {
        self.palette@
    }

    /// Bits per packed position (0 when the palette has a single entry).
    pub closed spec fn width(&self) -> nat {
        self.bit_width as nat
    }

    pub closed spec fn wf(&self) -> bool {
        &&& self.palette@.len() >= 1
        &&& self.palette@.len() > 1 ==> {
            &&& 1 <= self.bit_width <= 12
            &&& self.u64_div_bit_width == 64nat / (self.bit_width as nat)
            &&& self.mask == pow2(self.bit_width as nat) - 1
            &&& forall|idx: nat| idx < REGION_AREA ==> {
                &&& #[trigger] (idx / slots_per_word(self.bit_width as nat)) < self.packed@.len()
                &&& packed_get(self.packed@, self.bit_width as nat, idx) < self.palette@.len()
            }
        }
    }

    /// The identifier the map holds for column `idx` (`x + 512 * z`).
    pub closed spec fn spec_get(&self, idx: nat) -> BlockId {
        if self.palette@.len() == 1 {
            self.palette@[0]
        } else {
            self.palette@[packed_get(self.packed@, self.bit_width as nat, idx) as int]
        }
    }

    /// The map was built from `cs`: for every column it holds the identifier that `cs`
    /// has there.
    pub open spec fn built_from(&self, cs: Seq<BlockId>) -> bool {
        &&& self.wf()
        &&& forall|idx: nat| idx < REGION_AREA ==> #[trigger] self.spec_get(idx) == cs[idx as int]
    }

    /// Packs the identifiers of a region (given row by row, `x + 512 * z`). At most
    /// 4096 distinct identifiers may occur.
    pub fn new(cs: &[BlockId; 262144]) -> (r: Self)
        requires
            cs@.to_set().len() <= 4096,
        ensures
            r.built_from(cs@),
            r.palette_view().to_set() == cs@.to_set(),
            r.palette_view().no_duplicates(),
            r.palette_view().len() == 1 ==> r.width() == 0,
            r.palette_view().len() > 1 ==> r.width() == bit_len((r.palette_view().len() - 1) as nat),
    {
        let mapping = BlockIdMapping::new(cs);
        proof {
            mapping.pal@.unique_seq_to_set();
        }
        if mapping.pal.len() == 1 {
            let ghost pal = mapping.palette();
            let r = Self {
                palette: mapping.into_palette(),
                bit_width: 0,
                u64_div_bit_width: 0,
                packed: Vec::new(),
                mask: 0,
            };
            proof {
                assert forall|idx: nat| idx < REGION_AREA implies #[trigger] r.spec_get(idx) == cs@[idx as int] by {
                    let b = cs@[idx as int];
                    assert(mapping.covers(b));
                    assert(pal[mapping.index_of(b)] == b);
                }
            }
            r
        } else {
            let n = mapping.pal.len();
            let bw = bits_required(n);
            proof {
                lemma2_to64();
                assert(n <= 4096);
                if bw > 12 {
                    lemma_pow2_strictly_increases(12, (bw - 1) as nat);
                }
            }
            let bit_width = bw as u64;
            let packed = pack_dispatch(&mapping, cs, bw);
            let u64_div_bit_width = 64 / bw;
            proof {
                lemma_extract(0, 0, bit_width);
            }
            let mask = (1u64 << bit_width) - 1;
            let ghost pal = mapping.palette();
            let ghost vals = mapping.indices(cs@);
            proof {
                lemma_indices_fit(&mapping, cs@, bw as nat);
                assert forall|idx: nat| idx < REGION_AREA implies {
                    &&& #[trigger] (idx / slots_per_word(bw as nat)) < packed@.len()
                    &&& packed_get(packed@, bw as nat, idx) == vals[idx as int]
                } by {
                    lemma_pack_roundtrip(vals, bw as nat, idx);
                }
                assert forall|idx: nat| idx < REGION_AREA implies {
                    &&& #[trigger] (idx / slots_per_word(bw as nat)) < packed@.len()
                    &&& packed_get(packed@, bw as nat, idx) < pal.len()
                    &&& pal[packed_get(packed@, bw as nat, idx) as int] == cs@[idx as int]
                } by {
                    assert(mapping.covers(cs@[idx as int]));
                    assert(vals[idx as int] as int == mapping.index_of(cs@[idx as int]));
                }
            }
            let r = Self { palette: mapping.into_palette(), bit_width, u64_div_bit_width, packed, mask };
            proof {
                assert forall|idx: nat| idx < REGION_AREA implies #[trigger] r.spec_get(idx) == cs@[idx as int] by {
                    assert((idx / slots_per_word(bw as nat)) < packed@.len());
                }
            }
            r
        }
    }

    /// The identifier stored for column `(x, z)` of the region.
    pub fn get(&self, x: usize, z: usize) -> (r: BlockId)
        requires
            self.wf(),
            x <= 511,
            z <= 511,
        ensures
            r == self.spec_get((x + z * 512) as nat),
    {
        if self.palette.len() == 1 {
            return self.palette[0];
        }
        let idx = x + z * 512;
        proof {
            assert((idx as nat / slots_per_word(self.bit_width as nat)) < self.packed@.len());
            lemma_slot_shift(idx as nat, self.bit_width as nat);
        }
        let u64_idx = idx / self.u64_div_bit_width;
        let j = (idx % self.u64_div_bit_width) as u64;
        proof {
            lemma_extract(self.packed@[u64_idx as int], (j * self.bit_width) as u64, self.bit_width);
        }
        let pal_idx = ((self.packed[u64_idx] >> (j * self.bit_width)) & self.mask) as usize;
        self.palette[pal_idx]
    }
}

/// Reading a column back from the map returns the identifier it was built with.
pub proof fn lemma_get_after_new(map: PackedBlockMap, cs: Seq<BlockId>, x: nat, z: nat)
    requires
        map.built_from(cs),
        x <= 511,
        z <= 511,
    ensures
        map.spec_get(x + z * 512) == cs[(x + z * 512) as int],
{
    assert((x + z * 512) < REGION_AREA);
    assert(map.spec_get((x + z * 512) as nat) == cs[(x + z * 512) as int]);
}


/// The mapping built from `cs` finds each identifier of `cs` at its place in the
/// palette (which `get_index` returns and `into_palette` hands out), and the palette
/// holds each identifier of `cs` once and nothing else.
pub proof fn lemma_mapping_lookup(m: BlockIdMapping, cs: Seq<BlockId>, b: BlockId)
    requires
        m.built_for(cs),
        cs.contains(b),
    ensures
        m.covers(b),
        0 <= m.index_of(b) < m.palette().len(),
        m.palette()[m.index_of(b)] == b,
        m.palette().no_duplicates(),
        m.palette().to_set() == cs.to_set(),
{
    let i = choose|i: int| 0 <= i < cs.len() && cs[i] == b;
    assert(m.covers(cs[i]));
}

} // verus!
