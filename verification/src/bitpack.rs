use vstd::prelude::*;
use vstd::arithmetic::power2::{pow2, lemma_pow2_unfold, lemma_pow2_pos, lemma2_to64, lemma2_to64_rest};
use vstd::arithmetic::div_mod::{
    lemma_fundamental_div_mod_converse, lemma_div_denominator, lemma_div_is_ordered, lemma_div_plus_one,
    lemma_mod_bound, lemma_mod_mod, lemma_breakdown,
};
use vstd::arithmetic::power2::{lemma_pow2_adds, lemma_pow2_strictly_increases};
use vstd::bits::{
    low_bits_mask, lemma_u64_shr_is_div, lemma_u64_shl_is_mul, lemma_u64_pow2_no_overflow,
    lemma_u64_low_bits_mask_is_mod,
};

verus! {

/// Number of binary digits of `x` (0 has none).
pub open spec fn bit_len(x: nat) -> nat
    decreases x,
{
    if x == 0 {
        0
    } else {
        1 + bit_len(x / 2)
    }
}

/// `x` has at most `k` binary digits exactly when it is below `2^k`.
pub proof fn lemma_bit_len_bound(x: nat, k: nat)
    ensures
        bit_len(x) <= k <==> x < pow2(k),
    decreases k,
{
    lemma_pow2_pos(k);
    if k == 0 {
        assert(pow2(0) == 1) by { lemma2_to64(); }
    } else {
        lemma_pow2_unfold(k);
        if x > 0 {
            lemma_bit_len_bound(x / 2, (k - 1) as nat);
        }
    }
}

/// Returns the bit width required to index into a slice of length `n > 0`,
/// that is the number of binary digits of `n - 1`: the least `r` with `n <= 2^r`.
pub fn bits_required(n: usize) -> (r: usize)
    requires
        n > 0,
    ensures
        r == bit_len((n - 1) as nat),
        n <= pow2(r as nat),
        r > 0 ==> pow2((r - 1) as nat) < n,
{
    proof {
        lemma2_to64();
        lemma_bit_len_bound((n - 1) as nat, usize::BITS as nat);
    }
    let mut m: usize = n - 1;
    let mut b: usize = 0;
    while m > 0
        invariant
            b + bit_len(m as nat) == bit_len((n - 1) as nat),
            bit_len((n - 1) as nat) <= usize::BITS,
        decreases m,
    {
        m = m / 2;
        b = b + 1;
    }
    proof {
        lemma_bit_len_bound((n - 1) as nat, b as nat);
        if b > 0 {
            lemma_bit_len_bound((n - 1) as nat, (b - 1) as nat);
        }
    }
    b
}


/// How many `bw`-bit values fit into one 64-bit word.
pub open spec fn slots_per_word(bw: nat) -> nat {
    64nat / bw
}

/// The `bw`-bit value stored in slot `slot` of `word` (slot 0 holds the lowest bits).
pub open spec fn field(word: nat, slot: nat, bw: nat) -> nat {
    (word / pow2(slot * bw)) % pow2(bw)
}

/// The `idx`-th value of a sequence of `bw`-bit values packed into 64-bit words,
/// `slots_per_word(bw)` values per word, lowest bits first, no value split across words.
pub open spec fn packed_get(words: Seq<u64>, bw: nat, idx: nat) -> nat
    recommends
        1 <= bw <= 64,
{
    field(words[(idx / slots_per_word(bw)) as int] as nat, idx % slots_per_word(bw), bw)
}

/// The words of a slice of signed 64-bit integers, read as their bit patterns.
pub open spec fn longs_as_words(longs: Seq<i64>) -> Seq<u64> {
    longs.map_values(|x: i64| x as u64)
}

/// Whether `idx` names a value inside `n_words` words of `bw`-bit values.
pub open spec fn slot_in_range(n_words: nat, bw: nat, idx: nat) -> bool {
    idx / slots_per_word(bw) < n_words
}

/// Shifting and masking extract the arithmetic field.
pub proof fn lemma_extract(u: u64, shift: u64, bw: u64)
    requires
        1 <= bw < 64,
        shift + bw <= 64,
    ensures
        (1u64 << bw) == pow2(bw as nat),
        ((u >> shift) & (((1u64 << bw) - 1) as u64)) as nat == (u as nat / pow2(shift as nat)) % pow2(bw as nat),
{
    lemma_u64_pow2_no_overflow(bw as nat);
    lemma_u64_shl_is_mul(1u64, bw);
    lemma_u64_shr_is_div(u, shift);
    let x = u >> shift;
    lemma_u64_low_bits_mask_is_mod(x, bw as nat);
    assert(low_bits_mask(bw as nat) == pow2(bw as nat) - 1);
}

/// The slot of `idx` starts at a bit offset that leaves room for a whole value.
pub proof fn lemma_slot_shift(idx: nat, bw: nat)
    requires
        1 <= bw <= 64,
    ensures
        slots_per_word(bw) >= 1,
        (idx % slots_per_word(bw)) * bw + bw <= 64,
{
    let per = slots_per_word(bw);
    assert(per * bw <= 64 && per >= 1) by (nonlinear_arith)
        requires per == 64nat / bw, 1 <= bw <= 64;
    let i = idx % per;
    assert(i * bw + bw <= 64) by (nonlinear_arith)
        requires i < per, per * bw <= 64, bw >= 1;
}

fn extract(u: u64, slot: usize, bit_width: usize) -> (r: u16)
    requires
        1 <= bit_width <= 12,
        slot * bit_width + bit_width <= 64,
    ensures
        r as nat == field(u as nat, slot as nat, bit_width as nat),
{
    let shift = (slot * bit_width) as u64;
    let bw = bit_width as u64;
    proof {
        lemma_extract(u, shift, bw);
        lemma_pow2_pos(bw as nat);
        assert(pow2(bw as nat) <= 4096) by {
            lemma2_to64();
            if bw < 12 {
                vstd::arithmetic::power2::lemma_pow2_strictly_increases(bw as nat, 12);
            }
        }
        assert((u as nat / pow2(shift as nat)) % pow2(bw as nat) < pow2(bw as nat)) by {
            vstd::arithmetic::div_mod::lemma_mod_bound((u as nat / pow2(shift as nat)) as int, pow2(bw as nat) as int);
        }
    }
    ((u >> shift) & ((1u64 << bw) - 1)) as u16
}

/// Reads the `idx`-th `bit_width`-bit value from signed 64-bit words.
pub fn unpack_from_longs(longs: &[i64], bit_width: usize, idx: usize) -> (r: u16)
    requires
        1 <= bit_width <= 12,
        slot_in_range(longs@.len(), bit_width as nat, idx as nat),
    ensures
        r as nat == packed_get(longs_as_words(longs@), bit_width as nat, idx as nat),
        (r as nat) < pow2(bit_width as nat),
{
    proof {
        lemma_slot_shift(idx as nat, bit_width as nat);
        lemma_field_bound(longs_as_words(longs@)[(idx as nat / slots_per_word(bit_width as nat)) as int] as nat,
            idx as nat % slots_per_word(bit_width as nat), bit_width as nat);
    }
    let nums_per_long = 64 / bit_width;
    let long_idx = idx / nums_per_long;
    let u = longs[long_idx] as u64;
    let i = idx % nums_per_long;
    extract(u, i, bit_width)
}

/// A field of `bw` bits is less than `2^bw`.
pub proof fn lemma_field_bound(w: nat, s: nat, bw: nat)
    ensures
        field(w, s, bw) < pow2(bw),
{
    let m = pow2(bw);
    lemma_pow2_pos(bw);
    lemma_pow2_pos(s * bw);
    let x = w / pow2(s * bw);
    assert(m > 0);
    vstd::arithmetic::div_mod::lemma_mod_pos_bound(x as int, m as int);
}

/// Reads the `idx`-th 9-bit value from unsigned 64-bit words (the layout of heightmaps).
pub fn unpack_u9_from_u64s(longs: &[u64], idx: usize) -> (r: u16)
    requires
        slot_in_range(longs@.len(), 9, idx as nat),
    ensures
        r as nat == packed_get(longs@, 9, idx as nat),
        r < 512,
{
    proof {
        lemma_slot_shift(idx as nat, 9);
        lemma_field_bound(longs@[(idx / 7) as int] as nat, idx as nat % 7, 9);
        vstd::arithmetic::power2::lemma2_to64();
    }
    let long_idx = idx / 7;
    let u = longs[long_idx];
    let i = idx % 7;
    extract(u, i, 9)
}

/// A read-only view of values packed into signed 64-bit words.
pub struct PackedBitsView<'a> {
    longs: &'a [i64],
    bit_width: usize,
}

impl<'a> PackedBitsView<'a> {
    /// The packed words.
    pub closed spec fn words(&self) -> Seq<u64> {
        longs_as_words(self.longs@)
    }

    /// The width of each value in bits.
    pub closed spec fn width(&self) -> nat {
        self.bit_width as nat
    }

    /// A view always has a width in `1..=12`.
    pub closed spec fn wf(&self) -> bool {
        1 <= self.bit_width <= 12
    }

    /// Creates a view; the width must lie in `1..=12`.
    pub fn new(longs: &'a [i64], bit_width: usize) -> (v: PackedBitsView<'a>)
        requires
            1 <= bit_width <= 12,
        ensures
            v.wf(),
            v.words() == longs_as_words(longs@),
            v.width() == bit_width,
    {
        Self { longs, bit_width }
    }

    /// The `idx`-th packed value.
    pub fn get(&self, idx: usize) -> (r: u16)
        requires
            self.wf(),
            idx < self.spec_len(),
        ensures
            r as nat == packed_get(self.words(), self.width(), idx as nat),
    {
        proof {
            lemma_slot_shift(idx as nat, self.bit_width as nat);
            let per = slots_per_word(self.bit_width as nat);
            assert(idx as nat / per < self.longs@.len()) by (nonlinear_arith)
                requires idx < self.longs@.len() * per, per >= 1;
        }
        unpack_from_longs(self.longs, self.bit_width, idx)
    }

    /// Number of values the words hold.
    pub closed spec fn spec_len(&self) -> nat {
        self.longs@.len() * slots_per_word(self.bit_width as nat)
    }

    /// Number of values the words hold: every slot of every word counts.
    pub fn len(&self) -> (r: usize)
        requires
            self.wf(),
            self.spec_len() <= usize::MAX,
        ensures
            r == self.spec_len(),
            r == self.words().len() * slots_per_word(self.width()),
    {
        let nums_per_u64 = 64 / self.bit_width;
        self.longs.len() * nums_per_u64
    }
}

/// The word that holds `c[0]` in its lowest `bw` bits, `c[1]` in the next `bw` bits, and so on.
pub open spec fn pack_word(c: Seq<u64>, bw: nat) -> nat
    decreases c.len(),
{
    if c.len() == 0 {
        0
    } else {
        c[0] as nat + pack_word(c.drop_first(), bw) * pow2(bw)
    }
}

/// Number of words that `n` values of `bw` bits occupy.
pub open spec fn num_words(n: nat, bw: nat) -> nat {
    ((n + slots_per_word(bw) - 1) as nat) / slots_per_word(bw)
}

/// The values that go into word `k`.
pub open spec fn word_chunk(nums: Seq<u64>, bw: nat, k: int) -> Seq<u64> {
    let per = slots_per_word(bw) as int;
    nums.subrange(k * per, if (k + 1) * per <= nums.len() { (k + 1) * per } else { nums.len() as int })
}

/// `nums` packed into words, `slots_per_word(bw)` values per word, the last word
/// holding what is left.
pub open spec fn pack_words(nums: Seq<u64>, bw: nat) -> Seq<u64> {
    Seq::new(num_words(nums.len(), bw), |k: int| pack_word(word_chunk(nums, bw, k), bw) as u64)
}

/// Every value fits into `bw` bits.
pub open spec fn fits(nums: Seq<u64>, bw: nat) -> bool {
    forall|i: int| 0 <= i < nums.len() ==> (#[trigger] nums[i]) < pow2(bw)
}

pub proof fn lemma_pack_word_bound(c: Seq<u64>, bw: nat)
    requires
        fits(c, bw),
    ensures
        pack_word(c, bw) < pow2(c.len() * bw),
    decreases c.len(),
{
    if c.len() == 0 {
        lemma2_to64();
    } else {
        let r = c.drop_first();
        assert(fits(r, bw)) by {
            assert forall|i: int| 0 <= i < r.len() implies (#[trigger] r[i]) < pow2(bw) by {
                assert(r[i] == c[i + 1]);
            }
        }
        lemma_pack_word_bound(r, bw);
        let n = c.len();
        let e = ((n - 1) * bw) as nat;
        assert(n * bw == bw + e) by (nonlinear_arith) requires e == (n - 1) * bw, n >= 1;
        lemma_pow2_adds(bw, e);
        lemma_pow2_pos(bw);
        let a = pack_word(r, bw);
        let b = pow2(bw);
        let m = pow2(e);
        assert(r.len() * bw == e);
        assert(c[0] as nat + a * b < b * m) by (nonlinear_arith)
            requires a < m, c[0] < b, b > 0;
        assert(pow2(n * bw) == b * m);
    }
}

pub proof fn lemma_pack_word_field(c: Seq<u64>, bw: nat, j: nat)
    requires
        fits(c, bw),
        j < c.len(),
    ensures
        field(pack_word(c, bw), j, bw) == c[j as int],
    decreases j,
{
    let p = pack_word(c, bw);
    let r = c.drop_first();
    let rp = pack_word(r, bw);
    lemma_pow2_pos(bw);
    assert(fits(r, bw)) by {
        assert forall|i: int| 0 <= i < r.len() implies (#[trigger] r[i]) < pow2(bw) by {
            assert(r[i] == c[i + 1]);
        }
    }
    assert(p == rp * pow2(bw) + c[0] as nat);
    lemma_fundamental_div_mod_converse(p as int, pow2(bw) as int, rp as int, c[0] as int);
    if j == 0 {
        assert(pow2(0) == 1) by { lemma2_to64(); }
        assert(j * bw == 0) by (nonlinear_arith) requires j == 0;
        assert(p / 1 == p);
    } else {
        let e = ((j - 1) * bw) as nat;
        assert(j * bw == bw + e) by (nonlinear_arith) requires e == (j - 1) * bw, j >= 1;
        lemma_pow2_adds(bw, e);
        lemma_pow2_pos(e);
        lemma_div_denominator(p as int, pow2(bw) as int, pow2(e) as int);
        assert(p / pow2(j * bw) == rp / pow2(e));
        lemma_pack_word_field(r, bw, (j - 1) as nat);
        assert(r[j - 1] == c[j as int]);
    }
}

/// Packing and then reading back at any index gives the value that was packed there.
pub proof fn lemma_pack_roundtrip(nums: Seq<u64>, bw: nat, i: nat)
    requires
        1 <= bw <= 64,
        fits(nums, bw),
        i < nums.len(),
    ensures
        i / slots_per_word(bw) < pack_words(nums, bw).len(),
        packed_get(pack_words(nums, bw), bw, i) == nums[i as int],
{
    let per = slots_per_word(bw);
    lemma_slot_shift(i, bw);
    let k = i / per;
    let j = i % per;
    assert(i == k * per + j) by {
        vstd::arithmetic::div_mod::lemma_fundamental_div_mod(i as int, per as int);
    }
    assert(per * bw <= 64) by (nonlinear_arith)
        requires per == 64nat / bw, 1 <= bw <= 64;
    // the word index is in range
    lemma_div_plus_one(i as int, per as int);
    lemma_div_is_ordered((i + per) as int, (nums.len() + per - 1) as int, per as int);
    let c = word_chunk(nums, bw, k as int);
    assert(k * per <= i) by (nonlinear_arith) requires i == k * per + j, j >= 0;
    assert((k + 1) * per > i) by (nonlinear_arith) requires i == k * per + j, j < per;
    assert(c.len() <= per) by (nonlinear_arith)
        requires c.len() == (if (k + 1) * per <= nums.len() { ((k + 1) * per) as int } else { nums.len() as int }) - k * per,
            k * per <= i, i < nums.len();
    assert(c[j as int] == nums[i as int]);
    assert(fits(c, bw)) by {
        assert forall|t: int| 0 <= t < c.len() implies (#[trigger] c[t]) < pow2(bw) by {
            assert(c[t] == nums[k * per + t]);
        }
    }
    lemma_pack_word_field(c, bw, j);
    lemma_pack_word_bound(c, bw);
    assert(c.len() * bw <= 64) by (nonlinear_arith) requires c.len() <= per, per * bw <= 64;
    if c.len() * bw < 64 {
        lemma_pow2_strictly_increases(c.len() * bw, 64);
    }
    lemma2_to64();
}

/// `(a << b) | v` adds `v` below the shifted bits.
proof fn lemma_shl_or(a: u64, v: u64, b: u64)
    by (bit_vector)
    requires
        b < 64,
        v < (1u64 << b),
    ensures
        (a << b) | v == (a << b) + v,
{
}

/// One step of packing from the highest slot down: shifting the word so far up by
/// `bw` bits and putting `v` below it packs `v` in front of the values so far.
pub proof fn lemma_pack_step(acc: u64, v: u64, bw: nat, tail: Seq<u64>)
    requires
        1 <= bw <= 12,
        acc as nat == pack_word(tail, bw),
        fits(tail, bw),
        v < pow2(bw),
        (tail.len() + 1) * bw <= 64,
    ensures
        ((acc << (bw as u64)) | v) as nat == pack_word(seq![v] + tail, bw),
        (acc as nat) * pow2(bw) <= u64::MAX,
{
    lemma2_to64();
    lemma2_to64_rest();
    let cur = seq![v] + tail;
    assert(cur.drop_first() =~= tail);
    lemma_pack_word_bound(tail, bw);
    assert(tail.len() * bw + bw == (tail.len() + 1) * bw) by (nonlinear_arith);
    lemma_pow2_adds(tail.len() * bw, bw);
    lemma_pow2_pos(bw);
    assert(acc as nat * pow2(bw) < pow2(((tail.len() + 1) * bw) as nat)) by (nonlinear_arith)
        requires
            acc < pow2(tail.len() * bw),
            pow2(((tail.len() + 1) * bw) as nat) == pow2(tail.len() * bw) * pow2(bw),
            pow2(bw) > 0,
    ;
    if (tail.len() + 1) * bw < 64 {
        lemma_pow2_strictly_increases(((tail.len() + 1) * bw) as nat, 64);
    }
    lemma_u64_shl_is_mul(acc, bw as u64);
    lemma_u64_pow2_no_overflow(bw);
    lemma_u64_shl_is_mul(1u64, bw as u64);
    lemma_shl_or(acc, v, bw as u64);
}

/// A word built from `nums[start..end]`, filling from the highest slot down.
fn pack_chunk(nums: &[u64], start: usize, end: usize, bw: usize) -> (w: u64)
    requires
        1 <= bw <= 12,
        start <= end <= nums@.len(),
        (end - start) * bw <= 64,
        fits(nums@.subrange(start as int, end as int), bw as nat),
    ensures
        w as nat == pack_word(nums@.subrange(start as int, end as int), bw as nat),
{
    let mut acc: u64 = 0;
    let mut j = end;
    while j > start
        invariant
            1 <= bw <= 12,
            start <= j <= end <= nums@.len(),
            (end - start) * bw <= 64,
            fits(nums@.subrange(start as int, end as int), bw as nat),
            acc as nat == pack_word(nums@.subrange(j as int, end as int), bw as nat),
        decreases j,
    {
        j = j - 1;
        let v = nums[j];
        proof {
            let whole = nums@.subrange(start as int, end as int);
            let tail = nums@.subrange(j + 1, end as int);
            assert(nums@.subrange(j as int, end as int) =~= seq![v] + tail);
            assert(v == whole[j - start]);
            assert(fits(tail, bw as nat)) by {
                assert forall|t: int| 0 <= t < tail.len() implies (#[trigger] tail[t]) < pow2(bw as nat) by {
                    assert(tail[t] == whole[j + 1 - start + t]);
                }
            }
            assert((tail.len() + 1) * bw <= 64) by (nonlinear_arith)
                requires tail.len() + 1 <= end - start, (end - start) * bw <= 64, bw >= 1;
            lemma_pack_step(acc, v, bw as nat, tail);
        }
        acc = (acc << (bw as u64)) | v;
    }
    acc
}

/// Packs `nums` (each below `2^BIT_WIDTH`) into signed 64-bit words,
/// `64 / BIT_WIDTH` values per word, lowest slot first.
pub fn pack_into_i64s<const BIT_WIDTH: usize>(nums: &[u64]) -> (r: Vec<i64>)
    requires
        1 <= BIT_WIDTH <= 12,
        fits(nums@, BIT_WIDTH as nat),
    ensures
        longs_as_words(r@) == pack_words(nums@, BIT_WIDTH as nat),
{
    let bw = BIT_WIDTH;
    let nums_per_u64 = 64 / bw;
    let ghost per = slots_per_word(bw as nat);
    let mut out: Vec<i64> = Vec::new();
    let mut start: usize = 0;
    proof {
        assert(out@.len() * per == 0);
        assert(per * bw <= 64 && per >= 1) by (nonlinear_arith)
            requires per == 64nat / (bw as nat), 1 <= bw <= 64;
    }
    while start < nums.len()
        invariant
            1 <= bw <= 12,
            bw == BIT_WIDTH,
            nums_per_u64 == per,
            per == slots_per_word(bw as nat),
            per * bw <= 64,
            per >= 1,
            fits(nums@, bw as nat),
            start == (if out@.len() * per <= nums@.len() { out@.len() * per } else { nums@.len() }),
            out@.len() > 0 ==> (out@.len() - 1) * per < start,
            forall|k: int| 0 <= k < out@.len() ==>
                (#[trigger] out@[k]) as u64 == pack_word(word_chunk(nums@, bw as nat, k), bw as nat) as u64,
        decreases nums@.len() - start,
    {
        let k = out.len();
        let end = if nums.len() - start < nums_per_u64 { nums.len() } else { start + nums_per_u64 };
        proof {
            assert(k * per <= nums@.len());
            assert(start == k * per);
            assert((k + 1) * per == start + per) by (nonlinear_arith) requires start == k * per;
            assert(end == (if (k + 1) * per <= nums@.len() { ((k + 1) * per) as int } else { nums@.len() as int }));
            assert(word_chunk(nums@, bw as nat, k as int) =~= nums@.subrange(start as int, end as int));
            assert((end - start) * bw <= 64) by (nonlinear_arith)
                requires end - start <= per, per * bw <= 64;
            let c = nums@.subrange(start as int, end as int);
            assert forall|t: int| 0 <= t < c.len() implies (#[trigger] c[t]) < pow2(bw as nat) by {
                assert(c[t] == nums@[start + t]);
            }
        }
        let w = pack_chunk(nums, start, end, bw);
        proof {
            assert(((w as i64) as u64) == w) by (bit_vector);
        }
        out.push(w as i64);
        proof {
            assert(out@.len() * per == start + per) by (nonlinear_arith)
                requires start == (out@.len() - 1) * per;
        }
        start = end;
    }
    proof {
        // number of words
        let n = nums@.len();
        let m = out@.len();
        assert(m == num_words(n, bw as nat)) by {
            if m == 0 {
                assert(n == 0);
            } else {
                assert((m - 1) * per < n && n <= m * per);
                assert((m - 1) * per == m * per - per) by (nonlinear_arith);
            }
            assert(0 <= n + per - 1 - m * per < per);
            vstd::arithmetic::div_mod::lemma_fundamental_div_mod_converse(
                (n + per - 1) as int, per as int, m as int, (n + per - 1 - m * per) as int);
        }
        assert(longs_as_words(out@) =~= pack_words(nums@, bw as nat));
    }
    out
}

/// The number whose big-endian base-256 digits are `s`.
pub open spec fn be_value(s: Seq<u8>) -> nat
    decreases s.len(),
{
    if s.len() == 0 {
        0
    } else {
        be_value(s.drop_last()) * 256 + s.last() as nat
    }
}

/// The big-endian 64-bit word stored in bytes `8k..8k+8`.
pub open spec fn be_word_at(bs: Seq<u8>, k: nat) -> nat {
    be_value(bs.subrange((8 * k) as int, (8 * k + 8) as int))
}

/// The `idx`-th `bw`-bit value of words stored big-endian in `bs`.
pub open spec fn packed_get_be(bs: Seq<u8>, bw: nat, idx: nat) -> nat {
    field(be_word_at(bs, idx / slots_per_word(bw)), idx % slots_per_word(bw), bw)
}

/// The word holding value `idx` lies inside `n_bytes` bytes.
pub open spec fn word_in_bytes(n_bytes: nat, bw: nat, idx: nat) -> bool {
    (idx / slots_per_word(bw)) * 8 + 8 <= n_bytes
}

/// The eight big-endian bytes of `w`.
pub open spec fn u64_be_bytes(w: u64) -> Seq<u8> {
    Seq::new(8, |j: int| ((w as nat / pow2((8 * (7 - j)) as nat)) % 256) as u8)
}

/// The concatenated big-endian bytes of a sequence of words.
pub open spec fn words_be_bytes(ws: Seq<u64>) -> Seq<u8> {
    Seq::new(8 * ws.len(), |i: int| u64_be_bytes(ws[i / 8])[i % 8])
}

pub proof fn lemma_be_value_bound(s: Seq<u8>)
    ensures
        be_value(s) < pow2(8 * s.len()),
    decreases s.len(),
{
    lemma2_to64();
    if s.len() > 0 {
        lemma_be_value_bound(s.drop_last());
        let n = s.len();
        assert(8 * n == 8 * (n - 1) + 8) by (nonlinear_arith);
        lemma_pow2_adds((8 * (n - 1)) as nat, 8);
        let a = be_value(s.drop_last());
        let m = pow2((8 * (n - 1)) as nat);
        assert(a * 256 + s.last() < m * 256) by (nonlinear_arith)
            requires a < m, s.last() < 256;
    }
}

/// Digit `t` (counted from the least significant end) of a big-endian number is
/// the byte `t` places from the end.
pub proof fn lemma_be_digit(s: Seq<u8>, t: nat)
    requires
        t < s.len(),
    ensures
        (be_value(s) / pow2(8 * t)) % 256 == s[s.len() - 1 - t] as nat,
    decreases t,
{
    lemma2_to64();
    let p = be_value(s);
    let r = be_value(s.drop_last());
    lemma_fundamental_div_mod_converse(p as int, 256, r as int, s.last() as int);
    if t == 0 {
        assert(8 * t == 0);
        assert(pow2(0) == 1);
        assert(p / 1 == p);
    } else {
        assert(8 * t == 8 + 8 * (t - 1)) by (nonlinear_arith);
        lemma_pow2_adds(8, (8 * (t - 1)) as nat);
        lemma_pow2_pos((8 * (t - 1)) as nat);
        lemma_div_denominator(p as int, 256, pow2((8 * (t - 1)) as nat) as int);
        lemma_be_digit(s.drop_last(), (t - 1) as nat);
    }
}

proof fn lemma_be_bytes_prefix(w: u64, n: nat)
    requires
        n <= 8,
    ensures
        be_value(u64_be_bytes(w).subrange(0, n as int)) == w as nat / pow2((8 * (8 - n)) as nat),
    decreases n,
{
    let b = u64_be_bytes(w);
    lemma2_to64();
    lemma2_to64_rest();
    if n == 0 {
        assert(b.subrange(0, 0) =~= Seq::<u8>::empty());
        vstd::arithmetic::div_mod::lemma_basic_div(w as int, pow2(64) as int);
    } else {
        let m = (n - 1) as nat;
        lemma_be_bytes_prefix(w, m);
        let y = w as nat / pow2((8 * (7 - m)) as nat);
        assert(b.subrange(0, n as int).drop_last() =~= b.subrange(0, m as int));
        assert(b[m as int] == (y % 256) as u8);
        assert(8 * (8 - m) == 8 * (7 - m) + 8) by (nonlinear_arith) requires m < 8;
        lemma_pow2_adds((8 * (7 - m)) as nat, 8);
        lemma_pow2_pos((8 * (7 - m)) as nat);
        lemma_div_denominator(w as int, pow2((8 * (7 - m)) as nat) as int, 256);
        vstd::arithmetic::div_mod::lemma_fundamental_div_mod(y as int, 256);
    }
}

/// Reading back the big-endian bytes of a word gives the word.
pub proof fn lemma_be_bytes_value(w: u64)
    ensures
        be_value(u64_be_bytes(w)) == w as nat,
{
    lemma_be_bytes_prefix(w, 8);
    assert(u64_be_bytes(w).subrange(0, 8) =~= u64_be_bytes(w));
    lemma2_to64();
}

/// The word at position `k` of the concatenated bytes is the `k`-th word.
pub proof fn lemma_words_be_bytes(ws: Seq<u64>, k: nat)
    requires
        k < ws.len(),
    ensures
        be_word_at(words_be_bytes(ws), k) == ws[k as int] as nat,
        words_be_bytes(ws).len() == 8 * ws.len(),
{
    let bs = words_be_bytes(ws);
    assert(bs.subrange((8 * k) as int, (8 * k + 8) as int) =~= u64_be_bytes(ws[k as int])) by {
        assert forall|j: int| 0 <= j < 8 implies #[trigger] bs.subrange((8 * k) as int, (8 * k + 8) as int)[j] == u64_be_bytes(ws[k as int])[j] by {
            assert((8 * k + j) / 8 == k && (8 * k + j) % 8 == j) by (nonlinear_arith) requires 0 <= j < 8;
            assert(8 * k + j < 8 * ws.len()) by (nonlinear_arith) requires k < ws.len(), j < 8;
        }
    }
    lemma_be_bytes_value(ws[k as int]);
}

/// Packing, writing the words big-endian, and reading back at any index gives
/// the value that was packed there.
pub proof fn lemma_pack_be_roundtrip(nums: Seq<u64>, bw: nat, i: nat)
    requires
        1 <= bw <= 64,
        fits(nums, bw),
        i < nums.len(),
    ensures
        word_in_bytes(words_be_bytes(pack_words(nums, bw)).len(), bw, i),
        packed_get_be(words_be_bytes(pack_words(nums, bw)), bw, i) == nums[i as int],
{
    lemma_pack_roundtrip(nums, bw, i);
    let ws = pack_words(nums, bw);
    let k = i / slots_per_word(bw);
    lemma_words_be_bytes(ws, k);
    assert(k * 8 + 8 <= 8 * ws.len()) by (nonlinear_arith) requires k < ws.len();
}

/// Reads the big-endian word that starts at byte `j`.
pub(crate) fn read_be_word(bs: &[u8], j: usize) -> (w: u64)
    requires
        j + 8 <= bs@.len(),
    ensures
        w as nat == be_value(bs@.subrange(j as int, j + 8)),
{
    let mut w: u64 = 0;
    let mut t: usize = 0;
    proof { lemma2_to64(); lemma2_to64_rest(); }
    while t < 8
        invariant
            j + 8 <= bs@.len() == bs.len(),
            t <= 8,
            w as nat == be_value(bs@.subrange(j as int, j + t)),
        decreases 8 - t,
    {
        proof {
            lemma2_to64();
            lemma2_to64_rest();
            lemma_be_value_bound(bs@.subrange(j as int, j + t));
            assert(bs@.subrange(j as int, j + t + 1).drop_last() =~= bs@.subrange(j as int, j + t));
            if t < 7 {
                lemma_pow2_strictly_increases((8 * t) as nat, 56);
            }
            assert(w * 256 + 255 <= u64::MAX) by (nonlinear_arith)
                requires w < pow2((8 * t) as nat), pow2((8 * t) as nat) <= pow2(56), pow2(56) == 0x100000000000000nat;
        }
        w = w * 256 + bs[j + t] as u64;
        t = t + 1;
    }
    w
}

/// Value `idx` of `bw`-bit values packed into big-endian words stored as bytes,
/// for any width in `1..=12`.
fn unpack_be(bs: &[u8], bw: usize, idx: usize) -> (r: u16)
    requires
        1 <= bw <= 12,
        word_in_bytes(bs@.len(), bw as nat, idx as nat),
    ensures
        r as nat == packed_get_be(bs@, bw as nat, idx as nat),
{
    proof { lemma_slot_shift(idx as nat, bw as nat); }
    let per = 64 / bw;
    let long_idx = idx / per;
    assert(long_idx * 8 + 8 <= bs@.len() == bs.len());
    let j = long_idx * 8;
    let u = read_be_word(bs, j);
    let inner_idx = idx % per;
    extract(u, inner_idx, bw)
}

/// Reads value `idx` of 4-bit values packed into big-endian words: the value is a
/// nibble of a single byte.
#[verifier::spinoff_prover]
pub fn unpack_from_u64_bytes_width_4(bs: &[u8], idx: usize) -> (r: u16)
    requires
        word_in_bytes(bs@.len(), 4, idx as nat),
    ensures
        r as nat == packed_get_be(bs@, 4, idx as nat),
{
    let k = (idx / 16) * 8 + 7 - (idx % 16) / 2;
    proof {
        assert(idx & 1 == idx % 2) by (bit_vector);
    }
    let shift = (idx & 1) * 4;
    proof {
        let kk = (idx / 16) as nat;
        let sl = (idx % 16) as nat;
        let s = bs@.subrange((8 * kk) as int, (8 * kk + 8) as int);
        let t = sl / 2;
        let e = sl % 2;
        assert(idx % 2 == sl % 2) by (nonlinear_arith) requires sl == idx % 16;
        lemma_be_digit(s, t);
        let q = be_value(s) / pow2(8 * t);
        assert(s[7 - t] == bs@[k as int]);
        assert(4 * sl == 8 * t + 4 * e);
        lemma_pow2_adds(8 * t, 4 * e);
        lemma_pow2_pos(8 * t);
        lemma_pow2_pos(4 * e);
        lemma_div_denominator(be_value(s) as int, pow2(8 * t) as int, pow2(4 * e) as int);
        lemma2_to64();
        assert(sl * 4 == 4 * sl);
        if e == 0 {
            lemma_mod_mod(q as int, 16, 16);
        } else {
            lemma_breakdown(q as int, 16, 16);
            lemma_fundamental_div_mod_converse(bs@[k as int] as int, 16, ((q / 16) % 16) as int, (q % 16) as int);
        }
        lemma_extract(bs@[k as int] as u64, shift as u64, 4);
    }
    let val = bs[k] as u64;
    ((val >> (shift as u64)) & 0x0f) as u16
}

/// Reads value `idx` of 8-bit values packed into big-endian words: the value is a
/// single byte.
pub fn unpack_from_u64_bytes_width_8(bs: &[u8], idx: usize) -> (r: u16)
    requires
        word_in_bytes(bs@.len(), 8, idx as nat),
    ensures
        r as nat == packed_get_be(bs@, 8, idx as nat),
{
    let j = (idx / 8) * 8 + 7 - idx % 8;
    proof {
        let kk = (idx / 8) as nat;
        let sl = (idx % 8) as nat;
        let s = bs@.subrange((8 * kk) as int, (8 * kk + 8) as int);
        lemma_be_digit(s, sl);
        assert(s[7 - sl] == bs@[j as int]);
        assert(sl * 8 == 8 * sl);
        lemma2_to64();
    }
    bs[j] as u16
}

/// Reads value `idx` of `BIT_WIDTH`-bit values packed into big-endian words.
pub fn unpack_from_u64_bytes_width_generic<const BIT_WIDTH: usize>(bs: &[u8], idx: usize) -> (r: u16)
    requires
        4 <= BIT_WIDTH <= 12,
        word_in_bytes(bs@.len(), BIT_WIDTH as nat, idx as nat),
    ensures
        r as nat == packed_get_be(bs@, BIT_WIDTH as nat, idx as nat),
{
    unpack_be(bs, BIT_WIDTH, idx)
}

/// Reads value `idx` of `bit_width`-bit values (`4..=12`) packed into big-endian words.
pub fn unpack_from_u64_bytes_dispatch(bs: &[u8], bit_width: usize, idx: usize) -> (r: u16)
    requires
        4 <= bit_width <= 12,
        word_in_bytes(bs@.len(), bit_width as nat, idx as nat),
    ensures
        r as nat == packed_get_be(bs@, bit_width as nat, idx as nat),
{
    match bit_width {
        4 => unpack_from_u64_bytes_width_4(bs, idx),
        5 => unpack_from_u64_bytes_width_generic::<5>(bs, idx),
        6 => unpack_from_u64_bytes_width_generic::<6>(bs, idx),
        7 => unpack_from_u64_bytes_width_generic::<7>(bs, idx),
        8 => unpack_from_u64_bytes_width_8(bs, idx),
        9 => unpack_from_u64_bytes_width_generic::<9>(bs, idx),
        10 => unpack_from_u64_bytes_width_generic::<10>(bs, idx),
        11 => unpack_from_u64_bytes_width_generic::<11>(bs, idx),
        _ => unpack_from_u64_bytes_width_generic::<12>(bs, idx),
    }
}

/// Reads value `idx` of `bit_width`-bit values (`1..=12`) packed into big-endian
/// signed 64-bit words.
pub fn unpack_from_long_bytes(bs: &[u8], bit_width: usize, idx: usize) -> (r: u16)
    requires
        1 <= bit_width <= 12,
        word_in_bytes(bs@.len(), bit_width as nat, idx as nat),
    ensures
        r as nat == packed_get_be(bs@, bit_width as nat, idx as nat),
{
    unpack_be(bs, bit_width, idx)
}

/// 16-bit values widened to 64 bits.
pub open spec fn widen_u16s(nums: Seq<u16>) -> Seq<u64> {
    nums.map_values(|x: u16| x as u64)
}

/// Packs 16-bit values into 64-bit words, one word at a time.
pub struct PackedIter<'a> {
    nums: &'a [u16],
    off: usize,
    bit_width: usize,
}

impl<'a> PackedIter<'a> {
    /// The values being packed, widened.
    pub closed spec fn values(&self) -> Seq<u64> {
        widen_u16s(self.nums@)
    }

    /// The width of each value in bits.
    pub closed spec fn width(&self) -> nat {
        self.bit_width as nat
    }

    /// How many values went into the words handed out so far.
    pub closed spec fn consumed(&self) -> nat {
        self.off as nat
    }

    pub closed spec fn wf(&self) -> bool {
        &&& 1 <= self.bit_width <= 12
        &&& fits(self.values(), self.bit_width as nat)
        &&& self.off <= self.nums@.len()
        &&& (self.off < self.nums@.len() ==> (self.off as nat) % slots_per_word(self.bit_width as nat) == 0)
    }

    /// Index of the next word to be handed out.
    pub closed spec fn next_word(&self) -> nat {
        num_words(self.off as nat, self.bit_width as nat)
    }

    /// Starts packing `nums`; the width must lie in `1..=12` and every value must fit.
    pub fn new(nums: &'a [u16], bit_width: usize) -> (it: Self)
        requires
            1 <= bit_width <= 12,
            fits(widen_u16s(nums@), bit_width as nat),
        ensures
            it.wf(),
            it.values() == widen_u16s(nums@),
            it.width() == bit_width,
            it.consumed() == 0,
            it.next_word() == 0,
    {
        proof {
            let p = slots_per_word(bit_width as nat);
            assert(p >= 1) by (nonlinear_arith) requires p == 64nat / (bit_width as nat), 1 <= bit_width <= 64;
            vstd::arithmetic::div_mod::lemma_fundamental_div_mod_converse((p - 1) as int, p as int, 0, (p - 1) as int);
            assert(0nat % p == 0) by { vstd::arithmetic::div_mod::lemma_small_mod(0, p); }
        }
        Self { nums, off: 0, bit_width }
    }

    /// The next packed word, or `None` once every value has been packed.
    pub fn next(&mut self) -> (r: Option<u64>)
        requires
            old(self).wf(),
        ensures
            final(self).wf(),
            final(self).values() == old(self).values(),
            final(self).width() == old(self).width(),
            old(self).consumed() < old(self).values().len() ==> {
                &&& r == Some(pack_words(old(self).values(), old(self).width())[old(self).next_word() as int])
                &&& final(self).next_word() == old(self).next_word() + 1
            },
            old(self).consumed() >= old(self).values().len() ==> r is None && final(self).consumed() == old(self).consumed(),
    {
        if self.off >= self.nums.len() {
            return None;
        }
        let bw = self.bit_width;
        let per = 64 / bw;
        let start = self.off;
        let end = if self.nums.len() - start < per { self.nums.len() } else { start + per };
        let ghost vals = self.values();
        let ghost k = start as nat / slots_per_word(bw as nat);
        proof {
            let p = slots_per_word(bw as nat);
            assert(p * bw <= 64 && p >= 1) by (nonlinear_arith)
                requires p == 64nat / (bw as nat), 1 <= bw <= 64;
            vstd::arithmetic::div_mod::lemma_fundamental_div_mod(start as int, p as int);
            assert(start == k * p) by (nonlinear_arith)
                requires start as int == p * (start as int / p as int) + (start as int % p as int),
                    start as nat % p == 0, k == start as nat / p;
            assert((k + 1) * p == start + p) by (nonlinear_arith) requires start == k * p;
            assert(word_chunk(vals, bw as nat, k as int) =~= vals.subrange(start as int, end as int));
            assert((end - start) * bw <= 64) by (nonlinear_arith) requires end - start <= p, p * bw <= 64;
            // k is the index of the next word, and it exists
            vstd::arithmetic::div_mod::lemma_fundamental_div_mod_converse(
                (start + p - 1) as int, p as int, k as int, (p - 1) as int);
            lemma_div_plus_one(start as int, p as int);
            lemma_div_is_ordered((start + p) as int, (vals.len() + p - 1) as int, p as int);
        }
        let mut acc: u64 = 0;
        let mut j = end;
        while j > start
            invariant
                1 <= bw <= 12,
                start <= j <= end <= self.nums@.len(),
                vals == widen_u16s(self.nums@),
                (end - start) * bw <= 64,
                fits(vals, bw as nat),
                acc as nat == pack_word(vals.subrange(j as int, end as int), bw as nat),
            decreases j,
        {
            j = j - 1;
            let v = self.nums[j] as u64;
            proof {
                let tail = vals.subrange(j + 1, end as int);
                assert(vals.subrange(j as int, end as int) =~= seq![v] + tail);
                assert(v == vals[j as int]);
                assert(fits(tail, bw as nat)) by {
                    assert forall|t: int| 0 <= t < tail.len() implies (#[trigger] tail[t]) < pow2(bw as nat) by {
                        assert(tail[t] == vals[j + 1 + t]);
                    }
                }
                assert((tail.len() + 1) * bw <= 64) by (nonlinear_arith)
                    requires tail.len() + 1 <= end - start, (end - start) * bw <= 64, bw >= 1;
                lemma_pack_step(acc, v, bw as nat, tail);
            }
            acc = (acc << (bw as u64)) | v;
        }
        self.off = end;
        proof {
            let p = slots_per_word(bw as nat);
            if end < self.nums@.len() {
                assert(end == (k + 1) * p);
                vstd::arithmetic::div_mod::lemma_mod_multiples_basic((k + 1) as int, p as int);
                vstd::arithmetic::div_mod::lemma_fundamental_div_mod_converse(
                    (end + p - 1) as int, p as int, (k + 1) as int, (p - 1) as int);
            } else {
                assert(start < end <= start + p);
                vstd::arithmetic::div_mod::lemma_fundamental_div_mod_converse(
                    (end + p - 1) as int, p as int, (k + 1) as int, (end + p - 1 - (k + 1) * p) as int);
            }
            assert(pack_words(vals, bw as nat)[k as int] == pack_word(word_chunk(vals, bw as nat, k as int), bw as nat) as u64);
        }
        Some(acc)
    }

    /// Number of words still to come.
    pub fn len(&self) -> (r: usize)
        requires
            self.wf(),
        ensures
            r == num_words(self.values().len(), self.width()) - self.next_word(),
    {
        let per = 64 / self.bit_width;
        let rest = self.nums.len() - self.off;
        proof {
            let p = slots_per_word(self.bit_width as nat);
            assert(p * self.bit_width <= 64 && p >= 1) by (nonlinear_arith)
                requires p == 64nat / (self.bit_width as nat), 1 <= self.bit_width <= 64;
            let n = self.nums@.len();
            let o = self.off as nat;
            if o < n {
                let k = o / p;
                let pi = p as int;
                let q: int = rest as int + pi - 1;
                vstd::arithmetic::div_mod::lemma_fundamental_div_mod(o as int, pi);
                assert(o == k * p);
                assert(n + p - 1 == q + k * p);
                vstd::arithmetic::div_mod::lemma_fundamental_div_mod_converse(
                    (o + p - 1) as int, pi, k as int, pi - 1);
                vstd::arithmetic::div_mod::lemma_fundamental_div_mod(q, pi);
                vstd::arithmetic::div_mod::lemma_mod_bound(q, pi);
                assert((n + p - 1) as int == pi * (k + q / pi) + q % pi) by (nonlinear_arith)
                    requires n + p - 1 == q + k * p, q == pi * (q / pi) + q % pi, pi == p;
                assert((n + p - 1) as int == (k + q / pi) * pi + q % pi) by (nonlinear_arith)
                    requires (n + p - 1) as int == pi * (k + q / pi) + q % pi;
                vstd::arithmetic::div_mod::lemma_fundamental_div_mod_converse(
                    (n + p - 1) as int, pi, (k + q / pi) as int, q % pi);
            } else {
                assert(rest == 0);
                vstd::arithmetic::div_mod::lemma_fundamental_div_mod_converse((p - 1) as int, p as int, 0, (p - 1) as int);
            }
        }
        proof {
            let p = slots_per_word(self.bit_width as nat);
            if rest > 0 {
                lemma_div_plus_one((rest - 1) as int, p as int);
            }
        }
        if rest == 0 { 0 } else { (rest - 1) / per + 1 }
    }
}

} // verus!
