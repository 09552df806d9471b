//! Region files and their names: `r.<x>.<z>.mca`.

use vstd::prelude::*;
use vstd::string::StringSliceAdditionalSpecFns;
use std::path::PathBuf;

verus! {

#[verifier::external_type_specification]
#[verifier::external_body]
pub struct ExPathBuf(PathBuf);

/// A region file at region coordinates `(x, z)`.
#[derive(Debug)]
pub struct Region {
    pub x: i32,
    pub z: i32,
    pub path: PathBuf,
}

impl Region {
    /// The region at `(x, z)` stored at `path`.
    pub fn new(x: i32, z: i32, path: PathBuf) -> (r: Self)
        ensures
            r.x == x,
            r.z == z,
            r.path == path,
    {
        Region { x, z, path }
    }
}

/// Why a file name is not a region file name.
#[derive(Debug, PartialEq, Eq, Structural)]
pub enum FileNameError {
    /// The name is not of the form `r.<x>.<z>.mca`.
    UnexpectedName,
    /// A coordinate is not a 32-bit integer.
    InvalidNumber,
}

impl FileNameError {
    /// A short description of the error.
    pub fn message(&self) -> (r: &'static str)
        ensures
            r@ == (match *self {
                FileNameError::UnexpectedName => "unexpected file name, expected r.x.z.mca"@,
                FileNameError::InvalidNumber => "invalid number in file name"@,
            }),
    {
        match self {
            FileNameError::UnexpectedName => "unexpected file name, expected r.x.z.mca",
            FileNameError::InvalidNumber => "invalid number in file name",
        }
    }
}

/// The parts of `b` between the separators `sep`, as `str::split` gives them.
pub open spec fn split_on(b: Seq<u8>, sep: u8) -> Seq<Seq<u8>>
    decreases b.len(),
{
    if b.len() == 0 {
        seq![Seq::<u8>::empty()]
    } else {
        let rest = split_on(b.drop_last(), sep);
        if b.last() == sep {
            rest.push(Seq::<u8>::empty())
        } else {
            rest.update(rest.len() - 1, rest.last().push(b.last()))
        }
    }
}

/// The value of a sequence of decimal digits.
pub open spec fn digits_value(d: Seq<u8>) -> int
    decreases d.len(),
{
    if d.len() == 0 {
        0
    } else {
        10 * digits_value(d.drop_last()) + (d.last() - 48)
    }
}

/// Every byte is a decimal digit.
pub open spec fn all_digits(d: Seq<u8>) -> bool {
    forall|i: int| 0 <= i < d.len() ==> 48 <= #[trigger] d[i] <= 57
}

/// A decimal integer as `str::parse::<i32>` reads it: an optional `+` or `-`, then at
/// least one digit, and a value that fits in 32 bits.
pub open spec fn spec_parse_i32(b: Seq<u8>) -> Option<i32> {
    let signed = b.len() > 0 && (b[0] == 43 || b[0] == 45);
    let neg = b.len() > 0 && b[0] == 45;
    let ds = if signed { b.skip(1) } else { b };
    if ds.len() == 0 || !all_digits(ds) {
        None
    } else {
        let v = if neg { -digits_value(ds) } else { digits_value(ds) };
        if i32::MIN <= v <= i32::MAX {
            Some(v as i32)
        } else {
            None
        }
    }
}

/// Adding a digit does not make the value smaller.
proof fn lemma_digits_grow(d: Seq<u8>, k: int)
    requires
        all_digits(d),
        0 <= k <= d.len(),
    ensures
        digits_value(d.take(k)) <= digits_value(d),
        0 <= digits_value(d.take(k)),
    decreases d.len() - k,
{
    if k < d.len() {
        lemma_digits_grow(d, k + 1);
        assert(d.take(k + 1).drop_last() =~= d.take(k));
        assert(48 <= d[k] <= 57);
    } else {
        assert(d.take(k) =~= d);
        lemma_digits_nonneg(d);
    }
}

/// The value of digits is not negative.
proof fn lemma_digits_nonneg(d: Seq<u8>)
    requires
        all_digits(d),
    ensures
        0 <= digits_value(d),
    decreases d.len(),
{
    if d.len() > 0 {
        assert(all_digits(d.drop_last()));
        lemma_digits_nonneg(d.drop_last());
        assert(48 <= d[d.len() - 1] <= 57);
    }
}

/// Parses a decimal 32-bit integer as `str::parse::<i32>` does.
pub fn parse_i32(b: &[u8]) -> (r: Option<i32>)
    ensures
        r == spec_parse_i32(b@),
{
    let signed = b.len() > 0 && (b[0] == 43 || b[0] == 45);
    let neg = b.len() > 0 && b[0] == 45;
    let start: usize = if signed { 1 } else { 0 };
    let ghost ds = if signed { b@.skip(1) } else { b@ };
    if b.len() == start {
        return None;
    }
    let mut acc: i64 = 0;
    let mut i: usize = start;
    proof {
        assert(ds.take(0) =~= Seq::<u8>::empty());
    }
    while i < b.len()
        invariant
            start <= i <= b@.len(),
            start == (if b@.len() > 0 && (b@[0] == 43 || b@[0] == 45) { 1usize } else { 0usize }),
            neg == (b@.len() > 0 && b@[0] == 45),
            ds == (if b@.len() > 0 && (b@[0] == 43 || b@[0] == 45) { b@.skip(1) } else { b@ }),
            ds =~= b@.skip(start as int),
            forall|j: int| 0 <= j < i - start ==> 48 <= #[trigger] ds[j] <= 57,
            0 <= acc <= 2147483648,
            acc == digits_value(ds.take(i - start)),
        decreases b@.len() - i,
    {
        let c = b[i];
        if c < 48 || c > 57 {
            proof {
                assert(b@.skip(start as int)[i - start] == b@[i as int]);
                assert(ds[i - start] == c);
            }
            return None;
        }
        proof {
            assert(b@.skip(start as int)[i - start] == b@[i as int]);
            assert(ds.take(i - start + 1).drop_last() =~= ds.take(i - start));
            assert(ds.take(i - start + 1).last() == c);
        }
        let next = acc * 10 + (c - 48) as i64;
        if next > 2147483648 {
            // the value is out of range if the rest are digits, and invalid otherwise
            let mut k: usize = i + 1;
            while k < b.len()
                invariant
                    i < k <= b@.len(),
                    start <= i,
                    start == (if b@.len() > 0 && (b@[0] == 43 || b@[0] == 45) { 1usize } else { 0usize }),
                    neg == (b@.len() > 0 && b@[0] == 45),
                    ds == (if b@.len() > 0 && (b@[0] == 43 || b@[0] == 45) { b@.skip(1) } else { b@ }),
                    ds =~= b@.skip(start as int),
                    forall|j: int| 0 <= j < k - start ==> 48 <= #[trigger] ds[j] <= 57,
                decreases b@.len() - k,
            {
                if b[k] < 48 || b[k] > 57 {
                    proof {
                        assert(b@.skip(start as int)[k - start] == b@[k as int]);
                        assert(ds[k - start] == b@[k as int]);
                    }
                    return None;
                }
                proof {
                    assert(b@.skip(start as int)[k - start] == b@[k as int]);
                }
                k = k + 1;
            }
            proof {
                assert(all_digits(ds));
                lemma_digits_grow(ds, i - start + 1);
            }
            return None;
        }
        acc = next;
        i = i + 1;
    }
    proof {
        assert(ds.take(ds.len() as int) =~= ds);
        assert(all_digits(ds));
    }
    if neg {
        Some((-acc) as i32)
    } else {
        if acc > 2147483647 {
            return None;
        }
        Some(acc as i32)
    }
}

/// Whether byte string `a` equals the string `s`.
fn bytes_are(a: &[u8], s: &str) -> (r: bool)
    ensures
        r <==> a@ == s.spec_bytes(),
{
    crate::palette::bytes_eq(a, s.as_bytes())
}

/// The region coordinates in a region file name `r.<x>.<z>.mca`.
pub open spec fn spec_parse_mca_file_name(b: Seq<u8>) -> Result<(i32, i32), FileNameError> {
    let parts = split_on(b, 46);
    if parts.len() != 4 || parts[0] != "r".spec_bytes() || parts[3] != "mca".spec_bytes() {
        Err(FileNameError::UnexpectedName)
    } else {
        match (spec_parse_i32(parts[1]), spec_parse_i32(parts[2])) {
            (Some(x), Some(z)) => Ok((x, z)),
            _ => Err(FileNameError::InvalidNumber),
        }
    }
}

/// Reads the region coordinates from a region file name `r.<x>.<z>.mca`.
pub fn parse_mca_file_name(s: &str) -> (r: Result<(i32, i32), FileNameError>)
    ensures
        r == spec_parse_mca_file_name(s.spec_bytes()),
{
    let b = s.as_bytes();
    let mut parts: Vec<Vec<u8>> = Vec::new();
    parts.push(Vec::new());
    let mut i: usize = 0;
    proof {
        assert(b@.take(0) =~= Seq::<u8>::empty());
        assert(parts@.map_values(|v: Vec<u8>| v@) =~= split_on(b@.take(0), 46));
    }
    while i < b.len()
        invariant
            i <= b@.len(),
            b@ == s.spec_bytes(),
            parts@.len() >= 1,
            parts@.map_values(|v: Vec<u8>| v@) =~= split_on(b@.take(i as int), 46),
        decreases b@.len() - i,
    {
        let c = b[i];
        let ghost before = parts@.map_values(|v: Vec<u8>| v@);
        proof {
            assert(b@.take(i + 1).drop_last() =~= b@.take(i as int));
            assert(b@.take(i + 1).last() == c);
        }
        if c == 46 {
            parts.push(Vec::new());
        } else {
            let last = parts.len() - 1;
            let mut p = parts.remove(last);
            p.push(c);
            parts.push(p);
        }
        proof {
            assert(parts@.map_values(|v: Vec<u8>| v@) =~= split_on(b@.take(i + 1), 46));
        }
        i = i + 1;
    }
    proof {
        assert(b@.take(b@.len() as int) =~= b@);
    }
    if parts.len() != 4 || !bytes_are(parts[0].as_slice(), "r") || !bytes_are(parts[3].as_slice(), "mca") {
        return Err(FileNameError::UnexpectedName);
    }
    let x = parse_i32(parts[1].as_slice());
    let z = parse_i32(parts[2].as_slice());
    match (x, z) {
        (Some(x), Some(z)) => Ok((x, z)),
        _ => Err(FileNameError::InvalidNumber),
    }
}


/// The decimal digits of `n`, without leading zeros (`0` for zero).
pub open spec fn dec_digits(n: nat) -> Seq<u8>
    decreases n,
{
    if n < 10 {
        seq![(48 + n) as u8]
    } else {
        dec_digits(n / 10).push((48 + n % 10) as u8)
    }
}

/// `v` in decimal, as Rust formats an integer: a `-` for negative numbers, then the
/// digits.
pub open spec fn dec_i32(v: i32) -> Seq<u8> {
    if v < 0 { seq![45u8] + dec_digits((-(v as int)) as nat) } else { dec_digits(v as nat) }
}

/// The name of the region file at `(x, z)`: `r.<x>.<z>.mca`.
pub open spec fn mca_file_name(x: i32, z: i32) -> Seq<u8> {
    seq![114u8] + seq![46u8] + dec_i32(x) + seq![46u8] + dec_i32(z) + seq![46u8] + seq![109u8, 99, 97]
}

/// The decimal digits of `n` are digits, at least one, and have the value `n`.
proof fn lemma_dec_digits(n: nat)
    ensures
        dec_digits(n).len() >= 1,
        all_digits(dec_digits(n)),
        digits_value(dec_digits(n)) == n,
    decreases n,
{
    if n >= 10 {
        lemma_dec_digits(n / 10);
        let d = dec_digits(n);
        assert(d.drop_last() =~= dec_digits(n / 10));
        assert(n == 10 * (n / 10) + n % 10);
        assert(d.last() == (48 + n % 10) as u8);
        assert(d.last() - 48 == n % 10);
        assert(digits_value(d) == 10 * digits_value(d.drop_last()) + (d.last() - 48));
        assert(digits_value(d.drop_last()) == n / 10);
        assert forall|i: int| 0 <= i < d.len() implies 48 <= #[trigger] d[i] <= 57 by {
            if i < d.len() - 1 {
                assert(d[i] == dec_digits(n / 10)[i]);
            }
        }
    } else {
        let d = dec_digits(n);
        assert(d.drop_last() =~= Seq::<u8>::empty());
        assert(d.last() == (48 + n) as u8);
        assert(digits_value(d) == 10 * digits_value(d.drop_last()) + (d.last() - 48));
    }
}

/// Reading a number written in decimal gives it back.
proof fn lemma_parse_dec_i32(v: i32)
    ensures
        spec_parse_i32(dec_i32(v)) == Some(v),
        all_digits(dec_i32(v).skip(1)) || all_digits(dec_i32(v)),
        forall|i: int| 0 <= i < dec_i32(v).len() ==> #[trigger] dec_i32(v)[i] != 46u8,
{
    let b = dec_i32(v);
    if v < 0 {
        let n = (-(v as int)) as nat;
        lemma_dec_digits(n);
        assert(b.skip(1) =~= dec_digits(n));
        assert forall|i: int| 0 <= i < b.len() implies #[trigger] b[i] != 46u8 by {
            if i > 0 {
                assert(b[i] == dec_digits(n)[i - 1]);
            }
        }
    } else {
        lemma_dec_digits(v as nat);
        assert(48 <= b[0] <= 57);
    }
}

/// `split_on` always gives at least one part.
proof fn lemma_split_nonempty(b: Seq<u8>, sep: u8)
    ensures
        split_on(b, sep).len() >= 1,
    decreases b.len(),
{
    if b.len() > 0 {
        lemma_split_nonempty(b.drop_last(), sep);
    }
}

/// Appending bytes without the separator extends the last part.
proof fn lemma_split_extend(a: Seq<u8>, b: Seq<u8>, sep: u8)
    requires
        forall|i: int| 0 <= i < b.len() ==> #[trigger] b[i] != sep,
    ensures
        split_on(a + b, sep) == split_on(a, sep).update(split_on(a, sep).len() - 1, split_on(a, sep).last() + b),
    decreases b.len(),
{
    lemma_split_nonempty(a, sep);
    let p = split_on(a, sep);
    if b.len() == 0 {
        assert(a + b =~= a);
        assert(p.last() + b =~= p.last());
        assert(p.update(p.len() - 1, p.last()) =~= p);
    } else {
        lemma_split_extend(a, b.drop_last(), sep);
        assert((a + b).drop_last() =~= a + b.drop_last());
        assert((a + b).last() == b.last());
        assert((p.last() + b.drop_last()).push(b.last()) =~= p.last() + b);
        assert(split_on(a + b, sep) =~= p.update(p.len() - 1, p.last() + b));
    }
}

/// Appending the separator starts a new, empty part.
proof fn lemma_split_sep(a: Seq<u8>, sep: u8)
    ensures
        split_on(a + seq![sep], sep) == split_on(a, sep).push(Seq::<u8>::empty()),
{
    assert((a + seq![sep]).drop_last() =~= a);
}

/// The parts of `a`, followed by a separator and bytes `b` without one.
proof fn lemma_split_next(a: Seq<u8>, b: Seq<u8>, sep: u8)
    requires
        forall|i: int| 0 <= i < b.len() ==> #[trigger] b[i] != sep,
    ensures
        split_on(a + seq![sep] + b, sep) == split_on(a, sep).push(b),
{
    lemma_split_sep(a, sep);
    lemma_split_extend(a + seq![sep], b, sep);
    let p = split_on(a, sep).push(Seq::<u8>::empty());
    assert(Seq::<u8>::empty() + b =~= b);
    assert(p.update(p.len() - 1, b) =~= split_on(a, sep).push(b));
}

/// Reading the region coordinates from the name of the region file at `(x, z)` gives
/// back `(x, z)`.
pub proof fn lemma_file_name_roundtrip(x: i32, z: i32)
    ensures
        spec_parse_mca_file_name(mca_file_name(x, z)) == Ok::<(i32, i32), FileNameError>((x, z)),
{
    let dx = dec_i32(x);
    let dz = dec_i32(z);
    lemma_parse_dec_i32(x);
    lemma_parse_dec_i32(z);
    let r = seq![114u8];
    let mca = seq![109u8, 99, 97];
    lemma_split_extend(Seq::<u8>::empty(), r, 46);
    assert(Seq::<u8>::empty() + r =~= r);
    assert(split_on(Seq::<u8>::empty(), 46) =~= seq![Seq::<u8>::empty()]);
    assert(split_on(r, 46) =~= seq![r]);
    lemma_split_next(r, dx, 46);
    lemma_split_next(r + seq![46u8] + dx, dz, 46);
    assert forall|i: int| 0 <= i < mca.len() implies #[trigger] mca[i] != 46u8 by {}
    lemma_split_next(r + seq![46u8] + dx + seq![46u8] + dz, mca, 46);
    assert(mca_file_name(x, z) =~= r + seq![46u8] + dx + seq![46u8] + dz + seq![46u8] + mca);
    let parts = split_on(mca_file_name(x, z), 46);
    assert(parts =~= seq![r, dx, dz, mca]);
    reveal_strlit("r");
    reveal_strlit("mca");
    vstd::string::is_ascii_spec_bytes("r");
    vstd::string::is_ascii_spec_bytes("mca");
    assert("r".spec_bytes() =~= r);
    assert("mca".spec_bytes() =~= mca);
}

} // verus!
