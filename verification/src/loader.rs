//! Region files (`.mca`): a header of 1024 chunk locations, then zlib-compressed
//! chunks in 4096-byte sectors.

use vstd::prelude::*;
use vstd::slice::slice_subrange;
use libdeflater::Decompressor;
use crate::nbt::helper::be_u32_at;

verus! {

#[verifier::external_type_specification]
#[verifier::external_body]
pub struct ExDecompressor(Decompressor);

/// The bytes that zlib data decompresses to, or `None` where it is not valid zlib
/// data. Decompression stops at the end of the zlib stream.
pub uninterp spec fn zlib_decode(data: Seq<u8>) -> Option<Seq<u8>>;

/// Why zlib decompression failed.
#[derive(Debug, PartialEq, Eq, Structural)]
pub enum ZlibError {
    /// The data is not valid zlib data.
    BadData,
    /// The output buffer is too small for the decompressed data.
    InsufficientSpace,
}

/// Why a region file or one of its chunks could not be read.
#[derive(Debug, PartialEq, Eq, Structural)]
pub enum LoaderError {
    /// The file is shorter than its header.
    TooShort,
    /// The file ends inside the data it points to.
    UnexpectedEof,
    /// The header has no location for the chunk.
    ChunkNotFound,
    /// A length or the decompressed data make no sense.
    BadData,
    /// The chunk is not zlib-compressed.
    UnexpectedCompression,
    /// Decompression failed.
    Decompression(ZlibError),
    /// The decompressed chunk does not fit in memory.
    TooLarge,
}

impl LoaderError {
    /// A short description of the error.
    pub fn message(&self) -> (r: &'static str)
        ensures
            r@ == (match *self {
                LoaderError::TooShort => "invalid header (too short)"@,
                LoaderError::UnexpectedEof => "unexpected EOF"@,
                LoaderError::ChunkNotFound => "chunk not found"@,
                LoaderError::BadData => "bad data"@,
                LoaderError::UnexpectedCompression => "unexpected compression type"@,
                LoaderError::Decompression(ZlibError::BadData) => "invalid zlib data"@,
                LoaderError::Decompression(ZlibError::InsufficientSpace) => "insufficient space for zlib data"@,
                LoaderError::TooLarge => "chunk too large"@,
            }),
    {
        match self {
            LoaderError::TooShort => "invalid header (too short)",
            LoaderError::UnexpectedEof => "unexpected EOF",
            LoaderError::ChunkNotFound => "chunk not found",
            LoaderError::BadData => "bad data",
            LoaderError::UnexpectedCompression => "unexpected compression type",
            LoaderError::Decompression(ZlibError::BadData) => "invalid zlib data",
            LoaderError::Decompression(ZlibError::InsufficientSpace) => "insufficient space for zlib data",
            LoaderError::TooLarge => "chunk too large",
        }
    }
}

/// Allocates a decompressor (`libdeflater::Decompressor::new`).
#[verifier::external_body]
fn new_decompressor() -> (r: Decompressor) {
    Decompressor::new()
}

/// Decompresses the zlib data `zlib_data` into `out`
/// (`libdeflater::Decompressor::zlib_decompress`). On success, the first `n` bytes of
/// `out` are the decompressed data; `BadData` means the data is not valid zlib data;
/// `InsufficientSpace` means that the data, if valid, decompresses to more than `out`
/// holds. What `out` holds beyond the decompressed bytes, or after a failure, is not
/// stated.
#[verifier::external_body]
fn zlib_decompress(d: &mut Decompressor, zlib_data: &[u8], out: &mut [u8]) -> (r: Result<usize, ZlibError>)
    ensures
        final(out)@.len() == old(out)@.len(),
        r matches Ok(n) ==> n <= old(out)@.len() && zlib_decode(zlib_data@) == Some(final(out)@.take(n as int)),
        r matches Err(e) && e == ZlibError::BadData ==> zlib_decode(zlib_data@) is None,
        r matches Err(e) && e == ZlibError::InsufficientSpace ==> (zlib_decode(zlib_data@) matches Some(x) ==> x.len() > old(out)@.len()),
{
    match d.zlib_decompress(zlib_data, out) {
        Ok(n) => Ok(n),
        Err(libdeflater::DecompressionError::BadData) => Err(ZlibError::BadData),
        Err(libdeflater::DecompressionError::InsufficientSpace) => Err(ZlibError::InsufficientSpace),
    }
}

/// The header entry of chunk `idx`: sector offset times 256 plus sector count.
pub open spec fn location_entry(d: Seq<u8>, idx: nat) -> nat {
    be_u32_at(d.subrange((4 * idx) as int, (4 * idx + 4) as int))
}

/// Where the compressed bytes of chunk `idx` lie in the file `d` (start and length),
/// or why they cannot be found. A chunk at sector `o` starts with its length `l` as a
/// big-endian signed 32-bit number and a compression byte (2 for zlib), followed by
/// `l - 1` compressed bytes.
pub open spec fn chunk_span(d: Seq<u8>, idx: nat) -> Result<(nat, nat), LoaderError> {
    if d.len() < 4 * idx + 4 {
        Err(LoaderError::UnexpectedEof)
    } else {
        let v = location_entry(d, idx);
        let o = v / 256;
        if o < 2 || v % 256 == 0 {
            Err(LoaderError::ChunkNotFound)
        } else if d.len() < o * 4096 + 5 {
            Err(LoaderError::UnexpectedEof)
        } else {
            let l = be_u32_at(d.subrange((o * 4096) as int, (o * 4096 + 4) as int));
            if l >= 0x8000_0000 || l <= 1 {
                Err(LoaderError::BadData)
            } else if d[(o * 4096 + 4) as int] != 2 {
                Err(LoaderError::UnexpectedCompression)
            } else if d.len() < o * 4096 + 5 + (l - 1) {
                Err(LoaderError::UnexpectedEof)
            } else {
                Ok((o * 4096 + 5, (l - 1) as nat))
            }
        }
    }
}

/// Decompressed chunk data as it must look: a compound tag byte first and an `End`
/// tag byte last.
pub open spec fn is_chunk_nbt(x: Seq<u8>) -> bool {
    &&& x.len() > 1
    &&& x[0] == 10
    &&& x[x.len() - 1] == 0
}

/// The largest decompressed chunk that the loader's buffer can grow to hold.
pub open spec fn max_decompressed_len() -> nat {
    ((usize::MAX - 1) / 2) as nat
}

/// Reads chunks from the bytes of a region file, reusing one buffer for the
/// decompressed data.
pub struct McaLoader {
    data: Vec<u8>,
    decompressor: Decompressor,
    decompressed_chunk: Vec<u8>,
}

impl McaLoader {
    /// The bytes of the loaded file.
    pub closed spec fn spec_data(&self) -> Seq<u8> {
        self.data@
    }

    /// A loader with no file loaded.
    pub fn new() -> (r: McaLoader)
        ensures
            r.spec_data().len() == 0,
    {
        McaLoader {
            data: Vec::with_capacity(12000000),
            decompressor: new_decompressor(),
            decompressed_chunk: vec![0; 80000],
        }
    }

    /// Loads the bytes of a region file; fails if they are too short for the header.
    pub fn load_mca(&mut self, bytes: Vec<u8>) -> (r: Result<(), LoaderError>)
        ensures
            final(self).spec_data() == bytes@,
            bytes@.len() < 8192 ==> r == Err::<(), LoaderError>(LoaderError::TooShort),
            bytes@.len() >= 8192 ==> r is Ok,
    {
        let n = bytes.len();
        self.data = bytes;
        if n < 8192 {
            return Err(LoaderError::TooShort);
        }
        Ok(())
    }

    /// The sector offset and sector count of chunk `idx`.
    fn get_chunk_pos(&self, idx: usize) -> (r: Result<(u32, u8), LoaderError>)
        requires
            self.spec_data().len() > 0,
            idx < 1024,
        ensures
            self.spec_data().len() < 4 * idx + 4 ==> r == Err::<(u32, u8), LoaderError>(LoaderError::UnexpectedEof),
            self.spec_data().len() >= 4 * idx + 4 ==> (r matches Ok((o, l))
                && o == location_entry(self.spec_data(), idx as nat) / 256
                && l == location_entry(self.spec_data(), idx as nat) % 256),
    {
        if self.data.len() < idx * 4 + 4 {
            return Err(LoaderError::UnexpectedEof);
        }
        let b0 = self.data[idx * 4] as u32;
        let b1 = self.data[idx * 4 + 1] as u32;
        let b2 = self.data[idx * 4 + 2] as u32;
        let b3 = self.data[idx * 4 + 3] as u32;
        let v = ((b0 * 256 + b1) * 256 + b2) * 256 + b3;
        proof {
            assert(v == location_entry(self.spec_data(), idx as nat));
        }
        let off = v / 256;
        let len = (v % 256) as u8;
        Ok((off, len))
    }

    /// The decompressed NBT data of chunk `idx` (`0..1024`). The data must begin with a
    /// compound tag byte and end with an `End` tag byte.
    pub fn get_chunk_data(&mut self, idx: usize) -> (r: Result<&[u8], LoaderError>)
        requires
            old(self).spec_data().len() > 0,
            idx < 1024,
        ensures
            final(self).spec_data() == old(self).spec_data(),
            chunk_span(old(self).spec_data(), idx as nat) matches Err(e) ==> (r matches Err(e2) && e2 == e),
            chunk_span(old(self).spec_data(), idx as nat) matches Ok((s, l)) ==> ({
                let z = zlib_decode(old(self).spec_data().subrange(s as int, (s + l) as int));
                &&& r matches Ok(out) ==> z == Some(out@) && is_chunk_nbt(out@)
                &&& z matches Some(x) ==> (x.len() <= max_decompressed_len() && is_chunk_nbt(x)
                    ==> (r matches Ok(out) && out@ == x))
                &&& z matches Some(x) ==> (x.len() <= max_decompressed_len() && !is_chunk_nbt(x)
                    ==> (r matches Err(e) && e == LoaderError::BadData))
                &&& z is None ==> r is Err
            }),
    {
        let ghost d = self.data@;
        let (off, len) = match self.get_chunk_pos(idx) {
            Ok(p) => p,
            Err(e) => return Err(e),
        };
        if off < 2 || len == 0 {
            return Err(LoaderError::ChunkNotFound);
        }
        let o = off as u64;
        if (self.data.len() as u64) < o * 4096 + 5 {
            return Err(LoaderError::UnexpectedEof);
        }
        let base = (off as usize) * 4096;
        let raw = ((self.data[base] as u32 * 256 + self.data[base + 1] as u32) * 256
            + self.data[base + 2] as u32) * 256 + self.data[base + 3] as u32;
        proof {
            assert(d.subrange(base as int, base + 4)[0] == d[base as int]);
            assert(raw == be_u32_at(d.subrange(base as int, base + 4)));
        }
        if raw >= 0x8000_0000 || raw <= 1 {
            return Err(LoaderError::BadData);
        }
        if self.data[base + 4] != 2 {
            return Err(LoaderError::UnexpectedCompression);
        }
        let chunk_byte_off = base + 5;
        let chunk_byte_len = (raw - 1) as usize;
        if self.data.len() - chunk_byte_off < chunk_byte_len {
            return Err(LoaderError::UnexpectedEof);
        }
        let ghost src = d.subrange(chunk_byte_off as int, chunk_byte_off + chunk_byte_len);
        let mut n: usize = 0;
        loop
            invariant
                self.data@ == d,
                d == old(self).spec_data(),
                chunk_byte_off + chunk_byte_len <= self.data.len(),
                chunk_span(d, idx as nat) == Ok::<(nat, nat), LoaderError>((chunk_byte_off as nat, chunk_byte_len as nat)),
                src == d.subrange(chunk_byte_off as int, chunk_byte_off + chunk_byte_len),
            ensures
                self.data@ == d,
                n <= self.decompressed_chunk@.len(),
                zlib_decode(src) == Some(self.decompressed_chunk@.take(n as int)),
            decreases usize::MAX - self.decompressed_chunk@.len(),
        {
            let zdata = slice_subrange(self.data.as_slice(), chunk_byte_off, chunk_byte_off + chunk_byte_len);
            let res = zlib_decompress(&mut self.decompressor, zdata, self.decompressed_chunk.as_mut_slice());
            match res {
                Ok(k) => {
                    n = k;
                    break;
                },
                Err(ZlibError::InsufficientSpace) => {
                    let cur = self.decompressed_chunk.len();
                    if cur > (usize::MAX - 1) / 2 {
                        return Err(LoaderError::TooLarge);
                    }
                    self.decompressed_chunk.resize(cur * 2 + 1, 0);
                },
                Err(ZlibError::BadData) => {
                    return Err(LoaderError::Decompression(ZlibError::BadData));
                },
            }
        }
        if n <= 1 {
            return Err(LoaderError::BadData);
        }
        if self.decompressed_chunk[0] != 10 || self.decompressed_chunk[n - 1] != 0 {
            return Err(LoaderError::BadData);
        }
        Ok(slice_subrange(self.decompressed_chunk.as_slice(), 0, n))
    }
}

} // verus!
