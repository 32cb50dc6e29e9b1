//! The region-file container: a two-block header of locations and
//! timestamps, and sector-aligned chunk records holding compressed NBT.
//!
//! The reader and writer work over an in-memory image of the file; the
//! compression itself is done by flate2 behind trusted wrappers whose
//! results are named `gzip_of` / `zlib_of` and their inverses.

use vstd::prelude::*;
use crate::bytes::{
    push_u24_be, push_u32_be, spec_u24_from_be_bytes, spec_u32_from_be_bytes, take_u24_be,
    take_u32_be,
};
use crate::error::NBTError;
use crate::model::parse_named;
use crate::value::Value;

verus! {

broadcast use vstd::std_specs::vec::group_vec_axioms;

/// Failures of the region layer.
#[derive(Debug, Clone, PartialEq)]
pub enum Error {
    Io,
    Nbt(NBTError),
    InvalidChunkHeader(&'static str),
}

/// A chunk's place in the file: sector offset and sector count.
/// A zero offset means the chunk is absent.
#[derive(Debug, Clone, Eq, PartialEq, Structural, Hash, Copy)]
pub struct RegionLocation(pub u32, pub u8);

impl RegionLocation {
    /// The byte offset of the chunk record: sectors of 4096 bytes.
    pub fn calc_offset(&self) -> (r: u64)
        ensures
            r == self.0 * 4096,
    {
        (self.0 as u64) * 4096
    }
}

/// The 8 KiB header: 1024 locations, then 1024 timestamps.
#[derive(Debug, Clone)]
pub struct RegionHeader {
    /// The chunks' offsets and sizes.
    pub locations: Vec<RegionLocation>,
    /// The chunks' last-modified timestamps.
    pub timestamps: Vec<u32>,
}

/// The five bytes in front of a chunk's payload.
#[derive(Debug, Clone)]
pub struct ChunkHeader {
    pub length: u32,
    pub compression_type: CompressionType,
}

/// The compression scheme byte of a chunk record.
#[derive(Debug, Clone, PartialEq, Eq, Structural, Copy)]
pub enum CompressionType {
    Gzip,
    Zlib,
    Uncompressed,
    Custom(u8),
}

/// The scheme a compression byte stands for.
pub open spec fn spec_compression_from_u8(data: u8) -> CompressionType {
    if data == 1 {
        CompressionType::Gzip
    } else if data == 2 {
        CompressionType::Zlib
    } else if data == 3 {
        CompressionType::Uncompressed
    } else {
        CompressionType::Custom(data)
    }
}

impl CompressionType {
    pub fn from_u8(data: u8) -> (r: Self)
        ensures
            r == spec_compression_from_u8(data),
    {
        match data {
            3 => CompressionType::Uncompressed,
            1 => CompressionType::Gzip,
            2 => CompressionType::Zlib,
            _ => CompressionType::Custom(data),
        }
    }
}

// ---------------------------------------------------------------------------
// Compression, behind trusted wrappers
// ---------------------------------------------------------------------------

/// The gzip stream flate2's encoder produces for the given bytes.
pub uninterp spec fn gzip_of(data: Seq<u8>) -> Seq<u8>;

/// What flate2's gzip decoder makes of the given stream: the decompressed
/// bytes, or `None` where it reports an error.
pub uninterp spec fn ungzip_of(data: Seq<u8>) -> Option<Seq<u8>>;

/// The zlib stream flate2's encoder produces for the given bytes.
pub uninterp spec fn zlib_of(data: Seq<u8>) -> Seq<u8>;

/// What flate2's zlib decoder makes of the given stream.
pub uninterp spec fn unzlib_of(data: Seq<u8>) -> Option<Seq<u8>>;

/// Relies on flate2's `GzEncoder` writing to a `Vec`, which never fails:
/// the output depends on the input bytes alone, and feeding it back to the
/// decoder gives the input again.
#[verifier::external_body]
fn gzip_compress(data: &Vec<u8>) -> (r: Vec<u8>)
    ensures
        r@ == gzip_of(data@),
        ungzip_of(r@) == Some(data@),
{
    let mut enc = flate2::write::GzEncoder::new(Vec::new(), flate2::Compression::default());
    if std::io::Write::write_all(&mut enc, data.as_slice()).is_err() {
        return Vec::new();
    }
    enc.finish().unwrap_or_default()
}

/// Relies on flate2's `GzDecoder`: reading it to the end yields the
/// decompressed bytes, or an error exactly where the stream is not a
/// well-formed gzip stream.
#[verifier::external_body]
fn gzip_decompress(data: &Vec<u8>) -> (r: Result<Vec<u8>, Error>)
    ensures
        r matches Ok(d) ==> ungzip_of(data@) == Some(d@),
        r is Err ==> ungzip_of(data@) is None,
{
    let mut dec = flate2::read::GzDecoder::new(data.as_slice());
    let mut out = Vec::new();
    match std::io::Read::read_to_end(&mut dec, &mut out) {
        Ok(_) => Ok(out),
        Err(_) => Err(Error::Io),
    }
}

/// Relies on flate2's `ZlibEncoder` writing to a `Vec`, which never fails:
/// the output depends on the input bytes alone, and feeding it back to the
/// decoder gives the input again.
#[verifier::external_body]
fn zlib_compress(data: &Vec<u8>) -> (r: Vec<u8>)
    ensures
        r@ == zlib_of(data@),
        unzlib_of(r@) == Some(data@),
{
    let mut enc = flate2::write::ZlibEncoder::new(Vec::new(), flate2::Compression::default());
    if std::io::Write::write_all(&mut enc, data.as_slice()).is_err() {
        return Vec::new();
    }
    enc.finish().unwrap_or_default()
}

/// Relies on flate2's `ZlibDecoder`: reading it to the end yields the
/// decompressed bytes, or an error exactly where the stream is not a
/// well-formed zlib stream.
#[verifier::external_body]
fn zlib_decompress(data: &Vec<u8>) -> (r: Result<Vec<u8>, Error>)
    ensures
        r matches Ok(d) ==> unzlib_of(data@) == Some(d@),
        r is Err ==> unzlib_of(data@) is None,
{
    let mut dec = flate2::read::ZlibDecoder::new(data.as_slice());
    let mut out = Vec::new();
    match std::io::Read::read_to_end(&mut dec, &mut out) {
        Ok(_) => Ok(out),
        Err(_) => Err(Error::Io),
    }
}

/// The compressed form a chunk writer produces for a payload under each
/// scheme byte; meaningful for the tags 1..=3.
pub open spec fn spec_compressed(tag: u8, data: Seq<u8>) -> Seq<u8> {
    if tag == 1 {
        gzip_of(data)
    } else if tag == 2 {
        zlib_of(data)
    } else {
        data
    }
}

/// What decompressing a chunk payload under each scheme gives back.
pub open spec fn spec_decompressed(tag: u8, data: Seq<u8>) -> Option<Seq<u8>> {
    if tag == 1 {
        ungzip_of(data)
    } else if tag == 2 {
        unzlib_of(data)
    } else if tag == 3 {
        Some(data)
    } else {
        None
    }
}

// ---------------------------------------------------------------------------
// Byte layout
// ---------------------------------------------------------------------------

/// The location entry at table index `i`: u24 sector offset, u8 count.
pub open spec fn spec_location_at(s: Seq<u8>, i: int) -> RegionLocation {
    RegionLocation(spec_u24_from_be_bytes(s.subrange(4 * i, 4 * i + 3)), s[4 * i + 3])
}

/// The timestamp at table index `i`.
pub open spec fn spec_timestamp_at(s: Seq<u8>, i: int) -> u32 {
    spec_u32_from_be_bytes(s.subrange(4096 + 4 * i, 4096 + 4 * i + 4))
}

/// The chunk header at byte offset `off`: length and compression byte.
pub open spec fn spec_chunk_header_at(s: Seq<u8>, off: int) -> Option<(u32, u8)> {
    if off + 5 <= s.len() {
        Some((spec_u32_from_be_bytes(s.subrange(off, off + 4)), s[off + 4]))
    } else {
        None
    }
}

/// The compressed payload of the chunk record at `off`: the `length - 1`
/// bytes after the compression byte.
pub open spec fn spec_chunk_payload_at(s: Seq<u8>, off: int) -> Option<(u8, Seq<u8>)> {
    match spec_chunk_header_at(s, off) {
        None => None,
        Some((len, tag)) => if 1 <= len && off + 4 + len <= s.len() {
            Some((tag, s.subrange(off + 5, off + 4 + len)))
        } else {
            None
        },
    }
}

/// A reader over an in-memory image of a region file.
#[derive(Debug)]
pub struct RegionReader {
    pub src: Vec<u8>,
}

impl RegionReader {
    pub fn new(src: Vec<u8>) -> (r: Self)
        ensures
            r.src == src,
    {
        RegionReader { src }
    }

    pub fn into_inner(self) -> (r: Vec<u8>)
        ensures
            r == self.src,
    {
        self.src
    }

    /// Both header tables.  Fails with `InvalidChunkHeader` when the image
    /// is shorter than the 8 KiB header.
    pub fn read_region_header(&self) -> (r: Result<RegionHeader, Error>)
        ensures
            self.src.len() >= 8192 ==> (r matches Ok(h) && h.locations@.len() == 1024
                && h.timestamps@.len() == 1024 && (forall|i: int|
                0 <= i < 1024 ==> h.locations@[i] == spec_location_at(self.src@, i)) && (
            forall|i: int| 0 <= i < 1024 ==> h.timestamps@[i] == spec_timestamp_at(self.src@, i))),
            self.src.len() < 8192 ==> r == Err::<RegionHeader, Error>(
                Error::InvalidChunkHeader("header"),
            ),
    {
        if self.src.len() < 8192 {
            return Err(Error::InvalidChunkHeader("header"));
        }
        let mut locations: Vec<RegionLocation> = Vec::new();
        let mut i: usize = 0;
        while i < 1024
            invariant
                i <= 1024,
                self.src.len() >= 8192,
                locations@.len() == i,
                forall|j: int| 0 <= j < i ==> locations@[j] == spec_location_at(self.src@, j),
            decreases 1024 - i,
        {
            let offset = take_u24_be(&self.src, 4 * i);
            let count = self.src[4 * i + 3];
            locations.push(RegionLocation(offset, count));
            i = i + 1;
        }
        let mut timestamps: Vec<u32> = Vec::new();
        let mut k: usize = 0;
        while k < 1024
            invariant
                k <= 1024,
                self.src.len() >= 8192,
                timestamps@.len() == k,
                forall|j: int| 0 <= j < k ==> timestamps@[j] == spec_timestamp_at(self.src@, j),
            decreases 1024 - k,
        {
            let t = take_u32_be(&self.src, 4096 + 4 * k);
            timestamps.push(t);
            k = k + 1;
        }
        Ok(RegionHeader { locations, timestamps })
    }

    /// The chunk header at a location.  The absent chunk (offset zero) is
    /// the sentinel header with length zero.
    pub fn read_chunk_header(&self, location: RegionLocation) -> (r: Result<ChunkHeader, Error>)
        ensures
            location.0 == 0 ==> (r matches Ok(h) && h.length == 0),
            location.0 != 0 ==> match spec_chunk_header_at(self.src@, location.0 * 4096) {
                Some((len, tag)) => r matches Ok(h) && h.length == len && h.compression_type
                    == spec_compression_from_u8(tag),
                None => r == Err::<ChunkHeader, Error>(Error::Io),
            },
    {
        if location.0 == 0 {
            return Ok(ChunkHeader { length: 0, compression_type: CompressionType::Gzip });
        }
        let offset = location.calc_offset();
        if offset + 5 > self.src.len() as u64 {
            return Err(Error::Io);
        }
        let off = offset as usize;
        let length = take_u32_be(&self.src, off);
        let compression_type = self.src[off + 4];
        Ok(ChunkHeader { length, compression_type: CompressionType::from_u8(compression_type) })
    }

    /// The chunk header and the still-compressed payload bytes at a
    /// location.  The absent chunk gives the sentinel and no bytes,
    /// without touching the payload area.
    pub fn read_chunk_to_bytes(&self, location: RegionLocation) -> (r: Result<
        (ChunkHeader, Vec<u8>),
        Error,
    >)
        ensures
            location.0 == 0 ==> (r matches Ok(p) && p.0.length == 0 && p.1@ == Seq::<u8>::empty()),
            location.0 != 0 ==> match spec_chunk_payload_at(self.src@, location.0 * 4096) {
                Some((tag, body)) => (r matches Ok(p) && p.0.length == body.len() + 1
                    && p.0.compression_type == spec_compression_from_u8(tag) && p.1@ == body),
                None => (r matches Ok(p) ==> p.0.length == 0 && p.1@ == Seq::<u8>::empty()),
            },
    {
        let header = self.read_chunk_header(location)?;
        if header.length == 0 || location.0 == 0 {
            return Ok((ChunkHeader { length: 0, compression_type: header.compression_type }, Vec::new()));
        }
        let offset64 = location.calc_offset();
        if offset64 + 4 + (header.length as u64) > self.src.len() as u64 {
            return Err(Error::Io);
        }
        let off = offset64 as usize;
        let len = header.length as usize;
        let mut body: Vec<u8> = Vec::new();
        let mut i: usize = 0;
        while i < len - 1
            invariant
                i <= len - 1,
                1 <= len,
                off + 4 + len <= self.src.len(),
                body@ == self.src@.subrange(off + 5, off + 5 + i),
            decreases len - 1 - i,
        {
            body.push(self.src[off + 5 + i]);
            i = i + 1;
            proof {
                assert(body@ =~= self.src@.subrange(off + 5, off + 5 + i));
            }
        }
        proof {
            assert(body@ =~= self.src@.subrange(off + 5, off + 4 + len));
        }
        Ok((header, body))
    }

    /// The chunk at a location, decompressed and decoded.  The absent
    /// chunk reads as `Value::End` without touching the payload area.
    /// A `Custom` compression byte is rejected.
    pub fn read_chunk_to_value(&self, location: RegionLocation) -> (r: Result<
        (ChunkHeader, Value),
        Error,
    >)
        ensures
            location.0 == 0 ==> (r matches Ok(p) && p.0.length == 0 && p.1@.1 is End),
            location.0 != 0 ==> match spec_chunk_payload_at(self.src@, location.0 * 4096) {
                Some((tag, body)) => match spec_decompressed(tag, body) {
                    Some(d) => match parse_named(d) {
                        Some((nm, n)) => r matches Ok(p) && p.1@ == nm,
                        None => r is Err,
                    },
                    None => r is Err,
                },
                None => (r matches Ok(p) ==> p.0.length == 0 && p.1@.1 is End),
            },
    {
        let (header, body) = self.read_chunk_to_bytes(location)?;
        if header.length == 0 || location.0 == 0 {
            return Ok((header, Value::End));
        }
        let decompressed = match header.compression_type {
            CompressionType::Gzip => gzip_decompress(&body)?,
            CompressionType::Zlib => zlib_decompress(&body)?,
            CompressionType::Uncompressed => body,
            CompressionType::Custom(_) => {
                return Err(Error::Io);
            },
        };
        let ghost dv = decompressed@;
        let mut reader = crate::reader::NBTReader::new(decompressed);
        proof {
            assert(reader.remaining() =~= dv);
        }
        match reader.read_value() {
            Ok(v) => Ok((header, v)),
            Err(e) => Err(Error::Nbt(e)),
        }
    }
}

/// A writer that builds an in-memory image of a region file.
#[derive(Debug)]
pub struct RegionWriter {
    pub src: Vec<u8>,
}

impl RegionWriter {
    pub fn new(src: Vec<u8>) -> (r: Self)
        ensures
            r.src == src,
    {
        RegionWriter { src }
    }

    pub fn into_inner(self) -> (r: Vec<u8>)
        ensures
            r == self.src,
    {
        self.src
    }

    /// Writes the 8 KiB header: 1024 locations as u24 offset plus u8
    /// count, then 1024 u32 timestamps.  Rejects tables of the wrong
    /// length, and offsets that do not fit the 24-bit field.
    pub fn write_region(&mut self, header: &RegionHeader) -> (r: Result<(), Error>)
        ensures
            r is Ok <==> header.locations@.len() == 1024 && header.timestamps@.len() == 1024 && (
            forall|i: int| 0 <= i < 1024 ==> (#[trigger] header.locations@[i]).0 < 0x100_0000),
            r is Ok ==> final(self).src@.len() == old(self).src@.len() + 8192 && (forall|i: int|
                0 <= i < 1024 ==> spec_location_at(
                    final(self).src@.skip(old(self).src@.len() as int),
                    i,
                ) == header.locations@[i]) && (forall|i: int|
                0 <= i < 1024 ==> spec_timestamp_at(
                    final(self).src@.skip(old(self).src@.len() as int),
                    i,
                ) == header.timestamps@[i]),
            r is Err ==> final(self).src == old(self).src,
    {
        if header.locations.len() != 1024 {
            return Err(Error::InvalidChunkHeader("locations"));
        }
        if header.timestamps.len() != 1024 {
            return Err(Error::InvalidChunkHeader("timestamps"));
        }
        let mut v: usize = 0;
        let mut offsets_fit = true;
        while v < 1024
            invariant
                v <= 1024,
                header.locations@.len() == 1024,
                self.src == old(self).src,
                offsets_fit <==> (forall|j: int|
                    0 <= j < v ==> (#[trigger] header.locations@[j]).0 < 0x100_0000),
            decreases 1024 - v,
        {
            if header.locations[v].0 >= 0x100_0000 {
                offsets_fit = false;
            }
            v = v + 1;
        }
        if !offsets_fit {
            return Err(Error::InvalidChunkHeader("locations"));
        }
        let ghost base = self.src@.len() as int;
        let mut i: usize = 0;
        while i < 1024
            invariant
                i <= 1024,
                header.locations@.len() == 1024,
                forall|j: int| 0 <= j < 1024 ==> (#[trigger] header.locations@[j]).0 < 0x100_0000,
                self.src@.len() == base + 4 * i,
                base == old(self).src@.len(),
                self.src@.subrange(0, base) == old(self).src@,
                forall|j: int|
                    0 <= j < i ==> spec_location_at(self.src@.skip(base), j)
                        == header.locations@[j],
            decreases 1024 - i,
        {
            let loc = header.locations[i];
            let ghost prev = self.src@;
            push_u24_be(&mut self.src, loc.0);
            self.src.push(loc.1);
            proof {
                assert(self.src@.subrange(0, base) =~= old(self).src@);
                crate::bytes::lemma_u24_be_round_trip();
                assert forall|j: int| 0 <= j < i + 1 implies spec_location_at(
                    self.src@.skip(base),
                    j,
                ) == header.locations@[j] by {
                    if j < i {
                        assert(self.src@.skip(base).subrange(4 * j, 4 * j + 3) =~= prev.skip(
                            base,
                        ).subrange(4 * j, 4 * j + 3));
                        assert(self.src@.skip(base)[4 * j + 3] == prev.skip(base)[4 * j + 3]);
                    } else {
                        assert(self.src@.skip(base).subrange(4 * j, 4 * j + 3)
                            =~= crate::bytes::spec_u24_to_be_bytes(header.locations@[j].0));
                        assert(self.src@.skip(base)[4 * j + 3] == header.locations@[j].1);
                    }
                }
            }
            i = i + 1;
        }
        let ghost after_locs = self.src@;
        proof {
            assert forall|j: int| 0 <= j < 1024 implies spec_location_at(
                after_locs.skip(base),
                j,
            ) == header.locations@[j] by {}
        }
        let mut k: usize = 0;
        while k < 1024
            invariant
                k <= 1024,
                header.timestamps@.len() == 1024,
                after_locs.len() == base + 4096,
                self.src@.len() == base + 4096 + 4 * k,
                base == old(self).src@.len(),
                self.src@.subrange(0, base + 4096) == after_locs,
                forall|j: int|
                    0 <= j < k ==> spec_timestamp_at(#[trigger] self.src@.skip(base), j)
                        == header.timestamps@[j],
            decreases 1024 - k,
        {
            let ghost prev = self.src@;
            push_u32_be(&mut self.src, header.timestamps[k]);
            proof {
                assert(self.src@.subrange(0, base + 4096) =~= after_locs);
                crate::bytes::lemma_u32_be_round_trip();
                assert forall|j: int| 0 <= j < k + 1 implies spec_timestamp_at(
                    self.src@.skip(base),
                    j,
                ) == header.timestamps@[j] by {
                    if j < k {
                        assert(self.src@.skip(base).subrange(4096 + 4 * j, 4096 + 4 * j + 4)
                            =~= prev.skip(base).subrange(4096 + 4 * j, 4096 + 4 * j + 4));
                    } else {
                        assert(self.src@.skip(base).subrange(4096 + 4 * j, 4096 + 4 * j + 4)
                            =~= crate::bytes::spec_u32_to_be_bytes(header.timestamps@[j]));
                    }
                }
            }
            k = k + 1;
        }
        proof {
            assert forall|j: int| 0 <= j < 1024 implies spec_location_at(
                final(self).src@.skip(base),
                j,
            ) == header.locations@[j] by {
                assert(self.src@.skip(base).subrange(4 * j, 4 * j + 3) =~= after_locs.skip(
                    base,
                ).subrange(4 * j, 4 * j + 3));
                assert(self.src@.skip(base)[4 * j + 3] == after_locs.skip(base)[4 * j + 3]);
            }
        }
        Ok(())
    }


    /// Appends one chunk record at the next sector boundary: the payload is
    /// compressed under the given scheme byte (1 gzip, 2 zlib, 3 none), the
    /// record is `u32` length, scheme byte, compressed bytes, zero-padded to
    /// a whole sector.  Returns where the chunk was placed; reading the
    /// record back and decompressing it yields exactly `data`.
    pub fn write_chunk(&mut self, data: &Vec<u8>, compression_type: u8) -> (r: Result<
        RegionLocation,
        Error,
    >)
        ensures
            r is Ok <==> (compression_type == 1 || compression_type == 2 || compression_type
                == 3) && spec_compressed(compression_type, data@).len() <= 0xF_EFFB && old(
                self,
            ).src@.len() <= 0x0FF0_0000,
            r is Err ==> final(self).src == old(self).src,
            r matches Ok(loc) ==> loc.0 >= 1 && match spec_chunk_payload_at(
                final(self).src@,
                loc.0 * 4096,
            ) {
                Some((tag, body)) => tag == compression_type && body == spec_compressed(
                    compression_type,
                    data@,
                ) && spec_decompressed(compression_type, body) == Some(data@),
                None => false,
            },
    {
        if !(compression_type == 1 || compression_type == 2 || compression_type == 3) {
            return Err(Error::InvalidChunkHeader("compression"));
        }
        let compressed: Vec<u8> = if compression_type == 1 {
            gzip_compress(data)
        } else if compression_type == 2 {
            zlib_compress(data)
        } else {
            vstd::slice::slice_to_vec(data.as_slice())
        };
        if compressed.len() > 0xF_EFFB {
            return Err(Error::InvalidChunkHeader("length"));
        }
        if self.src.len() > 0x0FF0_0000 {
            return Err(Error::InvalidChunkHeader("offset"));
        }
        let fill = self.src.len() % 4096;
        let pad_front: usize = if self.src.len() == 0 {
            4096
        } else if fill == 0 {
            0
        } else {
            4096 - fill
        };
        let mut c: usize = 0;
        while c < pad_front
            invariant
                c <= pad_front,
                pad_front <= 4096,
                self.src@.len() == old(self).src@.len() + c,
            decreases pad_front - c,
        {
            self.src.push(0);
            c = c + 1;
        }
        proof {
            let l = old(self).src@.len() as int;
            vstd::arithmetic::div_mod::lemma_fundamental_div_mod(l, 4096);
            let q = l / 4096;
            if l == 0 {
                vstd::arithmetic::div_mod::lemma_mod_self_0(4096);
                assert(self.src@.len() as int % 4096 == 0);
            } else if l % 4096 == 0 {
                assert(self.src@.len() as int % 4096 == 0);
            } else {
                assert(self.src@.len() as int == 4096 * (q + 1));
                vstd::arithmetic::div_mod::lemma_mod_multiples_basic(q + 1, 4096);
            }
            vstd::arithmetic::div_mod::lemma_div_non_zero(self.src@.len() as int, 4096);
            vstd::arithmetic::div_mod::lemma_fundamental_div_mod(self.src@.len() as int, 4096);
        }
        let sector = self.src.len() / 4096;
        let ghost off = self.src@.len() as int;
        proof {
            assert(off == sector * 4096);
        }
        let len32: u32 = (compressed.len() + 1) as u32;
        push_u32_be(&mut self.src, len32);
        self.src.push(compression_type);
        let ghost hdr = crate::bytes::spec_u32_to_be_bytes(len32);
        proof {
            assert(forall|k: int| 0 <= k < 4 ==> self.src@[off + k] == hdr[k]);
        }
        let mut i: usize = 0;
        while i < compressed.len()
            invariant
                0 <= off,
                i <= compressed.len(),
                compressed.len() <= 0xF_EFFB,
                off + 5 + compressed.len() <= 0x1000_3000,
                hdr == crate::bytes::spec_u32_to_be_bytes(len32),
                self.src@.len() == off + 5 + i,
                forall|k: int| 0 <= k < 4 ==> self.src@[off + k] == hdr[k],
                self.src@[off + 4] == compression_type,
                forall|k: int| 0 <= k < i ==> self.src@[off + 5 + k] == compressed@[k],
            decreases compressed.len() - i,
        {
            self.src.push(compressed[i]);
            i = i + 1;
        }
        let record_len = 5 + compressed.len();
        let fill2 = record_len % 4096;
        let pad_back: usize = if fill2 == 0 {
            0
        } else {
            4096 - fill2
        };
        let mut p: usize = 0;
        while p < pad_back
            invariant
                0 <= off,
                p <= pad_back,
                pad_back <= 4096,
                record_len == 5 + compressed.len(),
                compressed.len() <= 0xF_EFFB,
                off + 5 + compressed.len() <= 0x1000_3000,
                hdr == crate::bytes::spec_u32_to_be_bytes(len32),
                self.src@.len() == off + record_len + p,
                forall|k: int| 0 <= k < 4 ==> self.src@[off + k] == hdr[k],
                self.src@[off + 4] == compression_type,
                forall|k: int| 0 <= k < compressed@.len() ==> self.src@[off + 5 + k]
                    == compressed@[k],
            decreases pad_back - p,
        {
            self.src.push(0);
            p = p + 1;
        }
        let count_sectors = (record_len + pad_back) / 4096;
        proof {
            vstd::arithmetic::div_mod::lemma_div_is_ordered(
                (record_len + pad_back) as int,
                0xF_F000,
                4096,
            );
        }
        let loc = RegionLocation((sector as u32), (count_sectors as u8));
        proof {
            assert(final(self).src@.subrange(off, off + 4) =~= hdr);
            crate::bytes::lemma_u32_be_round_trip();
            assert(final(self).src@.subrange(off + 5, off + 4 + len32 as int) =~= compressed@);
            assert(loc.0 * 4096 == off);
        }
        Ok(loc)
    }

    /// Writes the five-byte chunk record header.
    pub fn write_chunk_header(&mut self, length: u32, compression_type: u8) -> (r: Result<
        (),
        Error,
    >)
        ensures
            r is Ok,
            final(self).src@ == old(self).src@ + crate::bytes::spec_u32_to_be_bytes(length)
                + seq![compression_type],
    {
        push_u32_be(&mut self.src, length);
        self.src.push(compression_type);
        Ok(())
    }
}

} // verus!
