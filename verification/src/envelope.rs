//! The compression envelope around an encoded document.
//!
//! A payload travels raw, zlib-wrapped or gzip-wrapped. The container
//! selects the framing from its per-slot discriminant byte; a
//! standalone document's framing is sniffed from the stream's leading
//! bytes. Compression and decompression are outside work: the calls go
//! through trusted wrappers whose results are named by uninterpreted
//! spec functions, together with the one fact the formats guarantee —
//! inflating a stream produced by the matching deflate returns the
//! original bytes. Checksums are verified on encode and deliberately
//! skipped on decode.

use std::io::Write;

use vstd::prelude::*;

verus! {

/// The three framings a document may travel in. `Nbt` is the raw,
/// uncompressed framing.
#[derive(Debug, PartialEq, Eq, Clone, Copy)]
pub enum FileFormat {
    Gzip,
    Zlib,
    Nbt,
}

/// The gzip stream that compressing a byte sequence produces. The
/// result depends on the input alone.
pub uninterp spec fn gzip_deflate_of(s: Seq<u8>) -> Seq<u8>;

/// The zlib stream that compressing a byte sequence produces. The
/// result depends on the input alone.
pub uninterp spec fn zlib_deflate_of(s: Seq<u8>) -> Seq<u8>;

/// What inflating a byte sequence as gzip yields: the decompressed
/// bytes, or nothing for a stream that is not well-formed gzip.
pub uninterp spec fn gzip_inflate_of(s: Seq<u8>) -> Option<Seq<u8>>;

/// What inflating a byte sequence as zlib yields: the decompressed
/// bytes, or nothing for a stream that is not well-formed zlib.
pub uninterp spec fn zlib_inflate_of(s: Seq<u8>) -> Option<Seq<u8>>;

/// Relies on flate2's `write::GzEncoder`: it writes a complete gzip
/// stream (checksum included) holding exactly the input, so inflating
/// the result returns the input. Writing into a `Vec` sink cannot
/// fail. The input bound keeps the round trip inside what the named
/// inflater honours: zune_inflate's default decoder caps its output at
/// one gibibyte, and the gzip trailer stores the size in 32 bits.
#[verifier::external_body]
fn compress_gzip(data: &[u8]) -> (r: Vec<u8>)
    requires
        data@.len() < 0x4000_0000,
    ensures
        r@ == gzip_deflate_of(data@),
        gzip_inflate_of(r@) == Some(data@),
{
    let mut enc = flate2::write::GzEncoder::new(Vec::new(), flate2::Compression::new(6));
    enc.write_all(data).expect("a Vec sink cannot fail");
    enc.finish().expect("a Vec sink cannot fail")
}

/// Relies on flate2's `write::ZlibEncoder`, as `compress_gzip` relies
/// on the gzip encoder; the same bound keeps the output within the
/// named inflater's one-gibibyte cap.
#[verifier::external_body]
fn compress_zlib(data: &[u8]) -> (r: Vec<u8>)
    requires
        data@.len() < 0x4000_0000,
    ensures
        r@ == zlib_deflate_of(data@),
        zlib_inflate_of(r@) == Some(data@),
{
    let mut enc = flate2::write::ZlibEncoder::new(Vec::new(), flate2::Compression::new(6));
    enc.write_all(data).expect("a Vec sink cannot fail");
    enc.finish().expect("a Vec sink cannot fail")
}

/// Relies on zune_inflate's `DeflateDecoder::decode_gzip`: it returns
/// the decompressed bytes of a gzip stream, or an error for a
/// malformed one. Checksum verification is switched off, so a wrong
/// checksum does not fail the decode.
#[verifier::external_body]
fn decompress_gzip(data: &[u8]) -> (r: Option<Vec<u8>>)
    ensures
        match r {
            Some(o) => gzip_inflate_of(data@) == Some(o@),
            None => gzip_inflate_of(data@) is None,
        },
{
    let options = zune_inflate::DeflateOptions::default().set_confirm_checksum(false);
    let mut dec = zune_inflate::DeflateDecoder::new_with_options(data, options);
    match dec.decode_gzip() {
        Ok(v) => Some(v),
        Err(_) => None,
    }
}

/// Relies on zune_inflate's `DeflateDecoder::decode_zlib`, as
/// `decompress_gzip` relies on the gzip decoder.
#[verifier::external_body]
fn decompress_zlib(data: &[u8]) -> (r: Option<Vec<u8>>)
    ensures
        match r {
            Some(o) => zlib_inflate_of(data@) == Some(o@),
            None => zlib_inflate_of(data@) is None,
        },
{
    let options = zune_inflate::DeflateOptions::default().set_confirm_checksum(false);
    let mut dec = zune_inflate::DeflateDecoder::new_with_options(data, options);
    match dec.decode_zlib() {
        Ok(v) => Some(v),
        Err(_) => None,
    }
}

/// The bytes a payload travels as under each framing.
pub open spec fn envelope_encode(kind: FileFormat, s: Seq<u8>) -> Seq<u8> {
    match kind {
        FileFormat::Gzip => gzip_deflate_of(s),
        FileFormat::Zlib => zlib_deflate_of(s),
        FileFormat::Nbt => s,
    }
}

/// What unwrapping a stream under each framing yields.
pub open spec fn envelope_decode(kind: FileFormat, s: Seq<u8>) -> Option<Seq<u8>> {
    match kind {
        FileFormat::Gzip => gzip_inflate_of(s),
        FileFormat::Zlib => zlib_inflate_of(s),
        FileFormat::Nbt => Some(s),
    }
}

/// The framing sniffed from a standalone stream's leading bytes: the
/// gzip magic pair, the zlib header byte, or raw.
pub open spec fn sniffed_kind(s: Seq<u8>) -> FileFormat {
    if s.len() >= 2 && s[0] == 0x1F && s[1] == 0x8B {
        FileFormat::Gzip
    } else if s.len() >= 1 && s[0] == 0x78 {
        FileFormat::Zlib
    } else {
        FileFormat::Nbt
    }
}

impl FileFormat {
    /// The one-byte discriminant the container stores for this
    /// framing.
    pub fn discriminant(&self) -> (r: u8)
        ensures
            r == discriminant_of(*self),
    {
        match self {
            FileFormat::Gzip => 1,
            FileFormat::Zlib => 2,
            FileFormat::Nbt => 3,
        }
    }

    /// The framing a container discriminant byte names, if any.
    pub fn from_discriminant(d: u8) -> (r: Option<FileFormat>)
        ensures
            r == kind_of_discriminant(d),
    {
        if d == 1 {
            Some(FileFormat::Gzip)
        } else if d == 2 {
            Some(FileFormat::Zlib)
        } else if d == 3 {
            Some(FileFormat::Nbt)
        } else {
            None
        }
    }

    /// Wraps a payload in this framing. A compressed framing takes
    /// payloads under one gibibyte, the bound the decoder honours.
    pub fn encode(&self, data: &[u8]) -> (r: Vec<u8>)
        requires
            !(*self matches FileFormat::Nbt) ==> data@.len() < 0x4000_0000,
        ensures
            r@ == envelope_encode(*self, data@),
            envelope_decode(*self, r@) == Some(data@),
    {
        match self {
            FileFormat::Gzip => compress_gzip(data),
            FileFormat::Zlib => compress_zlib(data),
            FileFormat::Nbt => copy_bytes(data),
        }
    }

    /// Unwraps a stream in this framing; nothing for a malformed
    /// stream.
    pub fn decode(&self, data: &[u8]) -> (r: Option<Vec<u8>>)
        ensures
            match r {
                Some(o) => envelope_decode(*self, data@) == Some(o@),
                None => envelope_decode(*self, data@) is None,
            },
    {
        match self {
            FileFormat::Gzip => decompress_gzip(data),
            FileFormat::Zlib => decompress_zlib(data),
            FileFormat::Nbt => Some(copy_bytes(data)),
        }
    }

    /// Sniffs a standalone stream's framing from its leading bytes and
    /// unwraps it.
    pub fn decode_sniffed(data: &[u8]) -> (r: Option<Vec<u8>>)
        ensures
            match r {
                Some(o) => envelope_decode(sniffed_kind(data@), data@) == Some(o@),
                None => envelope_decode(sniffed_kind(data@), data@) is None,
            },
    {
        if data.len() >= 2 && data[0] == 0x1F && data[1] == 0x8B {
            decompress_gzip(data)
        } else if data.len() >= 1 && data[0] == 0x78 {
            decompress_zlib(data)
        } else {
            Some(copy_bytes(data))
        }
    }
}

/// The spec-level discriminant byte of each framing.
pub open spec fn discriminant_of(kind: FileFormat) -> u8 {
    match kind {
        FileFormat::Gzip => 1,
        FileFormat::Zlib => 2,
        FileFormat::Nbt => 3,
    }
}

/// The framing named by a discriminant byte, if any.
pub open spec fn kind_of_discriminant(d: u8) -> Option<FileFormat> {
    if d == 1 {
        Some(FileFormat::Gzip)
    } else if d == 2 {
        Some(FileFormat::Zlib)
    } else if d == 3 {
        Some(FileFormat::Nbt)
    } else {
        None
    }
}

/// A plain copy of a byte slice.
pub(crate) fn copy_bytes(data: &[u8]) -> (r: Vec<u8>)
    ensures
        r@ == data@,
{
    let mut out: Vec<u8> = Vec::new();
    let mut i: usize = 0;
    while i < data.len()
        invariant
            i <= data@.len(),
            out@ == data@.take(i as int),
        decreases data@.len() - i,
    {
        out.push(data[i]);
        proof {
            assert(data@.take(i + 1) =~= data@.take(i as int).push(data@[i as int]));
        }
        i += 1;
    }
    proof {
        assert(data@.take(data@.len() as int) =~= data@);
    }
    out
}

} // verus!
