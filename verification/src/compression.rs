//! Recognising compressed files by their first two bytes, inflating and
//! deflating their contents with `flate2`, and sizing the work of editing a
//! whole document in memory.
use vstd::prelude::*;
use crate::error::ParseError;

verus! {

/// How a file's bytes are compressed.
#[derive(Clone, Copy, Debug, PartialEq, Eq, Structural)]
pub enum CompressionType {
    /// Not compressed (raw NBT).
    Raw,
    Gzip,
    Zlib,
}

/// Whether the two bytes start a gzip stream (`1F 8B`).
pub fn is_gzip_magic(magic: [u8; 2]) -> (b: bool)
    ensures
        b == (magic@[0] == 0x1F && magic@[1] == 0x8B),
{
    magic[0] == 0x1F && magic[1] == 0x8B
}

/// Whether the two bytes start a zlib stream (`78 9C`, `78 01` or `78 DA`).
pub fn is_zlib_magic(magic: [u8; 2]) -> (b: bool)
    ensures
        b == (magic@[0] == 0x78 && (magic@[1] == 0x9C || magic@[1] == 0x01 || magic@[1] == 0xDA)),
{
    magic[0] == 0x78 && (magic[1] == 0x9C || magic[1] == 0x01 || magic[1] == 0xDA)
}

/// The compression that the two bytes `a`, `b` announce at the start of a
/// file.
pub open spec fn announced(a: u8, b: u8) -> CompressionType {
    if a == 0x1F && b == 0x8B {
        CompressionType::Gzip
    } else if a == 0x78 && (b == 0x9C || b == 0x01 || b == 0xDA) {
        CompressionType::Zlib
    } else {
        CompressionType::Raw
    }
}

/// The compression that a file's first two bytes announce.
pub fn detect_compression(magic: [u8; 2]) -> (c: CompressionType)
    ensures
        c == announced(magic@[0], magic@[1]),
{
    if is_gzip_magic(magic) {
        CompressionType::Gzip
    } else if is_zlib_magic(magic) {
        CompressionType::Zlib
    } else {
        CompressionType::Raw
    }
}

/// What `flate2::read::GzDecoder` reads from a gzip stream, if it reads it
/// to the end without an error.
pub uninterp spec fn gunzipped(raw: Seq<u8>) -> Option<Seq<u8>>;

/// What `flate2::read::ZlibDecoder` reads from a zlib stream, if it reads it
/// to the end without an error.
pub uninterp spec fn zlib_inflated(raw: Seq<u8>) -> Option<Seq<u8>>;

/// What `flate2::write::GzEncoder` writes for `data` at the default level.
pub uninterp spec fn gzipped(data: Seq<u8>) -> Seq<u8>;

/// What `flate2::write::ZlibEncoder` writes for `data` at the default level.
pub uninterp spec fn zlib_deflated(data: Seq<u8>) -> Seq<u8>;

/// Inflates a gzip stream with `flate2::read::GzDecoder`, reading to the end.
///
/// Trusted: success exactly when the named result is defined, with those
/// bytes; the error is the crate's I/O error.
#[verifier::external_body]
fn gunzip(raw: &[u8]) -> (r: Result<Vec<u8>, std::io::Error>)
    ensures
        r is Ok <==> gunzipped(raw@) is Some,
        r matches Ok(v) ==> v@ == gunzipped(raw@)->Some_0,
{
    let mut out = Vec::new();
    match std::io::Read::read_to_end(&mut flate2::read::GzDecoder::new(raw), &mut out) {
        Ok(_) => Ok(out),
        Err(e) => Err(e),
    }
}

/// Inflates a zlib stream with `flate2::read::ZlibDecoder`, reading to the end.
///
/// Trusted: success exactly when the named result is defined, with those
/// bytes; the error is the crate's I/O error.
#[verifier::external_body]
fn unzlib(raw: &[u8]) -> (r: Result<Vec<u8>, std::io::Error>)
    ensures
        r is Ok <==> zlib_inflated(raw@) is Some,
        r matches Ok(v) ==> v@ == zlib_inflated(raw@)->Some_0,
{
    let mut out = Vec::new();
    match std::io::Read::read_to_end(&mut flate2::read::ZlibDecoder::new(raw), &mut out) {
        Ok(_) => Ok(out),
        Err(e) => Err(e),
    }
}

/// Deflates `data` into a gzip stream with `flate2::write::GzEncoder` at the
/// default level, written into memory.
///
/// Trusted: what comes out is the named result, and `GzDecoder` reads it back
/// as `data`. Writing into memory does not fail; the `Err` case is the
/// crate's I/O error, whose occurrence is not claimed either way.
#[verifier::external_body]
fn gzip(data: &[u8]) -> (r: Result<Vec<u8>, std::io::Error>)
    ensures
        r matches Ok(v) ==> v@ == gzipped(data@) && gunzipped(v@) == Some(data@),
{
    let mut e = flate2::write::GzEncoder::new(Vec::new(), flate2::Compression::default());
    match std::io::Write::write_all(&mut e, data) {
        Ok(()) => e.finish(),
        Err(err) => Err(err),
    }
}

/// Deflates `data` into a zlib stream with `flate2::write::ZlibEncoder` at
/// the default level, written into memory.
///
/// Trusted: what comes out is the named result, and `ZlibDecoder` reads it
/// back as `data`. Writing into memory does not fail; the `Err` case is the
/// crate's I/O error, whose occurrence is not claimed either way.
#[verifier::external_body]
fn zlib(data: &[u8]) -> (r: Result<Vec<u8>, std::io::Error>)
    ensures
        r matches Ok(v) ==> v@ == zlib_deflated(data@) && zlib_inflated(v@) == Some(data@),
{
    let mut e = flate2::write::ZlibEncoder::new(Vec::new(), flate2::Compression::default());
    match std::io::Write::write_all(&mut e, data) {
        Ok(()) => e.finish(),
        Err(err) => Err(err),
    }
}

/// The bytes that a file's contents `raw` hold under compression `c`, if
/// they can be inflated.
pub open spec fn inflated(c: CompressionType, raw: Seq<u8>) -> Option<Seq<u8>> {
    match c {
        CompressionType::Raw => Some(raw),
        CompressionType::Gzip => gunzipped(raw),
        CompressionType::Zlib => zlib_inflated(raw),
    }
}

/// The bytes written for `data` under compression `c`.
pub open spec fn deflated(c: CompressionType, data: Seq<u8>) -> Seq<u8> {
    match c {
        CompressionType::Raw => data,
        CompressionType::Gzip => gzipped(data),
        CompressionType::Zlib => zlib_deflated(data),
    }
}

/// The contents `raw` of a file inflated as `c` asks.
pub fn decompress(raw: &[u8], c: CompressionType) -> (r: Result<Vec<u8>, ParseError>)
    ensures
        r is Ok <==> inflated(c, raw@) is Some,
        r matches Ok(v) ==> v@ == inflated(c, raw@)->Some_0,
        r matches Err(e) ==> e is Io,
{
    let res = match c {
        CompressionType::Raw => return Ok(vstd::slice::slice_to_vec(raw)),
        CompressionType::Gzip => gunzip(raw),
        CompressionType::Zlib => unzlib(raw),
    };
    match res {
        Ok(v) => Ok(v),
        Err(e) => Err(ParseError::Io(e)),
    }
}

/// The bytes to store for the raw NBT bytes `data` under compression `c`;
/// what is stored inflates back to `data`.
pub fn compress(data: &[u8], c: CompressionType) -> (r: Result<Vec<u8>, ParseError>)
    ensures
        c == CompressionType::Raw ==> r is Ok,
        r matches Ok(v) ==> v@ == deflated(c, data@) && inflated(c, v@) == Some(data@),
        r matches Err(e) ==> e is Io,
{
    let res = match c {
        CompressionType::Raw => return Ok(vstd::slice::slice_to_vec(data)),
        CompressionType::Gzip => gzip(data),
        CompressionType::Zlib => zlib(data),
    };
    match res {
        Ok(v) => Ok(v),
        Err(e) => Err(ParseError::Io(e)),
    }
}

/// The compression of a file's contents `raw`, announced by its first two
/// bytes, and the raw NBT bytes they hold. Contents shorter than two bytes
/// end too soon.
pub fn open_bytes(raw: &[u8]) -> (r: Result<(CompressionType, Vec<u8>), ParseError>)
    ensures
        raw@.len() < 2 ==> r matches Err(ParseError::UnexpectedEOF),
        raw@.len() >= 2 ==> ({
            let c = announced(raw@[0], raw@[1]);
            &&& r is Ok <==> inflated(c, raw@) is Some
            &&& r matches Ok((c2, v)) ==> c2 == c && v@ == inflated(c, raw@)->Some_0
            &&& r matches Err(e) ==> e is Io
        }),
{
    if raw.len() < 2 {
        return Err(ParseError::UnexpectedEOF);
    }
    let magic: [u8; 2] = [raw[0], raw[1]];
    let c = detect_compression(magic);
    match decompress(raw, c) {
        Ok(v) => Ok((c, v)),
        Err(e) => Err(e),
    }
}

/// The memory that editing a whole document in memory is expected to take:
/// four times the file for raw files, ten times for compressed ones, plus
/// 64 MiB; the arithmetic saturates at `u64::MAX`.
pub fn estimate_full_tree_working_set(file_size: u64, compression: CompressionType) -> (n: u64)
    ensures
        n == ({
            let multiplier: int = if compression == CompressionType::Raw { 4 } else { 10 };
            let base: int = if file_size * multiplier > u64::MAX { u64::MAX as int } else { file_size * multiplier };
            if base + 64 * 1024 * 1024 > u64::MAX { u64::MAX as int } else { base + 64 * 1024 * 1024 }
        }),
{
    let multiplier: u64 = match compression {
        CompressionType::Raw => 4,
        CompressionType::Gzip | CompressionType::Zlib => 10,
    };
    let base = match file_size.checked_mul(multiplier) {
        Some(v) => v,
        None => u64::MAX,
    };
    base.saturating_add(64 * 1024 * 1024)
}

/// The compression a file announces: gzip exactly for `1F 8B`, zlib exactly
/// for `78 9C`, `78 01` and `78 DA` (the headers of zlib streams at default,
/// lowest and best compression), raw NBT for anything else; so what
/// [`detect_compression`] tells agrees with [`is_gzip_magic`] and
/// [`is_zlib_magic`].
pub proof fn lemma_announced_magic(a: u8, b: u8)
    ensures
        announced(a, b) == CompressionType::Gzip <==> (a == 0x1F && b == 0x8B),
        announced(a, b) == CompressionType::Zlib <==> (a == 0x78 && (b == 0x9C || b == 0x01 || b == 0xDA)),
        announced(a, b) == CompressionType::Raw <==> !(a == 0x1F && b == 0x8B) && !(a == 0x78 && (b == 0x9C || b
            == 0x01 || b == 0xDA)),
        announced(0x78, 0xDA) == CompressionType::Zlib,
        announced(0x78, 0x9C) == CompressionType::Zlib,
        announced(0x78, 0x01) == CompressionType::Zlib,
        announced(0x1F, 0x8B) == CompressionType::Gzip,
        announced(0x0A, 0x00) == CompressionType::Raw,
{
}


/// Raw files are read and stored as they are; gzip files go through
/// `GzDecoder` and `GzEncoder`, zlib files through `ZlibDecoder` and
/// `ZlibEncoder`, never the other's.
pub proof fn lemma_codecs_by_kind(raw: Seq<u8>)
    ensures
        inflated(CompressionType::Raw, raw) == Some(raw),
        deflated(CompressionType::Raw, raw) == raw,
        inflated(CompressionType::Gzip, raw) == gunzipped(raw),
        deflated(CompressionType::Gzip, raw) == gzipped(raw),
        inflated(CompressionType::Zlib, raw) == zlib_inflated(raw),
        deflated(CompressionType::Zlib, raw) == zlib_deflated(raw),
{
}

} // verus!
