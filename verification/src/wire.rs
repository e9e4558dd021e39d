//! The NBT wire format, stated as functions on byte sequences.
//!
//! A reading function takes the remaining input and gives either the value
//! read together with the input left after it, or the fault that stops it.
use vstd::prelude::*;
use vstd::utf8::{decode_utf8, encode_utf8, valid_utf8};
use crate::byte_order::{is_big_endian, u16_bytes, u16_of, u32_bytes, u32_of, u64_bytes, u64_of};
use crate::error::ParseError;
use crate::platform::PlatformType;
use crate::text::{
    modified_utf8_bytes, modified_utf8_error_message, modified_utf8_text, utf8_error_message,
};

verus! {

/// Why reading stopped.
pub enum Fault {
    /// The input ended too early.
    Eof,
    /// Text bytes were malformed; the message says how.
    Text(Seq<char>),
    /// A tag id outside the format.
    UnsupportedTag(u8),
    /// A negative length prefix.
    BadLength(i32),
    /// The document does not start with a list or compound.
    BadRoot(u8),
}

/// The fault that an error value reports, if it is one of the reading faults.
pub open spec fn fault_of(e: ParseError) -> Option<Fault> {
    match e {
        ParseError::UnexpectedEOF => Some(Fault::Eof),
        ParseError::Decode(m) => Some(Fault::Text(m@)),
        ParseError::UnsupportedTagId(t) => Some(Fault::UnsupportedTag(t)),
        ParseError::InvalidLength(n) => Some(Fault::BadLength(n)),
        ParseError::InvalidRootTag(t) => Some(Fault::BadRoot(t)),
        _ => None,
    }
}

/// Whether an error value is exactly the given fault.
pub open spec fn reports(e: ParseError, f: Fault) -> bool {
    fault_of(e) == Some(f)
}

/// Outcome of reading a `T` from the front of some input.
pub type Parsed<T> = Result<(T, Seq<u8>), Fault>;

/// The first `n` bytes, and what follows them.
pub open spec fn wire_take(s: Seq<u8>, n: nat) -> Parsed<Seq<u8>> {
    if n <= s.len() { Ok((s.take(n as int), s.skip(n as int))) } else { Err(Fault::Eof) }
}

/// One byte.
pub open spec fn wire_u8(s: Seq<u8>) -> Parsed<u8> {
    if s.len() >= 1 { Ok((s[0], s.skip(1))) } else { Err(Fault::Eof) }
}

/// An unsigned 16-bit number.
pub open spec fn wire_u16(p: PlatformType, s: Seq<u8>) -> Parsed<u16> {
    if s.len() >= 2 { Ok((u16_of(p, s), s.skip(2))) } else { Err(Fault::Eof) }
}

/// A 32-bit word.
pub open spec fn wire_u32(p: PlatformType, s: Seq<u8>) -> Parsed<u32> {
    if s.len() >= 4 { Ok((u32_of(p, s), s.skip(4))) } else { Err(Fault::Eof) }
}

/// A 64-bit word.
pub open spec fn wire_u64(p: PlatformType, s: Seq<u8>) -> Parsed<u64> {
    if s.len() >= 8 { Ok((u64_of(p, s), s.skip(8))) } else { Err(Fault::Eof) }
}

/// A signed 16-bit number (two's complement).
pub open spec fn wire_i16(p: PlatformType, s: Seq<u8>) -> Parsed<i16> {
    if s.len() >= 2 { Ok((u16_of(p, s) as i16, s.skip(2))) } else { Err(Fault::Eof) }
}

/// A signed 32-bit number (two's complement).
pub open spec fn wire_i32(p: PlatformType, s: Seq<u8>) -> Parsed<i32> {
    if s.len() >= 4 { Ok((u32_of(p, s) as i32, s.skip(4))) } else { Err(Fault::Eof) }
}

/// A signed 64-bit number (two's complement).
pub open spec fn wire_i64(p: PlatformType, s: Seq<u8>) -> Parsed<i64> {
    if s.len() >= 8 { Ok((u64_of(p, s) as i64, s.skip(8))) } else { Err(Fault::Eof) }
}

/// The text of a tag name's bytes: always Java's modified UTF-8.
pub open spec fn tag_text(bytes: Seq<u8>) -> Result<Seq<char>, Fault> {
    match modified_utf8_text(bytes) {
        Some(t) => Ok(t),
        None => Err(Fault::Text(modified_utf8_error_message())),
    }
}

/// The text of a string payload's bytes: modified UTF-8 on Java, UTF-8 on Bedrock.
pub open spec fn string_text(p: PlatformType, bytes: Seq<u8>) -> Result<Seq<char>, Fault> {
    if is_big_endian(p) {
        tag_text(bytes)
    } else if valid_utf8(bytes) {
        Ok(decode_utf8(bytes))
    } else {
        Err(Fault::Text(utf8_error_message(bytes)))
    }
}

/// `n` bytes decoded as a tag name.
pub open spec fn wire_tag_with_length(s: Seq<u8>, n: nat) -> Parsed<Seq<char>> {
    match wire_take(s, n) {
        Err(f) => Err(f),
        Ok((b, rest)) => match tag_text(b) {
            Ok(t) => Ok((t, rest)),
            Err(f) => Err(f),
        },
    }
}

/// A tag name: an unsigned 16-bit length, then that many bytes of modified UTF-8.
pub open spec fn wire_tag(p: PlatformType, s: Seq<u8>) -> Parsed<Seq<char>> {
    match wire_u16(p, s) {
        Err(f) => Err(f),
        Ok((n, rest)) => wire_tag_with_length(rest, n as nat),
    }
}

/// A string payload of `n` bytes; a negative `n` is refused.
pub open spec fn wire_string_with_length(p: PlatformType, s: Seq<u8>, n: i16) -> Parsed<Seq<char>> {
    if n < 0 {
        Err(Fault::BadLength(n as i32))
    } else {
        match wire_take(s, n as nat) {
            Err(f) => Err(f),
            Ok((b, rest)) => match string_text(p, b) {
                Ok(t) => Ok((t, rest)),
                Err(f) => Err(f),
            },
        }
    }
}

/// A string payload: a signed 16-bit length, then the encoded text.
pub open spec fn wire_string(p: PlatformType, s: Seq<u8>) -> Parsed<Seq<char>> {
    match wire_i16(p, s) {
        Err(f) => Err(f),
        Ok((n, rest)) => wire_string_with_length(p, rest, n),
    }
}

/// A byte array of `n` bytes; a negative `n` is refused.
pub open spec fn wire_bytes_with_length(s: Seq<u8>, n: i32) -> Parsed<Seq<u8>> {
    if n < 0 { Err(Fault::BadLength(n)) } else { wire_take(s, n as nat) }
}

/// A byte array payload: a signed 32-bit length, then the bytes.
pub open spec fn wire_byte_array(p: PlatformType, s: Seq<u8>) -> Parsed<Seq<u8>> {
    match wire_i32(p, s) {
        Err(f) => Err(f),
        Ok((n, rest)) => wire_bytes_with_length(rest, n),
    }
}

/// The `n` 32-bit numbers at the front of `s`.
pub open spec fn ints_of(p: PlatformType, s: Seq<u8>, n: nat) -> Seq<i32> {
    Seq::new(n, |k: int| u32_of(p, s.skip(4 * k)) as i32)
}

/// The `n` 64-bit numbers at the front of `s`.
pub open spec fn longs_of(p: PlatformType, s: Seq<u8>, n: nat) -> Seq<i64> {
    Seq::new(n, |k: int| u64_of(p, s.skip(8 * k)) as i64)
}

/// An int array payload: a signed 32-bit count, then that many 32-bit numbers.
pub open spec fn wire_int_array(p: PlatformType, s: Seq<u8>) -> Parsed<Seq<i32>> {
    match wire_i32(p, s) {
        Err(f) => Err(f),
        Ok((n, rest)) => if n < 0 {
            Err(Fault::BadLength(n))
        } else if 4 * n <= rest.len() {
            Ok((ints_of(p, rest, n as nat), rest.skip(4 * n)))
        } else {
            Err(Fault::Eof)
        },
    }
}

/// A long array payload: a signed 32-bit count, then that many 64-bit numbers.
pub open spec fn wire_long_array(p: PlatformType, s: Seq<u8>) -> Parsed<Seq<i64>> {
    match wire_i32(p, s) {
        Err(f) => Err(f),
        Ok((n, rest)) => if n < 0 {
            Err(Fault::BadLength(n))
        } else if 8 * n <= rest.len() {
            Ok((longs_of(p, rest, n as nat), rest.skip(8 * n)))
        } else {
            Err(Fault::Eof)
        },
    }
}

} // verus!

verus! {

/// The bytes of a string payload's text: modified UTF-8 on Java, UTF-8 on Bedrock.
pub open spec fn string_bytes(p: PlatformType, t: Seq<char>) -> Seq<u8> {
    if is_big_endian(p) { modified_utf8_bytes(t) } else { encode_utf8(t) }
}

/// The encoding of a tag name, if its length fits the unsigned 16-bit prefix.
pub open spec fn enc_tag(p: PlatformType, t: Seq<char>) -> Option<Seq<u8>> {
    let b = modified_utf8_bytes(t);
    if b.len() <= 65535 { Some(u16_bytes(p, b.len() as u16) + b) } else { None }
}

/// The encoding of a string payload, if its length fits the signed 16-bit prefix.
pub open spec fn enc_string(p: PlatformType, t: Seq<char>) -> Option<Seq<u8>> {
    let b = string_bytes(p, t);
    if b.len() <= 32767 { Some(u16_bytes(p, b.len() as u16) + b) } else { None }
}

/// The encoding of a byte array payload, if its length fits the signed 32-bit prefix.
pub open spec fn enc_byte_array(p: PlatformType, b: Seq<u8>) -> Option<Seq<u8>> {
    if b.len() <= 0x7fff_ffff { Some(u32_bytes(p, b.len() as u32) + b) } else { None }
}

/// The 32-bit numbers of `vs`, one after another.
pub open spec fn enc_ints(p: PlatformType, vs: Seq<i32>) -> Seq<u8>
    decreases vs.len(),
{
    if vs.len() == 0 { Seq::empty() } else { enc_ints(p, vs.drop_last()) + u32_bytes(p, vs.last() as u32) }
}

/// The 64-bit numbers of `vs`, one after another.
pub open spec fn enc_longs(p: PlatformType, vs: Seq<i64>) -> Seq<u8>
    decreases vs.len(),
{
    if vs.len() == 0 { Seq::empty() } else { enc_longs(p, vs.drop_last()) + u64_bytes(p, vs.last() as u64) }
}

/// The encoding of an int array payload, if its count fits the signed 32-bit prefix.
pub open spec fn enc_int_array(p: PlatformType, vs: Seq<i32>) -> Option<Seq<u8>> {
    if vs.len() <= 0x7fff_ffff { Some(u32_bytes(p, vs.len() as u32) + enc_ints(p, vs)) } else { None }
}

/// The encoding of a long array payload, if its count fits the signed 32-bit prefix.
pub open spec fn enc_long_array(p: PlatformType, vs: Seq<i64>) -> Option<Seq<u8>> {
    if vs.len() <= 0x7fff_ffff { Some(u32_bytes(p, vs.len() as u32) + enc_longs(p, vs)) } else { None }
}

} // verus!
