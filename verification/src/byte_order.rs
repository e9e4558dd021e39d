//! Fixed-width integers as bytes, big-endian (Java) and little-endian (Bedrock).
use vstd::prelude::*;
use crate::platform::PlatformType;

verus! {

/// Whether the platform stores numbers most significant byte first.
pub open spec fn is_big_endian(platform: PlatformType) -> bool {
    platform == PlatformType::JavaEdition
}

/// Unsigned 16-bit value of two bytes, most significant first.
pub open spec fn be16(b0: u8, b1: u8) -> u16 {
    (((b0 as u16) << 8u16) | (b1 as u16)) as u16
}

/// Unsigned 32-bit value of four bytes, most significant first.
pub open spec fn be32(b0: u8, b1: u8, b2: u8, b3: u8) -> u32 {
    (((b0 as u32) << 24u32) | ((b1 as u32) << 16u32) | ((b2 as u32) << 8u32) | (b3 as u32)) as u32
}

/// Unsigned 64-bit value of eight bytes, most significant first.
pub open spec fn be64(b0: u8, b1: u8, b2: u8, b3: u8, b4: u8, b5: u8, b6: u8, b7: u8) -> u64 {
    (((b0 as u64) << 56u64) | ((b1 as u64) << 48u64) | ((b2 as u64) << 40u64) | ((b3 as u64) << 32u64)
        | ((b4 as u64) << 24u64) | ((b5 as u64) << 16u64) | ((b6 as u64) << 8u64) | (b7 as u64)) as u64
}

/// The 16-bit value that the first two bytes of `s` encode on `platform`.
pub open spec fn u16_of(platform: PlatformType, s: Seq<u8>) -> u16 {
    if is_big_endian(platform) { be16(s[0], s[1]) } else { be16(s[1], s[0]) }
}

/// The 32-bit value that the first four bytes of `s` encode on `platform`.
pub open spec fn u32_of(platform: PlatformType, s: Seq<u8>) -> u32 {
    if is_big_endian(platform) {
        be32(s[0], s[1], s[2], s[3])
    } else {
        be32(s[3], s[2], s[1], s[0])
    }
}

/// The 64-bit value that the first eight bytes of `s` encode on `platform`.
pub open spec fn u64_of(platform: PlatformType, s: Seq<u8>) -> u64 {
    if is_big_endian(platform) {
        be64(s[0], s[1], s[2], s[3], s[4], s[5], s[6], s[7])
    } else {
        be64(s[7], s[6], s[5], s[4], s[3], s[2], s[1], s[0])
    }
}

/// The two bytes of `v`, most significant first.
pub open spec fn be16_bytes(v: u16) -> Seq<u8> {
    seq![(v >> 8u16) as u8, v as u8]
}

/// The four bytes of `v`, most significant first.
pub open spec fn be32_bytes(v: u32) -> Seq<u8> {
    seq![(v >> 24u32) as u8, (v >> 16u32) as u8, (v >> 8u32) as u8, v as u8]
}

/// The eight bytes of `v`, most significant first.
pub open spec fn be64_bytes(v: u64) -> Seq<u8> {
    seq![
        (v >> 56u64) as u8, (v >> 48u64) as u8, (v >> 40u64) as u8, (v >> 32u64) as u8,
        (v >> 24u64) as u8, (v >> 16u64) as u8, (v >> 8u64) as u8, v as u8,
    ]
}

/// The bytes that encode a 16-bit value on `platform`.
pub open spec fn u16_bytes(platform: PlatformType, v: u16) -> Seq<u8> {
    if is_big_endian(platform) { be16_bytes(v) } else { be16_bytes(v).reverse() }
}

/// The bytes that encode a 32-bit value on `platform`.
pub open spec fn u32_bytes(platform: PlatformType, v: u32) -> Seq<u8> {
    if is_big_endian(platform) { be32_bytes(v) } else { be32_bytes(v).reverse() }
}

/// The bytes that encode a 64-bit value on `platform`.
pub open spec fn u64_bytes(platform: PlatformType, v: u64) -> Seq<u8> {
    if is_big_endian(platform) { be64_bytes(v) } else { be64_bytes(v).reverse() }
}

/// Decoding the encoding of a 16-bit value gives the value back.
pub proof fn lemma_u16_roundtrip(platform: PlatformType, v: u16)
    ensures
        u16_bytes(platform, v).len() == 2,
        u16_of(platform, u16_bytes(platform, v)) == v,
{
    assert(be16((v >> 8u16) as u8, v as u8) == v) by (bit_vector);
}

/// Decoding the encoding of a 32-bit value gives the value back.
pub proof fn lemma_u32_roundtrip(platform: PlatformType, v: u32)
    ensures
        u32_bytes(platform, v).len() == 4,
        u32_of(platform, u32_bytes(platform, v)) == v,
{
    assert(be32((v >> 24u32) as u8, (v >> 16u32) as u8, (v >> 8u32) as u8, v as u8) == v)
        by (bit_vector);
}

/// Decoding the encoding of a 64-bit value gives the value back.
pub proof fn lemma_u64_roundtrip(platform: PlatformType, v: u64)
    ensures
        u64_bytes(platform, v).len() == 8,
        u64_of(platform, u64_bytes(platform, v)) == v,
{
    assert(be64(
        (v >> 56u64) as u8, (v >> 48u64) as u8, (v >> 40u64) as u8, (v >> 32u64) as u8,
        (v >> 24u64) as u8, (v >> 16u64) as u8, (v >> 8u64) as u8, v as u8,
    ) == v) by (bit_vector);
}

/// Reinterpreting an integer as unsigned and back gives it back (two's complement).
pub proof fn lemma_signed_roundtrip(a: i16, b: i32, c: i64)
    ensures
        ((a as u16) as i16) == a,
        ((b as u32) as i32) == b,
        ((c as u64) as i64) == c,
{
    assert(((a as u16) as i16) == a) by (bit_vector);
    assert(((b as u32) as i32) == b) by (bit_vector);
    assert(((c as u64) as i64) == c) by (bit_vector);
}

} // verus!
