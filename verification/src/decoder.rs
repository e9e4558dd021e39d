//! Reading NBT primitives from a byte buffer.
use vstd::prelude::*;
use crate::byte_order::{u16_of, u32_of, u64_of};
use crate::error::ParseError;
use crate::platform::PlatformType;
use crate::text::{from_modified_utf8, from_utf8};
use crate::wire::{
    ints_of, longs_of, reports, wire_byte_array, wire_bytes_with_length, wire_i16, wire_i32,
    wire_i64, wire_int_array, wire_long_array, wire_string, wire_string_with_length, wire_tag,
    wire_tag_with_length, wire_take, wire_u16, wire_u32, wire_u64, wire_u8,
};

verus! {

/// A cursor over the bytes of an NBT document, reading with the rules of one platform.
pub struct Decoder {
    platform: PlatformType,
    input: Vec<u8>,
    pos: usize,
}

impl Decoder {
    /// The platform whose rules this decoder reads by.
    pub closed spec fn kind(&self) -> PlatformType {
        self.platform
    }

    /// The bytes not read yet.
    pub closed spec fn rest(&self) -> Seq<u8> {
        if self.pos <= self.input@.len() {
            self.input@.skip(self.pos as int)
        } else {
            Seq::empty()
        }
    }

    /// Creates a decoder over `input`, positioned at its first byte.
    pub fn new(input: Vec<u8>, platform: PlatformType) -> (d: Self)
        ensures
            d.kind() == platform,
            d.rest() == input@,
    {
        let d = Decoder { platform, input, pos: 0 };
        assert(d.input@.skip(0) == d.input@);
        d
    }

    /// The number of bytes not read yet.
    pub fn remaining(&self) -> (n: usize)
        ensures
            n == self.rest().len(),
    {
        if self.pos <= self.input.len() { self.input.len() - self.pos } else { 0 }
    }

    /// Reads `n` raw bytes.
    fn take(&mut self, n: usize) -> (r: Result<Vec<u8>, ParseError>)
        ensures
            final(self).kind() == old(self).kind(),
            match wire_take(old(self).rest(), n as nat) {
                Ok((b, rest)) => r matches Ok(v) && v@ == b && final(self).rest() == rest,
                Err(f) => r matches Err(e) && reports(e, f) && final(self).rest() == old(self).rest(),
            },
    {
        if self.remaining() < n {
            return Err(ParseError::UnexpectedEOF);
        }
        if n == 0 {
            assert(old(self).rest().take(0) =~= Seq::<u8>::empty());
            assert(old(self).rest().skip(0) =~= old(self).rest());
            return Ok(Vec::new());
        }
        let ghost rest0 = self.rest();
        let len = self.input.len();
        let mut out: Vec<u8> = Vec::new();
        let mut i: usize = 0;
        while i < n
            invariant
                len == self.input@.len(),
                self.pos + n <= len,
                i <= n,
                rest0 == self.input@.skip(self.pos as int),
                out@ == rest0.take(i as int),
            decreases n - i,
        {
            out.push(self.input[self.pos + i]);
            i = i + 1;
            assert(out@ =~= rest0.take(i as int));
        }
        self.pos = self.pos + n;
        assert(self.input@.skip(self.pos as int) =~= rest0.skip(n as int));
        Ok(out)
    }

    fn read_u16(&mut self) -> (r: Result<u16, ParseError>)
        ensures
            final(self).kind() == old(self).kind(),
            match wire_u16(old(self).kind(), old(self).rest()) {
                Ok((v, rest)) => r == Ok::<u16, ParseError>(v) && final(self).rest() == rest,
                Err(f) => r matches Err(e) && reports(e, f) && final(self).rest() == old(self).rest(),
            },
    {
        if self.pos > self.input.len() || self.input.len() - self.pos < 2 {
            return Err(ParseError::UnexpectedEOF);
        }
        let ghost rest0 = self.rest();
        let b0 = self.input[self.pos];
        let b1 = self.input[self.pos + 1];
        self.pos = self.pos + 2;
        assert(self.input@.skip(self.pos as int) =~= rest0.skip(2));
        assert(rest0[0] == b0 && rest0[1] == b1);
        match self.platform {
            PlatformType::JavaEdition => Ok(((b0 as u16) << 8u16) | (b1 as u16)),
            PlatformType::BedrockEdition => Ok(((b1 as u16) << 8u16) | (b0 as u16)),
        }
    }

    fn read_u32(&mut self) -> (r: Result<u32, ParseError>)
        ensures
            final(self).kind() == old(self).kind(),
            match wire_u32(old(self).kind(), old(self).rest()) {
                Ok((v, rest)) => r == Ok::<u32, ParseError>(v) && final(self).rest() == rest,
                Err(f) => r matches Err(e) && reports(e, f) && final(self).rest() == old(self).rest(),
            },
    {
        if self.pos > self.input.len() || self.input.len() - self.pos < 4 {
            return Err(ParseError::UnexpectedEOF);
        }
        let ghost rest0 = self.rest();
        let p = self.pos;
        let b0 = self.input[p];
        let b1 = self.input[p + 1];
        let b2 = self.input[p + 2];
        let b3 = self.input[p + 3];
        self.pos = p + 4;
        assert(self.input@.skip(self.pos as int) =~= rest0.skip(4));
        assert(rest0[0] == b0 && rest0[1] == b1 && rest0[2] == b2 && rest0[3] == b3);
        match self.platform {
            PlatformType::JavaEdition => Ok(
                ((b0 as u32) << 24u32) | ((b1 as u32) << 16u32) | ((b2 as u32) << 8u32) | (b3 as u32),
            ),
            PlatformType::BedrockEdition => Ok(
                ((b3 as u32) << 24u32) | ((b2 as u32) << 16u32) | ((b1 as u32) << 8u32) | (b0 as u32),
            ),
        }
    }

    fn read_u64(&mut self) -> (r: Result<u64, ParseError>)
        ensures
            final(self).kind() == old(self).kind(),
            match wire_u64(old(self).kind(), old(self).rest()) {
                Ok((v, rest)) => r == Ok::<u64, ParseError>(v) && final(self).rest() == rest,
                Err(f) => r matches Err(e) && reports(e, f) && final(self).rest() == old(self).rest(),
            },
    {
        if self.pos > self.input.len() || self.input.len() - self.pos < 8 {
            return Err(ParseError::UnexpectedEOF);
        }
        let ghost rest0 = self.rest();
        let p = self.pos;
        let b0 = self.input[p];
        let b1 = self.input[p + 1];
        let b2 = self.input[p + 2];
        let b3 = self.input[p + 3];
        let b4 = self.input[p + 4];
        let b5 = self.input[p + 5];
        let b6 = self.input[p + 6];
        let b7 = self.input[p + 7];
        self.pos = p + 8;
        assert(self.input@.skip(self.pos as int) =~= rest0.skip(8));
        assert(rest0[0] == b0 && rest0[1] == b1 && rest0[2] == b2 && rest0[3] == b3);
        assert(rest0[4] == b4 && rest0[5] == b5 && rest0[6] == b6 && rest0[7] == b7);
        match self.platform {
            PlatformType::JavaEdition => Ok(
                ((b0 as u64) << 56u64) | ((b1 as u64) << 48u64) | ((b2 as u64) << 40u64)
                    | ((b3 as u64) << 32u64) | ((b4 as u64) << 24u64) | ((b5 as u64) << 16u64)
                    | ((b6 as u64) << 8u64) | (b7 as u64),
            ),
            PlatformType::BedrockEdition => Ok(
                ((b7 as u64) << 56u64) | ((b6 as u64) << 48u64) | ((b5 as u64) << 40u64)
                    | ((b4 as u64) << 32u64) | ((b3 as u64) << 24u64) | ((b2 as u64) << 16u64)
                    | ((b1 as u64) << 8u64) | (b0 as u64),
            ),
        }
    }

    /// Reads a tag id byte.
    pub fn read_id(&mut self) -> (r: Result<u8, ParseError>)
        ensures
            final(self).kind() == old(self).kind(),
            match wire_u8(old(self).rest()) {
                Ok((v, rest)) => r == Ok::<u8, ParseError>(v) && final(self).rest() == rest,
                Err(f) => r matches Err(e) && reports(e, f) && final(self).rest() == old(self).rest(),
            },
    {
        if self.pos >= self.input.len() {
            return Err(ParseError::UnexpectedEOF);
        }
        let ghost rest0 = self.rest();
        let b = self.input[self.pos];
        self.pos = self.pos + 1;
        assert(self.input@.skip(self.pos as int) =~= rest0.skip(1));
        Ok(b)
    }

    /// Reads the unsigned 16-bit length of a tag name.
    pub fn read_tag_length(&mut self) -> (r: Result<u16, ParseError>)
        ensures
            final(self).kind() == old(self).kind(),
            match wire_u16(old(self).kind(), old(self).rest()) {
                Ok((v, rest)) => r == Ok::<u16, ParseError>(v) && final(self).rest() == rest,
                Err(f) => r matches Err(e) && reports(e, f) && final(self).rest() == old(self).rest(),
            },
    {
        self.read_u16()
    }

    /// Reads a tag name of `length` bytes of modified UTF-8.
    pub fn read_tag_with_length(&mut self, length: u16) -> (r: Result<String, ParseError>)
        ensures
            final(self).kind() == old(self).kind(),
            match wire_tag_with_length(old(self).rest(), length as nat) {
                Ok((t, rest)) => r matches Ok(v) && v@ == t && final(self).rest() == rest,
                Err(f) => r matches Err(e) && reports(e, f),
            },
    {
        let buf = self.take(length as usize)?;
        match from_modified_utf8(buf.as_slice()) {
            Ok(text) => Ok(text),
            Err(message) => Err(ParseError::Decode(message)),
        }
    }

    /// Reads a tag name: its length, then its bytes.
    pub fn read_tag(&mut self) -> (r: Result<String, ParseError>)
        ensures
            final(self).kind() == old(self).kind(),
            match wire_tag(old(self).kind(), old(self).rest()) {
                Ok((t, rest)) => r matches Ok(v) && v@ == t && final(self).rest() == rest,
                Err(f) => r matches Err(e) && reports(e, f),
            },
    {
        let length = self.read_tag_length()?;
        self.read_tag_with_length(length)
    }

    /// Reads a TAG_Byte payload.
    pub fn read_byte(&mut self) -> (r: Result<i8, ParseError>)
        ensures
            final(self).kind() == old(self).kind(),
            match wire_u8(old(self).rest()) {
                Ok((v, rest)) => r == Ok::<i8, ParseError>(v as i8) && final(self).rest() == rest,
                Err(f) => r matches Err(e) && reports(e, f) && final(self).rest() == old(self).rest(),
            },
    {
        let b = self.read_id()?;
        Ok(b as i8)
    }

    /// Reads a TAG_Short payload.
    pub fn read_short(&mut self) -> (r: Result<i16, ParseError>)
        ensures
            final(self).kind() == old(self).kind(),
            match wire_i16(old(self).kind(), old(self).rest()) {
                Ok((v, rest)) => r == Ok::<i16, ParseError>(v) && final(self).rest() == rest,
                Err(f) => r matches Err(e) && reports(e, f) && final(self).rest() == old(self).rest(),
            },
    {
        let v = self.read_u16()?;
        Ok(v as i16)
    }

    /// Reads a TAG_Int payload.
    pub fn read_int(&mut self) -> (r: Result<i32, ParseError>)
        ensures
            final(self).kind() == old(self).kind(),
            match wire_i32(old(self).kind(), old(self).rest()) {
                Ok((v, rest)) => r == Ok::<i32, ParseError>(v) && final(self).rest() == rest,
                Err(f) => r matches Err(e) && reports(e, f) && final(self).rest() == old(self).rest(),
            },
    {
        let v = self.read_u32()?;
        Ok(v as i32)
    }

    /// Reads a TAG_Long payload.
    pub fn read_long(&mut self) -> (r: Result<i64, ParseError>)
        ensures
            final(self).kind() == old(self).kind(),
            match wire_i64(old(self).kind(), old(self).rest()) {
                Ok((v, rest)) => r == Ok::<i64, ParseError>(v) && final(self).rest() == rest,
                Err(f) => r matches Err(e) && reports(e, f) && final(self).rest() == old(self).rest(),
            },
    {
        let v = self.read_u64()?;
        Ok(v as i64)
    }

    /// Reads a TAG_Float payload, as the bits of the `f32`.
    pub fn read_float(&mut self) -> (r: Result<u32, ParseError>)
        ensures
            final(self).kind() == old(self).kind(),
            match wire_u32(old(self).kind(), old(self).rest()) {
                Ok((v, rest)) => r == Ok::<u32, ParseError>(v) && final(self).rest() == rest,
                Err(f) => r matches Err(e) && reports(e, f) && final(self).rest() == old(self).rest(),
            },
    {
        self.read_u32()
    }

    /// Reads a TAG_Double payload, as the bits of the `f64`.
    pub fn read_double(&mut self) -> (r: Result<u64, ParseError>)
        ensures
            final(self).kind() == old(self).kind(),
            match wire_u64(old(self).kind(), old(self).rest()) {
                Ok((v, rest)) => r == Ok::<u64, ParseError>(v) && final(self).rest() == rest,
                Err(f) => r matches Err(e) && reports(e, f) && final(self).rest() == old(self).rest(),
            },
    {
        self.read_u64()
    }

    /// Reads `length` bytes of a byte array; a negative length is refused.
    pub fn read_byte_array_with_length(&mut self, length: i32) -> (r: Result<Vec<u8>, ParseError>)
        ensures
            final(self).kind() == old(self).kind(),
            match wire_bytes_with_length(old(self).rest(), length) {
                Ok((b, rest)) => r matches Ok(v) && v@ == b && final(self).rest() == rest,
                Err(f) => r matches Err(e) && reports(e, f) && final(self).rest() == old(self).rest(),
            },
    {
        if length < 0 {
            return Err(ParseError::InvalidLength(length));
        }
        self.take(length as usize)
    }

    /// Reads a TAG_Byte_Array payload: its length, then its bytes.
    pub fn read_byte_array(&mut self) -> (r: Result<Vec<u8>, ParseError>)
        ensures
            final(self).kind() == old(self).kind(),
            match wire_byte_array(old(self).kind(), old(self).rest()) {
                Ok((b, rest)) => r matches Ok(v) && v@ == b && final(self).rest() == rest,
                Err(f) => r matches Err(e) && reports(e, f),
            },
    {
        let length = self.read_int()?;
        self.read_byte_array_with_length(length)
    }

    /// Reads `length` bytes of string payload; a negative length is refused.
    pub fn read_string_with_length(&mut self, length: i16) -> (r: Result<String, ParseError>)
        ensures
            final(self).kind() == old(self).kind(),
            match wire_string_with_length(old(self).kind(), old(self).rest(), length) {
                Ok((t, rest)) => r matches Ok(v) && v@ == t && final(self).rest() == rest,
                Err(f) => r matches Err(e) && reports(e, f),
            },
            length < 0 ==> final(self).rest() == old(self).rest(),
    {
        if length < 0 {
            return Err(ParseError::InvalidLength(length as i32));
        }
        let buf = self.take(length as usize)?;
        match self.platform {
            PlatformType::JavaEdition => match from_modified_utf8(buf.as_slice()) {
                Ok(text) => Ok(text),
                Err(message) => Err(ParseError::Decode(message)),
            },
            PlatformType::BedrockEdition => match from_utf8(buf) {
                Ok(text) => Ok(text),
                Err(message) => Err(ParseError::Decode(message)),
            },
        }
    }

    /// Reads a TAG_String payload: its length, then its text.
    pub fn read_string(&mut self) -> (r: Result<String, ParseError>)
        ensures
            final(self).kind() == old(self).kind(),
            match wire_string(old(self).kind(), old(self).rest()) {
                Ok((t, rest)) => r matches Ok(v) && v@ == t && final(self).rest() == rest,
                Err(f) => r matches Err(e) && reports(e, f),
            },
    {
        let length = self.read_short()?;
        self.read_string_with_length(length)
    }

    /// Reads a TAG_Int_Array payload: its count, then the numbers.
    pub fn read_int_array(&mut self) -> (r: Result<Vec<i32>, ParseError>)
        ensures
            final(self).kind() == old(self).kind(),
            match wire_int_array(old(self).kind(), old(self).rest()) {
                Ok((vs, rest)) => r matches Ok(v) && v@ == vs && final(self).rest() == rest,
                Err(f) => r matches Err(e) && reports(e, f),
            },
    {
        let length = self.read_int()?;
        if length < 0 {
            return Err(ParseError::InvalidLength(length));
        }
        if self.remaining() / 4 < length as usize {
            return Err(ParseError::UnexpectedEOF);
        }
        let ghost p = self.kind();
        let ghost rest0 = self.rest();
        let mut values: Vec<i32> = Vec::new();
        let mut i: i32 = 0;
        while i < length
            invariant
                0 <= i <= length,
                self.kind() == p,
                4 * length <= rest0.len(),
                self.rest() == rest0.skip(4 * i),
                values@ == ints_of(p, rest0, i as nat),
            decreases length - i,
        {
            let ghost before = self.rest();
            let v = match self.read_int() {
                Ok(v) => v,
                Err(e) => { assert(false); return Err(e); }
            };
            proof {
                assert(before =~= rest0.skip(4 * i));
                assert(rest0.skip(4 * i).skip(4) =~= rest0.skip(4 * (i + 1)));
            }
            values.push(v);
            i = i + 1;
            assert(values@ =~= ints_of(p, rest0, i as nat));
        }
        Ok(values)
    }

    /// Reads a TAG_Long_Array payload: its count, then the numbers.
    pub fn read_long_array(&mut self) -> (r: Result<Vec<i64>, ParseError>)
        ensures
            final(self).kind() == old(self).kind(),
            match wire_long_array(old(self).kind(), old(self).rest()) {
                Ok((vs, rest)) => r matches Ok(v) && v@ == vs && final(self).rest() == rest,
                Err(f) => r matches Err(e) && reports(e, f),
            },
    {
        let length = self.read_int()?;
        if length < 0 {
            return Err(ParseError::InvalidLength(length));
        }
        if self.remaining() / 8 < length as usize {
            return Err(ParseError::UnexpectedEOF);
        }
        let ghost p = self.kind();
        let ghost rest0 = self.rest();
        let mut values: Vec<i64> = Vec::new();
        let mut i: i32 = 0;
        while i < length
            invariant
                0 <= i <= length,
                self.kind() == p,
                8 * length <= rest0.len(),
                self.rest() == rest0.skip(8 * i),
                values@ == longs_of(p, rest0, i as nat),
            decreases length - i,
        {
            let ghost before = self.rest();
            let v = match self.read_long() {
                Ok(v) => v,
                Err(e) => { assert(false); return Err(e); }
            };
            proof {
                assert(rest0.skip(8 * i).skip(8) =~= rest0.skip(8 * (i + 1)));
            }
            values.push(v);
            i = i + 1;
            assert(values@ =~= longs_of(p, rest0, i as nat));
        }
        Ok(values)
    }
}

/// Creates a decoder over `input` for `platform`.
pub fn build(input: Vec<u8>, platform: PlatformType) -> (d: Decoder)
    ensures
        d.kind() == platform,
        d.rest() == input@,
{
    Decoder::new(input, platform)
}

} // verus!
