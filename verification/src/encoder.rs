//! Writing NBT primitives into a byte buffer.
use vstd::prelude::*;
use vstd::utf8::encode_utf8;
use crate::byte_order::{u16_bytes, u32_bytes, u64_bytes};
use crate::error::ParseError;
use crate::platform::PlatformType;
use crate::byte_order::is_big_endian;
use crate::text::{
    append_bytes, decimal, lemma_modified_utf8_empty, modified_utf8_bytes, modified_utf8_roundtrips, push_decimal, to_modified_utf8,
};
use crate::wire::{
    enc_byte_array, enc_int_array, enc_ints, enc_long_array, enc_longs, enc_string, enc_tag,
    string_bytes,
};

verus! {

/// The message of the error for an over-long tag name of `n` bytes.
pub open spec fn tag_too_long_message(n: nat) -> Seq<char> {
    "tag length exceeds u16: "@ + decimal(n)
}

/// The message of the error for an over-long string payload of `n` bytes.
pub open spec fn string_too_long_message(n: nat) -> Seq<char> {
    "string length exceeds i16: "@ + decimal(n)
}

/// The message of the error for a byte array of `n` bytes.
pub open spec fn byte_array_too_long_message(n: nat) -> Seq<char> {
    "byte array length exceeds i32: "@ + decimal(n)
}

/// The message of the error for an int array of `n` numbers.
pub open spec fn int_array_too_long_message(n: nat) -> Seq<char> {
    "int array length exceeds i32: "@ + decimal(n)
}

/// The message of the error for a long array of `n` numbers.
pub open spec fn long_array_too_long_message(n: nat) -> Seq<char> {
    "long array length exceeds i32: "@ + decimal(n)
}

/// An error carrying `prefix` followed by the decimal notation of `n`.
pub fn message_with_number(prefix: &str, n: usize) -> (e: ParseError)
    ensures
        e matches ParseError::Other(m) && m@ == prefix@ + decimal(n as nat),
{
    let mut text = String::from_str(prefix);
    push_decimal(&mut text, n as u64);
    ParseError::Other(text)
}

/// Appends NBT primitives, with the rules of one platform, to a byte buffer.
pub struct Encoder {
    platform: PlatformType,
    output: Vec<u8>,
}

impl Encoder {
    /// The platform whose rules this encoder writes by.
    pub closed spec fn kind(&self) -> PlatformType {
        self.platform
    }

    /// The bytes written so far.
    pub closed spec fn written(&self) -> Seq<u8> {
        self.output@
    }

    /// Creates an encoder that appends to `output`.
    pub fn new(output: Vec<u8>, platform: PlatformType) -> (e: Self)
        ensures
            e.kind() == platform,
            e.written() == output@,
    {
        Encoder { platform, output }
    }

    /// The bytes written so far.
    pub fn bytes(&self) -> (b: &Vec<u8>)
        ensures
            b@ == self.written(),
    {
        &self.output
    }

    /// Gives up the encoder and returns the bytes written.
    pub fn into_bytes(self) -> (b: Vec<u8>)
        ensures
            b@ == self.written(),
    {
        self.output
    }

    /// Appends raw bytes as they are.
    pub fn write_raw(&mut self, bytes: &[u8])
        ensures
            final(self).kind() == old(self).kind(),
            final(self).written() == old(self).written() + bytes@,
    {
        append_bytes(&mut self.output, bytes);
    }

    fn push_u16(&mut self, v: u16)
        ensures
            final(self).kind() == old(self).kind(),
            final(self).written() == old(self).written() + u16_bytes(old(self).kind(), v),
    {
        let hi = (v >> 8u16) as u8;
        let lo = v as u8;
        match self.platform {
            PlatformType::JavaEdition => {
                self.output.push(hi);
                self.output.push(lo);
            },
            PlatformType::BedrockEdition => {
                self.output.push(lo);
                self.output.push(hi);
            },
        }
        assert(self.output@ =~= old(self).output@ + u16_bytes(old(self).kind(), v));
    }

    fn push_u32(&mut self, v: u32)
        ensures
            final(self).kind() == old(self).kind(),
            final(self).written() == old(self).written() + u32_bytes(old(self).kind(), v),
    {
        let b0 = (v >> 24u32) as u8;
        let b1 = (v >> 16u32) as u8;
        let b2 = (v >> 8u32) as u8;
        let b3 = v as u8;
        match self.platform {
            PlatformType::JavaEdition => {
                self.output.push(b0);
                self.output.push(b1);
                self.output.push(b2);
                self.output.push(b3);
            },
            PlatformType::BedrockEdition => {
                self.output.push(b3);
                self.output.push(b2);
                self.output.push(b1);
                self.output.push(b0);
            },
        }
        assert(self.output@ =~= old(self).output@ + u32_bytes(old(self).kind(), v));
    }

    fn push_u64(&mut self, v: u64)
        ensures
            final(self).kind() == old(self).kind(),
            final(self).written() == old(self).written() + u64_bytes(old(self).kind(), v),
    {
        let b0 = (v >> 56u64) as u8;
        let b1 = (v >> 48u64) as u8;
        let b2 = (v >> 40u64) as u8;
        let b3 = (v >> 32u64) as u8;
        let b4 = (v >> 24u64) as u8;
        let b5 = (v >> 16u64) as u8;
        let b6 = (v >> 8u64) as u8;
        let b7 = v as u8;
        match self.platform {
            PlatformType::JavaEdition => {
                self.output.push(b0);
                self.output.push(b1);
                self.output.push(b2);
                self.output.push(b3);
                self.output.push(b4);
                self.output.push(b5);
                self.output.push(b6);
                self.output.push(b7);
            },
            PlatformType::BedrockEdition => {
                self.output.push(b7);
                self.output.push(b6);
                self.output.push(b5);
                self.output.push(b4);
                self.output.push(b3);
                self.output.push(b2);
                self.output.push(b1);
                self.output.push(b0);
            },
        }
        assert(self.output@ =~= old(self).output@ + u64_bytes(old(self).kind(), v));
    }

    /// Writes a tag id byte.
    pub fn write_id(&mut self, id: u8) -> (r: Result<(), ParseError>)
        ensures
            r is Ok,
            final(self).kind() == old(self).kind(),
            final(self).written() == old(self).written().push(id),
    {
        self.output.push(id);
        Ok(())
    }

    /// Writes the unsigned 16-bit length of a tag name.
    pub fn write_tag_length(&mut self, length: u16) -> (r: Result<(), ParseError>)
        ensures
            r is Ok,
            final(self).kind() == old(self).kind(),
            final(self).written() == old(self).written() + u16_bytes(old(self).kind(), length),
    {
        self.push_u16(length);
        Ok(())
    }

    /// Writes a tag name: its length, then its bytes of modified UTF-8.
    /// Fails, writing nothing, when the encoded name is longer than 65535 bytes.
    pub fn write_tag(&mut self, tag: &str) -> (r: Result<(), ParseError>)
        ensures
            final(self).kind() == old(self).kind(),
            modified_utf8_roundtrips(tag@),
            tag@.len() == 0 ==> modified_utf8_bytes(tag@) == Seq::<u8>::empty(),
            match enc_tag(old(self).kind(), tag@) {
                Some(b) => r is Ok && final(self).written() == old(self).written() + b,
                None => final(self).written() == old(self).written() && (r matches Err(ParseError::Other(m)) && m@ == tag_too_long_message(modified_utf8_bytes(tag@).len())),
            },
    {
        proof {
            if tag@.len() == 0 {
                lemma_modified_utf8_empty();
                assert(tag@ =~= Seq::<char>::empty());
            }
        }
        let encoded = to_modified_utf8(tag);
        let length = encoded.len();
        if length > 65535 {
            return Err(message_with_number("tag length exceeds u16: ", length));
        }
        self.push_u16(length as u16);
        append_bytes(&mut self.output, encoded.as_slice());
        assert(self.output@ =~= old(self).output@ + enc_tag(old(self).kind(), tag@).unwrap());
        Ok(())
    }

    /// Writes a TAG_Byte payload.
    pub fn write_byte(&mut self, value: i8) -> (r: Result<(), ParseError>)
        ensures
            r is Ok,
            final(self).kind() == old(self).kind(),
            final(self).written() == old(self).written().push(value as u8),
    {
        self.output.push(value as u8);
        Ok(())
    }

    /// Writes a TAG_Short payload.
    pub fn write_short(&mut self, value: i16) -> (r: Result<(), ParseError>)
        ensures
            r is Ok,
            final(self).kind() == old(self).kind(),
            final(self).written() == old(self).written() + u16_bytes(old(self).kind(), value as u16),
    {
        self.push_u16(value as u16);
        Ok(())
    }

    /// Writes a TAG_Int payload.
    pub fn write_int(&mut self, value: i32) -> (r: Result<(), ParseError>)
        ensures
            r is Ok,
            final(self).kind() == old(self).kind(),
            final(self).written() == old(self).written() + u32_bytes(old(self).kind(), value as u32),
    {
        self.push_u32(value as u32);
        Ok(())
    }

    /// Writes a TAG_Long payload.
    pub fn write_long(&mut self, value: i64) -> (r: Result<(), ParseError>)
        ensures
            r is Ok,
            final(self).kind() == old(self).kind(),
            final(self).written() == old(self).written() + u64_bytes(old(self).kind(), value as u64),
    {
        self.push_u64(value as u64);
        Ok(())
    }

    /// Writes a TAG_Float payload given as the bits of the `f32`.
    pub fn write_float(&mut self, bits: u32) -> (r: Result<(), ParseError>)
        ensures
            r is Ok,
            final(self).kind() == old(self).kind(),
            final(self).written() == old(self).written() + u32_bytes(old(self).kind(), bits),
    {
        self.push_u32(bits);
        Ok(())
    }

    /// Writes a TAG_Double payload given as the bits of the `f64`.
    pub fn write_double(&mut self, bits: u64) -> (r: Result<(), ParseError>)
        ensures
            r is Ok,
            final(self).kind() == old(self).kind(),
            final(self).written() == old(self).written() + u64_bytes(old(self).kind(), bits),
    {
        self.push_u64(bits);
        Ok(())
    }

    /// Writes a TAG_Byte_Array payload: its length, then its bytes.
    /// Fails, writing nothing, when there are more than `i32::MAX` bytes.
    pub fn write_byte_array(&mut self, values: &[u8]) -> (r: Result<(), ParseError>)
        ensures
            final(self).kind() == old(self).kind(),
            match enc_byte_array(old(self).kind(), values@) {
                Some(b) => r is Ok && final(self).written() == old(self).written() + b,
                None => final(self).written() == old(self).written() && (r matches Err(ParseError::Other(m)) && m@ == byte_array_too_long_message(values@.len())),
            },
    {
        if values.len() > 0x7fff_ffff {
            return Err(message_with_number("byte array length exceeds i32: ", values.len()));
        }
        self.push_u32(values.len() as u32);
        append_bytes(&mut self.output, values);
        assert(self.output@ =~= old(self).output@ + enc_byte_array(old(self).kind(), values@).unwrap());
        Ok(())
    }

    /// Writes the signed 16-bit length of a string payload.
    pub fn write_string_length(&mut self, length: i16) -> (r: Result<(), ParseError>)
        ensures
            r is Ok,
            final(self).kind() == old(self).kind(),
            final(self).written() == old(self).written() + u16_bytes(old(self).kind(), length as u16),
    {
        self.push_u16(length as u16);
        Ok(())
    }

    /// Writes a TAG_String payload: its length, then its text (modified UTF-8 on
    /// Java, UTF-8 on Bedrock). Fails, writing nothing, when the text takes more
    /// than 32767 bytes.
    pub fn write_string(&mut self, value: &str) -> (r: Result<(), ParseError>)
        ensures
            final(self).kind() == old(self).kind(),
            is_big_endian(old(self).kind()) ==> modified_utf8_roundtrips(value@),
            match enc_string(old(self).kind(), value@) {
                Some(b) => r is Ok && final(self).written() == old(self).written() + b,
                None => final(self).written() == old(self).written() && (r matches Err(ParseError::Other(m)) && m@ == string_too_long_message(string_bytes(old(self).kind(), value@).len())),
            },
    {
        match self.platform {
            PlatformType::JavaEdition => {
                let encoded = to_modified_utf8(value);
                if encoded.len() > 32767 {
                    return Err(message_with_number("string length exceeds i16: ", encoded.len()));
                }
                self.push_u16(encoded.len() as u16);
                append_bytes(&mut self.output, encoded.as_slice());
                assert(self.output@ =~= old(self).output@ + enc_string(old(self).kind(), value@).unwrap());
            },
            PlatformType::BedrockEdition => {
                let encoded = value.as_bytes();
                let length = encoded.len();
                assert(encoded@ == encode_utf8(value@));
                if length > 32767 {
                    return Err(message_with_number("string length exceeds i16: ", length));
                }
                self.push_u16(length as u16);
                append_bytes(&mut self.output, encoded);
                assert(self.output@ =~= old(self).output@ + enc_string(old(self).kind(), value@).unwrap());
            },
        }
        Ok(())
    }

    /// Writes a TAG_Int_Array payload: its count, then the numbers.
    /// Fails, writing nothing, when there are more than `i32::MAX` numbers.
    pub fn write_int_array(&mut self, values: &[i32]) -> (r: Result<(), ParseError>)
        ensures
            final(self).kind() == old(self).kind(),
            match enc_int_array(old(self).kind(), values@) {
                Some(b) => r is Ok && final(self).written() == old(self).written() + b,
                None => final(self).written() == old(self).written() && (r matches Err(ParseError::Other(m)) && m@ == int_array_too_long_message(values@.len())),
            },
    {
        if values.len() > 0x7fff_ffff {
            return Err(message_with_number("int array length exceeds i32: ", values.len()));
        }
        self.push_u32(values.len() as u32);
        let ghost start = self.output@;
        let mut i: usize = 0;
        while i < values.len()
            invariant
                i <= values@.len(),
                self.kind() == old(self).kind(),
                self.output@ == start + enc_ints(old(self).kind(), values@.take(i as int)),
            decreases values@.len() - i,
        {
            self.push_u32(values[i] as u32);
            i = i + 1;
            assert(values@.take(i as int).drop_last() =~= values@.take(i - 1));
            assert(self.output@ =~= start + enc_ints(old(self).kind(), values@.take(i as int)));
        }
        assert(values@.take(values@.len() as int) =~= values@);
        assert(self.output@ =~= old(self).output@ + enc_int_array(old(self).kind(), values@).unwrap());
        Ok(())
    }

    /// Writes a TAG_Long_Array payload: its count, then the numbers.
    /// Fails, writing nothing, when there are more than `i32::MAX` numbers.
    pub fn write_long_array(&mut self, values: &[i64]) -> (r: Result<(), ParseError>)
        ensures
            final(self).kind() == old(self).kind(),
            match enc_long_array(old(self).kind(), values@) {
                Some(b) => r is Ok && final(self).written() == old(self).written() + b,
                None => final(self).written() == old(self).written() && (r matches Err(ParseError::Other(m)) && m@ == long_array_too_long_message(values@.len())),
            },
    {
        if values.len() > 0x7fff_ffff {
            return Err(message_with_number("long array length exceeds i32: ", values.len()));
        }
        self.push_u32(values.len() as u32);
        let ghost start = self.output@;
        let mut i: usize = 0;
        while i < values.len()
            invariant
                i <= values@.len(),
                self.kind() == old(self).kind(),
                self.output@ == start + enc_longs(old(self).kind(), values@.take(i as int)),
            decreases values@.len() - i,
        {
            self.push_u64(values[i] as u64);
            i = i + 1;
            assert(values@.take(i as int).drop_last() =~= values@.take(i - 1));
            assert(self.output@ =~= start + enc_longs(old(self).kind(), values@.take(i as int)));
        }
        assert(values@.take(values@.len() as int) =~= values@);
        assert(self.output@ =~= old(self).output@ + enc_long_array(old(self).kind(), values@).unwrap());
        Ok(())
    }

    /// Completes pending output; a byte buffer has none, so this always succeeds
    /// and changes nothing.
    pub fn flush(&mut self) -> (r: Result<(), ParseError>)
        ensures
            r is Ok,
            *final(self) == *old(self),
    {
        Ok(())
    }
}

/// Creates an encoder that appends to `output` for `platform`.
pub fn build(output: Vec<u8>, platform: PlatformType) -> (e: Encoder)
    ensures
        e.kind() == platform,
        e.written() == output@,
{
    Encoder::new(output, platform)
}

} // verus!
