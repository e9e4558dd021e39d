//! Numeric tag identifiers of the NBT format.
use vstd::prelude::*;

verus! {

/// TAG_End.
pub const END: u8 = 0x00;
/// TAG_Byte.
pub const BYTE: u8 = 0x01;
/// TAG_Short.
pub const SHORT: u8 = 0x02;
/// TAG_Int.
pub const INT: u8 = 0x03;
/// TAG_Long.
pub const LONG: u8 = 0x04;
/// TAG_Float.
pub const FLOAT: u8 = 0x05;
/// TAG_Double.
pub const DOUBLE: u8 = 0x06;
/// TAG_Byte_Array.
pub const BYTE_ARRAY: u8 = 0x07;
/// TAG_String.
pub const STRING: u8 = 0x08;
/// TAG_List.
pub const LIST: u8 = 0x09;
/// TAG_Compound.
pub const COMPOUND: u8 = 0x0a;
/// TAG_Int_Array.
pub const INT_ARRAY: u8 = 0x0b;
/// TAG_Long_Array.
pub const LONG_ARRAY: u8 = 0x0c;

} // verus!
