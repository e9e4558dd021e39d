use vstd::prelude::*;
use crate::text::{push_decimal, push_signed_decimal};

verus! {

#[verifier::external_type_specification]
#[verifier::external_body]
pub struct ExIoError(std::io::Error);

/// Errors that can happen while decoding or encoding an NBT stream.
#[derive(Debug)]
pub enum ParseError {
    /// The stream ended before a complete value could be decoded.
    UnexpectedEOF,
    /// A low-level I/O error from the surrounding stream.
    Io(std::io::Error),
    /// Invalid string payload during decoding.
    Decode(String),
    /// Encountered an NBT tag ID not supported by this crate.
    UnsupportedTagId(u8),
    /// Encountered an invalid length in array/list data.
    InvalidLength(i32),
    /// Root tag is not list (`0x09`) or compound (`0x0a`).
    InvalidRootTag(u8),
    /// Other error, with its message.
    Other(String),
}

/// The text of an I/O error, from the `Display` of `std::io::Error`.
///
/// Nothing is claimed of the text, which depends on the operating system.
#[verifier::external_body]
fn io_error_text(err: &std::io::Error) -> String {
    format!("{err}")
}

/// The message of an error that is not an I/O error.
pub open spec fn error_message(e: ParseError) -> Seq<char> {
    match e {
        ParseError::UnexpectedEOF => "unexpected end of nbt stream"@,
        ParseError::Io(_) => "io error: "@,
        ParseError::Decode(m) => "decode error: "@ + m@,
        ParseError::UnsupportedTagId(id) => "unsupported tag id: "@ + crate::text::decimal(id as nat),
        ParseError::InvalidLength(n) => "invalid nbt length: "@ + crate::text::signed_decimal(n as int),
        ParseError::InvalidRootTag(id) => "root tag must be list(0x09) or compound(0x0a), got: "@
            + crate::text::decimal(id as nat),
        ParseError::Other(m) => m@,
    }
}

impl ParseError {
    /// The error's message, as the error displays it; an I/O error's message
    /// is `io error: ` and the I/O error's own text.
    pub fn to_string(&self) -> (s: String)
        ensures
            !(*self is Io) ==> s@ == error_message(*self),
            *self is Io ==> s@.len() >= error_message(*self).len() && s@.take(error_message(*self).len() as int)
                == error_message(*self),
    {
        match self {
            ParseError::UnexpectedEOF => String::from_str("unexpected end of nbt stream"),
            ParseError::Io(err) => {
                let mut s = String::from_str("io error: ");
                let text = io_error_text(err);
                let ghost head = s@;
                s.append(text.as_str());
                assert(s@.take(head.len() as int) =~= head);
                s
            },
            ParseError::Decode(m) => {
                let mut s = String::from_str("decode error: ");
                s.append(m.as_str());
                s
            },
            ParseError::UnsupportedTagId(id) => {
                let mut s = String::from_str("unsupported tag id: ");
                push_decimal(&mut s, *id as u64);
                s
            },
            ParseError::InvalidLength(n) => {
                let mut s = String::from_str("invalid nbt length: ");
                push_signed_decimal(&mut s, *n as i64);
                s
            },
            ParseError::InvalidRootTag(id) => {
                let mut s = String::from_str("root tag must be list(0x09) or compound(0x0a), got: ");
                push_decimal(&mut s, *id as u64);
                s
            },
            ParseError::Other(m) => m.clone(),
        }
    }
}

} // verus!
