//! Text encodings used by NBT strings, and decimal numbers.
use vstd::prelude::*;
use vstd::utf8::{decode_utf8, encode_scalar, encode_utf8, valid_utf8};

verus! {

/// The three bytes that a UTF-16 surrogate `s` takes in modified UTF-8:
/// `1110xxxx 10xxxxxx 10xxxxxx`.
pub open spec fn surrogate_bytes(s: int) -> Seq<u8> {
    seq![(0xE0 + s / 0x1000) as u8, (0x80 + (s / 0x40) % 0x40) as u8, (0x80 + s % 0x40) as u8]
}

/// The modified UTF-8 bytes of one character: NUL as `C0 80`, a character
/// above U+FFFF as its two UTF-16 surrogates of three bytes each, any other
/// character as in UTF-8.
pub open spec fn java_char_bytes(c: char) -> Seq<u8> {
    let v = c as u32;
    if v == 0 {
        seq![0xC0u8, 0x80u8]
    } else if v > 0xFFFF {
        let w = v - 0x10000;
        surrogate_bytes(0xD800 + w / 0x400) + surrogate_bytes(0xDC00 + w % 0x400)
    } else {
        encode_scalar(v)
    }
}

/// The bytes of Java's modified UTF-8 for `text`: each character's bytes in
/// turn.
#[verifier::opaque]
pub open spec fn modified_utf8_bytes(text: Seq<char>) -> Seq<u8>
    decreases text.len(),
{
    if text.len() == 0 {
        Seq::empty()
    } else {
        java_char_bytes(text[0]) + modified_utf8_bytes(text.drop_first())
    }
}

/// The empty text has no bytes.
pub proof fn lemma_modified_utf8_empty()
    ensures
        modified_utf8_bytes(Seq::empty()) == Seq::<u8>::empty(),
{
    reveal(modified_utf8_bytes);
}

/// The text that Java's modified UTF-8 bytes stand for, if they are well formed
/// (as decided by `cesu8::from_java_cesu8`).
pub uninterp spec fn modified_utf8_text(bytes: Seq<u8>) -> Option<Seq<char>>;

/// Whether decoding the modified UTF-8 of `text` gives `text` back.
pub open spec fn modified_utf8_roundtrips(text: Seq<char>) -> bool {
    modified_utf8_text(modified_utf8_bytes(text)) == Some(text)
}

/// The message of the error that `String::from_utf8` reports for `bytes`.
pub uninterp spec fn utf8_error_message(bytes: Seq<u8>) -> Seq<char>;

/// The message that `cesu8` gives for malformed modified UTF-8.
pub open spec fn modified_utf8_error_message() -> Seq<char> {
    seq!['c', 'o', 'u', 'l', 'd', ' ', 'n', 'o', 't', ' ', 'c', 'o', 'n', 'v', 'e', 'r', 't', ' ',
        'C', 'E', 'S', 'U', '-', '8', ' ', 'd', 'a', 't', 'a', ' ', 't', 'o', ' ', 'U', 'T', 'F', '-', '8']
}

/// Encodes `text` as Java's modified UTF-8 with `cesu8::to_java_cesu8`.
///
/// Trusted: the result is [`modified_utf8_bytes`] of the text (the crate
/// passes text without NUL or characters above U+FFFF through as its UTF-8
/// bytes, and otherwise writes NUL as `C0 80` and each such character as two
/// three-byte surrogates), and decoding it with `cesu8::from_java_cesu8`
/// gives the text back.
#[verifier::external_body]
pub(crate) fn to_modified_utf8(text: &str) -> (bytes: Vec<u8>)
    ensures
        bytes@ == modified_utf8_bytes(text@),
        modified_utf8_text(bytes@) == Some(text@),
{
    cesu8::to_java_cesu8(text).into_owned()
}

/// Decodes Java's modified UTF-8 with `cesu8::from_java_cesu8`.
///
/// Trusted: success exactly when the named decoding is defined, with that
/// text; the error carries the crate's fixed message.
#[verifier::external_body]
pub(crate) fn from_modified_utf8(bytes: &[u8]) -> (text: Result<String, String>)
    ensures
        text is Ok <==> modified_utf8_text(bytes@) is Some,
        text matches Ok(t) ==> modified_utf8_text(bytes@) == Some(t@),
        text matches Err(m) ==> m@ == modified_utf8_error_message(),
{
    match cesu8::from_java_cesu8(bytes) {
        Ok(decoded) => Ok(decoded.into_owned()),
        Err(err) => Err(err.to_string()),
    }
}

/// Decodes UTF-8 with `String::from_utf8`.
///
/// Trusted: success exactly on valid UTF-8, giving the decoded characters;
/// the error message is the one `FromUtf8Error` displays for these bytes.
#[verifier::external_body]
pub(crate) fn from_utf8(bytes: Vec<u8>) -> (text: Result<String, String>)
    ensures
        text is Ok <==> valid_utf8(bytes@),
        text matches Ok(t) ==> t@ == decode_utf8(bytes@),
        text matches Err(m) ==> m@ == utf8_error_message(bytes@),
{
    match String::from_utf8(bytes) {
        Ok(text) => Ok(text),
        Err(err) => Err(err.to_string()),
    }
}

/// Appends one character with `String::push`.
#[verifier::external_body]
pub(crate) fn push_char(s: &mut String, c: char)
    ensures
        final(s)@ == old(s)@.push(c),
{
    s.push(c);
}

/// Appends the bytes of `src` to `out`.
pub fn append_bytes(out: &mut Vec<u8>, src: &[u8])
    ensures
        final(out)@ == old(out)@ + src@,
{
    let mut i: usize = 0;
    while i < src.len()
        invariant
            i <= src@.len(),
            out@ == old(out)@ + src@.subrange(0, i as int),
        decreases src@.len() - i,
    {
        out.push(src[i]);
        i = i + 1;
        assert(src@.subrange(0, i as int) == src@.subrange(0, i - 1) + seq![src@[i - 1]]);
    }
    assert(src@.subrange(0, src@.len() as int) == src@);
}

/// The character of a decimal digit.
pub open spec fn digit_char(d: nat) -> char {
    if d == 0 { '0' } else if d == 1 { '1' } else if d == 2 { '2' } else if d == 3 { '3' }
    else if d == 4 { '4' } else if d == 5 { '5' } else if d == 6 { '6' } else if d == 7 { '7' }
    else if d == 8 { '8' } else { '9' }
}

/// Whether `c` is an ASCII decimal digit.
pub open spec fn is_digit(c: char) -> bool {
    '0' <= c && c <= '9'
}

/// The value of a decimal digit character.
pub open spec fn digit_value(c: char) -> nat {
    (c as u32 - '0' as u32) as nat
}

/// The decimal notation of `n`, without sign or leading zeros.
pub open spec fn decimal(n: nat) -> Seq<char>
    decreases n,
{
    if n < 10 { seq![digit_char(n)] } else { decimal(n / 10).push(digit_char(n % 10)) }
}

/// The number that a sequence of decimal digits denotes.
pub open spec fn digits_value(s: Seq<char>) -> nat
    decreases s.len(),
{
    if s.len() == 0 { 0 } else { digits_value(s.drop_last()) * 10 + digit_value(s.last()) }
}

/// Whether every character of `s` is a decimal digit.
pub open spec fn all_digits(s: Seq<char>) -> bool {
    forall|i: int| 0 <= i < s.len() ==> is_digit(#[trigger] s[i])
}

fn digit_to_char(d: u64) -> (c: char)
    requires
        d < 10,
    ensures
        c == digit_char(d as nat),
{
    if d == 0 { '0' } else if d == 1 { '1' } else if d == 2 { '2' } else if d == 3 { '3' }
    else if d == 4 { '4' } else if d == 5 { '5' } else if d == 6 { '6' } else if d == 7 { '7' }
    else if d == 8 { '8' } else { '9' }
}

/// Appends the decimal notation of `n` to `s`.
pub fn push_decimal(s: &mut String, n: u64)
    ensures
        final(s)@ == old(s)@ + decimal(n as nat),
    decreases n,
{
    if n >= 10 {
        push_decimal(s, n / 10);
    }
    push_char(s, digit_to_char(n % 10));
    proof {
        if n >= 10 {
            assert(old(s)@ + decimal(n as nat) == old(s)@ + decimal((n / 10) as nat) + seq![digit_char((n % 10) as nat)]);
        } else {
            assert(old(s)@ + decimal(n as nat) == old(s)@.push(digit_char(n as nat)));
        }
    }
}

/// Appends the decimal notation of a possibly negative `n` to `s`.
pub fn push_signed_decimal(s: &mut String, n: i64)
    ensures
        final(s)@ == old(s)@ + signed_decimal(n as int),
{
    if n < 0 {
        push_char(s, '-');
        let m: u64 = if n == i64::MIN { 9223372036854775808u64 } else { (-n) as u64 };
        push_decimal(s, m);
        assert(old(s)@ + signed_decimal(n as int) == old(s)@.push('-') + decimal(m as nat));
    } else {
        push_decimal(s, n as u64);
    }
}

/// The decimal notation of an integer, with a leading `-` when negative.
pub open spec fn signed_decimal(n: int) -> Seq<char> {
    if n < 0 { seq!['-'] + decimal((-n) as nat) } else { decimal(n as nat) }
}

/// Decimal notation consists of digits only and is never empty.
pub proof fn lemma_decimal_digits(n: nat)
    ensures
        decimal(n).len() > 0,
        all_digits(decimal(n)),
    decreases n,
{
    lemma_digit_char(n % 10);
    if n >= 10 {
        lemma_decimal_digits(n / 10);
        let d = decimal(n);
        assert forall|i: int| 0 <= i < d.len() implies is_digit(#[trigger] d[i]) by {
            if i < d.len() - 1 {
                assert(d[i] == decimal(n / 10)[i]);
            }
        }
    }
}

/// A digit's character has that digit's value.
pub proof fn lemma_digit_char(d: nat)
    requires
        d < 10,
    ensures
        digit_value(digit_char(d)) == d,
        is_digit(digit_char(d)),
{
    assert('0' as u32 == 48 && '1' as u32 == 49 && '2' as u32 == 50 && '3' as u32 == 51
        && '4' as u32 == 52 && '5' as u32 == 53 && '6' as u32 == 54 && '7' as u32 == 55
        && '8' as u32 == 56 && '9' as u32 == 57);
}

/// Reading the decimal notation of `n` gives `n`.
pub proof fn lemma_decimal_value(n: nat)
    ensures
        digits_value(decimal(n)) == n,
    decreases n,
{
    lemma_digit_char(n % 10);
    if n >= 10 {
        lemma_decimal_value(n / 10);
        assert(decimal(n).drop_last() == decimal(n / 10));
        assert(decimal(n).last() == digit_char(n % 10));
        assert(n == (n / 10) * 10 + n % 10) by (nonlinear_arith);
    } else {
        assert(decimal(n).drop_last() == Seq::<char>::empty());
        assert(digits_value(Seq::<char>::empty()) == 0);
    }
}

} // verus!

verus! {

/// The characters of `s`, in order.
pub fn chars_of(s: &str) -> (v: Vec<char>)
    ensures
        v@ == s@,
{
    broadcast use vstd::string::group_string_axioms;
    let mut v: Vec<char> = Vec::new();
    let mut it = s.chars();
    let ghost all = s@;
    loop
        invariant
            all == s@,
            vstd::std_specs::iter::IteratorSpec::remaining(&it) == all.skip(v@.len() as int),
            v@ == all.take(v@.len() as int),
            v@.len() <= all.len(),
        decreases all.len() - v@.len(),
    {
        match it.next() {
            Some(c) => {
                proof {
                    assert(all.skip(v@.len() as int)[0] == c);
                }
                v.push(c);
                assert(v@ =~= all.take(v@.len() as int));
                assert(vstd::std_specs::iter::IteratorSpec::remaining(&it) =~= all.skip(v@.len() as int));
            },
            None => {
                assert(all.skip(v@.len() as int).len() == 0);
                assert(all.take(v@.len() as int) =~= all);
                return v;
            },
        }
    }
}

} // verus!
