//! Errors reported while reading or writing CDR data.

use std::char::DecodeUtf16Error;
use std::str::Utf8Error;
use std::string::FromUtf8Error;
use crate::text::{decimal, digits, push_digits, push_str};
use crate::unicode::string_from_chars;
use vstd::prelude::*;

verus! {

#[verifier::external_type_specification]
#[verifier::external_body]
pub struct ExFromUtf8Error(FromUtf8Error);

#[verifier::external_type_specification]
#[verifier::external_body]
pub struct ExUtf8Error(Utf8Error);

#[verifier::external_type_specification]
#[verifier::external_body]
pub struct ExDecodeUtf16Error(DecodeUtf16Error);

/// Everything that can go wrong while decoding or encoding a CDR stream.
#[derive(Debug)]
pub enum CdrError {
    InputTooShort { context: &'static str, min_len: usize, actual_len: usize },
    LengthOverflow { context: &'static str },
    NotEnoughBytes { context: &'static str, requested: usize, remaining: usize },
    OddByteLength { context: &'static str, len: usize },
    InvalidRepresentation(u16),
    InvalidUtf8(FromUtf8Error),
    InvalidUtf8Slice(Utf8Error),
    InvalidUtf16(DecodeUtf16Error),
    InvalidUnicodeScalar { context: &'static str, value: u32 },
    InvalidBool(u8),
    NonAsciiChar(char),
    FixedArrayLength { expected: usize, actual: usize },
    UnknownSchema(String),
}

pub type CdrResult<T> = Result<T, CdrError>;

/// The hexadecimal form of `n` with a `0x` prefix, padded with zeros to at least `width`
/// characters in all.
pub open spec fn hex_prefixed(n: nat, width: nat) -> Seq<char> {
    let ds = digits(n, 16);
    let zeros = if ds.len() + 2 < width {
        (width - ds.len() - 2) as nat
    } else {
        0
    };
    seq!['0', 'x'] + Seq::new(zeros, |i: int| '0') + ds
}

/// The text of `Debug` for a character: the character quoted and escaped.
pub uninterp spec fn char_debug_text(c: char) -> Seq<char>;

/// `format!("{:?}", c)` for a character.
#[verifier::external_body]
fn char_debug(c: char) -> (r: String)
    ensures
        r@ == char_debug_text(c),
{
    format!("{:?}", c)
}

/// The `Display` text of the UTF-8 error, as `to_string` renders it.
#[verifier::external_body]
fn from_utf8_error_text(e: &FromUtf8Error) -> String {
    e.to_string()
}

/// The `Display` text of the UTF-8 error, as `to_string` renders it.
#[verifier::external_body]
fn utf8_error_text(e: &Utf8Error) -> String {
    e.to_string()
}

/// The `Display` text of the UTF-16 error, as `to_string` renders it.
#[verifier::external_body]
fn decode_utf16_error_text(e: &DecodeUtf16Error) -> String {
    e.to_string()
}

/// `text` starts with `prefix`.
pub open spec fn starts_with(text: Seq<char>, prefix: Seq<char>) -> bool {
    text.len() >= prefix.len() && text.subrange(0, prefix.len() as int) == prefix
}

impl CdrError {
    /// Whether `text` is the message for this error. For the variants that carry an error of
    /// the standard library, the message is a fixed prefix followed by that error's own text.
    pub open spec fn describes(&self, text: Seq<char>) -> bool {
        match self {
            CdrError::InputTooShort { context, min_len, actual_len } => text == context@
                + ": input too short, expected at least "@ + decimal(*min_len as nat)
                + " bytes, got "@ + decimal(*actual_len as nat),
            CdrError::LengthOverflow { context } => text == context@ + ": length overflow"@,
            CdrError::NotEnoughBytes { context, requested, remaining } => text == context@
                + ": not enough bytes, requested "@ + decimal(*requested as nat)
                + ", remaining "@ + decimal(*remaining as nat),
            CdrError::OddByteLength { context, len } => text == context@
                + ": expected an even byte length, got "@ + decimal(*len as nat),
            CdrError::InvalidRepresentation(value) => text
                == "CdrEncoding::parse: invalid representation value "@ + hex_prefixed(
                *value as nat,
                6,
            ),
            CdrError::InvalidUtf8(_) => starts_with(
                text,
                "CdrDecoder::read_string: invalid utf8: "@,
            ),
            CdrError::InvalidUtf8Slice(_) => starts_with(
                text,
                "CdrDecoder::read_str: invalid utf8: "@,
            ),
            CdrError::InvalidUtf16(_) => starts_with(
                text,
                "CdrDecoder::read_wstring: invalid utf16: "@,
            ),
            CdrError::InvalidUnicodeScalar { context, value } => text == context@
                + ": invalid unicode scalar value "@ + hex_prefixed(*value as nat, 0),
            CdrError::InvalidBool(value) => text
                == "CdrDecoder::read_bool: invalid boolean discriminant "@ + decimal(
                *value as nat,
            ),
            CdrError::NonAsciiChar(value) => text == "CdrEncoder::write_char: non-ascii char "@
                + char_debug_text(*value),
            CdrError::FixedArrayLength { expected, actual } => text
                == "CdrDecoder::read_array: failed to build fixed-size array, expected "@
                + decimal(*expected as nat) + " items, got "@ + decimal(*actual as nat),
            CdrError::UnknownSchema(schema_name) => text == "unknown schema: "@ + schema_name@,
        }
    }

    /// The human-readable message for this error.
    pub fn to_string(&self) -> (r: String)
        ensures
            self.describes(r@),
    {
        let mut out: Vec<char> = Vec::new();
        match self {
            CdrError::InputTooShort { context, min_len, actual_len } => {
                push_str(&mut out, context);
                push_str(&mut out, ": input too short, expected at least ");
                push_digits(&mut out, *min_len as u64, 10);
                push_str(&mut out, " bytes, got ");
                push_digits(&mut out, *actual_len as u64, 10);
            },
            CdrError::LengthOverflow { context } => {
                push_str(&mut out, context);
                push_str(&mut out, ": length overflow");
            },
            CdrError::NotEnoughBytes { context, requested, remaining } => {
                push_str(&mut out, context);
                push_str(&mut out, ": not enough bytes, requested ");
                push_digits(&mut out, *requested as u64, 10);
                push_str(&mut out, ", remaining ");
                push_digits(&mut out, *remaining as u64, 10);
            },
            CdrError::OddByteLength { context, len } => {
                push_str(&mut out, context);
                push_str(&mut out, ": expected an even byte length, got ");
                push_digits(&mut out, *len as u64, 10);
            },
            CdrError::InvalidRepresentation(value) => {
                push_str(&mut out, "CdrEncoding::parse: invalid representation value ");
                push_hex(&mut out, *value as u64, 6);
            },
            CdrError::InvalidUtf8(err) => {
                push_str(&mut out, "CdrDecoder::read_string: invalid utf8: ");
                let ghost head = out@;
                push_str(&mut out, from_utf8_error_text(err).as_str());
                assert(out@.subrange(0, head.len() as int) =~= head);
            },
            CdrError::InvalidUtf8Slice(err) => {
                push_str(&mut out, "CdrDecoder::read_str: invalid utf8: ");
                let ghost head = out@;
                push_str(&mut out, utf8_error_text(err).as_str());
                assert(out@.subrange(0, head.len() as int) =~= head);
            },
            CdrError::InvalidUtf16(err) => {
                push_str(&mut out, "CdrDecoder::read_wstring: invalid utf16: ");
                let ghost head = out@;
                push_str(&mut out, decode_utf16_error_text(err).as_str());
                assert(out@.subrange(0, head.len() as int) =~= head);
            },
            CdrError::InvalidUnicodeScalar { context, value } => {
                push_str(&mut out, context);
                push_str(&mut out, ": invalid unicode scalar value ");
                push_hex(&mut out, *value as u64, 0);
            },
            CdrError::InvalidBool(value) => {
                push_str(&mut out, "CdrDecoder::read_bool: invalid boolean discriminant ");
                push_digits(&mut out, *value as u64, 10);
            },
            CdrError::NonAsciiChar(value) => {
                push_str(&mut out, "CdrEncoder::write_char: non-ascii char ");
                push_str(&mut out, char_debug(*value).as_str());
            },
            CdrError::FixedArrayLength { expected, actual } => {
                push_str(
                    &mut out,
                    "CdrDecoder::read_array: failed to build fixed-size array, expected ",
                );
                push_digits(&mut out, *expected as u64, 10);
                push_str(&mut out, " items, got ");
                push_digits(&mut out, *actual as u64, 10);
            },
            CdrError::UnknownSchema(schema_name) => {
                push_str(&mut out, "unknown schema: ");
                push_str(&mut out, schema_name.as_str());
            },
        }
        let text = string_from_chars(out.as_slice());
        text
    }
}

/// Appends `n` in hexadecimal with a `0x` prefix, padded with zeros to at least `width`
/// characters in all.
fn push_hex(out: &mut Vec<char>, n: u64, width: usize)
    ensures
        final(out)@ == old(out)@ + hex_prefixed(n as nat, width as nat),
{
    let mut ds: Vec<char> = Vec::new();
    push_digits(&mut ds, n, 16);
    assert(ds@ =~= digits(n as nat, 16));
    out.push('0');
    out.push('x');
    let zeros: usize = if width > 2 && ds.len() < width - 2 {
        width - 2 - ds.len()
    } else {
        0
    };
    let ghost start = out@;
    let mut i: usize = 0;
    while i < zeros
        invariant
            i <= zeros,
            out@ == start + Seq::new(i as nat, |j: int| '0'),
        decreases zeros - i,
    {
        out.push('0');
        i = i + 1;
        assert(out@ =~= start + Seq::new(i as nat, |j: int| '0'));
    }
    out.append(&mut ds);
    assert(out@ =~= old(out)@ + hex_prefixed(n as nat, width as nat));
}

} // verus!
