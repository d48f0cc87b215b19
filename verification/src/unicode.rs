//! Conversions between text and its encodings that the standard library performs.

use crate::utf16::utf16_decode;
use std::char::DecodeUtf16Error;
use std::str::Utf8Error;
use std::string::FromUtf8Error;
use vstd::prelude::*;
use vstd::utf8::{decode_utf8, is_scalar, valid_utf8};

verus! {

/// `String::from_utf8`: the bytes become a string exactly when they are valid UTF-8, and the
/// string holds the characters they encode.
#[verifier::external_body]
pub(crate) fn string_from_utf8(bytes: Vec<u8>) -> (r: Result<String, FromUtf8Error>)
    ensures
        r is Ok <==> valid_utf8(bytes@),
        r matches Ok(s) ==> s@ == decode_utf8(bytes@),
{
    String::from_utf8(bytes)
}

/// `std::str::from_utf8`: the bytes are borrowed as a string slice exactly when they are valid
/// UTF-8, and the slice holds the characters they encode.
#[verifier::external_body]
pub(crate) fn str_from_utf8<'a>(bytes: &'a [u8]) -> (r: Result<&'a str, Utf8Error>)
    ensures
        r is Ok <==> valid_utf8(bytes@),
        r matches Ok(s) ==> s@ == decode_utf8(bytes@),
{
    std::str::from_utf8(bytes)
}

/// `char::from_u32`: a character exactly when the value is a Unicode scalar value, and then
/// the character with that value.
#[verifier::external_body]
pub(crate) fn char_from_u32(value: u32) -> (r: Option<char>)
    ensures
        r is Some <==> is_scalar(value),
        r matches Some(c) ==> c as u32 == value,
{
    char::from_u32(value)
}

/// `char::decode_utf16`, collected into a string: the characters of the code units, or an
/// error at the first unpaired surrogate.
#[verifier::external_body]
pub(crate) fn string_from_utf16(units: Vec<u16>) -> (r: Result<String, DecodeUtf16Error>)
    ensures
        r is Ok <==> utf16_decode(units@) is Some,
        r matches Ok(s) ==> utf16_decode(units@) == Some(s@),
{
    char::decode_utf16(units).collect()
}

/// `str::chars`, collected: the characters of a string slice.
#[verifier::external_body]
pub(crate) fn chars_of(s: &str) -> (r: Vec<char>)
    ensures
        r@ == s@,
{
    s.chars().collect()
}

/// Collecting characters into a `String`.
#[verifier::external_body]
pub(crate) fn string_from_chars(chars: &[char]) -> (r: String)
    ensures
        r@ == chars@,
{
    chars.iter().collect()
}

} // verus!
