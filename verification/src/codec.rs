//! Values that know how to read and write themselves, and whole-message entry points.

use crate::cdr_error::{CdrError, CdrResult};
use crate::decoder::{
    fixed_end, fixed_outcome, lemma_fixed_bytes, new_outcome, octets_end, octets_outcome,
    strip_nul, CdrDecoder,
};
use crate::encoder::{first_unit, with_string, with_uint, CdrEncoder};
use crate::encoding::{header_bytes, CdrEncoding, CdrRepresentation};
use crate::arrays::array_from_vec;
use crate::wire::{lemma_pow256_values, uint_value, Endianness};
use vstd::prelude::*;
use vstd::utf8::{char_u32_cast, decode_utf8, is_scalar, valid_utf8};

verus! {

/// A value that can be read from a CDR payload.
pub trait DecodeCdr: Sized + View {
    /// The value and the position after it that reading at `pos` gives, or `None` when the
    /// read fails.
    spec fn spec_decode(payload: Seq<u8>, pos: int, e: Endianness) -> Option<(Self::V, int)>;

    /// Whether a failed read at `pos` may give `err` and leave the position at `end`.
    spec fn spec_decode_fails(
        payload: Seq<u8>,
        pos: int,
        e: Endianness,
        err: CdrError,
        end: int,
    ) -> bool;

    fn decode_cdr(decoder: &mut CdrDecoder<'_>) -> (r: CdrResult<Self>)
        requires
            old(decoder).wf(),
        ensures
            final(decoder).continues(old(decoder)),
            match Self::spec_decode(
                old(decoder).payload@,
                old(decoder).pos as int,
                old(decoder).endianness,
            ) {
                Some((v, p)) => r matches Ok(x) && x@ == v && final(decoder).pos == p,
                None => r matches Err(x) && Self::spec_decode_fails(
                    old(decoder).payload@,
                    old(decoder).pos as int,
                    old(decoder).endianness,
                    x,
                    final(decoder).pos as int,
                ),
            },
    ;
}

/// A value that can be read from a CDR payload while borrowing from it.
pub trait BorrowDecodeCdr<'a>: Sized + View {
    /// The value and the position after it that reading at `pos` gives, or `None` when the
    /// read fails.
    spec fn spec_borrow_decode(payload: Seq<u8>, pos: int, e: Endianness) -> Option<
        (Self::V, int),
    >;

    /// Whether a failed read at `pos` may give `err` and leave the position at `end`.
    spec fn spec_borrow_decode_fails(
        payload: Seq<u8>,
        pos: int,
        e: Endianness,
        err: CdrError,
        end: int,
    ) -> bool;

    fn borrow_decode_cdr(decoder: &mut CdrDecoder<'a>) -> (r: CdrResult<Self>)
        requires
            old(decoder).wf(),
        ensures
            final(decoder).continues(old(decoder)),
            match Self::spec_borrow_decode(
                old(decoder).payload@,
                old(decoder).pos as int,
                old(decoder).endianness,
            ) {
                Some((v, p)) => r matches Ok(x) && x@ == v && final(decoder).pos == p,
                None => r matches Err(x) && Self::spec_borrow_decode_fails(
                    old(decoder).payload@,
                    old(decoder).pos as int,
                    old(decoder).endianness,
                    x,
                    final(decoder).pos as int,
                ),
            },
    ;
}

/// A value that can be written to a CDR buffer.
pub trait EncodeCdr: Sized + View {
    /// The buffer after writing `v` on top of `data`, or `None` when the value is rejected.
    spec fn spec_encode(v: Self::V, e: Endianness, data: Seq<u8>) -> Option<Seq<u8>>;

    /// Whether rejecting `v` on top of `data` may give `err` and leave the buffer as `after`.
    spec fn spec_encode_refuses(
        v: Self::V,
        e: Endianness,
        data: Seq<u8>,
        err: CdrError,
        after: Seq<u8>,
    ) -> bool;

    fn encode_cdr(&self, encoder: &mut CdrEncoder) -> (r: CdrResult<()>)
        ensures
            final(encoder).endianness == old(encoder).endianness,
            match Self::spec_encode(self@, old(encoder).endianness, old(encoder).data_raw@) {
                Some(d) => r is Ok && final(encoder).data_raw@ == d,
                None => r matches Err(x) && Self::spec_encode_refuses(
                    self@,
                    old(encoder).endianness,
                    old(encoder).data_raw@,
                    x,
                    final(encoder).data_raw@,
                ),
            },
    ;
}

/// A character carried as a 16-bit code unit.
#[derive(Debug, Clone, Copy, PartialEq, Eq, Structural)]
pub struct WChar16(pub char);

/// A character carried as a 32-bit scalar value.
#[derive(Debug, Clone, Copy, PartialEq, Eq, Structural)]
pub struct WChar32(pub char);

impl View for WChar16 {
    type V = WChar16;

    open spec fn view(&self) -> WChar16 {
        *self
    }
}

impl View for WChar32 {
    type V = WChar32;

    open spec fn view(&self) -> WChar32 {
        *self
    }
}

/// The bytes of a successful `w`-byte read and the position after them.
pub open spec fn fixed_read(payload: Seq<u8>, pos: int, w: int) -> Option<(Seq<u8>, int)> {
    match fixed_outcome(payload, pos, w) {
        Ok(b) => Some((b, fixed_end(payload, pos, w))),
        Err(_) => None,
    }
}

/// A failed `w`-byte read: its error and the aligned position it leaves.
pub open spec fn fixed_fails(payload: Seq<u8>, pos: int, w: int, err: CdrError, end: int) -> bool {
    &&& fixed_outcome(payload, pos, w) == Err::<Seq<u8>, CdrError>(err)
    &&& end == fixed_end(payload, pos, w)
}

/// The characters of a successfully read string and the position after it.
pub open spec fn string_read(payload: Seq<u8>, pos: int, e: Endianness) -> Option<(Seq<char>, int)> {
    match octets_outcome(payload, pos, e) {
        Ok(raw) => if valid_utf8(strip_nul(raw)) {
            Some((decode_utf8(strip_nul(raw)), octets_end(payload, pos, e)))
        } else {
            None
        },
        Err(_) => None,
    }
}

impl DecodeCdr for bool {
    open spec fn spec_decode(payload: Seq<u8>, pos: int, e: Endianness) -> Option<(bool, int)> {
        match fixed_read(payload, pos, 1) {
            Some((b, p)) => if b[0] == 0 {
                Some((false, p))
            } else if b[0] == 1 {
                Some((true, p))
            } else {
                None
            },
            None => None,
        }
    }

    open spec fn spec_decode_fails(
        payload: Seq<u8>,
        pos: int,
        e: Endianness,
        err: CdrError,
        end: int,
    ) -> bool {
        &&& end == fixed_end(payload, pos, 1)
        &&& match fixed_outcome(payload, pos, 1) {
            Err(x) => err == x,
            Ok(b) => err == CdrError::InvalidBool(b[0]),
        }
    }

    fn decode_cdr(decoder: &mut CdrDecoder<'_>) -> (r: CdrResult<Self>) {
        decoder.read_bool()
    }
}

impl EncodeCdr for bool {
    open spec fn spec_encode(v: bool, e: Endianness, data: Seq<u8>) -> Option<Seq<u8>> {
        Some(data.push(if v { 1u8 } else { 0u8 }))
    }

    open spec fn spec_encode_refuses(
        v: bool,
        e: Endianness,
        data: Seq<u8>,
        err: CdrError,
        after: Seq<u8>,
    ) -> bool {
        false
    }

    fn encode_cdr(&self, encoder: &mut CdrEncoder) -> (r: CdrResult<()>) {
        encoder.write_bool(*self);
        Ok(())
    }
}

impl DecodeCdr for u8 {
    open spec fn spec_decode(payload: Seq<u8>, pos: int, e: Endianness) -> Option<(u8, int)> {
        match fixed_read(payload, pos, 1) {
            Some((b, p)) => Some((uint_value(b, e) as u8, p)),
            None => None,
        }
    }

    open spec fn spec_decode_fails(
        payload: Seq<u8>,
        pos: int,
        e: Endianness,
        err: CdrError,
        end: int,
    ) -> bool {
        fixed_fails(payload, pos, 1, err, end)
    }

    fn decode_cdr(decoder: &mut CdrDecoder<'_>) -> (r: CdrResult<Self>) {
        decoder.read_u8()
    }
}

impl EncodeCdr for u8 {
    open spec fn spec_encode(v: u8, e: Endianness, data: Seq<u8>) -> Option<Seq<u8>> {
        Some(data.push(v))
    }

    open spec fn spec_encode_refuses(
        v: u8,
        e: Endianness,
        data: Seq<u8>,
        err: CdrError,
        after: Seq<u8>,
    ) -> bool {
        false
    }

    fn encode_cdr(&self, encoder: &mut CdrEncoder) -> (r: CdrResult<()>) {
        encoder.write_u8(*self);
        Ok(())
    }
}

impl DecodeCdr for u16 {
    open spec fn spec_decode(payload: Seq<u8>, pos: int, e: Endianness) -> Option<(u16, int)> {
        match fixed_read(payload, pos, 2) {
            Some((b, p)) => Some((uint_value(b, e) as u16, p)),
            None => None,
        }
    }

    open spec fn spec_decode_fails(
        payload: Seq<u8>,
        pos: int,
        e: Endianness,
        err: CdrError,
        end: int,
    ) -> bool {
        fixed_fails(payload, pos, 2, err, end)
    }

    fn decode_cdr(decoder: &mut CdrDecoder<'_>) -> (r: CdrResult<Self>) {
        decoder.read_u16()
    }
}

impl EncodeCdr for u16 {
    open spec fn spec_encode(v: u16, e: Endianness, data: Seq<u8>) -> Option<Seq<u8>> {
        Some(with_uint(data, 2, v as nat, e))
    }

    open spec fn spec_encode_refuses(
        v: u16,
        e: Endianness,
        data: Seq<u8>,
        err: CdrError,
        after: Seq<u8>,
    ) -> bool {
        false
    }

    fn encode_cdr(&self, encoder: &mut CdrEncoder) -> (r: CdrResult<()>) {
        encoder.write_u16(*self);
        Ok(())
    }
}

impl DecodeCdr for u32 {
    open spec fn spec_decode(payload: Seq<u8>, pos: int, e: Endianness) -> Option<(u32, int)> {
        match fixed_read(payload, pos, 4) {
            Some((b, p)) => Some((uint_value(b, e) as u32, p)),
            None => None,
        }
    }

    open spec fn spec_decode_fails(
        payload: Seq<u8>,
        pos: int,
        e: Endianness,
        err: CdrError,
        end: int,
    ) -> bool {
        fixed_fails(payload, pos, 4, err, end)
    }

    fn decode_cdr(decoder: &mut CdrDecoder<'_>) -> (r: CdrResult<Self>) {
        decoder.read_u32()
    }
}

impl EncodeCdr for u32 {
    open spec fn spec_encode(v: u32, e: Endianness, data: Seq<u8>) -> Option<Seq<u8>> {
        Some(with_uint(data, 4, v as nat, e))
    }

    open spec fn spec_encode_refuses(
        v: u32,
        e: Endianness,
        data: Seq<u8>,
        err: CdrError,
        after: Seq<u8>,
    ) -> bool {
        false
    }

    fn encode_cdr(&self, encoder: &mut CdrEncoder) -> (r: CdrResult<()>) {
        encoder.write_u32(*self);
        Ok(())
    }
}

impl DecodeCdr for u64 {
    open spec fn spec_decode(payload: Seq<u8>, pos: int, e: Endianness) -> Option<(u64, int)> {
        match fixed_read(payload, pos, 8) {
            Some((b, p)) => Some((uint_value(b, e) as u64, p)),
            None => None,
        }
    }

    open spec fn spec_decode_fails(
        payload: Seq<u8>,
        pos: int,
        e: Endianness,
        err: CdrError,
        end: int,
    ) -> bool {
        fixed_fails(payload, pos, 8, err, end)
    }

    fn decode_cdr(decoder: &mut CdrDecoder<'_>) -> (r: CdrResult<Self>) {
        decoder.read_u64()
    }
}

impl EncodeCdr for u64 {
    open spec fn spec_encode(v: u64, e: Endianness, data: Seq<u8>) -> Option<Seq<u8>> {
        Some(with_uint(data, 8, v as nat, e))
    }

    open spec fn spec_encode_refuses(
        v: u64,
        e: Endianness,
        data: Seq<u8>,
        err: CdrError,
        after: Seq<u8>,
    ) -> bool {
        false
    }

    fn encode_cdr(&self, encoder: &mut CdrEncoder) -> (r: CdrResult<()>) {
        encoder.write_u64(*self);
        Ok(())
    }
}

impl DecodeCdr for i8 {
    open spec fn spec_decode(payload: Seq<u8>, pos: int, e: Endianness) -> Option<(i8, int)> {
        match fixed_read(payload, pos, 1) {
            Some((b, p)) => Some(((uint_value(b, e) as u8) as i8, p)),
            None => None,
        }
    }

    open spec fn spec_decode_fails(
        payload: Seq<u8>,
        pos: int,
        e: Endianness,
        err: CdrError,
        end: int,
    ) -> bool {
        fixed_fails(payload, pos, 1, err, end)
    }

    fn decode_cdr(decoder: &mut CdrDecoder<'_>) -> (r: CdrResult<Self>) {
        decoder.read_i8()
    }
}

impl EncodeCdr for i8 {
    open spec fn spec_encode(v: i8, e: Endianness, data: Seq<u8>) -> Option<Seq<u8>> {
        Some(data.push(v as u8))
    }

    open spec fn spec_encode_refuses(
        v: i8,
        e: Endianness,
        data: Seq<u8>,
        err: CdrError,
        after: Seq<u8>,
    ) -> bool {
        false
    }

    fn encode_cdr(&self, encoder: &mut CdrEncoder) -> (r: CdrResult<()>) {
        encoder.write_i8(*self);
        Ok(())
    }
}

impl DecodeCdr for i16 {
    open spec fn spec_decode(payload: Seq<u8>, pos: int, e: Endianness) -> Option<(i16, int)> {
        match fixed_read(payload, pos, 2) {
            Some((b, p)) => Some(((uint_value(b, e) as u16) as i16, p)),
            None => None,
        }
    }

    open spec fn spec_decode_fails(
        payload: Seq<u8>,
        pos: int,
        e: Endianness,
        err: CdrError,
        end: int,
    ) -> bool {
        fixed_fails(payload, pos, 2, err, end)
    }

    fn decode_cdr(decoder: &mut CdrDecoder<'_>) -> (r: CdrResult<Self>) {
        decoder.read_i16()
    }
}

impl EncodeCdr for i16 {
    open spec fn spec_encode(v: i16, e: Endianness, data: Seq<u8>) -> Option<Seq<u8>> {
        Some(with_uint(data, 2, (v as u16) as nat, e))
    }

    open spec fn spec_encode_refuses(
        v: i16,
        e: Endianness,
        data: Seq<u8>,
        err: CdrError,
        after: Seq<u8>,
    ) -> bool {
        false
    }

    fn encode_cdr(&self, encoder: &mut CdrEncoder) -> (r: CdrResult<()>) {
        encoder.write_i16(*self);
        Ok(())
    }
}

impl DecodeCdr for i32 {
    open spec fn spec_decode(payload: Seq<u8>, pos: int, e: Endianness) -> Option<(i32, int)> {
        match fixed_read(payload, pos, 4) {
            Some((b, p)) => Some(((uint_value(b, e) as u32) as i32, p)),
            None => None,
        }
    }

    open spec fn spec_decode_fails(
        payload: Seq<u8>,
        pos: int,
        e: Endianness,
        err: CdrError,
        end: int,
    ) -> bool {
        fixed_fails(payload, pos, 4, err, end)
    }

    fn decode_cdr(decoder: &mut CdrDecoder<'_>) -> (r: CdrResult<Self>) {
        decoder.read_i32()
    }
}

impl EncodeCdr for i32 {
    open spec fn spec_encode(v: i32, e: Endianness, data: Seq<u8>) -> Option<Seq<u8>> {
        Some(with_uint(data, 4, (v as u32) as nat, e))
    }

    open spec fn spec_encode_refuses(
        v: i32,
        e: Endianness,
        data: Seq<u8>,
        err: CdrError,
        after: Seq<u8>,
    ) -> bool {
        false
    }

    fn encode_cdr(&self, encoder: &mut CdrEncoder) -> (r: CdrResult<()>) {
        encoder.write_i32(*self);
        Ok(())
    }
}

impl DecodeCdr for i64 {
    open spec fn spec_decode(payload: Seq<u8>, pos: int, e: Endianness) -> Option<(i64, int)> {
        match fixed_read(payload, pos, 8) {
            Some((b, p)) => Some(((uint_value(b, e) as u64) as i64, p)),
            None => None,
        }
    }

    open spec fn spec_decode_fails(
        payload: Seq<u8>,
        pos: int,
        e: Endianness,
        err: CdrError,
        end: int,
    ) -> bool {
        fixed_fails(payload, pos, 8, err, end)
    }

    fn decode_cdr(decoder: &mut CdrDecoder<'_>) -> (r: CdrResult<Self>) {
        decoder.read_i64()
    }
}

impl EncodeCdr for i64 {
    open spec fn spec_encode(v: i64, e: Endianness, data: Seq<u8>) -> Option<Seq<u8>> {
        Some(with_uint(data, 8, (v as u64) as nat, e))
    }

    open spec fn spec_encode_refuses(
        v: i64,
        e: Endianness,
        data: Seq<u8>,
        err: CdrError,
        after: Seq<u8>,
    ) -> bool {
        false
    }

    fn encode_cdr(&self, encoder: &mut CdrEncoder) -> (r: CdrResult<()>) {
        encoder.write_i64(*self);
        Ok(())
    }
}

impl DecodeCdr for char {
    open spec fn spec_decode(payload: Seq<u8>, pos: int, e: Endianness) -> Option<(char, int)> {
        match fixed_read(payload, pos, 1) {
            Some((b, p)) => Some((b[0] as char, p)),
            None => None,
        }
    }

    open spec fn spec_decode_fails(
        payload: Seq<u8>,
        pos: int,
        e: Endianness,
        err: CdrError,
        end: int,
    ) -> bool {
        fixed_fails(payload, pos, 1, err, end)
    }

    fn decode_cdr(decoder: &mut CdrDecoder<'_>) -> (r: CdrResult<Self>) {
        decoder.read_char()
    }
}

impl EncodeCdr for char {
    open spec fn spec_encode(v: char, e: Endianness, data: Seq<u8>) -> Option<Seq<u8>> {
        if (v as u32) < 0x80 {
            Some(data.push(v as u8))
        } else {
            None
        }
    }

    open spec fn spec_encode_refuses(
        v: char,
        e: Endianness,
        data: Seq<u8>,
        err: CdrError,
        after: Seq<u8>,
    ) -> bool {
        &&& (v as u32) >= 0x80
        &&& err == CdrError::NonAsciiChar(v)
        &&& after == data
    }

    fn encode_cdr(&self, encoder: &mut CdrEncoder) -> (r: CdrResult<()>) {
        encoder.write_char(*self)
    }
}

impl DecodeCdr for String {
    open spec fn spec_decode(payload: Seq<u8>, pos: int, e: Endianness) -> Option<(Seq<char>, int)> {
        string_read(payload, pos, e)
    }

    open spec fn spec_decode_fails(
        payload: Seq<u8>,
        pos: int,
        e: Endianness,
        err: CdrError,
        end: int,
    ) -> bool {
        &&& end == octets_end(payload, pos, e)
        &&& match octets_outcome(payload, pos, e) {
            Err(x) => err == x,
            Ok(_) => err is InvalidUtf8,
        }
    }

    fn decode_cdr(decoder: &mut CdrDecoder<'_>) -> (r: CdrResult<Self>) {
        decoder.read_string()
    }
}

impl<'a> BorrowDecodeCdr<'a> for &'a str {
    open spec fn spec_borrow_decode(payload: Seq<u8>, pos: int, e: Endianness) -> Option<
        (Seq<char>, int),
    > {
        string_read(payload, pos, e)
    }

    open spec fn spec_borrow_decode_fails(
        payload: Seq<u8>,
        pos: int,
        e: Endianness,
        err: CdrError,
        end: int,
    ) -> bool {
        &&& end == octets_end(payload, pos, e)
        &&& match octets_outcome(payload, pos, e) {
            Err(x) => err == x,
            Ok(_) => err is InvalidUtf8Slice,
        }
    }

    fn borrow_decode_cdr(decoder: &mut CdrDecoder<'a>) -> (r: CdrResult<Self>) {
        decoder.read_str()
    }
}

impl EncodeCdr for String {
    open spec fn spec_encode(v: Seq<char>, e: Endianness, data: Seq<u8>) -> Option<Seq<u8>> {
        Some(with_string(data, v, e))
    }

    open spec fn spec_encode_refuses(
        v: Seq<char>,
        e: Endianness,
        data: Seq<u8>,
        err: CdrError,
        after: Seq<u8>,
    ) -> bool {
        false
    }

    fn encode_cdr(&self, encoder: &mut CdrEncoder) -> (r: CdrResult<()>) {
        encoder.write_string(self.as_str());
        Ok(())
    }
}

impl DecodeCdr for WChar16 {
    open spec fn spec_decode(payload: Seq<u8>, pos: int, e: Endianness) -> Option<(WChar16, int)> {
        match fixed_read(payload, pos, 2) {
            Some((b, p)) => {
                let v = (uint_value(b, e) as u16) as u32;
                if is_scalar(v) {
                    Some((WChar16(v as char), p))
                } else {
                    None
                }
            },
            None => None,
        }
    }

    open spec fn spec_decode_fails(
        payload: Seq<u8>,
        pos: int,
        e: Endianness,
        err: CdrError,
        end: int,
    ) -> bool {
        &&& end == fixed_end(payload, pos, 2)
        &&& match fixed_outcome(payload, pos, 2) {
            Err(x) => err == x,
            Ok(b) => err == CdrError::InvalidUnicodeScalar {
                context: "CdrDecoder::read_wchar_u16",
                value: (uint_value(b, e) as u16) as u32,
            },
        }
    }

    fn decode_cdr(decoder: &mut CdrDecoder<'_>) -> (r: CdrResult<Self>) {
        match decoder.read_wchar_u16() {
            Ok(c) => {
                proof {
                    char_u32_cast(c, c as u32);
                }
                Ok(WChar16(c))
            },
            Err(e) => Err(e),
        }
    }
}

impl EncodeCdr for WChar16 {
    open spec fn spec_encode(v: WChar16, e: Endianness, data: Seq<u8>) -> Option<Seq<u8>> {
        Some(with_uint(data, 2, first_unit(v.0) as nat, e))
    }

    open spec fn spec_encode_refuses(
        v: WChar16,
        e: Endianness,
        data: Seq<u8>,
        err: CdrError,
        after: Seq<u8>,
    ) -> bool {
        false
    }

    fn encode_cdr(&self, encoder: &mut CdrEncoder) -> (r: CdrResult<()>) {
        encoder.write_wchar16(self.0);
        Ok(())
    }
}

impl DecodeCdr for WChar32 {
    open spec fn spec_decode(payload: Seq<u8>, pos: int, e: Endianness) -> Option<(WChar32, int)> {
        match fixed_read(payload, pos, 4) {
            Some((b, p)) => {
                let v = uint_value(b, e) as u32;
                if is_scalar(v) {
                    Some((WChar32(v as char), p))
                } else {
                    None
                }
            },
            None => None,
        }
    }

    open spec fn spec_decode_fails(
        payload: Seq<u8>,
        pos: int,
        e: Endianness,
        err: CdrError,
        end: int,
    ) -> bool {
        &&& end == fixed_end(payload, pos, 4)
        &&& match fixed_outcome(payload, pos, 4) {
            Err(x) => err == x,
            Ok(b) => err == CdrError::InvalidUnicodeScalar {
                context: "CdrDecoder::read_wchar_u32",
                value: uint_value(b, e) as u32,
            },
        }
    }

    fn decode_cdr(decoder: &mut CdrDecoder<'_>) -> (r: CdrResult<Self>) {
        match decoder.read_wchar_u32() {
            Ok(c) => {
                proof {
                    char_u32_cast(c, c as u32);
                }
                Ok(WChar32(c))
            },
            Err(e) => Err(e),
        }
    }
}

impl EncodeCdr for WChar32 {
    open spec fn spec_encode(v: WChar32, e: Endianness, data: Seq<u8>) -> Option<Seq<u8>> {
        Some(with_uint(data, 4, (v.0 as u32) as nat, e))
    }

    open spec fn spec_encode_refuses(
        v: WChar32,
        e: Endianness,
        data: Seq<u8>,
        err: CdrError,
        after: Seq<u8>,
    ) -> bool {
        false
    }

    fn encode_cdr(&self, encoder: &mut CdrEncoder) -> (r: CdrResult<()>) {
        encoder.write_wchar32(self.0);
        Ok(())
    }
}

/// The values and the position after them that reading `n` values of `T` one after another
/// at `pos` gives, or `None` when one of the reads fails.
pub open spec fn decode_many<T: DecodeCdr>(payload: Seq<u8>, pos: int, e: Endianness, n: nat) -> Option<
    (Seq<T::V>, int),
>
    decreases n,
{
    if n == 0 {
        Some((Seq::empty(), pos))
    } else {
        match decode_many::<T>(payload, pos, e, (n - 1) as nat) {
            Some((vs, p)) => match T::spec_decode(payload, p, e) {
                Some((v, q)) => Some((vs.push(v), q)),
                None => None,
            },
            None => None,
        }
    }
}

/// Like `decode_many`, for values read while borrowing from the payload.
pub open spec fn borrow_decode_many<'a, T: BorrowDecodeCdr<'a>>(
    payload: Seq<u8>,
    pos: int,
    e: Endianness,
    n: nat,
) -> Option<(Seq<T::V>, int)>
    decreases n,
{
    if n == 0 {
        Some((Seq::empty(), pos))
    } else {
        match borrow_decode_many::<T>(payload, pos, e, (n - 1) as nat) {
            Some((vs, p)) => match T::spec_borrow_decode(payload, p, e) {
                Some((v, q)) => Some((vs.push(v), q)),
                None => None,
            },
            None => None,
        }
    }
}

/// The views of the items.
pub open spec fn views<T: View>(items: Seq<T>) -> Seq<T::V> {
    items.map_values(|x: T| x@)
}

/// The buffer after writing the values `vs` one after another, or `None` when one of them is
/// rejected.
pub open spec fn encode_many<T: EncodeCdr>(vs: Seq<T::V>, e: Endianness, data: Seq<u8>) -> Option<
    Seq<u8>,
>
    decreases vs.len(),
{
    if vs.len() == 0 {
        Some(data)
    } else {
        match encode_many::<T>(vs.drop_last(), e, data) {
            Some(d) => T::spec_encode(vs.last(), e, d),
            None => None,
        }
    }
}

/// Whether reading `n` values of `T` at `pos` fails with `err`, leaving the position at `end`:
/// the values before the first one that cannot be read are read, and nothing after it is.
pub open spec fn decode_many_fails<T: DecodeCdr>(
    payload: Seq<u8>,
    pos: int,
    e: Endianness,
    n: nat,
    err: CdrError,
    end: int,
) -> bool
    decreases n,
{
    if n == 0 {
        false
    } else {
        match decode_many::<T>(payload, pos, e, (n - 1) as nat) {
            Some((_, p)) => T::spec_decode(payload, p, e) is None && T::spec_decode_fails(
                payload,
                p,
                e,
                err,
                end,
            ),
            None => decode_many_fails::<T>(payload, pos, e, (n - 1) as nat, err, end),
        }
    }
}

/// Like `decode_many_fails`, for values read while borrowing from the payload.
pub open spec fn borrow_decode_many_fails<'a, T: BorrowDecodeCdr<'a>>(
    payload: Seq<u8>,
    pos: int,
    e: Endianness,
    n: nat,
    err: CdrError,
    end: int,
) -> bool
    decreases n,
{
    if n == 0 {
        false
    } else {
        match borrow_decode_many::<T>(payload, pos, e, (n - 1) as nat) {
            Some((_, p)) => T::spec_borrow_decode(payload, p, e) is None
                && T::spec_borrow_decode_fails(payload, p, e, err, end),
            None => borrow_decode_many_fails::<T>(payload, pos, e, (n - 1) as nat, err, end),
        }
    }
}

/// Whether writing the values `vs` is rejected with `err`, leaving the buffer as `after`: the
/// values before the first rejected one are written, and nothing after it is.
pub open spec fn encode_many_refuses<T: EncodeCdr>(
    vs: Seq<T::V>,
    e: Endianness,
    data: Seq<u8>,
    err: CdrError,
    after: Seq<u8>,
) -> bool
    decreases vs.len(),
{
    if vs.len() == 0 {
        false
    } else {
        match encode_many::<T>(vs.drop_last(), e, data) {
            Some(d) => T::spec_encode(vs.last(), e, d) is None && T::spec_encode_refuses(
                vs.last(),
                e,
                d,
                err,
                after,
            ),
            None => encode_many_refuses::<T>(vs.drop_last(), e, data, err, after),
        }
    }
}

/// A failure among the first `k` values is the failure of all `m >= k` of them.
pub proof fn lemma_decode_many_fails_with<T: DecodeCdr>(
    payload: Seq<u8>,
    pos: int,
    e: Endianness,
    k: nat,
    m: nat,
    err: CdrError,
    end: int,
)
    requires
        k <= m,
        decode_many::<T>(payload, pos, e, k) is None,
        decode_many_fails::<T>(payload, pos, e, k, err, end),
    ensures
        decode_many_fails::<T>(payload, pos, e, m, err, end),
    decreases m,
{
    if k < m {
        lemma_decode_many_fails::<T>(payload, pos, e, k, (m - 1) as nat);
        lemma_decode_many_fails_with::<T>(payload, pos, e, k, (m - 1) as nat, err, end);
    }
}

/// A failure among the first `k` borrowed values is the failure of all `m >= k` of them.
pub proof fn lemma_borrow_decode_many_fails_with<'a, T: BorrowDecodeCdr<'a>>(
    payload: Seq<u8>,
    pos: int,
    e: Endianness,
    k: nat,
    m: nat,
    err: CdrError,
    end: int,
)
    requires
        k <= m,
        borrow_decode_many::<T>(payload, pos, e, k) is None,
        borrow_decode_many_fails::<T>(payload, pos, e, k, err, end),
    ensures
        borrow_decode_many_fails::<T>(payload, pos, e, m, err, end),
    decreases m,
{
    if k < m {
        lemma_borrow_decode_many_fails::<T>(payload, pos, e, k, (m - 1) as nat);
        lemma_borrow_decode_many_fails_with::<T>(payload, pos, e, k, (m - 1) as nat, err, end);
    }
}

/// A rejection among the first `k` values is the rejection of all of them.
pub proof fn lemma_encode_many_refuses_with<T: EncodeCdr>(
    vs: Seq<T::V>,
    e: Endianness,
    data: Seq<u8>,
    k: int,
    err: CdrError,
    after: Seq<u8>,
)
    requires
        0 <= k <= vs.len(),
        encode_many::<T>(vs.subrange(0, k), e, data) is None,
        encode_many_refuses::<T>(vs.subrange(0, k), e, data, err, after),
    ensures
        encode_many_refuses::<T>(vs, e, data, err, after),
    decreases vs.len() - k,
{
    if k < vs.len() {
        let next = vs.subrange(0, k + 1);
        assert(next.drop_last() =~= vs.subrange(0, k));
        lemma_encode_many_refuses_with::<T>(vs, e, data, k + 1, err, after);
    } else {
        assert(vs.subrange(0, k) =~= vs);
    }
}

/// Once reading a prefix of the values fails, reading more of them fails too.
pub proof fn lemma_decode_many_fails<T: DecodeCdr>(
    payload: Seq<u8>,
    pos: int,
    e: Endianness,
    k: nat,
    m: nat,
)
    requires
        k <= m,
        decode_many::<T>(payload, pos, e, k) is None,
    ensures
        decode_many::<T>(payload, pos, e, m) is None,
    decreases m,
{
    if k < m {
        lemma_decode_many_fails::<T>(payload, pos, e, k, (m - 1) as nat);
    }
}

/// Once reading a prefix of the borrowed values fails, reading more of them fails too.
pub proof fn lemma_borrow_decode_many_fails<'a, T: BorrowDecodeCdr<'a>>(
    payload: Seq<u8>,
    pos: int,
    e: Endianness,
    k: nat,
    m: nat,
)
    requires
        k <= m,
        borrow_decode_many::<T>(payload, pos, e, k) is None,
    ensures
        borrow_decode_many::<T>(payload, pos, e, m) is None,
    decreases m,
{
    if k < m {
        lemma_borrow_decode_many_fails::<T>(payload, pos, e, k, (m - 1) as nat);
    }
}

pub proof fn lemma_decode_many_len<T: DecodeCdr>(payload: Seq<u8>, pos: int, e: Endianness, n: nat)
    ensures
        decode_many::<T>(payload, pos, e, n) matches Some((vs, _)) ==> vs.len() == n,
    decreases n,
{
    if n > 0 {
        lemma_decode_many_len::<T>(payload, pos, e, (n - 1) as nat);
    }
}

pub proof fn lemma_borrow_decode_many_len<'a, T: BorrowDecodeCdr<'a>>(
    payload: Seq<u8>,
    pos: int,
    e: Endianness,
    n: nat,
)
    ensures
        borrow_decode_many::<T>(payload, pos, e, n) matches Some((vs, _)) ==> vs.len() == n,
    decreases n,
{
    if n > 0 {
        lemma_borrow_decode_many_len::<T>(payload, pos, e, (n - 1) as nat);
    }
}

/// Once writing a prefix of the values is rejected, writing all of them is rejected too.
pub proof fn lemma_encode_many_fails<T: EncodeCdr>(vs: Seq<T::V>, e: Endianness, data: Seq<u8>, k: int)
    requires
        0 <= k <= vs.len(),
        encode_many::<T>(vs.subrange(0, k), e, data) is None,
    ensures
        encode_many::<T>(vs, e, data) is None,
    decreases vs.len() - k,
{
    if k < vs.len() {
        let next = vs.subrange(0, k + 1);
        assert(next.drop_last() =~= vs.subrange(0, k));
        lemma_encode_many_fails::<T>(vs, e, data, k + 1);
    } else {
        assert(vs.subrange(0, k) =~= vs);
    }
}

impl<'a> CdrDecoder<'a> {
    /// Reads `n` values of `T` one after another.
    fn read_items<T: DecodeCdr>(&mut self, n: usize) -> (r: CdrResult<Vec<T>>)
        requires
            old(self).wf(),
        ensures
            final(self).continues(old(self)),
            match decode_many::<T>(
                old(self).payload@,
                old(self).pos as int,
                old(self).endianness,
                n as nat,
            ) {
                Some((vs, p)) => r matches Ok(items) && views(items@) == vs && final(self).pos == p,
                None => r matches Err(x) && decode_many_fails::<T>(
                    old(self).payload@,
                    old(self).pos as int,
                    old(self).endianness,
                    n as nat,
                    x,
                    final(self).pos as int,
                ),
            },
    {
        let ghost start = *self;
        let mut items: Vec<T> = Vec::with_capacity(n);
        let mut i: usize = 0;
        while i < n
            invariant
                i <= n,
                start == *old(self),
                self.continues(&start),
                decode_many::<T>(start.payload@, start.pos as int, start.endianness, i as nat)
                    == Some((views(items@), self.pos as int)),
            decreases n - i,
        {
            let item = match T::decode_cdr(self) {
                Ok(item) => item,
                Err(err) => {
                    proof {
                        lemma_decode_many_fails::<T>(
                            start.payload@,
                            start.pos as int,
                            start.endianness,
                            (i + 1) as nat,
                            n as nat,
                        );
                        lemma_decode_many_fails_with::<T>(
                            start.payload@,
                            start.pos as int,
                            start.endianness,
                            (i + 1) as nat,
                            n as nat,
                            err,
                            self.pos as int,
                        );
                    }
                    return Err(err);
                },
            };
            let ghost before = items@;
            items.push(item);
            i = i + 1;
            assert(views(items@) =~= views(before).push(item@));
        }
        Ok(items)
    }

    /// Reads `n` values of `T` one after another, borrowing from the payload.
    fn read_borrow_items<T: BorrowDecodeCdr<'a>>(&mut self, n: usize) -> (r: CdrResult<Vec<T>>)
        requires
            old(self).wf(),
        ensures
            final(self).continues(old(self)),
            match borrow_decode_many::<T>(
                old(self).payload@,
                old(self).pos as int,
                old(self).endianness,
                n as nat,
            ) {
                Some((vs, p)) => r matches Ok(items) && views(items@) == vs && final(self).pos == p,
                None => r matches Err(x) && borrow_decode_many_fails::<T>(
                    old(self).payload@,
                    old(self).pos as int,
                    old(self).endianness,
                    n as nat,
                    x,
                    final(self).pos as int,
                ),
            },
    {
        let ghost start = *self;
        let mut items: Vec<T> = Vec::with_capacity(n);
        let mut i: usize = 0;
        while i < n
            invariant
                i <= n,
                start == *old(self),
                self.continues(&start),
                borrow_decode_many::<T>(start.payload@, start.pos as int, start.endianness, i as nat)
                    == Some((views(items@), self.pos as int)),
            decreases n - i,
        {
            let item = match T::borrow_decode_cdr(self) {
                Ok(item) => item,
                Err(err) => {
                    proof {
                        lemma_borrow_decode_many_fails::<T>(
                            start.payload@,
                            start.pos as int,
                            start.endianness,
                            (i + 1) as nat,
                            n as nat,
                        );
                        lemma_borrow_decode_many_fails_with::<T>(
                            start.payload@,
                            start.pos as int,
                            start.endianness,
                            (i + 1) as nat,
                            n as nat,
                            err,
                            self.pos as int,
                        );
                    }
                    return Err(err);
                },
            };
            let ghost before = items@;
            items.push(item);
            i = i + 1;
            assert(views(items@) =~= views(before).push(item@));
        }
        Ok(items)
    }

    /// A `u32` count, then that many values of `T`.
    pub fn read_seq<T>(&mut self) -> (r: CdrResult<Vec<T>>) where T: DecodeCdr
        requires
            old(self).wf(),
        ensures
            final(self).continues(old(self)),
            match fixed_outcome(old(self).payload@, old(self).pos as int, 4) {
                Err(err) => r == Err::<Vec<T>, CdrError>(err),
                Ok(lb) => match decode_many::<T>(
                    old(self).payload@,
                    fixed_end(old(self).payload@, old(self).pos as int, 4),
                    old(self).endianness,
                    uint_value(lb, old(self).endianness),
                ) {
                    Some((vs, p)) => r matches Ok(items) && views(items@) == vs && final(self).pos
                        == p,
                    None => r matches Err(x) && decode_many_fails::<T>(
                        old(self).payload@,
                        fixed_end(old(self).payload@, old(self).pos as int, 4),
                        old(self).endianness,
                        uint_value(lb, old(self).endianness),
                        x,
                        final(self).pos as int,
                    ),
                },
            },
    {
        proof {
            lemma_fixed_bytes(self.payload@, self.pos as int, 4, self.endianness);
            lemma_pow256_values();
        }
        let length = self.read_u32()? as usize;
        self.read_items(length)
    }

    /// Like `read_seq`, for values that borrow from the payload.
    pub fn read_borrow_seq<T>(&mut self) -> (r: CdrResult<Vec<T>>) where T: BorrowDecodeCdr<'a>
        requires
            old(self).wf(),
        ensures
            final(self).continues(old(self)),
            match fixed_outcome(old(self).payload@, old(self).pos as int, 4) {
                Err(err) => r == Err::<Vec<T>, CdrError>(err),
                Ok(lb) => match borrow_decode_many::<T>(
                    old(self).payload@,
                    fixed_end(old(self).payload@, old(self).pos as int, 4),
                    old(self).endianness,
                    uint_value(lb, old(self).endianness),
                ) {
                    Some((vs, p)) => r matches Ok(items) && views(items@) == vs && final(self).pos
                        == p,
                    None => r matches Err(x) && borrow_decode_many_fails::<T>(
                        old(self).payload@,
                        fixed_end(old(self).payload@, old(self).pos as int, 4),
                        old(self).endianness,
                        uint_value(lb, old(self).endianness),
                        x,
                        final(self).pos as int,
                    ),
                },
            },
    {
        proof {
            lemma_fixed_bytes(self.payload@, self.pos as int, 4, self.endianness);
            lemma_pow256_values();
        }
        let length = self.read_u32()? as usize;
        self.read_borrow_items(length)
    }

    /// Exactly `N` values of `T`, without a count.
    pub fn read_array<T, const N: usize>(&mut self) -> (r: CdrResult<[T; N]>) where T: DecodeCdr
        requires
            old(self).wf(),
        ensures
            final(self).continues(old(self)),
            match decode_many::<T>(
                old(self).payload@,
                old(self).pos as int,
                old(self).endianness,
                N as nat,
            ) {
                Some((vs, p)) => r matches Ok(items) && views(items@) == vs && final(self).pos == p,
                None => r matches Err(x) && decode_many_fails::<T>(
                    old(self).payload@,
                    old(self).pos as int,
                    old(self).endianness,
                    N as nat,
                    x,
                    final(self).pos as int,
                ),
            },
    {
        let items = self.read_items::<T>(N)?;
        proof {
            lemma_decode_many_len::<T>(old(self).payload@, old(self).pos as int, old(self).endianness, N as nat);
        }
        match array_from_vec::<T, N>(items) {
            Ok(array) => Ok(array),
            Err(items) => Err(CdrError::FixedArrayLength { expected: N, actual: items.len() }),
        }
    }

    /// Exactly `N` values of `T` that borrow from the payload, without a count.
    pub fn read_borrow_array<T, const N: usize>(&mut self) -> (r: CdrResult<[T; N]>) where
        T: BorrowDecodeCdr<'a>,
        requires
            old(self).wf(),
        ensures
            final(self).continues(old(self)),
            match borrow_decode_many::<T>(
                old(self).payload@,
                old(self).pos as int,
                old(self).endianness,
                N as nat,
            ) {
                Some((vs, p)) => r matches Ok(items) && views(items@) == vs && final(self).pos == p,
                None => r matches Err(x) && borrow_decode_many_fails::<T>(
                    old(self).payload@,
                    old(self).pos as int,
                    old(self).endianness,
                    N as nat,
                    x,
                    final(self).pos as int,
                ),
            },
    {
        let items = self.read_borrow_items::<T>(N)?;
        proof {
            lemma_borrow_decode_many_len::<T>(
                old(self).payload@,
                old(self).pos as int,
                old(self).endianness,
                N as nat,
            );
        }
        match array_from_vec::<T, N>(items) {
            Ok(array) => Ok(array),
            Err(items) => Err(CdrError::FixedArrayLength { expected: N, actual: items.len() }),
        }
    }
}

impl CdrEncoder {
    fn write_items<T: EncodeCdr>(&mut self, value: &[T]) -> (r: CdrResult<()>)
        ensures
            final(self).endianness == old(self).endianness,
            match encode_many::<T>(views(value@), old(self).endianness, old(self).data_raw@) {
                Some(d) => r is Ok && final(self).data_raw@ == d,
                None => r matches Err(x) && encode_many_refuses::<T>(
                    views(value@),
                    old(self).endianness,
                    old(self).data_raw@,
                    x,
                    final(self).data_raw@,
                ),
            },
    {
        let ghost start = self.data_raw@;
        let mut i: usize = 0;
        while i < value.len()
            invariant
                i <= value@.len(),
                self.endianness == old(self).endianness,
                start == old(self).data_raw@,
                encode_many::<T>(views(value@.subrange(0, i as int)), self.endianness, start) == Some(
                    self.data_raw@,
                ),
            decreases value@.len() - i,
        {
            let ghost before = self.data_raw@;
            assert(views(value@.subrange(0, i + 1)).drop_last() =~= views(
                value@.subrange(0, i as int),
            ));
            match value[i].encode_cdr(self) {
                Ok(()) => {},
                Err(err) => {
                    proof {
                        assert(views(value@.subrange(0, i + 1)) =~= views(value@).subrange(0, i + 1));
                        lemma_encode_many_fails::<T>(views(value@), self.endianness, start, i + 1);
                        lemma_encode_many_refuses_with::<T>(
                            views(value@),
                            self.endianness,
                            start,
                            i + 1,
                            err,
                            self.data_raw@,
                        );
                    }
                    return Err(err);
                },
            }
            i = i + 1;
        }
        assert(value@.subrange(0, value@.len() as int) =~= value@);
        Ok(())
    }

    /// A `u32` count (the length modulo 2^32), then the values.
    pub fn write_seq<T: EncodeCdr>(&mut self, value: &[T]) -> (r: CdrResult<()>)
        ensures
            final(self).endianness == old(self).endianness,
            match encode_many::<T>(
                views(value@),
                old(self).endianness,
                with_uint(old(self).data_raw@, 4, (value@.len() as u32) as nat, old(self).endianness),
            ) {
                Some(d) => r is Ok && final(self).data_raw@ == d,
                None => r matches Err(x) && encode_many_refuses::<T>(
                    views(value@),
                    old(self).endianness,
                    with_uint(old(self).data_raw@, 4, (value@.len() as u32) as nat, old(self).endianness),
                    x,
                    final(self).data_raw@,
                ),
            },
    {
        self.write_u32(value.len() as u32);
        self.write_items(value)
    }

    /// The `N` values, without a count.
    pub fn write_array<T: EncodeCdr, const N: usize>(&mut self, value: &[T; N]) -> (r: CdrResult<()>)
        ensures
            final(self).endianness == old(self).endianness,
            match encode_many::<T>(views(value@), old(self).endianness, old(self).data_raw@) {
                Some(d) => r is Ok && final(self).data_raw@ == d,
                None => r matches Err(x) && encode_many_refuses::<T>(
                    views(value@),
                    old(self).endianness,
                    old(self).data_raw@,
                    x,
                    final(self).data_raw@,
                ),
            },
    {
        self.write_items(value.as_slice())
    }
}

/// Reads one `T` from the start of the payload of a complete CDR message.
pub fn decode_from_bytes<T: DecodeCdr>(bytes: &[u8]) -> (r: CdrResult<T>)
    requires
        bytes@.len() <= isize::MAX,
    ensures
        match new_outcome(bytes@) {
            Err(err) => r == Err::<T, CdrError>(err),
            Ok(e) => match T::spec_decode(bytes@.subrange(4, bytes@.len() as int), 0, e) {
                Some((v, _)) => r matches Ok(x) && x@ == v,
                None => r matches Err(x) && exists|end: int|
                    T::spec_decode_fails(bytes@.subrange(4, bytes@.len() as int), 0, e, x, end),
            },
        },
{
    let mut cdr_decoder = CdrDecoder::new(bytes)?;
    T::decode_cdr(&mut cdr_decoder)
}

/// Reads one `T`, borrowing from `bytes`, from the start of the payload of a complete CDR
/// message.
pub fn borrow_decode_from_bytes<'a, T: BorrowDecodeCdr<'a>>(bytes: &'a [u8]) -> (r: CdrResult<T>)
    requires
        bytes@.len() <= isize::MAX,
    ensures
        match new_outcome(bytes@) {
            Err(err) => r == Err::<T, CdrError>(err),
            Ok(e) => match T::spec_borrow_decode(bytes@.subrange(4, bytes@.len() as int), 0, e) {
                Some((v, _)) => r matches Ok(x) && x@ == v,
                None => r matches Err(x) && exists|end: int|
                    T::spec_borrow_decode_fails(bytes@.subrange(4, bytes@.len() as int), 0, e, x, end),
            },
        },
{
    let mut cdr_decoder = CdrDecoder::new(bytes)?;
    T::borrow_decode_cdr(&mut cdr_decoder)
}

/// A complete little-endian XCDR1 message holding `value`.
pub fn encode_to_vec<T: EncodeCdr>(value: &T) -> (r: CdrResult<Vec<u8>>)
    ensures
        match T::spec_encode(
            value@,
            Endianness::Little,
            header_bytes(CdrRepresentation::Xcdr1, Endianness::Little),
        ) {
            Some(d) => r matches Ok(v) && v@ == d,
            None => r matches Err(x) && exists|after: Seq<u8>|
                T::spec_encode_refuses(
                    value@,
                    Endianness::Little,
                    header_bytes(CdrRepresentation::Xcdr1, Endianness::Little),
                    x,
                    after,
                ),
        },
{
    let mut encoder = CdrEncoder::new(
        CdrEncoding { cdr_representation: CdrRepresentation::Xcdr1, endianness: Endianness::Little },
    );
    value.encode_cdr(&mut encoder)?;
    Ok(encoder.data_raw)
}

} // verus!
