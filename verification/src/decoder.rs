//! Reading CDR values from a payload, aligned relative to the start of the payload.

use crate::arrays::array_from_slice;
use crate::cdr_error::{CdrError, CdrResult};
use crate::encoding::{parse_outcome, CdrEncoding};
use crate::unicode::{char_from_u32, str_from_utf8, string_from_utf16, string_from_utf8};
use crate::utf16::utf16_decode;
use crate::wire::{
    le_value, lemma_pow256_values, lemma_uint_value_bound, pow256, uint_from_bytes, uint_value, Endianness,
};
use vstd::prelude::*;
use vstd::slice::slice_to_vec;
use vstd::utf8::{decode_utf8, is_scalar, valid_utf8};

verus! {

/// A read position in a CDR payload (the bytes after the encapsulation header).
pub struct CdrDecoder<'a> {
    pub pos: usize,
    pub payload: &'a [u8],
    pub endianness: Endianness,
}

/// The smallest multiple of `k` that is at least `pos`.
pub open spec fn align_up(pos: int, k: int) -> int {
    pos + (k - pos % k) % k
}

pub open spec fn saturating_diff(a: int, b: int) -> int {
    if a >= b {
        a - b
    } else {
        0
    }
}

/// What taking `len` raw bytes at `pos` of `payload` gives.
pub open spec fn take_outcome(payload: Seq<u8>, pos: int, len: int) -> Result<Seq<u8>, CdrError> {
    if len == 0 {
        Ok(Seq::empty())
    } else if pos + len > usize::MAX {
        Err(CdrError::LengthOverflow { context: "CdrDecoder::read_bytes_raw" })
    } else if pos + len > payload.len() {
        Err(
            CdrError::NotEnoughBytes {
                context: "CdrDecoder::read_bytes_raw",
                requested: len as usize,
                remaining: saturating_diff(payload.len() as int, pos) as usize,
            },
        )
    } else {
        Ok(payload.subrange(pos, pos + len))
    }
}

/// The position after taking `len` raw bytes at `pos`; unchanged when the take fails.
pub open spec fn take_end(payload: Seq<u8>, pos: int, len: int) -> int {
    if take_outcome(payload, pos, len) is Ok {
        pos + len
    } else {
        pos
    }
}

/// What reading a `w`-byte value at `pos` gives: the position is first aligned to `w`.
pub open spec fn fixed_outcome(payload: Seq<u8>, pos: int, w: int) -> Result<Seq<u8>, CdrError> {
    take_outcome(payload, align_up(pos, w), w)
}

/// The position after reading a `w`-byte value at `pos`; on failure it is the aligned position.
pub open spec fn fixed_end(payload: Seq<u8>, pos: int, w: int) -> int {
    take_end(payload, align_up(pos, w), w)
}

/// Applies `f` to the bytes of a successful read.
pub open spec fn map_bytes<T>(o: Result<Seq<u8>, CdrError>, f: spec_fn(Seq<u8>) -> T) -> Result<
    T,
    CdrError,
> {
    match o {
        Ok(b) => Ok(f(b)),
        Err(e) => Err(e),
    }
}

/// What reading a `u32` length and then that many bytes gives.
pub open spec fn octets_outcome(payload: Seq<u8>, pos: int, e: Endianness) -> Result<
    Seq<u8>,
    CdrError,
> {
    match fixed_outcome(payload, pos, 4) {
        Err(err) => Err(err),
        Ok(lb) => take_outcome(payload, fixed_end(payload, pos, 4), uint_value(lb, e) as int),
    }
}

/// The position after reading a `u32` length and then that many bytes.
pub open spec fn octets_end(payload: Seq<u8>, pos: int, e: Endianness) -> int {
    match fixed_outcome(payload, pos, 4) {
        Err(_) => fixed_end(payload, pos, 4),
        Ok(lb) => take_end(payload, fixed_end(payload, pos, 4), uint_value(lb, e) as int),
    }
}

/// Drops one trailing NUL byte, if there is one.
pub open spec fn strip_nul(b: Seq<u8>) -> Seq<u8> {
    if b.len() > 0 && b.last() == 0 {
        b.drop_last()
    } else {
        b
    }
}

/// Drops one trailing NUL code unit (two zero bytes), if there is one.
pub open spec fn strip_nul_unit(b: Seq<u8>) -> Seq<u8> {
    if b.len() >= 2 && b[b.len() - 2] == 0 && b[b.len() - 1] == 0 {
        b.subrange(0, b.len() - 2)
    } else {
        b
    }
}

/// The 16-bit code units of `b`, two bytes each in byte order `e`.
pub open spec fn units_of(b: Seq<u8>, e: Endianness) -> Seq<u16> {
    Seq::new(b.len() / 2, |i: int| uint_value(b.subrange(2 * i, 2 * i + 2), e) as u16)
}

/// What reading the bytes of a wide string (a `u32` count of code units, then twice as many
/// bytes) gives.
pub open spec fn wide_outcome(payload: Seq<u8>, pos: int, e: Endianness) -> Result<
    Seq<u8>,
    CdrError,
> {
    match fixed_outcome(payload, pos, 4) {
        Err(err) => Err(err),
        Ok(lb) => if uint_value(lb, e) * 2 > usize::MAX {
            Err(CdrError::LengthOverflow { context: "CdrDecoder::read_wstring" })
        } else {
            take_outcome(payload, fixed_end(payload, pos, 4), (uint_value(lb, e) * 2) as int)
        },
    }
}

/// The position after reading the bytes of a wide string.
pub open spec fn wide_end(payload: Seq<u8>, pos: int, e: Endianness) -> int {
    match fixed_outcome(payload, pos, 4) {
        Err(_) => fixed_end(payload, pos, 4),
        Ok(lb) => if uint_value(lb, e) * 2 > usize::MAX {
            fixed_end(payload, pos, 4)
        } else {
            take_end(payload, fixed_end(payload, pos, 4), (uint_value(lb, e) * 2) as int)
        },
    }
}

/// What `CdrDecoder::new` gives for `data`: the byte order announced by its header.
pub open spec fn new_outcome(data: Seq<u8>) -> Result<Endianness, CdrError> {
    if data.len() < 4 {
        Err(
            CdrError::InputTooShort {
                context: "CdrDecoder::new",
                min_len: 4,
                actual_len: data.len() as usize,
            },
        )
    } else {
        match parse_outcome(data) {
            Ok((_, e)) => Ok(e),
            Err(err) => Err(err),
        }
    }
}

pub open spec fn is_width(k: int) -> bool {
    k == 1 || k == 2 || k == 4 || k == 8
}

/// Aligning a position that lies below an 8-aligned bound stays below it, reaches a multiple
/// of `k`, and moves by less than `k`.
pub proof fn lemma_align_up(pos: int, k: int, bound: int)
    requires
        is_width(k),
        0 <= pos <= bound,
        bound % 8 == 0,
    ensures
        pos <= align_up(pos, k) <= bound,
        align_up(pos, k) < pos + k,
        align_up(pos, k) % k == 0,
{
}

/// A successful `w`-byte read yields `w` bytes, whose value fits in `w` bytes.
pub proof fn lemma_fixed_bytes(payload: Seq<u8>, pos: int, w: int, e: Endianness)
    requires
        is_width(w),
        0 <= pos,
    ensures
        fixed_outcome(payload, pos, w) matches Ok(b) ==> b.len() == w && uint_value(b, e) < pow256(
            w as nat,
        ),
{
    if let Ok(b) = fixed_outcome(payload, pos, w) {
        lemma_uint_value_bound(b, e);
    }
}

/// The largest position a decoder may hold: the largest multiple of 8 that `usize` holds.
pub open spec fn max_pos() -> int {
    usize::MAX - 7
}

pub proof fn lemma_max_pos()
    ensures
        max_pos() % 8 == 0,
        isize::MAX + 8 <= max_pos(),
{
    assert(usize::MAX == 0xffff_ffff || usize::MAX == 0xffff_ffff_ffff_ffff);
}

pub proof fn lemma_align_up_bound(len: int)
    requires
        0 <= len,
    ensures
        align_up(len, 8) % 8 == 0,
        len <= align_up(len, 8) < len + 8,
{
}

impl<'a> CdrDecoder<'a> {
    /// The payload fits in memory and the position leaves room to align it to 8 without
    /// overflowing; it may lie past the end of the payload, where reads fail with
    /// `NotEnoughBytes`.
    pub open spec fn wf(&self) -> bool {
        &&& self.payload@.len() <= isize::MAX
        &&& self.pos <= max_pos()
    }

    /// `self` reads the same payload in the same byte order as `before`, and is well formed.
    pub open spec fn continues(&self, before: &Self) -> bool {
        &&& self.wf()
        &&& self.payload == before.payload
        &&& self.endianness == before.endianness
    }

    /// Starts reading at the beginning of the payload after the encapsulation header of `data`.
    pub fn new(data: &'a [u8]) -> (r: CdrResult<Self>)
        requires
            data@.len() <= isize::MAX,
        ensures
            match new_outcome(data@) {
                Ok(e) => r matches Ok(d) && d.pos == 0 && d.endianness == e && d.payload@
                    == data@.subrange(4, data@.len() as int) && d.wf(),
                Err(err) => r == Err::<Self, CdrError>(err),
            },
    {
        if data.len() < 4 {
            return Err(
                CdrError::InputTooShort {
                    context: "CdrDecoder::new",
                    min_len: 4,
                    actual_len: data.len(),
                },
            );
        }
        let (encoding, payload) = CdrEncoding::parse(data)?;
        Ok(Self { pos: 0, payload, endianness: encoding.endianness })
    }

    pub(crate) fn align_to(&mut self, align_length: usize)
        requires
            old(self).wf(),
            is_width(align_length as int),
        ensures
            final(self).continues(old(self)),
            final(self).pos == align_up(old(self).pos as int, align_length as int),
    {
        proof {
            lemma_max_pos();
            lemma_align_up(self.pos as int, align_length as int, max_pos());
        }
        let padding_length = (align_length - (self.pos % align_length)) % align_length;
        self.pos = self.pos + padding_length;
    }

    pub(crate) fn read_bytes_raw(&mut self, length: usize) -> (r: CdrResult<&'a [u8]>)
        requires
            old(self).wf(),
        ensures
            final(self).continues(old(self)),
            final(self).pos == take_end(old(self).payload@, old(self).pos as int, length as int),
            match take_outcome(old(self).payload@, old(self).pos as int, length as int) {
                Ok(b) => r matches Ok(s) && s@ == b,
                Err(err) => r == Err::<&'a [u8], CdrError>(err),
            },
    {
        if length == 0 {
            let empty: &'a [u8] = &self.payload[0..0];
            assert(empty@ =~= Seq::<u8>::empty());
            return Ok(empty);
        }
        let end = match self.pos.checked_add(length) {
            Some(end) => end,
            None => {
                return Err(CdrError::LengthOverflow { context: "CdrDecoder::read_bytes_raw" });
            },
        };
        if end > self.payload.len() {
            return Err(
                CdrError::NotEnoughBytes {
                    context: "CdrDecoder::read_bytes_raw",
                    requested: length,
                    remaining: self.payload.len().saturating_sub(self.pos),
                },
            );
        }
        let bytes = &self.payload[self.pos..end];
        proof {
            lemma_max_pos();
        }
        self.pos = end;
        Ok(bytes)
    }

    /// Aligns to `width`, then reads `width` bytes as an unsigned integer.
    fn read_uint(&mut self, width: usize) -> (r: CdrResult<u64>)
        requires
            old(self).wf(),
            is_width(width as int),
        ensures
            final(self).continues(old(self)),
            final(self).pos == fixed_end(old(self).payload@, old(self).pos as int, width as int),
            match fixed_outcome(old(self).payload@, old(self).pos as int, width as int) {
                Ok(b) => b.len() == width && r == Ok::<u64, CdrError>(
                    uint_value(b, old(self).endianness) as u64,
                ) && uint_value(b, old(self).endianness) < pow256(width as nat),
                Err(err) => r == Err::<u64, CdrError>(err),
            },
    {
        self.align_to(width);
        let bytes = self.read_bytes_raw(width)?;
        let v = uint_from_bytes(bytes, self.endianness);
        proof {
            lemma_uint_value_bound(bytes@, self.endianness);
        }
        Ok(v)
    }

    pub fn read_u64(&mut self) -> (r: CdrResult<u64>)
        requires
            old(self).wf(),
        ensures
            final(self).continues(old(self)),
            final(self).pos == fixed_end(old(self).payload@, old(self).pos as int, 8),
            r == map_bytes(
                fixed_outcome(old(self).payload@, old(self).pos as int, 8),
                |b: Seq<u8>| uint_value(b, old(self).endianness) as u64,
            ),
    {
        self.read_uint(8)
    }

    pub fn read_u32(&mut self) -> (r: CdrResult<u32>)
        requires
            old(self).wf(),
        ensures
            final(self).continues(old(self)),
            final(self).pos == fixed_end(old(self).payload@, old(self).pos as int, 4),
            r == map_bytes(
                fixed_outcome(old(self).payload@, old(self).pos as int, 4),
                |b: Seq<u8>| uint_value(b, old(self).endianness) as u32,
            ),
    {
        let v = self.read_uint(4)?;
        proof {
            lemma_pow256_values();
        }
        Ok(v as u32)
    }

    pub fn read_u16(&mut self) -> (r: CdrResult<u16>)
        requires
            old(self).wf(),
        ensures
            final(self).continues(old(self)),
            final(self).pos == fixed_end(old(self).payload@, old(self).pos as int, 2),
            r == map_bytes(
                fixed_outcome(old(self).payload@, old(self).pos as int, 2),
                |b: Seq<u8>| uint_value(b, old(self).endianness) as u16,
            ),
    {
        let v = self.read_uint(2)?;
        proof {
            lemma_pow256_values();
        }
        Ok(v as u16)
    }

    pub fn read_u8(&mut self) -> (r: CdrResult<u8>)
        requires
            old(self).wf(),
        ensures
            final(self).continues(old(self)),
            final(self).pos == fixed_end(old(self).payload@, old(self).pos as int, 1),
            r == map_bytes(
                fixed_outcome(old(self).payload@, old(self).pos as int, 1),
                |b: Seq<u8>| uint_value(b, old(self).endianness) as u8,
            ),
    {
        let v = self.read_uint(1)?;
        proof {
            lemma_pow256_values();
        }
        Ok(v as u8)
    }

    pub fn read_i64(&mut self) -> (r: CdrResult<i64>)
        requires
            old(self).wf(),
        ensures
            final(self).continues(old(self)),
            final(self).pos == fixed_end(old(self).payload@, old(self).pos as int, 8),
            r == map_bytes(
                fixed_outcome(old(self).payload@, old(self).pos as int, 8),
                |b: Seq<u8>| (uint_value(b, old(self).endianness) as u64) as i64,
            ),
    {
        let v = self.read_uint(8)?;
        proof {
            lemma_pow256_values();
        }
        Ok(v as i64)
    }

    pub fn read_i32(&mut self) -> (r: CdrResult<i32>)
        requires
            old(self).wf(),
        ensures
            final(self).continues(old(self)),
            final(self).pos == fixed_end(old(self).payload@, old(self).pos as int, 4),
            r == map_bytes(
                fixed_outcome(old(self).payload@, old(self).pos as int, 4),
                |b: Seq<u8>| (uint_value(b, old(self).endianness) as u32) as i32,
            ),
    {
        let v = self.read_u32()?;
        Ok(v as i32)
    }

    pub fn read_i16(&mut self) -> (r: CdrResult<i16>)
        requires
            old(self).wf(),
        ensures
            final(self).continues(old(self)),
            final(self).pos == fixed_end(old(self).payload@, old(self).pos as int, 2),
            r == map_bytes(
                fixed_outcome(old(self).payload@, old(self).pos as int, 2),
                |b: Seq<u8>| (uint_value(b, old(self).endianness) as u16) as i16,
            ),
    {
        let v = self.read_u16()?;
        Ok(v as i16)
    }

    pub fn read_i8(&mut self) -> (r: CdrResult<i8>)
        requires
            old(self).wf(),
        ensures
            final(self).continues(old(self)),
            final(self).pos == fixed_end(old(self).payload@, old(self).pos as int, 1),
            r == map_bytes(
                fixed_outcome(old(self).payload@, old(self).pos as int, 1),
                |b: Seq<u8>| (uint_value(b, old(self).endianness) as u8) as i8,
            ),
    {
        let v = self.read_u8()?;
        Ok(v as i8)
    }

    /// A boolean is one byte, 0 or 1; any other byte is rejected.
    pub fn read_bool(&mut self) -> (r: CdrResult<bool>)
        requires
            old(self).wf(),
        ensures
            final(self).continues(old(self)),
            final(self).pos == fixed_end(old(self).payload@, old(self).pos as int, 1),
            match fixed_outcome(old(self).payload@, old(self).pos as int, 1) {
                Err(err) => r == Err::<bool, CdrError>(err),
                Ok(b) => if b[0] == 0 {
                    r == Ok::<bool, CdrError>(false)
                } else if b[0] == 1 {
                    r == Ok::<bool, CdrError>(true)
                } else {
                    r == Err::<bool, CdrError>(CdrError::InvalidBool(b[0]))
                },
            },
    {
        let raw = self.read_u8()?;
        proof {
            reveal_with_fuel(le_value, 2);
        }
        if raw == 0 {
            Ok(false)
        } else if raw == 1 {
            Ok(true)
        } else {
            Err(CdrError::InvalidBool(raw))
        }
    }

    /// A one-byte character: the byte's value as a code point.
    pub fn read_char(&mut self) -> (r: CdrResult<char>)
        requires
            old(self).wf(),
        ensures
            final(self).continues(old(self)),
            final(self).pos == fixed_end(old(self).payload@, old(self).pos as int, 1),
            r == map_bytes(
                fixed_outcome(old(self).payload@, old(self).pos as int, 1),
                |b: Seq<u8>| b[0] as char,
            ),
    {
        let u8_unit = self.read_u8()?;
        proof {
            reveal_with_fuel(le_value, 2);
        }
        Ok(u8_unit as char)
    }

    /// A 16-bit code unit taken as a character; surrogates are rejected.
    pub fn read_wchar_u16(&mut self) -> (r: CdrResult<char>)
        requires
            old(self).wf(),
        ensures
            final(self).continues(old(self)),
            final(self).pos == fixed_end(old(self).payload@, old(self).pos as int, 2),
            match fixed_outcome(old(self).payload@, old(self).pos as int, 2) {
                Err(err) => r == Err::<char, CdrError>(err),
                Ok(b) => {
                    let v = (uint_value(b, old(self).endianness) as u16) as u32;
                    if is_scalar(v) {
                        r matches Ok(c) && c as u32 == v
                    } else {
                        r == Err::<char, CdrError>(
                            CdrError::InvalidUnicodeScalar {
                                context: "CdrDecoder::read_wchar_u16",
                                value: v,
                            },
                        )
                    }
                },
            },
    {
        let u16_unit = self.read_u16()? as u32;
        match char_from_u32(u16_unit) {
            Some(c) => Ok(c),
            None => Err(
                CdrError::InvalidUnicodeScalar {
                    context: "CdrDecoder::read_wchar_u16",
                    value: u16_unit,
                },
            ),
        }
    }

    /// A 32-bit value taken as a character; values that are not Unicode scalars are rejected.
    pub fn read_wchar_u32(&mut self) -> (r: CdrResult<char>)
        requires
            old(self).wf(),
        ensures
            final(self).continues(old(self)),
            final(self).pos == fixed_end(old(self).payload@, old(self).pos as int, 4),
            match fixed_outcome(old(self).payload@, old(self).pos as int, 4) {
                Err(err) => r == Err::<char, CdrError>(err),
                Ok(b) => {
                    let v = uint_value(b, old(self).endianness) as u32;
                    if is_scalar(v) {
                        r matches Ok(c) && c as u32 == v
                    } else {
                        r == Err::<char, CdrError>(
                            CdrError::InvalidUnicodeScalar {
                                context: "CdrDecoder::read_wchar_u32",
                                value: v,
                            },
                        )
                    }
                },
            },
    {
        let u32_unit = self.read_u32()?;
        match char_from_u32(u32_unit) {
            Some(c) => Ok(c),
            None => Err(
                CdrError::InvalidUnicodeScalar {
                    context: "CdrDecoder::read_wchar_u32",
                    value: u32_unit,
                },
            ),
        }
    }

    /// `length` raw bytes, copied.
    pub fn read_bytes(&mut self, length: usize) -> (r: CdrResult<Vec<u8>>)
        requires
            old(self).wf(),
        ensures
            final(self).continues(old(self)),
            final(self).pos == take_end(old(self).payload@, old(self).pos as int, length as int),
            match take_outcome(old(self).payload@, old(self).pos as int, length as int) {
                Ok(b) => r matches Ok(v) && v@ == b,
                Err(err) => r == Err::<Vec<u8>, CdrError>(err),
            },
    {
        let bytes = self.read_bytes_raw(length)?;
        Ok(slice_to_vec(bytes))
    }

    /// A `u32` length, then that many bytes, copied.
    pub fn read_octet_seq(&mut self) -> (r: CdrResult<Vec<u8>>)
        requires
            old(self).wf(),
        ensures
            final(self).continues(old(self)),
            final(self).pos == octets_end(old(self).payload@, old(self).pos as int, old(self).endianness),
            match octets_outcome(old(self).payload@, old(self).pos as int, old(self).endianness) {
                Ok(b) => r matches Ok(v) && v@ == b,
                Err(err) => r == Err::<Vec<u8>, CdrError>(err),
            },
    {
        proof {
            lemma_fixed_bytes(self.payload@, self.pos as int, 4, self.endianness);
            lemma_pow256_values();
        }
        let length = self.read_u32()?;
        self.read_bytes(length as usize)
    }

    /// A `u32` length, then that many bytes, borrowed from the payload.
    pub fn read_octet_slice(&mut self) -> (r: CdrResult<&'a [u8]>)
        requires
            old(self).wf(),
        ensures
            final(self).continues(old(self)),
            final(self).pos == octets_end(old(self).payload@, old(self).pos as int, old(self).endianness),
            match octets_outcome(old(self).payload@, old(self).pos as int, old(self).endianness) {
                Ok(b) => r matches Ok(v) && v@ == b,
                Err(err) => r == Err::<&'a [u8], CdrError>(err),
            },
    {
        proof {
            lemma_fixed_bytes(self.payload@, self.pos as int, 4, self.endianness);
            lemma_pow256_values();
        }
        let length = self.read_u32()? as usize;
        self.read_bytes_raw(length)
    }

    /// Exactly `N` raw bytes, unaligned.
    pub fn read_byte_array<const N: usize>(&mut self) -> (r: CdrResult<[u8; N]>)
        requires
            old(self).wf(),
        ensures
            final(self).continues(old(self)),
            final(self).pos == take_end(old(self).payload@, old(self).pos as int, N as int),
            match take_outcome(old(self).payload@, old(self).pos as int, N as int) {
                Ok(b) => r matches Ok(a) && a@ == b,
                Err(err) => r == Err::<[u8; N], CdrError>(err),
            },
    {
        let bytes = self.read_bytes_raw(N)?;
        match array_from_slice::<u8, N>(bytes) {
            Some(array) => Ok(array),
            None => Err(CdrError::FixedArrayLength { expected: N, actual: bytes.len() }),
        }
    }

    /// A `u32` length, then that many bytes of UTF-8 of which a trailing NUL is dropped.
    pub fn read_string(&mut self) -> (r: CdrResult<String>)
        requires
            old(self).wf(),
        ensures
            final(self).continues(old(self)),
            final(self).pos == octets_end(old(self).payload@, old(self).pos as int, old(self).endianness),
            match octets_outcome(old(self).payload@, old(self).pos as int, old(self).endianness) {
                Err(err) => r == Err::<String, CdrError>(err),
                Ok(raw) => {
                    &&& r is Ok <==> valid_utf8(strip_nul(raw))
                    &&& r matches Ok(s) ==> s@ == decode_utf8(strip_nul(raw))
                    &&& r matches Err(x) ==> x is InvalidUtf8
                },
            },
    {
        proof {
            lemma_fixed_bytes(self.payload@, self.pos as int, 4, self.endianness);
            lemma_pow256_values();
        }
        let length = self.read_u32()?;
        let length = length as usize;
        if length == 0 {
            proof {
                assert(valid_utf8(Seq::<u8>::empty()));
                assert(decode_utf8(Seq::<u8>::empty()) =~= Seq::<char>::empty());
            }
            return Ok(String::new());
        }
        let bytes = self.read_bytes_raw(length)?;
        let text = if bytes.len() > 0 && bytes[bytes.len() - 1] == 0 {
            &bytes[0..bytes.len() - 1]
        } else {
            bytes
        };
        match string_from_utf8(slice_to_vec(text)) {
            Ok(s) => Ok(s),
            Err(e) => Err(CdrError::InvalidUtf8(e)),
        }
    }

    /// Like `read_string`, but borrows the characters from the payload.
    pub fn read_str(&mut self) -> (r: CdrResult<&'a str>)
        requires
            old(self).wf(),
        ensures
            final(self).continues(old(self)),
            final(self).pos == octets_end(old(self).payload@, old(self).pos as int, old(self).endianness),
            match octets_outcome(old(self).payload@, old(self).pos as int, old(self).endianness) {
                Err(err) => r == Err::<&'a str, CdrError>(err),
                Ok(raw) => {
                    &&& r is Ok <==> valid_utf8(strip_nul(raw))
                    &&& r matches Ok(s) ==> s@ == decode_utf8(strip_nul(raw))
                    &&& r matches Err(x) ==> x is InvalidUtf8Slice
                },
            },
    {
        proof {
            lemma_fixed_bytes(self.payload@, self.pos as int, 4, self.endianness);
            lemma_pow256_values();
        }
        let length = self.read_u32()? as usize;
        if length == 0 {
            proof {
                assert(valid_utf8(Seq::<u8>::empty()));
                assert(decode_utf8(Seq::<u8>::empty()) =~= Seq::<char>::empty());
                reveal_strlit("");
            }
            return Ok("");
        }
        let bytes = self.read_bytes_raw(length)?;
        let text = if bytes.len() > 0 && bytes[bytes.len() - 1] == 0 {
            &bytes[0..bytes.len() - 1]
        } else {
            bytes
        };
        match str_from_utf8(text) {
            Ok(s) => Ok(s),
            Err(e) => Err(CdrError::InvalidUtf8Slice(e)),
        }
    }

    /// A `u32` count of UTF-16 code units, then the units; a trailing NUL unit is dropped.
    pub fn read_wstring(&mut self) -> (r: CdrResult<String>)
        requires
            old(self).wf(),
        ensures
            final(self).continues(old(self)),
            final(self).pos == wide_end(old(self).payload@, old(self).pos as int, old(self).endianness),
            match wide_outcome(old(self).payload@, old(self).pos as int, old(self).endianness) {
                Err(err) => r == Err::<String, CdrError>(err),
                Ok(raw) => {
                    let units = units_of(strip_nul_unit(raw), old(self).endianness);
                    &&& r is Ok <==> utf16_decode(units) is Some
                    &&& r matches Ok(s) ==> utf16_decode(units) == Some(s@)
                    &&& r matches Err(x) ==> x is InvalidUtf16
                },
            },
    {
        proof {
            lemma_fixed_bytes(self.payload@, self.pos as int, 4, self.endianness);
            lemma_pow256_values();
        }
        let code_unit_length = self.read_u32()? as usize;
        let length = match code_unit_length.checked_mul(2) {
            Some(length) => length,
            None => {
                return Err(CdrError::LengthOverflow { context: "CdrDecoder::read_wstring" });
            },
        };
        let raw = self.read_bytes_raw(length)?;
        let n = raw.len();
        let bytes = if n >= 2 && raw[n - 2] == 0 && raw[n - 1] == 0 {
            &raw[0..n - 2]
        } else {
            raw
        };
        if bytes.len() % 2 != 0 {
            return Err(
                CdrError::OddByteLength { context: "CdrDecoder::read_wstring", len: bytes.len() },
            );
        }
        let count = bytes.len() / 2;
        let mut utf16_units: Vec<u16> = Vec::with_capacity(count);
        let mut i: usize = 0;
        while i < count
            invariant
                count == bytes@.len() / 2,
                bytes@.len() % 2 == 0,
                2 * count == bytes@.len(),
                bytes@.len() <= usize::MAX,
                i <= count,
                utf16_units@ == units_of(bytes@, self.endianness).subrange(0, i as int),
            decreases count - i,
        {
            assert(2 * i + 2 <= bytes@.len());
            let chunk = &bytes[2 * i..2 * i + 2];
            let unit = uint_from_bytes(chunk, self.endianness);
            proof {
                lemma_uint_value_bound(chunk@, self.endianness);
                lemma_pow256_values();
            }
            utf16_units.push(unit as u16);
            i = i + 1;
            assert(utf16_units@ =~= units_of(bytes@, self.endianness).subrange(0, i as int));
        }
        assert(utf16_units@ =~= units_of(bytes@, self.endianness));
        match string_from_utf16(utf16_units) {
            Ok(s) => Ok(s),
            Err(e) => Err(CdrError::InvalidUtf16(e)),
        }
    }
}

} // verus!
