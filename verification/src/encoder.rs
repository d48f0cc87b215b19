//! Writing CDR values after an encapsulation header, aligned relative to the end of the header.

use crate::cdr_error::{CdrError, CdrResult};
use crate::decoder::saturating_diff;
use crate::encoding::{header_bytes, CdrEncoding};
use crate::unicode::chars_of;
use crate::utf16::{char_units, lemma_utf16_encode_append, utf16_encode};
use crate::wire::{lemma_pow256_values, uint_bytes, uint_to_bytes, Endianness};
use vstd::prelude::*;
use vstd::utf8::{char_is_scalar, encode_utf8};

verus! {

/// A buffer that CDR values are appended to; it starts with the encapsulation header.
pub struct CdrEncoder {
    pub data_raw: Vec<u8>,
    pub endianness: Endianness,
}

/// The number of bytes after the four header bytes.
pub open spec fn body_len(data: Seq<u8>) -> int {
    saturating_diff(data.len() as int, 4)
}

/// Zero bytes that bring the body of `data` to a multiple of `k`.
pub open spec fn padding(data: Seq<u8>, k: int) -> Seq<u8> {
    Seq::new(((k - body_len(data) % k) % k) as nat, |i: int| 0u8)
}

/// `data` with its body padded to a multiple of `k`.
pub open spec fn padded(data: Seq<u8>, k: int) -> Seq<u8> {
    data + padding(data, k)
}

/// `data` after writing a `k`-byte unsigned value `v` in byte order `e`.
pub open spec fn with_uint(data: Seq<u8>, k: int, v: nat, e: Endianness) -> Seq<u8> {
    padded(data, k) + uint_bytes(v, k as nat, e)
}

/// The first UTF-16 code unit of a character.
pub open spec fn first_unit(c: char) -> u16 {
    char_units(c)[0]
}

/// The 32-bit count that precedes a string of `n` units: the units and a terminating NUL,
/// wrapping modulo 2^32.
pub open spec fn count_with_nul(n: int) -> u32 {
    let c = n as u32;
    if c == 0xFFFF_FFFF {
        0
    } else {
        (c + 1) as u32
    }
}

/// `data` after writing the wide-string units `units`, each as an aligned `u16`.
pub open spec fn with_units(data: Seq<u8>, units: Seq<u16>, e: Endianness) -> Seq<u8>
    decreases units.len(),
{
    if units.len() == 0 {
        data
    } else {
        with_uint(with_units(data, units.drop_last(), e), 2, units.last() as nat, e)
    }
}

/// `data` after writing the string `s`: its UTF-8 bytes with a NUL, preceded by their count.
pub open spec fn with_string(data: Seq<u8>, s: Seq<char>, e: Endianness) -> Seq<u8> {
    with_uint(data, 4, count_with_nul(encode_utf8(s).len() as int) as nat, e) + encode_utf8(s)
        + seq![0u8]
}

/// `data` after writing the wide string `s`: its UTF-16 units and a NUL unit, preceded by
/// their count.
pub open spec fn with_wstring(data: Seq<u8>, s: Seq<char>, e: Endianness) -> Seq<u8> {
    with_uint(
        with_units(
            with_uint(data, 4, count_with_nul(utf16_encode(s).len() as int) as nat, e),
            utf16_encode(s),
            e,
        ),
        2,
        0,
        e,
    )
}

/// `data` after writing the octets `bytes`, preceded by their count.
pub open spec fn with_octets(data: Seq<u8>, bytes: Seq<u8>, e: Endianness) -> Seq<u8> {
    with_uint(data, 4, (bytes.len() as u32) as nat, e) + bytes
}

impl CdrEncoder {
    /// A buffer holding just the encapsulation header for `cdr_encoding`.
    pub fn new(cdr_encoding: CdrEncoding) -> (r: Self)
        ensures
            r.data_raw@ == header_bytes(cdr_encoding.cdr_representation, cdr_encoding.endianness),
            r.endianness == cdr_encoding.endianness,
    {
        let data_raw = CdrEncoding::serialize(&cdr_encoding);
        Self { data_raw, endianness: cdr_encoding.endianness }
    }

    /// Appends zero bytes until the body length is a multiple of `align_length`.
    pub fn align_to(&mut self, align_length: usize)
        requires
            align_length > 0,
        ensures
            final(self).data_raw@ == padded(old(self).data_raw@, align_length as int),
            final(self).endianness == old(self).endianness,
            body_len(final(self).data_raw@) % align_length as int == 0,
    {
        let pos = self.data_raw.len().saturating_sub(4);
        let padding_length = (align_length - pos % align_length) % align_length;
        let ghost start = self.data_raw@;
        let mut i: usize = 0;
        while i < padding_length
            invariant
                i <= padding_length,
                padding_length as int == (align_length as int - pos as int % align_length as int) % align_length as int,
                pos == body_len(start),
                self.data_raw@ == start + Seq::new(i as nat, |j: int| 0u8),
                self.endianness == old(self).endianness,
            decreases padding_length - i,
        {
            self.data_raw.push(0u8);
            i = i + 1;
            assert(self.data_raw@ =~= start + Seq::new(i as nat, |j: int| 0u8));
        }
        assert(self.data_raw@ =~= padded(start, align_length as int));
        assert(self.data_raw@.len() == start.len() + padding_length);
        proof {
            if start.len() < 4 {
                assert(padding_length == 0) by (nonlinear_arith)
                    requires
                        pos == 0,
                        padding_length as int == (align_length as int - pos as int
                            % align_length as int) % align_length as int,
                        align_length > 0,
                {
                }
            }
        }
        assert(body_len(self.data_raw@) == pos + padding_length);
        assert((pos + padding_length) % align_length as int == 0) by (nonlinear_arith)
            requires
                padding_length as int == (align_length as int - pos as int % align_length as int) % align_length as int,
                align_length > 0,
        {
        }
    }

    /// Appends `value` without alignment.
    pub fn write_bytes_raw(&mut self, value: &[u8])
        ensures
            final(self).data_raw@ == old(self).data_raw@ + value@,
            final(self).endianness == old(self).endianness,
    {
        let ghost start = self.data_raw@;
        let mut i: usize = 0;
        while i < value.len()
            invariant
                i <= value@.len(),
                self.data_raw@ == start + value@.subrange(0, i as int),
                self.endianness == old(self).endianness,
            decreases value@.len() - i,
        {
            self.data_raw.push(value[i]);
            i = i + 1;
            assert(self.data_raw@ =~= start + value@.subrange(0, i as int));
        }
        assert(value@.subrange(0, value@.len() as int) =~= value@);
    }

    fn write_uint(&mut self, value: u64, width: usize)
        requires
            width == 1 || width == 2 || width == 4 || width == 8,
            width == 1 ==> value < 0x100,
            width == 2 ==> value < 0x1_0000,
            width == 4 ==> value < 0x1_0000_0000,
        ensures
            final(self).data_raw@ == with_uint(
                old(self).data_raw@,
                width as int,
                value as nat,
                old(self).endianness,
            ),
            final(self).endianness == old(self).endianness,
    {
        self.align_to(width);
        proof {
            lemma_pow256_values();
        }
        let bytes = uint_to_bytes(value, width, self.endianness);
        self.write_bytes_raw(bytes.as_slice());
    }

    pub fn write_u64(&mut self, value: u64)
        ensures
            final(self).data_raw@ == with_uint(old(self).data_raw@, 8, value as nat, old(self).endianness),
            final(self).endianness == old(self).endianness,
    {
        self.write_uint(value, 8);
    }

    pub fn write_u32(&mut self, value: u32)
        ensures
            final(self).data_raw@ == with_uint(old(self).data_raw@, 4, value as nat, old(self).endianness),
            final(self).endianness == old(self).endianness,
    {
        self.write_uint(value as u64, 4);
    }

    pub fn write_u16(&mut self, value: u16)
        ensures
            final(self).data_raw@ == with_uint(old(self).data_raw@, 2, value as nat, old(self).endianness),
            final(self).endianness == old(self).endianness,
    {
        self.write_uint(value as u64, 2);
    }

    /// A single byte is never padded.
    pub fn write_u8(&mut self, value: u8)
        ensures
            final(self).data_raw@ == old(self).data_raw@.push(value),
            final(self).endianness == old(self).endianness,
    {
        self.data_raw.push(value);
    }

    pub fn write_i64(&mut self, value: i64)
        ensures
            final(self).data_raw@ == with_uint(
                old(self).data_raw@,
                8,
                (value as u64) as nat,
                old(self).endianness,
            ),
            final(self).endianness == old(self).endianness,
    {
        self.write_uint(value as u64, 8);
    }

    pub fn write_i32(&mut self, value: i32)
        ensures
            final(self).data_raw@ == with_uint(
                old(self).data_raw@,
                4,
                (value as u32) as nat,
                old(self).endianness,
            ),
            final(self).endianness == old(self).endianness,
    {
        self.write_uint((value as u32) as u64, 4);
    }

    pub fn write_i16(&mut self, value: i16)
        ensures
            final(self).data_raw@ == with_uint(
                old(self).data_raw@,
                2,
                (value as u16) as nat,
                old(self).endianness,
            ),
            final(self).endianness == old(self).endianness,
    {
        self.write_uint((value as u16) as u64, 2);
    }

    pub fn write_i8(&mut self, value: i8)
        ensures
            final(self).data_raw@ == old(self).data_raw@.push(value as u8),
            final(self).endianness == old(self).endianness,
    {
        self.data_raw.push(value as u8);
    }

    /// `true` is the byte 1, `false` the byte 0.
    pub fn write_bool(&mut self, value: bool)
        ensures
            final(self).data_raw@ == old(self).data_raw@.push(if value { 1u8 } else { 0u8 }),
            final(self).endianness == old(self).endianness,
    {
        self.write_u8(if value { 1 } else { 0 });
    }

    pub fn write_char_u8(&mut self, value: u8)
        ensures
            final(self).data_raw@ == old(self).data_raw@.push(value),
            final(self).endianness == old(self).endianness,
    {
        self.write_u8(value);
    }

    /// An ASCII character as one byte; any other character is rejected and nothing is written.
    pub fn write_char(&mut self, value: char) -> (r: CdrResult<()>)
        ensures
            final(self).endianness == old(self).endianness,
            (value as u32) < 0x80 ==> r is Ok && final(self).data_raw@ == old(self).data_raw@.push(
                value as u8,
            ),
            (value as u32) >= 0x80 ==> r == Err::<(), CdrError>(CdrError::NonAsciiChar(value))
                && final(self).data_raw@ == old(self).data_raw@,
    {
        if (value as u32) >= 0x80 {
            return Err(CdrError::NonAsciiChar(value));
        }
        self.write_u8(value as u8);
        Ok(())
    }

    /// The character's scalar value as an aligned `u32`.
    pub fn write_wchar32(&mut self, value: char)
        ensures
            final(self).data_raw@ == with_uint(
                old(self).data_raw@,
                4,
                (value as u32) as nat,
                old(self).endianness,
            ),
            final(self).endianness == old(self).endianness,
    {
        self.write_u32(value as u32);
    }

    /// The first UTF-16 code unit of the character as an aligned `u16`.
    pub fn write_wchar16(&mut self, value: char)
        ensures
            final(self).data_raw@ == with_uint(
                old(self).data_raw@,
                2,
                first_unit(value) as nat,
                old(self).endianness,
            ),
            final(self).endianness == old(self).endianness,
    {
        proof {
            char_is_scalar(value);
        }
        let v = value as u32;
        let wchar16: u16 = if v < 0x10000 {
            v as u16
        } else {
            (0xD800 + (v - 0x10000) / 0x400) as u16
        };
        self.write_u16(wchar16);
    }

    /// A `u32` count (the number of bytes plus one, modulo 2^32), the UTF-8 bytes, and a NUL.
    pub fn write_string(&mut self, value: &str)
        ensures
            final(self).data_raw@ == with_string(old(self).data_raw@, value@, old(self).endianness),
            final(self).endianness == old(self).endianness,
    {
        let bytes = value.as_bytes();
        let count = (bytes.len() as u32).wrapping_add(1);
        self.write_u32(count);
        self.write_bytes_raw(bytes);
        self.write_u8(0);
    }

    /// A `u32` count (the number of UTF-16 units plus one, modulo 2^32), the units, and a NUL
    /// unit, each unit an aligned `u16`.
    pub fn write_wstring(&mut self, value: &str)
        ensures
            final(self).data_raw@ == with_wstring(old(self).data_raw@, value@, old(self).endianness),
            final(self).endianness == old(self).endianness,
    {
        let chars = chars_of(value);
        let mut utf16: Vec<u16> = Vec::new();
        let mut i: usize = 0;
        while i < chars.len()
            invariant
                i <= chars@.len(),
                chars@ == value@,
                utf16@ == utf16_encode(chars@.subrange(0, i as int)),
            decreases chars@.len() - i,
        {
            let c = chars[i];
            proof {
                char_is_scalar(c);
                lemma_utf16_encode_append(chars@.subrange(0, i as int), seq![c]);
                assert(chars@.subrange(0, i + 1) =~= chars@.subrange(0, i as int) + seq![c]);
                assert(utf16_encode(seq![c]) =~= char_units(c)) by {
                    reveal_with_fuel(utf16_encode, 2);
                    assert(seq![c].drop_first() =~= Seq::<char>::empty());
                }
            }
            let v = c as u32;
            if v < 0x10000 {
                utf16.push(v as u16);
            } else {
                utf16.push((0xD800 + (v - 0x10000) / 0x400) as u16);
                utf16.push((0xDC00 + (v - 0x10000) % 0x400) as u16);
            }
            i = i + 1;
            assert(utf16@ =~= utf16_encode(chars@.subrange(0, i as int)));
        }
        assert(chars@.subrange(0, chars@.len() as int) =~= chars@);
        let count = (utf16.len() as u32).wrapping_add(1);
        self.write_u32(count);
        let ghost after_count = self.data_raw@;
        let mut j: usize = 0;
        while j < utf16.len()
            invariant
                j <= utf16@.len(),
                self.data_raw@ == with_units(after_count, utf16@.subrange(0, j as int), self.endianness),
                self.endianness == old(self).endianness,
            decreases utf16@.len() - j,
        {
            self.write_u16(utf16[j]);
            j = j + 1;
            assert(utf16@.subrange(0, j as int).drop_last() =~= utf16@.subrange(0, j - 1));
        }
        assert(utf16@.subrange(0, utf16@.len() as int) =~= utf16@);
        self.write_u16(0);
    }

    /// A `u32` count (the length modulo 2^32), then the bytes.
    pub fn write_octet_bytes(&mut self, value: &[u8]) -> (r: CdrResult<()>)
        ensures
            r is Ok,
            final(self).data_raw@ == with_octets(old(self).data_raw@, value@, old(self).endianness),
            final(self).endianness == old(self).endianness,
    {
        self.write_u32(value.len() as u32);
        self.write_bytes_raw(value);
        Ok(())
    }

    /// The `N` bytes, unaligned and without a count.
    pub fn write_byte_array<const N: usize>(&mut self, value: &[u8; N]) -> (r: CdrResult<()>)
        ensures
            r is Ok,
            final(self).data_raw@ == old(self).data_raw@ + value@,
            final(self).endianness == old(self).endianness,
    {
        self.write_bytes_raw(value.as_slice());
        Ok(())
    }
}

} // verus!
