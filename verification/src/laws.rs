//! What a read gives back of a write.
//!
//! Each law writes a value on top of any buffer that already holds a header (and possibly
//! earlier values), appends any later bytes, and reads the value back from the position where
//! the write started. Because the later bytes are arbitrary, the laws compose: values written
//! one after another are read back one after another.

use crate::codec::{
    borrow_decode_many, decode_many, encode_many, fixed_read, DecodeCdr, EncodeCdr, WChar16, WChar32,
};
use crate::decoder::{
    align_up, fixed_end, fixed_outcome, new_outcome, octets_end, octets_outcome, strip_nul,
    wide_end, wide_outcome, strip_nul_unit, units_of,
};
use crate::encoder::{
    body_len, count_with_nul, first_unit, padded, padding, with_octets, with_string, with_uint,
    with_units, with_wstring,
};
use crate::encoding::{header_bytes, law_header_round_trip, parse_outcome, CdrRepresentation};
use crate::primitive::{
    chunk, chunks_view, concat_uints, lemma_chunk_offsets, lemma_div_len, prim_array_end,
    prim_array_outcome, prim_seq_end, prim_seq_outcome, prim_slice_written, uints_of,
    PrimitiveValue,
};
use crate::utf16::{lemma_utf16_round_trip, utf16_decode, utf16_encode};
use crate::wire::{
    le_bytes, le_value, lemma_pow256_values, lemma_uint_bytes_len, lemma_uint_round_trip, pow256,
    uint_bytes, uint_value, Endianness,
};
use vstd::layout::size_of as spec_size_of;
use vstd::prelude::*;
use vstd::utf8::{
    char_is_scalar, char_u32_cast, encode_utf8, encode_utf8_decode_utf8, encode_utf8_valid_utf8,
};

verus! {

/// The payload (everything after the header) of `data` followed by `suffix`.
pub open spec fn payload_of(data: Seq<u8>, suffix: Seq<u8>) -> Seq<u8> {
    (data + suffix).subrange(4, (data + suffix).len() as int)
}

/// Writing `v` on top of `data` and reading at the position where the write started gives
/// `v` back, followed by the position where the write ended, whatever bytes come after.
pub open spec fn reads_back<T: DecodeCdr + EncodeCdr>(
    v: T::V,
    e: Endianness,
    data: Seq<u8>,
    suffix: Seq<u8>,
) -> bool {
    match T::spec_encode(v, e, data) {
        Some(d) => T::spec_decode(payload_of(d, suffix), data.len() - 4, e) == Some(
            (v, d.len() - 4),
        ),
        None => true,
    }
}

/// A complete message that `encode_to_vec` would produce for `v` is read back as `v` by
/// `decode_from_bytes`.
pub open spec fn message_reads_back<T: DecodeCdr + EncodeCdr>(v: T::V) -> bool {
    let header = header_bytes(CdrRepresentation::Xcdr1, Endianness::Little);
    match T::spec_encode(v, Endianness::Little, header) {
        Some(d) => {
            &&& new_outcome(d) == Ok::<Endianness, crate::cdr_error::CdrError>(Endianness::Little)
            &&& T::spec_decode(d.subrange(4, d.len() as int), 0, Endianness::Little) matches Some(
                (w, _),
            ) && w == v
        },
        None => true,
    }
}

/// The core of every fixed-width law: after padding and writing `k` bytes, reading `k` bytes
/// at the old end finds exactly those bytes.
pub proof fn lemma_fixed_round_trip(data: Seq<u8>, k: int, v: nat, e: Endianness, suffix: Seq<u8>)
    requires
        data.len() >= 4,
        k == 1 || k == 2 || k == 4 || k == 8,
        v < pow256(k as nat),
        (with_uint(data, k, v, e) + suffix).len() <= usize::MAX,
    ensures
        fixed_outcome(payload_of(with_uint(data, k, v, e), suffix), data.len() - 4, k) == Ok::<
            Seq<u8>,
            crate::cdr_error::CdrError,
        >(uint_bytes(v, k as nat, e)),
        fixed_end(payload_of(with_uint(data, k, v, e), suffix), data.len() - 4, k) == with_uint(
            data,
            k,
            v,
            e,
        ).len() - 4,
        with_uint(data, k, v, e).len() == padded(data, k).len() + k,
{
    let d = with_uint(data, k, v, e);
    let pos = data.len() - 4;
    let pad = padding(data, k);
    let bytes = uint_bytes(v, k as nat, e);
    lemma_uint_bytes_len(v, k as nat, e);
    assert(body_len(data) == pos);
    assert(align_up(pos, k) == pos + pad.len());
    let payload = payload_of(d, suffix);
    let start = pos + pad.len();
    assert(payload.subrange(start, start + k) =~= bytes);
}

/// Writing a single byte and reading one byte at the old end finds it.
pub proof fn lemma_byte_round_trip(data: Seq<u8>, b: u8, suffix: Seq<u8>)
    requires
        data.len() >= 4,
        (data.push(b) + suffix).len() <= usize::MAX,
    ensures
        fixed_read(payload_of(data.push(b), suffix), data.len() - 4, 1) == Some(
            (seq![b], data.len() - 3),
        ),
{
    let payload = payload_of(data.push(b), suffix);
    let pos = data.len() - 4;
    assert(align_up(pos, 1) == pos);
    assert(payload.subrange(pos, pos + 1) =~= seq![b]);
}

pub proof fn law_round_trip_u8(v: u8, e: Endianness, data: Seq<u8>, suffix: Seq<u8>)
    requires
        data.len() >= 4,
        (data + suffix).len() < usize::MAX,
    ensures
        reads_back::<u8>(v, e, data, suffix),
{
    lemma_byte_round_trip(data, v, suffix);
    reveal_with_fuel(le_value, 2);
    assert(seq![v].reverse() =~= seq![v]);
    assert(seq![v].drop_first() =~= Seq::<u8>::empty());
}

pub proof fn law_round_trip_i8(v: i8, e: Endianness, data: Seq<u8>, suffix: Seq<u8>)
    requires
        data.len() >= 4,
        (data + suffix).len() < usize::MAX,
    ensures
        reads_back::<i8>(v, e, data, suffix),
{
    lemma_byte_round_trip(data, v as u8, suffix);
    reveal_with_fuel(le_value, 2);
    assert(seq![v as u8].reverse() =~= seq![v as u8]);
    assert(seq![v as u8].drop_first() =~= Seq::<u8>::empty());
    assert(((v as u8) as i8) == v) by (bit_vector);
}

pub proof fn law_round_trip_bool(v: bool, e: Endianness, data: Seq<u8>, suffix: Seq<u8>)
    requires
        data.len() >= 4,
        (data + suffix).len() < usize::MAX,
    ensures
        reads_back::<bool>(v, e, data, suffix),
{
    lemma_byte_round_trip(data, if v { 1u8 } else { 0u8 }, suffix);
}

/// ASCII characters are read back; other characters are refused by the writer.
pub proof fn law_round_trip_char(v: char, e: Endianness, data: Seq<u8>, suffix: Seq<u8>)
    requires
        data.len() >= 4,
        (data + suffix).len() < usize::MAX,
    ensures
        reads_back::<char>(v, e, data, suffix),
{
    if (v as u32) < 0x80 {
        lemma_byte_round_trip(data, v as u8, suffix);
        char_u32_cast(v, v as u32);
        assert(((v as u8) as char) == v);
    }
}

pub proof fn law_round_trip_u16(v: u16, e: Endianness, data: Seq<u8>, suffix: Seq<u8>)
    requires
        data.len() >= 4,
        (with_uint(data, 2, v as nat, e) + suffix).len() <= usize::MAX,
    ensures
        reads_back::<u16>(v, e, data, suffix),
{
    lemma_pow256_values();
    lemma_fixed_round_trip(data, 2, v as nat, e, suffix);
    lemma_uint_round_trip(v as nat, 2, e);
}

pub proof fn law_round_trip_u32(v: u32, e: Endianness, data: Seq<u8>, suffix: Seq<u8>)
    requires
        data.len() >= 4,
        (with_uint(data, 4, v as nat, e) + suffix).len() <= usize::MAX,
    ensures
        reads_back::<u32>(v, e, data, suffix),
{
    lemma_pow256_values();
    lemma_fixed_round_trip(data, 4, v as nat, e, suffix);
    lemma_uint_round_trip(v as nat, 4, e);
}

pub proof fn law_round_trip_u64(v: u64, e: Endianness, data: Seq<u8>, suffix: Seq<u8>)
    requires
        data.len() >= 4,
        (with_uint(data, 8, v as nat, e) + suffix).len() <= usize::MAX,
    ensures
        reads_back::<u64>(v, e, data, suffix),
{
    lemma_pow256_values();
    lemma_fixed_round_trip(data, 8, v as nat, e, suffix);
    lemma_uint_round_trip(v as nat, 8, e);
}

pub proof fn law_round_trip_i16(v: i16, e: Endianness, data: Seq<u8>, suffix: Seq<u8>)
    requires
        data.len() >= 4,
        (with_uint(data, 2, (v as u16) as nat, e) + suffix).len() <= usize::MAX,
    ensures
        reads_back::<i16>(v, e, data, suffix),
{
    lemma_pow256_values();
    lemma_fixed_round_trip(data, 2, (v as u16) as nat, e, suffix);
    lemma_uint_round_trip((v as u16) as nat, 2, e);
    assert(((v as u16) as i16) == v) by (bit_vector);
}

pub proof fn law_round_trip_i32(v: i32, e: Endianness, data: Seq<u8>, suffix: Seq<u8>)
    requires
        data.len() >= 4,
        (with_uint(data, 4, (v as u32) as nat, e) + suffix).len() <= usize::MAX,
    ensures
        reads_back::<i32>(v, e, data, suffix),
{
    lemma_pow256_values();
    lemma_fixed_round_trip(data, 4, (v as u32) as nat, e, suffix);
    lemma_uint_round_trip((v as u32) as nat, 4, e);
    assert(((v as u32) as i32) == v) by (bit_vector);
}

pub proof fn law_round_trip_i64(v: i64, e: Endianness, data: Seq<u8>, suffix: Seq<u8>)
    requires
        data.len() >= 4,
        (with_uint(data, 8, (v as u64) as nat, e) + suffix).len() <= usize::MAX,
    ensures
        reads_back::<i64>(v, e, data, suffix),
{
    lemma_pow256_values();
    lemma_fixed_round_trip(data, 8, (v as u64) as nat, e, suffix);
    lemma_uint_round_trip((v as u64) as nat, 8, e);
    assert(((v as u64) as i64) == v) by (bit_vector);
}

pub proof fn law_round_trip_wchar32(v: WChar32, e: Endianness, data: Seq<u8>, suffix: Seq<u8>)
    requires
        data.len() >= 4,
        (with_uint(data, 4, (v.0 as u32) as nat, e) + suffix).len() <= usize::MAX,
    ensures
        reads_back::<WChar32>(v, e, data, suffix),
{
    lemma_pow256_values();
    lemma_fixed_round_trip(data, 4, (v.0 as u32) as nat, e, suffix);
    lemma_uint_round_trip((v.0 as u32) as nat, 4, e);
    char_is_scalar(v.0);
    char_u32_cast(v.0, v.0 as u32);
}

/// Characters of the Basic Multilingual Plane are read back from one code unit; a character
/// beyond it is written as its first surrogate, which does not read back.
pub proof fn law_round_trip_wchar16(v: WChar16, e: Endianness, data: Seq<u8>, suffix: Seq<u8>)
    requires
        data.len() >= 4,
        (v.0 as u32) < 0x10000,
        (with_uint(data, 2, first_unit(v.0) as nat, e) + suffix).len() <= usize::MAX,
    ensures
        reads_back::<WChar16>(v, e, data, suffix),
{
    lemma_pow256_values();
    let u = first_unit(v.0);
    assert(u == (v.0 as u32) as u16);
    lemma_fixed_round_trip(data, 2, u as nat, e, suffix);
    lemma_uint_round_trip(u as nat, 2, e);
    char_is_scalar(v.0);
    char_u32_cast(v.0, v.0 as u32);
}

/// A character outside the Basic Multilingual Plane written as a 16-bit character leaves only
/// its high surrogate, a unit in `0xD800..=0xDBFF`, which the 16-bit character reader refuses.
pub proof fn law_wchar16_outside_bmp_refused(v: WChar16, e: Endianness, data: Seq<u8>, suffix: Seq<u8>)
    requires
        data.len() >= 4,
        (v.0 as u32) >= 0x10000,
        (with_uint(data, 2, first_unit(v.0) as nat, e) + suffix).len() <= usize::MAX,
    ensures
        0xD800 <= first_unit(v.0) <= 0xDBFF,
        WChar16::spec_encode(v, e, data) == Some(with_uint(data, 2, first_unit(v.0) as nat, e)),
        WChar16::spec_decode(
            payload_of(with_uint(data, 2, first_unit(v.0) as nat, e), suffix),
            data.len() - 4,
            e,
        ) is None,
{
    lemma_pow256_values();
    char_is_scalar(v.0);
    let c = v.0 as u32;
    assert(c <= 0x10FFFF);
    assert((c - 0x10000) / 0x400 <= 0x3FF);
    let u = first_unit(v.0);
    assert(u == (0xD800 + (c - 0x10000) / 0x400) as u16);
    assert(0xD800 <= u <= 0xDBFF);
    lemma_fixed_round_trip(data, 2, u as nat, e, suffix);
    lemma_uint_round_trip(u as nat, 2, e);
}

/// Strings whose UTF-8 form (with its NUL) has a count that fits in 32 bits are read back.
pub proof fn law_round_trip_string(v: Seq<char>, e: Endianness, data: Seq<u8>, suffix: Seq<u8>)
    requires
        data.len() >= 4,
        encode_utf8(v).len() + 1 < 0x1_0000_0000,
        (with_string(data, v, e) + suffix).len() <= usize::MAX,
    ensures
        reads_back::<String>(v, e, data, suffix),
{
    let bytes = encode_utf8(v);
    let count = count_with_nul(bytes.len() as int);
    assert(count == bytes.len() + 1);
    let head = with_uint(data, 4, count as nat, e);
    let d = with_string(data, v, e);
    lemma_pow256_values();
    lemma_fixed_round_trip(data, 4, count as nat, e, bytes + seq![0u8] + suffix);
    lemma_uint_round_trip(count as nat, 4, e);
    assert(d + suffix =~= head + (bytes + seq![0u8] + suffix));
    let payload = payload_of(d, suffix);
    assert(payload =~= payload_of(head, bytes + seq![0u8] + suffix));
    let p = head.len() - 4;
    assert(payload.subrange(p, p + count) =~= bytes + seq![0u8]);
    assert(strip_nul(bytes + seq![0u8]) =~= bytes);
    encode_utf8_valid_utf8(v);
    encode_utf8_decode_utf8(v);
}

/// Octet sequences whose length fits in 32 bits are read back.
#[verifier::spinoff_prover]
pub proof fn law_round_trip_octets(v: Seq<u8>, e: Endianness, data: Seq<u8>, suffix: Seq<u8>)
    requires
        data.len() >= 4,
        v.len() < 0x1_0000_0000,
        (with_octets(data, v, e) + suffix).len() <= usize::MAX,
    ensures
        octets_outcome(payload_of(with_octets(data, v, e), suffix), data.len() - 4, e) == Ok::<
            Seq<u8>,
            crate::cdr_error::CdrError,
        >(v),
        octets_end(payload_of(with_octets(data, v, e), suffix), data.len() - 4, e) == with_octets(
            data,
            v,
            e,
        ).len() - 4,
{
    let head = with_uint(data, 4, (v.len() as u32) as nat, e);
    let d = with_octets(data, v, e);
    lemma_pow256_values();
    assert((v.len() as u32) as nat == v.len());
    lemma_fixed_round_trip(data, 4, v.len(), e, v + suffix);
    lemma_uint_round_trip(v.len(), 4, e);
    assert(d + suffix =~= head + (v + suffix));
    let payload = payload_of(d, suffix);
    assert(payload =~= payload_of(head, v + suffix));
    let p = head.len() - 4;
    assert(payload.subrange(p, p + v.len()) =~= v);
    if v.len() == 0 {
        assert(v =~= Seq::<u8>::empty());
    }
    assert(fixed_outcome(payload, data.len() - 4, 4) == Ok::<Seq<u8>, crate::cdr_error::CdrError>(
        uint_bytes(v.len(), 4, e),
    ));
}

pub proof fn law_message_round_trip_u32(v: u32)
    ensures
        message_reads_back::<u32>(v),
{
    let header = header_bytes(CdrRepresentation::Xcdr1, Endianness::Little);
    assert(padding(header, 4).len() == 0);
    lemma_uint_bytes_len(v as nat, 4, Endianness::Little);
    law_round_trip_u32(v, Endianness::Little, header, Seq::empty());
    let d = with_uint(header, 4, v as nat, Endianness::Little);
    assert(d + Seq::<u8>::empty() =~= d);
    assert(d.subrange(0, 4) =~= header);
    assert(parse_outcome(d) == parse_outcome(header));
}

pub proof fn law_message_round_trip_i16(v: i16)
    ensures
        message_reads_back::<i16>(v),
{
    let header = header_bytes(CdrRepresentation::Xcdr1, Endianness::Little);
    assert(padding(header, 2).len() == 0);
    lemma_uint_bytes_len((v as u16) as nat, 2, Endianness::Little);
    law_round_trip_i16(v, Endianness::Little, header, Seq::empty());
    let d = with_uint(header, 2, (v as u16) as nat, Endianness::Little);
    assert(d + Seq::<u8>::empty() =~= d);
}

pub proof fn law_message_round_trip_string(v: Seq<char>)
    requires
        encode_utf8(v).len() + 1 < 0x1_0000_0000,
        encode_utf8(v).len() + 9 <= usize::MAX,
    ensures
        message_reads_back::<String>(v),
{
    let header = header_bytes(CdrRepresentation::Xcdr1, Endianness::Little);
    assert(padding(header, 4).len() == 0);
    lemma_uint_bytes_len(count_with_nul(encode_utf8(v).len() as int) as nat, 4, Endianness::Little);
    law_round_trip_string(v, Endianness::Little, header, Seq::empty());
    let d = with_string(header, v, Endianness::Little);
    assert(d + Seq::<u8>::empty() =~= d);
}


/// Writing `v` on top of `data` keeps `data` as the start of the buffer.
pub open spec fn extends<T: EncodeCdr>(v: T::V, e: Endianness, data: Seq<u8>) -> bool {
    T::spec_encode(v, e, data) matches Some(d) ==> d.len() >= data.len() && d.take(
        data.len() as int,
    ) == data
}

/// The buffer after writing `v` on top of `data`, followed by `suffix`, fits in memory.
pub open spec fn encoded_fits<T: EncodeCdr>(
    v: T::V,
    e: Endianness,
    data: Seq<u8>,
    suffix: Seq<u8>,
) -> bool {
    T::spec_encode(v, e, data) matches Some(d) ==> (d + suffix).len() <= usize::MAX
}

/// Every value of `T` written on top of a buffer that holds a header only appends to it, and is
/// read back wherever the result fits in memory.
pub open spec fn always_reads_back<T: DecodeCdr + EncodeCdr>(e: Endianness) -> bool {
    &&& forall|v: T::V, data: Seq<u8>| data.len() >= 4 ==> #[trigger] extends::<T>(v, e, data)
    &&& forall|v: T::V, data: Seq<u8>, suffix: Seq<u8>|
        data.len() >= 4 && encoded_fits::<T>(v, e, data, suffix) ==> #[trigger] reads_back::<T>(
            v,
            e,
            data,
            suffix,
        )
}

/// Writing values one after another only appends to the buffer.
pub proof fn lemma_encode_many_extends<T: DecodeCdr + EncodeCdr>(
    vs: Seq<T::V>,
    e: Endianness,
    data: Seq<u8>,
)
    requires
        always_reads_back::<T>(e),
        data.len() >= 4,
    ensures
        encode_many::<T>(vs, e, data) matches Some(d) ==> d.len() >= data.len() && d.take(
            data.len() as int,
        ) == data,
    decreases vs.len(),
{
    if vs.len() > 0 {
        lemma_encode_many_extends::<T>(vs.drop_last(), e, data);
        if let Some(d1) = encode_many::<T>(vs.drop_last(), e, data) {
            assert(extends::<T>(vs.last(), e, d1));
            if let Some(d) = T::spec_encode(vs.last(), e, d1) {
                assert(d.take(data.len() as int) =~= d.take(d1.len() as int).take(data.len() as int));
            }
        }
    }
}

/// Values written one after another on top of a buffer that holds a header are read back one
/// after another, from where the first write started, whatever bytes come after them.
pub proof fn law_round_trip_many<T: DecodeCdr + EncodeCdr>(
    vs: Seq<T::V>,
    e: Endianness,
    data: Seq<u8>,
    suffix: Seq<u8>,
)
    requires
        always_reads_back::<T>(e),
        data.len() >= 4,
        encode_many::<T>(vs, e, data) matches Some(d) ==> (d + suffix).len() <= usize::MAX,
    ensures
        encode_many::<T>(vs, e, data) matches Some(d) ==> decode_many::<T>(
            payload_of(d, suffix),
            data.len() - 4,
            e,
            vs.len(),
        ) == Some((vs, d.len() - 4)),
    decreases vs.len(),
{
    if vs.len() == 0 {
        assert(vs =~= Seq::<T::V>::empty());
    } else {
        let pre = vs.drop_last();
        let last = vs.last();
        lemma_encode_many_extends::<T>(pre, e, data);
        if let Some(d1) = encode_many::<T>(pre, e, data) {
            if let Some(d) = T::spec_encode(last, e, d1) {
                assert(extends::<T>(last, e, d1));
                assert(reads_back::<T>(last, e, d1, suffix));
                let rest = d.skip(d1.len() as int);
                assert(d =~= d1 + rest);
                assert(d1 + (rest + suffix) =~= d + suffix);
                law_round_trip_many::<T>(pre, e, data, rest + suffix);
                assert(payload_of(d1, rest + suffix) =~= payload_of(d, suffix));
                assert(pre.push(last) =~= vs);
            }
        }
    }
}

/// Two values, of the same kind or not, written one after the other on top of a buffer that
/// holds a header are read back one after the other: the first read ends where the second
/// write started and the second ends where the writes ended, so the decoder skips exactly the
/// padding that the encoder inserted.
pub proof fn law_round_trip_pair<T: DecodeCdr + EncodeCdr, U: DecodeCdr + EncodeCdr>(
    v: T::V,
    w: U::V,
    e: Endianness,
    data: Seq<u8>,
    suffix: Seq<u8>,
)
    requires
        always_reads_back::<T>(e),
        always_reads_back::<U>(e),
        data.len() >= 4,
        T::spec_encode(v, e, data) matches Some(d1) ==> encoded_fits::<U>(w, e, d1, suffix),
    ensures
        T::spec_encode(v, e, data) matches Some(d1) ==> (U::spec_encode(w, e, d1) matches Some(d2)
            ==> {
            &&& T::spec_decode(payload_of(d2, suffix), data.len() - 4, e) == Some((v, d1.len() - 4))
            &&& U::spec_decode(payload_of(d2, suffix), d1.len() - 4, e) == Some((w, d2.len() - 4))
        }),
{
    if let Some(d1) = T::spec_encode(v, e, data) {
        assert(extends::<T>(v, e, data));
        if let Some(d2) = U::spec_encode(w, e, d1) {
            assert(extends::<U>(w, e, d1));
            assert(reads_back::<U>(w, e, d1, suffix));
            let rest = d2.skip(d1.len() as int);
            assert(d2 =~= d1 + rest);
            assert(d1 + (rest + suffix) =~= d2 + suffix);
            assert(encoded_fits::<T>(v, e, data, rest + suffix));
            assert(reads_back::<T>(v, e, data, rest + suffix));
            assert(payload_of(d1, rest + suffix) =~= payload_of(d2, suffix));
        }
    }
}

/// Bytes written one by one only append themselves to the buffer.
pub proof fn lemma_encode_bytes(bs: Seq<u8>, e: Endianness, data: Seq<u8>)
    ensures
        encode_many::<u8>(bs, e, data) == Some(data + bs),
    decreases bs.len(),
{
    if bs.len() == 0 {
        assert(data + bs =~= data);
    } else {
        lemma_encode_bytes(bs.drop_last(), e, data);
        assert((data + bs.drop_last()).push(bs.last()) =~= data + bs);
    }
}

/// Bytes written one by one and then a value, on top of a buffer that holds a header, are read
/// back one by one and then as that value: after the bytes the decoder stands where the value's
/// write started, and it skips exactly the padding that the encoder inserted before the value.
pub proof fn law_round_trip_after_bytes<T: DecodeCdr + EncodeCdr>(
    bs: Seq<u8>,
    v: T::V,
    e: Endianness,
    data: Seq<u8>,
    suffix: Seq<u8>,
)
    requires
        always_reads_back::<T>(e),
        data.len() >= 4,
        encoded_fits::<T>(v, e, data + bs, suffix),
    ensures
        T::spec_encode(v, e, data + bs) matches Some(d) ==> {
            &&& decode_many::<u8>(payload_of(d, suffix), data.len() - 4, e, bs.len()) == Some(
                (bs, data.len() - 4 + bs.len()),
            )
            &&& T::spec_decode(payload_of(d, suffix), data.len() - 4 + bs.len(), e) == Some(
                (v, d.len() - 4),
            )
        },
{
    let d1 = data + bs;
    if let Some(d) = T::spec_encode(v, e, d1) {
        lemma_always_reads_back_u8(e);
        lemma_encode_bytes(bs, e, data);
        assert(extends::<T>(v, e, d1));
        assert(reads_back::<T>(v, e, d1, suffix));
        let rest = d.skip(d1.len() as int);
        assert(d =~= d1 + rest);
        assert(d1 + (rest + suffix) =~= d + suffix);
        law_round_trip_many::<u8>(bs, e, data, rest + suffix);
        assert(payload_of(d1, rest + suffix) =~= payload_of(d, suffix));
    }
}

/// A sequence written by `write_seq` (its count, then its values) on top of a buffer that holds
/// a header is read back by `read_seq`: the count read is the number of values, and the values
/// read after it are the values written.
pub proof fn law_round_trip_seq<T: DecodeCdr + EncodeCdr>(
    vs: Seq<T::V>,
    e: Endianness,
    data: Seq<u8>,
    suffix: Seq<u8>,
)
    requires
        always_reads_back::<T>(e),
        data.len() >= 4,
        vs.len() < 0x1_0000_0000,
        encode_many::<T>(vs, e, with_uint(data, 4, vs.len(), e)) matches Some(d) ==> (d
            + suffix).len() <= usize::MAX,
    ensures
        encode_many::<T>(vs, e, with_uint(data, 4, vs.len(), e)) matches Some(d) ==> {
            let payload = payload_of(d, suffix);
            let pos = data.len() - 4;
            match fixed_outcome(payload, pos, 4) {
                Ok(lb) => decode_many::<T>(payload, fixed_end(payload, pos, 4), e, uint_value(lb, e))
                    == Some((vs, d.len() - 4)),
                Err(_) => false,
            }
        },
{
    let h = with_uint(data, 4, vs.len(), e);
    lemma_pow256_values();
    lemma_uint_bytes_len(vs.len(), 4, e);
    assert(h.take(data.len() as int) =~= data);
    lemma_encode_many_extends::<T>(vs, e, h);
    if let Some(d) = encode_many::<T>(vs, e, h) {
        let rest = d.skip(h.len() as int);
        assert(d =~= h + rest);
        assert(h + (rest + suffix) =~= d + suffix);
        lemma_fixed_round_trip(data, 4, vs.len(), e, rest + suffix);
        lemma_uint_round_trip(vs.len(), 4, e);
        assert(payload_of(h, rest + suffix) =~= payload_of(d, suffix));
        law_round_trip_many::<T>(vs, e, h, suffix);
    }
}

/// Every `u32` is read back.
pub proof fn lemma_always_reads_back_u32(e: Endianness)
    ensures
        always_reads_back::<u32>(e),
{
    assert forall|v: u32, data: Seq<u8>| data.len() >= 4 implies #[trigger] extends::<u32>(
        v,
        e,
        data,
    ) by {
        assert(with_uint(data, 4, v as nat, e).take(data.len() as int) =~= data);
    }
    assert forall|v: u32, data: Seq<u8>, suffix: Seq<u8>|
        data.len() >= 4 && encoded_fits::<u32>(v, e, data, suffix) implies #[trigger] reads_back::<
        u32,
    >(v, e, data, suffix) by {
        law_round_trip_u32(v, e, data, suffix);
    }
}


/// Every `u8` is read back.
pub proof fn lemma_always_reads_back_u8(e: Endianness)
    ensures
        always_reads_back::<u8>(e),
{
    assert forall|v: u8, data: Seq<u8>| data.len() >= 4 implies #[trigger] extends::<u8>(
        v,
        e,
        data,
    ) by {
        assert(data.push(v).take(data.len() as int) =~= data);
    }
    assert forall|v: u8, data: Seq<u8>, suffix: Seq<u8>|
        data.len() >= 4 && encoded_fits::<u8>(v, e, data, suffix) implies #[trigger] reads_back::<
        u8,
    >(v, e, data, suffix) by {
        law_round_trip_u8(v, e, data, suffix);
    }
}

/// Every `i8` is read back.
pub proof fn lemma_always_reads_back_i8(e: Endianness)
    ensures
        always_reads_back::<i8>(e),
{
    assert forall|v: i8, data: Seq<u8>| data.len() >= 4 implies #[trigger] extends::<i8>(
        v,
        e,
        data,
    ) by {
        assert(data.push(v as u8).take(data.len() as int) =~= data);
    }
    assert forall|v: i8, data: Seq<u8>, suffix: Seq<u8>|
        data.len() >= 4 && encoded_fits::<i8>(v, e, data, suffix) implies #[trigger] reads_back::<
        i8,
    >(v, e, data, suffix) by {
        law_round_trip_i8(v, e, data, suffix);
    }
}

/// Every `bool` is read back.
pub proof fn lemma_always_reads_back_bool(e: Endianness)
    ensures
        always_reads_back::<bool>(e),
{
    assert forall|v: bool, data: Seq<u8>| data.len() >= 4 implies #[trigger] extends::<bool>(
        v,
        e,
        data,
    ) by {
        assert(data.push(if v { 1u8 } else { 0u8 }).take(data.len() as int) =~= data);
    }
    assert forall|v: bool, data: Seq<u8>, suffix: Seq<u8>|
        data.len() >= 4 && encoded_fits::<bool>(v, e, data, suffix) implies #[trigger] reads_back::<
        bool,
    >(v, e, data, suffix) by {
        law_round_trip_bool(v, e, data, suffix);
    }
}

/// Every `char` is read back.
pub proof fn lemma_always_reads_back_char(e: Endianness)
    ensures
        always_reads_back::<char>(e),
{
    assert forall|v: char, data: Seq<u8>| data.len() >= 4 implies #[trigger] extends::<char>(
        v,
        e,
        data,
    ) by {
        assert(data.push(v as u8).take(data.len() as int) =~= data);
    }
    assert forall|v: char, data: Seq<u8>, suffix: Seq<u8>|
        data.len() >= 4 && encoded_fits::<char>(v, e, data, suffix) implies #[trigger] reads_back::<
        char,
    >(v, e, data, suffix) by {
        if (v as u32) < 0x80 {
            law_round_trip_char(v, e, data, suffix);
        }
    }
}

/// Every `u16` is read back.
pub proof fn lemma_always_reads_back_u16(e: Endianness)
    ensures
        always_reads_back::<u16>(e),
{
    assert forall|v: u16, data: Seq<u8>| data.len() >= 4 implies #[trigger] extends::<u16>(
        v,
        e,
        data,
    ) by {
        assert(with_uint(data, 2, v as nat, e).take(data.len() as int) =~= data);
    }
    assert forall|v: u16, data: Seq<u8>, suffix: Seq<u8>|
        data.len() >= 4 && encoded_fits::<u16>(v, e, data, suffix) implies #[trigger] reads_back::<
        u16,
    >(v, e, data, suffix) by {
        law_round_trip_u16(v, e, data, suffix);
    }
}

/// Every `u64` is read back.
pub proof fn lemma_always_reads_back_u64(e: Endianness)
    ensures
        always_reads_back::<u64>(e),
{
    assert forall|v: u64, data: Seq<u8>| data.len() >= 4 implies #[trigger] extends::<u64>(
        v,
        e,
        data,
    ) by {
        assert(with_uint(data, 8, v as nat, e).take(data.len() as int) =~= data);
    }
    assert forall|v: u64, data: Seq<u8>, suffix: Seq<u8>|
        data.len() >= 4 && encoded_fits::<u64>(v, e, data, suffix) implies #[trigger] reads_back::<
        u64,
    >(v, e, data, suffix) by {
        law_round_trip_u64(v, e, data, suffix);
    }
}

/// Every `i16` is read back.
pub proof fn lemma_always_reads_back_i16(e: Endianness)
    ensures
        always_reads_back::<i16>(e),
{
    assert forall|v: i16, data: Seq<u8>| data.len() >= 4 implies #[trigger] extends::<i16>(
        v,
        e,
        data,
    ) by {
        assert(with_uint(data, 2, (v as u16) as nat, e).take(data.len() as int) =~= data);
    }
    assert forall|v: i16, data: Seq<u8>, suffix: Seq<u8>|
        data.len() >= 4 && encoded_fits::<i16>(v, e, data, suffix) implies #[trigger] reads_back::<
        i16,
    >(v, e, data, suffix) by {
        law_round_trip_i16(v, e, data, suffix);
    }
}

/// Every `i32` is read back.
pub proof fn lemma_always_reads_back_i32(e: Endianness)
    ensures
        always_reads_back::<i32>(e),
{
    assert forall|v: i32, data: Seq<u8>| data.len() >= 4 implies #[trigger] extends::<i32>(
        v,
        e,
        data,
    ) by {
        assert(with_uint(data, 4, (v as u32) as nat, e).take(data.len() as int) =~= data);
    }
    assert forall|v: i32, data: Seq<u8>, suffix: Seq<u8>|
        data.len() >= 4 && encoded_fits::<i32>(v, e, data, suffix) implies #[trigger] reads_back::<
        i32,
    >(v, e, data, suffix) by {
        law_round_trip_i32(v, e, data, suffix);
    }
}

/// Every `i64` is read back.
pub proof fn lemma_always_reads_back_i64(e: Endianness)
    ensures
        always_reads_back::<i64>(e),
{
    assert forall|v: i64, data: Seq<u8>| data.len() >= 4 implies #[trigger] extends::<i64>(
        v,
        e,
        data,
    ) by {
        assert(with_uint(data, 8, (v as u64) as nat, e).take(data.len() as int) =~= data);
    }
    assert forall|v: i64, data: Seq<u8>, suffix: Seq<u8>|
        data.len() >= 4 && encoded_fits::<i64>(v, e, data, suffix) implies #[trigger] reads_back::<
        i64,
    >(v, e, data, suffix) by {
        law_round_trip_i64(v, e, data, suffix);
    }
}

/// Every `WChar32` is read back.
pub proof fn lemma_always_reads_back_wchar32(e: Endianness)
    ensures
        always_reads_back::<WChar32>(e),
{
    assert forall|v: WChar32, data: Seq<u8>| data.len() >= 4 implies #[trigger] extends::<WChar32>(
        v,
        e,
        data,
    ) by {
        assert(with_uint(data, 4, (v.0 as u32) as nat, e).take(data.len() as int) =~= data);
    }
    assert forall|v: WChar32, data: Seq<u8>, suffix: Seq<u8>|
        data.len() >= 4 && encoded_fits::<WChar32>(v, e, data, suffix) implies #[trigger] reads_back::<
        WChar32,
    >(v, e, data, suffix) by {
        law_round_trip_wchar32(v, e, data, suffix);
    }
}


/// The bytes of code units, two each in byte order `e`.
pub open spec fn units_bytes(us: Seq<u16>, e: Endianness) -> Seq<u8>
    decreases us.len(),
{
    if us.len() == 0 {
        Seq::empty()
    } else {
        units_bytes(us.drop_last(), e) + uint_bytes(us.last() as nat, 2, e)
    }
}

/// Code units written on top of a buffer whose body has even length need no padding.
pub proof fn lemma_with_units(d: Seq<u8>, us: Seq<u16>, e: Endianness)
    requires
        d.len() >= 4,
        body_len(d) % 2 == 0,
    ensures
        with_units(d, us, e) == d + units_bytes(us, e),
        units_bytes(us, e).len() == 2 * us.len(),
    decreases us.len(),
{
    if us.len() > 0 {
        let pre = us.drop_last();
        lemma_with_units(d, pre, e);
        let d1 = d + units_bytes(pre, e);
        assert(body_len(d1) == body_len(d) + 2 * pre.len());
        assert(padding(d1, 2) =~= Seq::<u8>::empty());
        lemma_uint_bytes_len(us.last() as nat, 2, e);
        assert(with_uint(d1, 2, us.last() as nat, e) =~= d + units_bytes(us, e));
    }
}

/// Reading the units back from their bytes gives the units.
pub proof fn lemma_units_of_bytes(us: Seq<u16>, e: Endianness)
    ensures
        units_bytes(us, e).len() == 2 * us.len(),
        units_of(units_bytes(us, e), e) == us,
    decreases us.len(),
{
    if us.len() > 0 {
        let pre = us.drop_last();
        let n = us.len() as int;
        lemma_units_of_bytes(pre, e);
        lemma_pow256_values();
        lemma_uint_round_trip(us.last() as nat, 2, e);
        let b0 = units_bytes(pre, e);
        let b = units_bytes(us, e);
        assert forall|i: int| 0 <= i < n implies #[trigger] units_of(b, e)[i] == us[i] by {
            if i < n - 1 {
                assert(b.subrange(2 * i, 2 * i + 2) =~= b0.subrange(2 * i, 2 * i + 2));
                assert(units_of(b0, e)[i] == pre[i]);
            } else {
                assert(b.subrange(2 * i, 2 * i + 2) =~= uint_bytes(us.last() as nat, 2, e));
            }
        }
        assert(units_of(b, e) =~= us);
    }
}

/// A wide string whose UTF-16 form (with its NUL unit) has a count that fits in 32 bits is read
/// back: reading its bytes succeeds, their units without the trailing NUL decode to the string,
/// and the read ends where the write ended.
pub proof fn law_round_trip_wstring(v: Seq<char>, e: Endianness, data: Seq<u8>, suffix: Seq<u8>)
    requires
        data.len() >= 4,
        utf16_encode(v).len() + 1 < 0x1_0000_0000,
        (with_wstring(data, v, e) + suffix).len() <= usize::MAX,
    ensures
        ({
            let payload = payload_of(with_wstring(data, v, e), suffix);
            let pos = data.len() - 4;
            &&& wide_outcome(payload, pos, e) matches Ok(raw) && utf16_decode(
                units_of(strip_nul_unit(raw), e),
            ) == Some(v)
            &&& wide_end(payload, pos, e) == with_wstring(data, v, e).len() - 4
        }),
{
    let us = utf16_encode(v);
    let n = us.len();
    let count = count_with_nul(n as int);
    assert(count == n + 1);
    lemma_pow256_values();
    let h = with_uint(data, 4, count as nat, e);
    lemma_uint_bytes_len(count as nat, 4, e);
    assert(body_len(h) % 4 == 0);
    lemma_with_units(h, us, e);
    lemma_units_of_bytes(us, e);
    let ub = units_bytes(us, e);
    let d2 = h + ub;
    assert(padding(d2, 2) =~= Seq::<u8>::empty());
    assert(uint_bytes(0, 2, e) =~= seq![0u8, 0u8]) by {
        reveal_with_fuel(le_bytes, 3);
    }
    let d = with_wstring(data, v, e);
    assert(d =~= h + (ub + seq![0u8, 0u8]));
    let rest = ub + seq![0u8, 0u8];
    assert(h + (rest + suffix) =~= d + suffix);
    lemma_fixed_round_trip(data, 4, count as nat, e, rest + suffix);
    lemma_uint_round_trip(count as nat, 4, e);
    let payload = payload_of(d, suffix);
    assert(payload =~= payload_of(h, rest + suffix));
    let p = h.len() - 4;
    assert(payload.subrange(p, p + 2 * count) =~= rest);
    assert(strip_nul_unit(rest) =~= ub);
    lemma_utf16_round_trip(v);
}


/// Whatever `T` `encode_to_vec` writes, `decode_from_bytes` reads back, for every type whose
/// values are always read back.
pub proof fn law_message_round_trip<T: DecodeCdr + EncodeCdr>(v: T::V)
    requires
        always_reads_back::<T>(Endianness::Little),
        encoded_fits::<T>(
            v,
            Endianness::Little,
            header_bytes(CdrRepresentation::Xcdr1, Endianness::Little),
            Seq::empty(),
        ),
    ensures
        message_reads_back::<T>(v),
{
    let header = header_bytes(CdrRepresentation::Xcdr1, Endianness::Little);
    assert(reads_back::<T>(v, Endianness::Little, header, Seq::empty()));
    assert(extends::<T>(v, Endianness::Little, header));
    if let Some(d) = T::spec_encode(v, Endianness::Little, header) {
        assert(d + Seq::<u8>::empty() =~= d);
        assert(d.subrange(0, 4) =~= header);
        assert(parse_outcome(d) == parse_outcome(header));
        law_header_round_trip(CdrRepresentation::Xcdr1, Endianness::Little);
    }
}

/// Borrowed strings read from a payload are the strings that owned reads give, one after another
/// as well.
pub proof fn law_borrowed_strings_match_owned(payload: Seq<u8>, pos: int, e: Endianness, n: nat)
    ensures
        borrow_decode_many::<&str>(payload, pos, e, n) == decode_many::<String>(payload, pos, e, n),
    decreases n,
{
    if n > 0 {
        law_borrowed_strings_match_owned(payload, pos, e, (n - 1) as nat);
    }
}


/// The bytes of numbers written back to back hold, chunk by chunk, the bytes of each number.
pub proof fn lemma_concat_uints_chunks(us: Seq<nat>, w: nat, e: Endianness)
    requires
        w > 0,
    ensures
        concat_uints(us, w, e).len() == us.len() * w,
        forall|i: int|
            0 <= i < us.len() ==> #[trigger] chunk(concat_uints(us, w, e), w as int, i) == uint_bytes(
                us[i],
                w,
                e,
            ),
    decreases us.len(),
{
    if us.len() > 0 {
        let n = us.len() as int;
        let pre = us.drop_last();
        lemma_concat_uints_chunks(pre, w, e);
        lemma_uint_bytes_len(us.last(), w, e);
        lemma_chunk_offsets(n - 1, n, w as int);
        let b0 = concat_uints(pre, w, e);
        let b = concat_uints(us, w, e);
        assert forall|i: int| 0 <= i < n implies #[trigger] chunk(b, w as int, i) == uint_bytes(
            us[i],
            w,
            e,
        ) by {
            lemma_chunk_offsets(i, n, w as int);
            if i < n - 1 {
                lemma_chunk_offsets(i, n - 1, w as int);
                assert(chunk(b, w as int, i) =~= chunk(b0, w as int, i));
                assert(pre[i] == us[i]);
            } else {
                assert(chunk(b, w as int, i) =~= uint_bytes(us.last(), w, e));
            }
        }
    }
}

/// The numbers that the chunks of their written bytes hold are the numbers written.
pub proof fn lemma_chunks_of_written<T: PrimitiveValue>(vs: Seq<T>, e: Endianness)
    ensures
        chunks_view::<T>(concat_uints(uints_of(vs), spec_size_of::<T>(), e), e) == vs,
        concat_uints(uints_of(vs), spec_size_of::<T>(), e).len() == vs.len() * spec_size_of::<T>(),
{
    let w = spec_size_of::<T>();
    T::lemma_chunk(arbitrary(), e);
    let us = uints_of(vs);
    lemma_concat_uints_chunks(us, w, e);
    let b = concat_uints(us, w, e);
    lemma_div_len(b.len() as int, w as int, vs.len() as int);
    assert forall|i: int| 0 <= i < vs.len() implies #[trigger] chunks_view::<T>(b, e)[i] == vs[i] by {
        T::lemma_chunk(vs[i], e);
        assert(chunk(b, w as int, i) == uint_bytes(us[i], w, e));
    }
    assert(chunks_view::<T>(b, e) =~= vs);
}

/// Numbers written by a `write_*_seq` method (their count, padding to their size, then their
/// bytes) on top of a buffer that holds a header are read back by the matching `read_*_seq`,
/// and the read ends where the write ended.
pub proof fn law_round_trip_prim_seq<T: PrimitiveValue>(
    vs: Seq<T>,
    e: Endianness,
    data: Seq<u8>,
    suffix: Seq<u8>,
    context: &'static str,
)
    requires
        data.len() >= 4,
        vs.len() < 0x1_0000_0000,
        vs.len() * spec_size_of::<T>() <= usize::MAX,
        (prim_slice_written(data, uints_of(vs), spec_size_of::<T>() as int, e, true).0
            + suffix).len() <= usize::MAX,
    ensures
        ({
            let d = prim_slice_written(data, uints_of(vs), spec_size_of::<T>() as int, e, true).0;
            let payload = payload_of(d, suffix);
            let w = spec_size_of::<T>() as int;
            &&& prim_seq_outcome(payload, data.len() - 4, e, w, context) matches Ok(b)
                && chunks_view::<T>(b, e) == vs
            &&& prim_seq_end(payload, data.len() - 4, e, w) == d.len() - 4
        }),
{
    let w = spec_size_of::<T>();
    T::lemma_chunk(arbitrary(), e);
    lemma_pow256_values();
    let n = vs.len();
    let us = uints_of(vs);
    let h = with_uint(data, 4, n, e);
    lemma_uint_bytes_len(n, 4, e);
    lemma_chunks_of_written::<T>(vs, e);
    let body = concat_uints(us, w, e);
    let pad = padding(h, w as int);
    let d = prim_slice_written(data, us, w as int, e, true).0;
    assert(us.len() == n);
    assert((n as u32) as nat == n);
    assert(d =~= h + (pad + body));
    assert(h + ((pad + body) + suffix) =~= d + suffix);
    lemma_fixed_round_trip(data, 4, n, e, (pad + body) + suffix);
    lemma_uint_round_trip(n, 4, e);
    let payload = payload_of(d, suffix);
    assert(payload =~= payload_of(h, (pad + body) + suffix));
    let p = h.len() - 4;
    assert(body_len(h) == p);
    assert(align_up(p, w as int) == p + pad.len());
    let start = p + pad.len();
    assert(payload.subrange(start, start + n * w) =~= body);
}

/// Numbers written by a `write_*_array` method (padding to their size, then their bytes) on top
/// of a buffer that holds a header are read back by the matching `read_*_array`, and the read
/// ends where the write ended.
pub proof fn law_round_trip_prim_array<T: PrimitiveValue>(
    vs: Seq<T>,
    e: Endianness,
    data: Seq<u8>,
    suffix: Seq<u8>,
    context: &'static str,
)
    requires
        data.len() >= 4,
        vs.len() * spec_size_of::<T>() <= usize::MAX,
        (prim_slice_written(data, uints_of(vs), spec_size_of::<T>() as int, e, false).0
            + suffix).len() <= usize::MAX,
    ensures
        ({
            let d = prim_slice_written(data, uints_of(vs), spec_size_of::<T>() as int, e, false).0;
            let payload = payload_of(d, suffix);
            let w = spec_size_of::<T>() as int;
            &&& prim_array_outcome(payload, data.len() - 4, vs.len() as int, w, context) matches Ok(b)
                && chunks_view::<T>(b, e) == vs
            &&& prim_array_end(payload, data.len() - 4, vs.len() as int, w) == d.len() - 4
        }),
{
    let w = spec_size_of::<T>();
    T::lemma_chunk(arbitrary(), e);
    let n = vs.len();
    let us = uints_of(vs);
    lemma_chunks_of_written::<T>(vs, e);
    let body = concat_uints(us, w, e);
    let pad = padding(data, w as int);
    let d = prim_slice_written(data, us, w as int, e, false).0;
    assert(us.len() == n);
    assert(d =~= data + (pad + body));
    let payload = payload_of(d, suffix);
    let p = data.len() - 4;
    assert(body_len(data) == p);
    assert(align_up(p, w as int) == p + pad.len());
    let start = p + pad.len();
    assert(payload.subrange(start, start + n * w) =~= body);
}


/// Reading a `T` reads `size_of::<T>()` bytes aligned to their size and takes the number they
/// hold: the element reads of the generic sequence reader agree with the chunks of the
/// specialized ones.
pub open spec fn reads_as_chunk<T: DecodeCdr + PrimitiveValue + View<V = T>>(e: Endianness) -> bool {
    forall|payload: Seq<u8>, p: int|
        #[trigger] T::spec_decode(payload, p, e) == match fixed_read(
            payload,
            p,
            spec_size_of::<T>() as int,
        ) {
            Some((b, q)) => Some((T::spec_from_chunk(b, e), q)),
            None => None,
        }
}

/// Aligning to a width of 2, 4 or 8 reaches a multiple of it, and stays at one after whole steps
/// of it.
pub proof fn lemma_align_steps(q: int, w: int, m: int)
    requires
        0 <= q,
        0 <= m,
        w == 2 || w == 4 || w == 8,
    ensures
        q <= align_up(q, w),
        align_up(q, w) % w == 0,
        align_up(align_up(q, w) + m * w, w) == align_up(q, w) + m * w,
{
    if w == 2 {
        assert(align_up(q, 2) % 2 == 0);
        assert((align_up(q, 2) + m * 2) % 2 == 0);
    } else if w == 4 {
        assert(align_up(q, 4) % 4 == 0);
        assert((align_up(q, 4) + m * 4) % 4 == 0);
    } else {
        assert(align_up(q, 8) % 8 == 0);
        assert((align_up(q, 8) + m * 8) % 8 == 0);
    }
}

/// Reading `n` numbers one at a time from `q` reads the `n` chunks that start at `q` aligned,
/// and ends after them (after none, at `q` itself).
pub proof fn lemma_decode_many_chunks<T: DecodeCdr + PrimitiveValue + View<V = T>>(
    payload: Seq<u8>,
    q: int,
    e: Endianness,
    n: nat,
)
    requires
        reads_as_chunk::<T>(e),
        0 <= q,
        payload.len() <= usize::MAX,
    ensures
        ({
            let w = spec_size_of::<T>() as int;
            let start = align_up(q, w);
            decode_many::<T>(payload, q, e, n) == if n == 0 {
                Some((Seq::<T>::empty(), q))
            } else if start + n * w <= payload.len() {
                Some((chunks_view::<T>(payload.subrange(start, start + n * w), e), start + n * w))
            } else {
                None
            }
        }),
    decreases n,
{
    let w = spec_size_of::<T>() as int;
    T::lemma_chunk(arbitrary(), e);
    let start = align_up(q, w);
    if n > 0 {
        lemma_decode_many_chunks::<T>(payload, q, e, (n - 1) as nat);
        let m = n - 1;
        lemma_align_steps(q, w, m);
        lemma_chunk_offsets(m, n as int, w);
        assert(m * w + w == n * w);
        assert(0 <= m * w);
        let p = if m == 0 {
            q
        } else {
            start + m * w
        };
        assert(align_up(p, w) == start + m * w);
        assert(T::spec_decode(payload, p, e) == match fixed_read(payload, p, w) {
            Some((b, q2)) => Some((T::spec_from_chunk(b, e), q2)),
            None => None,
        });
        if start + n * w <= payload.len() {
            let sub = payload.subrange(start, start + n * w);
            let sub0 = payload.subrange(start, start + m * w);
            let last = payload.subrange(start + m * w, start + n * w);
            lemma_div_len(sub.len() as int, w, n as int);
            lemma_div_len(sub0.len() as int, w, m as int);
            let vs = chunks_view::<T>(sub, e);
            let vs0 = chunks_view::<T>(sub0, e);
            assert forall|i: int| 0 <= i < n implies #[trigger] vs[i] == vs0.push(
                T::spec_from_chunk(last, e),
            )[i] by {
                lemma_chunk_offsets(i, n as int, w);
                if i < m {
                    lemma_chunk_offsets(i, m as int, w);
                    assert(chunk(sub, w, i) =~= chunk(sub0, w, i));
                } else {
                    assert(chunk(sub, w, i) =~= last);
                }
            }
            assert(vs =~= vs0.push(T::spec_from_chunk(last, e)));
            if m == 0 {
                assert(vs0 =~= Seq::<T>::empty());
            }
        } else {
            if m > 0 && start + m * w <= payload.len() {
                assert(start + m * w + w > payload.len());
            }
        }
    }
}

/// The specialized sequence readers (`read_u16_seq`, `read_primitive_seq_borrowed` and the
/// like) read the values that the generic `read_seq` reads, and fail exactly when it fails; for
/// a non-empty sequence they also end where it ends. (An empty sequence of 8-byte values whose count ends at a position that
/// is not a multiple of 8 is where they part: the specialized reader still skips the padding.)
pub proof fn law_fast_seq_matches_generic<T: DecodeCdr + PrimitiveValue + View<V = T>>(
    payload: Seq<u8>,
    pos: int,
    e: Endianness,
    context: &'static str,
)
    requires
        reads_as_chunk::<T>(e),
        0 <= pos,
        payload.len() <= usize::MAX,
    ensures
        match fixed_outcome(payload, pos, 4) {
            Err(_) => prim_seq_outcome(payload, pos, e, spec_size_of::<T>() as int, context) is Err,
            Ok(lb) => {
                let n = uint_value(lb, e);
                let q = fixed_end(payload, pos, 4);
                let w = spec_size_of::<T>() as int;
                &&& (prim_seq_outcome(payload, pos, e, w, context) is Ok) == (decode_many::<T>(
                    payload,
                    q,
                    e,
                    n,
                ) is Some)
                &&& prim_seq_outcome(payload, pos, e, w, context) matches Ok(b) ==> decode_many::<T>(
                    payload,
                    q,
                    e,
                    n,
                ) matches Some((vs, p)) && vs == chunks_view::<T>(b, e) && (n > 0 ==> p
                    == prim_seq_end(payload, pos, e, w))
            },
        },
{
    let w = spec_size_of::<T>() as int;
    T::lemma_chunk(arbitrary(), e);
    if let Ok(lb) = fixed_outcome(payload, pos, 4) {
        let n = uint_value(lb, e);
        let q = fixed_end(payload, pos, 4);
        assert(align_up(pos, 4) >= pos) by {
            lemma_align_steps(pos, 4, 0);
        }
        assert(q >= 0);
        lemma_decode_many_chunks::<T>(payload, q, e, n);
        let start = align_up(q, w);
        lemma_align_steps(q, w, 0);
        assert(n * w >= 0) by (nonlinear_arith)
            requires
                n >= 0,
                w > 0,
        ;
        if n == 0 {
            assert(n * w == 0);
            assert(chunks_view::<T>(Seq::<u8>::empty(), e) =~= Seq::<T>::empty());
        } else {
            assert(n * w >= w) by (nonlinear_arith)
                requires
                    n >= 1,
                    w > 0,
            ;
        }
        if n * w > usize::MAX {
            assert(start + n * w > payload.len());
        }
    }
}

/// The specialized array readers (`read_u32_array`, `read_primitive_array_borrowed` and the
/// like) read the values that the generic `read_array` reads, and fail exactly when it fails;
/// for a non-empty array they also end where it ends. (For an empty array the specialized
/// reader still skips the padding to the values' size.)
pub proof fn law_fast_array_matches_generic<T: DecodeCdr + PrimitiveValue + View<V = T>>(
    payload: Seq<u8>,
    pos: int,
    e: Endianness,
    n: nat,
    context: &'static str,
)
    requires
        reads_as_chunk::<T>(e),
        0 <= pos,
        payload.len() <= usize::MAX,
    ensures
        ({
            let w = spec_size_of::<T>() as int;
            &&& (prim_array_outcome(payload, pos, n as int, w, context) is Ok) == (decode_many::<T>(
                payload,
                pos,
                e,
                n,
            ) is Some)
            &&& prim_array_outcome(payload, pos, n as int, w, context) matches Ok(b)
                ==> decode_many::<T>(payload, pos, e, n) matches Some((vs, p)) && vs
                == chunks_view::<T>(b, e) && (n > 0 ==> p == prim_array_end(
                payload,
                pos,
                n as int,
                w,
            ))
        }),
{
    let w = spec_size_of::<T>() as int;
    T::lemma_chunk(arbitrary(), e);
    lemma_decode_many_chunks::<T>(payload, pos, e, n);
    let start = align_up(pos, w);
    lemma_align_steps(pos, w, 0);
    assert(n * w >= 0) by (nonlinear_arith)
        requires
            n >= 0,
            w > 0,
    ;
    if n == 0 {
        assert(n * w == 0);
        assert(chunks_view::<T>(Seq::<u8>::empty(), e) =~= Seq::<T>::empty());
    } else {
        assert(n * w >= w) by (nonlinear_arith)
            requires
                n >= 1,
                w > 0,
        ;
    }
    if n * w > usize::MAX {
        assert(start + n * w > payload.len());
    }
}

/// Every `u16` is read as a chunk.
pub proof fn lemma_reads_as_chunk_u16(e: Endianness)
    ensures
        reads_as_chunk::<u16>(e),
{
}

/// Every `u32` is read as a chunk.
pub proof fn lemma_reads_as_chunk_u32(e: Endianness)
    ensures
        reads_as_chunk::<u32>(e),
{
}

/// Every `u64` is read as a chunk.
pub proof fn lemma_reads_as_chunk_u64(e: Endianness)
    ensures
        reads_as_chunk::<u64>(e),
{
}

/// Every `i16` is read as a chunk.
pub proof fn lemma_reads_as_chunk_i16(e: Endianness)
    ensures
        reads_as_chunk::<i16>(e),
{
}

/// Every `i32` is read as a chunk.
pub proof fn lemma_reads_as_chunk_i32(e: Endianness)
    ensures
        reads_as_chunk::<i32>(e),
{
}

/// Every `i64` is read as a chunk.
pub proof fn lemma_reads_as_chunk_i64(e: Endianness)
    ensures
        reads_as_chunk::<i64>(e),
{
}

/// Writing one value with the generic writer gives its bytes, aligned to its size: the way
/// the specialized writers write each value.
pub open spec fn writes_as_chunk<T: EncodeCdr + PrimitiveValue + View<V = T>>(e: Endianness) -> bool {
    forall|v: T, d: Seq<u8>|
        #[trigger] T::spec_encode(v, e, d) == Some(
            with_uint(d, spec_size_of::<T>() as int, T::spec_to_uint(v), e),
        )
}

/// A padded buffer that holds a header has a body that is a whole number of `w`-byte units.
pub proof fn lemma_padded_body(data: Seq<u8>, w: int)
    requires
        w > 0,
        data.len() >= 4,
    ensures
        body_len(padded(data, w)) % w == 0,
{
    let b = body_len(data);
    assert(body_len(padded(data, w)) == b + (w - b % w) % w);
    assert((b + (w - b % w) % w) % w == 0) by (nonlinear_arith)
        requires
            w > 0,
            b >= 0,
    ;
}

/// Writing the non-empty values `vs` one after another with the generic writer, on top of a
/// buffer that holds a header, gives the padding to their size and then their bytes.
pub proof fn lemma_encode_many_chunks<T: EncodeCdr + PrimitiveValue + View<V = T>>(
    vs: Seq<T>,
    e: Endianness,
    base: Seq<u8>,
)
    requires
        writes_as_chunk::<T>(e),
        base.len() >= 4,
        vs.len() > 0,
    ensures
        encode_many::<T>(vs, e, base) == Some(
            padded(base, spec_size_of::<T>() as int) + concat_uints(
                uints_of(vs),
                spec_size_of::<T>(),
                e,
            ),
        ),
    decreases vs.len(),
{
    let w = spec_size_of::<T>();
    T::lemma_chunk(vs.last(), e);
    let pre = vs.drop_last();
    assert(uints_of(vs).drop_last() =~= uints_of(pre));
    assert(uints_of(vs).last() == T::spec_to_uint(vs.last()));
    if pre.len() == 0 {
        assert(uints_of(pre) =~= Seq::<nat>::empty());
        assert(concat_uints(uints_of(pre), w, e) =~= Seq::<u8>::empty());
        assert(padded(base, w as int) + Seq::<u8>::empty() =~= padded(base, w as int));
        assert(concat_uints(uints_of(vs), w, e) =~= uint_bytes(T::spec_to_uint(vs.last()), w, e));
    } else {
        lemma_encode_many_chunks::<T>(pre, e, base);
        let d = padded(base, w as int) + concat_uints(uints_of(pre), w, e);
        lemma_concat_uints_chunks(uints_of(pre), w, e);
        lemma_padded_body(base, w as int);
        let pb = padded(base, w as int);
        let n = pre.len() as int;
        assert(n * w == w * n) by (nonlinear_arith);
        assert(body_len(d) == w * n + body_len(pb));
        vstd::arithmetic::div_mod::lemma_mod_multiples_vanish(n, body_len(pb), w as int);
        assert(body_len(d) % (w as int) == 0);
        vstd::arithmetic::div_mod::lemma_mod_self_0(w as int);
        assert(padding(d, w as int).len() == 0);
        assert(padding(d, w as int) =~= Seq::<u8>::empty());
        assert(padded(d, w as int) =~= d);
        assert(concat_uints(uints_of(vs), w, e) =~= concat_uints(uints_of(pre), w, e) + uint_bytes(
            T::spec_to_uint(vs.last()),
            w,
            e,
        ));
        assert(with_uint(d, w as int, T::spec_to_uint(vs.last()), e) =~= pb + concat_uints(
            uints_of(vs),
            w,
            e,
        ));
    }
}

/// The specialized writers (`write_u64_seq`, `write_u32_array` and the like) write, for
/// non-empty values whose bytes fit in `usize`, exactly what the generic `write_seq` and
/// `write_array` write. (For an empty sequence the specialized writer still pads to the values'
/// size; an array written without a count on a buffer shorter than its header is padded from
/// a different start.)
pub proof fn law_fast_write_matches_generic<T: EncodeCdr + PrimitiveValue + View<V = T>>(
    vs: Seq<T>,
    e: Endianness,
    data: Seq<u8>,
    counted: bool,
)
    requires
        writes_as_chunk::<T>(e),
        vs.len() > 0,
        vs.len() * spec_size_of::<T>() <= usize::MAX,
        counted || data.len() >= 4,
    ensures
        ({
            let base = if counted {
                with_uint(data, 4, (vs.len() as u32) as nat, e)
            } else {
                data
            };
            let (d, ok) = prim_slice_written(data, uints_of(vs), spec_size_of::<T>() as int, e, counted);
            &&& ok
            &&& encode_many::<T>(vs, e, base) == Some(d)
        }),
{
    let base = if counted {
        with_uint(data, 4, (vs.len() as u32) as nat, e)
    } else {
        data
    };
    if counted {
        lemma_uint_bytes_len((vs.len() as u32) as nat, 4, e);
    }
    assert(base.len() >= 4);
    assert(uints_of(vs).len() == vs.len());
    lemma_encode_many_chunks::<T>(vs, e, base);
}

/// Every `u16` is written as a chunk.
pub proof fn lemma_writes_as_chunk_u16(e: Endianness)
    ensures
        writes_as_chunk::<u16>(e),
{
}

/// Every `u32` is written as a chunk.
pub proof fn lemma_writes_as_chunk_u32(e: Endianness)
    ensures
        writes_as_chunk::<u32>(e),
{
}

/// Every `u64` is written as a chunk.
pub proof fn lemma_writes_as_chunk_u64(e: Endianness)
    ensures
        writes_as_chunk::<u64>(e),
{
}

/// Every `i16` is written as a chunk.
pub proof fn lemma_writes_as_chunk_i16(e: Endianness)
    ensures
        writes_as_chunk::<i16>(e),
{
}

/// Every `i32` is written as a chunk.
pub proof fn lemma_writes_as_chunk_i32(e: Endianness)
    ensures
        writes_as_chunk::<i32>(e),
{
}

/// Every `i64` is written as a chunk.
pub proof fn lemma_writes_as_chunk_i64(e: Endianness)
    ensures
        writes_as_chunk::<i64>(e),
{
}

} // verus!
