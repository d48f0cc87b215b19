use ros2_message_gen::codec::{
    borrow_decode_from_bytes, decode_from_bytes, encode_to_vec, DecodeCdr, EncodeCdr, WChar16,
    WChar32,
};
use ros2_message_gen::decoder::CdrDecoder;
use ros2_message_gen::encoder::CdrEncoder;
use ros2_message_gen::encoding::{CdrEncoding, CdrRepresentation};
use ros2_message_gen::wire::Endianness;

fn encoder(endianness: Endianness) -> CdrEncoder {
    CdrEncoder::new(CdrEncoding { cdr_representation: CdrRepresentation::Xcdr1, endianness })
}

#[test]
fn header_bytes_for_each_encoding() {
    let cases = [
        (CdrRepresentation::Xcdr1, Endianness::Big, [0x00, 0x00, 0x00, 0x00]),
        (CdrRepresentation::Xcdr1, Endianness::Little, [0x00, 0x01, 0x00, 0x00]),
        (CdrRepresentation::Xcdr2, Endianness::Big, [0x00, 0x02, 0x00, 0x00]),
        (CdrRepresentation::Xcdr2, Endianness::Little, [0x00, 0x03, 0x00, 0x00]),
    ];
    for (rep, e, bytes) in cases {
        let enc = CdrEncoding { cdr_representation: rep, endianness: e };
        assert_eq!(CdrEncoding::serialize(&enc), bytes.to_vec());
        let mut data = bytes.to_vec();
        data.extend_from_slice(&[9, 8]);
        let (parsed, rest) = CdrEncoding::parse(&data).unwrap();
        assert_eq!(parsed.cdr_representation, rep);
        assert_eq!(parsed.endianness, e);
        assert_eq!(rest, &[9, 8]);
    }
}

#[test]
fn big_endian_values_and_alignment() {
    let mut enc = encoder(Endianness::Big);
    enc.write_u8(1);
    enc.write_u16(0x0203);
    enc.write_u8(4);
    enc.write_u32(0x0506_0708);
    enc.write_i64(-2);
    assert_eq!(
        enc.data_raw,
        vec![
            0, 0, 0, 0, 1, 0, 2, 3, 4, 0, 0, 0, 5, 6, 7, 8, 0, 0, 0, 0, 0xff, 0xff, 0xff, 0xff,
            0xff, 0xff, 0xff, 0xfe
        ]
    );
    let mut dec = CdrDecoder::new(&enc.data_raw).unwrap();
    assert_eq!(dec.read_u8().unwrap(), 1);
    assert_eq!(dec.read_u16().unwrap(), 0x0203);
    assert_eq!(dec.read_u8().unwrap(), 4);
    assert_eq!(dec.read_u32().unwrap(), 0x0506_0708);
    assert_eq!(dec.read_i64().unwrap(), -2);
    assert!(dec.read_u8().is_err());
}

#[test]
fn signed_values_round_trip_little_endian() {
    let mut enc = encoder(Endianness::Little);
    enc.write_i8(-1);
    enc.write_i16(-300);
    enc.write_i32(i32::MIN);
    enc.write_i64(i64::MAX);
    enc.write_bool(true);
    let mut dec = CdrDecoder::new(&enc.data_raw).unwrap();
    assert_eq!(dec.read_i8().unwrap(), -1);
    assert_eq!(dec.read_i16().unwrap(), -300);
    assert_eq!(dec.read_i32().unwrap(), i32::MIN);
    assert_eq!(dec.read_i64().unwrap(), i64::MAX);
    assert!(dec.read_bool().unwrap());
}

#[test]
fn string_layout_and_borrowed_read() {
    let mut enc = encoder(Endianness::Little);
    enc.write_u8(0xee);
    enc.write_string("hé");
    assert_eq!(
        enc.data_raw,
        vec![0, 1, 0, 0, 0xee, 0, 0, 0, 4, 0, 0, 0, b'h', 0xc3, 0xa9, 0]
    );
    let mut dec = CdrDecoder::new(&enc.data_raw).unwrap();
    assert_eq!(dec.read_u8().unwrap(), 0xee);
    assert_eq!(dec.read_str().unwrap(), "hé");
    assert_eq!(dec.pos, 12);

    let empty = [0u8, 1, 0, 0, 0, 0, 0, 0];
    let mut dec = CdrDecoder::new(&empty).unwrap();
    assert_eq!(dec.read_string().unwrap(), "");
    let unterminated = [0u8, 1, 0, 0, 2, 0, 0, 0, b'o', b'k'];
    let mut dec = CdrDecoder::new(&unterminated).unwrap();
    assert_eq!(dec.read_string().unwrap(), "ok");
    assert_eq!(borrow_decode_from_bytes::<&str>(&unterminated).unwrap(), "ok");
}

#[test]
fn wide_strings_round_trip() {
    let mut enc = encoder(Endianness::Little);
    enc.write_wstring("A😀");
    assert_eq!(
        enc.data_raw,
        vec![0, 1, 0, 0, 4, 0, 0, 0, 0x41, 0, 0x3d, 0xd8, 0x00, 0xde, 0, 0]
    );
    let mut dec = CdrDecoder::new(&enc.data_raw).unwrap();
    assert_eq!(dec.read_wstring().unwrap(), "A😀");

    let mut enc = encoder(Endianness::Big);
    enc.write_wchar16('Ω');
    enc.write_wchar32('😀');
    let mut dec = CdrDecoder::new(&enc.data_raw).unwrap();
    assert_eq!(dec.read_wchar_u16().unwrap(), 'Ω');
    assert_eq!(dec.read_wchar_u32().unwrap(), '😀');
}

#[test]
fn wchar16_keeps_first_unit_only() {
    let bytes = encode_to_vec(&WChar16('😀')).unwrap();
    assert_eq!(bytes, vec![0, 1, 0, 0, 0x3d, 0xd8]);
    assert!(decode_from_bytes::<WChar16>(&bytes).is_err());
    let bytes = encode_to_vec(&WChar32('😀')).unwrap();
    assert_eq!(decode_from_bytes::<WChar32>(&bytes).unwrap(), WChar32('😀'));
}

#[test]
fn octets_and_byte_arrays() {
    let mut enc = encoder(Endianness::Little);
    enc.write_u8(1);
    enc.write_octet_bytes(&[7, 8, 9]).unwrap();
    enc.write_bytes_raw(&[1, 2]);
    enc.align_to(4);
    assert_eq!(enc.data_raw, vec![0, 1, 0, 0, 1, 0, 0, 0, 3, 0, 0, 0, 7, 8, 9, 1, 2, 0, 0, 0]);
    let mut dec = CdrDecoder::new(&enc.data_raw).unwrap();
    assert_eq!(dec.read_u8().unwrap(), 1);
    assert_eq!(dec.read_octet_slice().unwrap(), &[7, 8, 9]);
    assert_eq!(dec.read_bytes(2).unwrap(), vec![1, 2]);
}

#[test]
fn char_values() {
    let mut enc = encoder(Endianness::Little);
    enc.write_char_u8(b'x');
    enc.write_char('y').unwrap();
    let mut dec = CdrDecoder::new(&enc.data_raw).unwrap();
    assert_eq!(dec.read_char().unwrap(), 'x');
    assert_eq!(char::decode_cdr(&mut dec).unwrap(), 'y');
}

#[test]
fn sequences_and_arrays_of_values() {
    let mut enc = encoder(Endianness::Little);
    enc.write_seq(&[String::from("a"), String::from("bc")]).unwrap();
    enc.write_array(&[1u16, 2, 3]).unwrap();
    let mut dec = CdrDecoder::new(&enc.data_raw).unwrap();
    assert_eq!(dec.read_seq::<String>().unwrap(), vec!["a", "bc"]);
    assert_eq!(dec.read_array::<u16, 3>().unwrap(), [1, 2, 3]);

    let data = enc.data_raw.clone();
    let mut dec = CdrDecoder::new(&data).unwrap();
    assert_eq!(dec.read_borrow_seq::<&str>().unwrap(), vec!["a", "bc"]);
}

#[test]
fn primitive_sequences_and_arrays() {
    let mut enc = encoder(Endianness::Little);
    enc.write_u8(0xaa);
    enc.write_u32_seq(&[1, 0x0102_0304]).unwrap();
    enc.write_i16_array(&[-1, 2]).unwrap();
    enc.write_u64_seq(&[u64::MAX]).unwrap();
    enc.write_i32_seq(&[]).unwrap();
    enc.write_i64_array(&[-5]).unwrap();
    enc.write_u16_seq(&[0xbeef]).unwrap();
    enc.write_u16_array(&[7, 8]).unwrap();
    enc.write_u32_array(&[9]).unwrap();
    enc.write_u64_array(&[10, 11]).unwrap();
    enc.write_i16_seq(&[-12]).unwrap();
    enc.write_i32_array(&[-13, 14]).unwrap();
    enc.write_i64_seq(&[-15]).unwrap();

    let mut dec = CdrDecoder::new(&enc.data_raw).unwrap();
    assert_eq!(dec.read_u8().unwrap(), 0xaa);
    assert_eq!(dec.read_u32_seq().unwrap(), vec![1, 0x0102_0304]);
    assert_eq!(dec.read_i16_array::<2>().unwrap(), [-1, 2]);
    assert_eq!(dec.read_u64_seq().unwrap(), vec![u64::MAX]);
    assert_eq!(dec.read_i32_seq().unwrap(), Vec::<i32>::new());
    assert_eq!(dec.read_i64_array::<1>().unwrap(), [-5]);
    assert_eq!(dec.read_u16_seq().unwrap(), vec![0xbeef]);
    assert_eq!(dec.read_u16_array::<2>().unwrap(), [7, 8]);
    assert_eq!(dec.read_u32_array::<1>().unwrap(), [9]);
    assert_eq!(dec.read_u64_array::<2>().unwrap(), [10, 11]);
    assert_eq!(dec.read_i16_seq().unwrap(), vec![-12]);
    assert_eq!(dec.read_i32_array::<2>().unwrap(), [-13, 14]);
    assert_eq!(dec.read_i64_seq().unwrap(), vec![-15]);
    assert!(dec.read_u8().is_err());
}

#[test]
fn borrowed_primitive_views() {
    let mut enc = encoder(Endianness::Big);
    enc.write_u16_seq(&[1, 2, 3]).unwrap();
    enc.write_i32_array(&[-4, 5]).unwrap();
    let mut dec = CdrDecoder::new(&enc.data_raw).unwrap();
    let seq = dec.read_primitive_seq_borrowed::<u16>().unwrap();
    assert_eq!(seq.len(), 3);
    assert!(!seq.is_empty());
    assert_eq!(seq.to_vec(), vec![1, 2, 3]);
    let mut iter = seq.iter();
    assert_eq!(iter.next(), Some(1));
    assert_eq!(iter.next(), Some(2));
    assert_eq!(iter.next(), Some(3));
    assert_eq!(iter.next(), None);
    let array = dec.read_primitive_array_borrowed::<i32, 2>().unwrap();
    assert_eq!(array.len(), 2);
    assert!(!array.is_empty());
    assert_eq!(array.to_array(), [-4, 5]);
    let mut iter = array.iter();
    assert_eq!(iter.next(), Some(-4));
    assert_eq!(iter.next(), Some(5));
    assert_eq!(iter.next(), None);
}

#[test]
fn encode_trait_writes_like_the_methods() {
    let mut a = encoder(Endianness::Little);
    3u16.encode_cdr(&mut a).unwrap();
    String::from("x").encode_cdr(&mut a).unwrap();
    (-9i32).encode_cdr(&mut a).unwrap();
    let mut b = encoder(Endianness::Little);
    b.write_u16(3);
    b.write_string("x");
    b.write_i32(-9);
    assert_eq!(a.data_raw, b.data_raw);
}

#[test]
fn specialized_and_generic_sequence_reads_agree() {
    let mut enc = encoder(Endianness::Little);
    enc.write_u8(1);
    enc.write_u64_seq(&[5, 6]).unwrap();
    enc.write_i16_seq(&[-3]).unwrap();
    let data = enc.data_raw.clone();

    let mut fast = CdrDecoder::new(&data).unwrap();
    let mut generic = CdrDecoder::new(&data).unwrap();
    assert_eq!(fast.read_u8().unwrap(), generic.read_u8().unwrap());
    assert_eq!(fast.read_u64_seq().unwrap(), generic.read_seq::<u64>().unwrap());
    assert_eq!(fast.pos, generic.pos);
    assert_eq!(fast.read_i16_seq().unwrap(), generic.read_seq::<i16>().unwrap());
    assert_eq!(fast.pos, generic.pos);
}

#[test]
fn empty_eight_byte_sequence_is_padded_only_by_the_specialized_path() {
    let mut enc = encoder(Endianness::Little);
    enc.write_u64_seq(&[]).unwrap();
    enc.write_u8(7);
    assert_eq!(enc.data_raw, vec![0, 1, 0, 0, 0, 0, 0, 0, 0, 0, 0, 0, 7]);

    let mut fast = CdrDecoder::new(&enc.data_raw).unwrap();
    assert!(fast.read_u64_seq().unwrap().is_empty());
    assert_eq!(fast.pos, 8);
    assert_eq!(fast.read_u8().unwrap(), 7);

    let mut generic = CdrDecoder::new(&enc.data_raw).unwrap();
    assert!(generic.read_seq::<u64>().unwrap().is_empty());
    assert_eq!(generic.pos, 4);
}


#[test]
fn borrowed_views_compare_by_value() {
    let mut big = encoder(Endianness::Big);
    big.write_u32_seq(&[1, 2]).unwrap();
    big.write_i16_array(&[-1, 4]).unwrap();
    let mut little = encoder(Endianness::Little);
    little.write_u32_seq(&[1, 2]).unwrap();
    little.write_i16_array(&[-1, 4]).unwrap();
    let mut other = encoder(Endianness::Little);
    other.write_u32_seq(&[1, 3]).unwrap();
    other.write_i16_array(&[-1, 5]).unwrap();

    let mut a = CdrDecoder::new(&big.data_raw).unwrap();
    let mut b = CdrDecoder::new(&little.data_raw).unwrap();
    let mut c = CdrDecoder::new(&other.data_raw).unwrap();
    let (sa, sb, sc) = (
        a.read_primitive_seq_borrowed::<u32>().unwrap(),
        b.read_primitive_seq_borrowed::<u32>().unwrap(),
        c.read_primitive_seq_borrowed::<u32>().unwrap(),
    );
    assert!(sa == sb);
    assert!(sa != sc);
    let (xa, xb, xc) = (
        a.read_primitive_array_borrowed::<i16, 2>().unwrap(),
        b.read_primitive_array_borrowed::<i16, 2>().unwrap(),
        c.read_primitive_array_borrowed::<i16, 2>().unwrap(),
    );
    assert!(xa == xb);
    assert!(xa != xc);
}

#[test]
fn fast_writes_match_generic_writes() {
    for endianness in [Endianness::Little, Endianness::Big] {
        let mut fast = encoder(endianness);
        let mut generic = encoder(endianness);
        fast.write_u8(9);
        generic.write_u8(9);
        fast.write_u64_seq(&[1, 0x0102_0304_0506_0708]).expect("fits");
        generic.write_seq(&[1u64, 0x0102_0304_0506_0708]).expect("fits");
        assert_eq!(fast.data_raw, generic.data_raw);

        fast.write_u8(3);
        generic.write_u8(3);
        fast.write_u32_array(&[7, 8, 9]).expect("fits");
        generic.write_array(&[7u32, 8, 9]).expect("fits");
        assert_eq!(fast.data_raw, generic.data_raw);

        fast.write_i16_seq(&[-1, 2]).expect("fits");
        generic.write_seq(&[-1i16, 2]).expect("fits");
        assert_eq!(fast.data_raw, generic.data_raw);
    }
}

#[test]
fn i64_after_leading_bytes_reads_back() {
    for endianness in [Endianness::Little, Endianness::Big] {
        for k in 0..8u8 {
            let mut enc = encoder(endianness);
            for b in 0..k {
                enc.write_u8(b);
            }
            enc.write_i64(-0x0102_0304_0506_0708);
            let mut dec = CdrDecoder::new(&enc.data_raw).expect("header is valid");
            for b in 0..k {
                assert_eq!(dec.read_u8().unwrap(), b);
            }
            assert_eq!(dec.read_i64().unwrap(), -0x0102_0304_0506_0708);
            assert_eq!(dec.pos, enc.data_raw.len() - 4);
        }
    }
}

#[test]
fn fast_reads_match_generic_reads() {
    for endianness in [Endianness::Little, Endianness::Big] {
        let mut enc = encoder(endianness);
        enc.write_u8(1);
        enc.write_u32_array(&[5, 6, 7]).expect("fits");
        enc.write_u8(2);
        enc.write_i16_seq(&[-3, 4]).expect("fits");
        let bytes = enc.data_raw.clone();

        let mut fast = CdrDecoder::new(&bytes).expect("header is valid");
        let mut generic = CdrDecoder::new(&bytes).expect("header is valid");
        let mut borrowed = CdrDecoder::new(&bytes).expect("header is valid");
        for d in [&mut fast, &mut generic, &mut borrowed] {
            assert_eq!(d.read_u8().unwrap(), 1);
        }
        let a = fast.read_u32_array::<3>().unwrap();
        let b = generic.read_array::<u32, 3>().unwrap();
        let c = borrowed.read_primitive_array_borrowed::<u32, 3>().unwrap();
        assert_eq!(a, b);
        assert_eq!(c.to_array(), b);
        assert_eq!(c.len(), 3);
        assert!(!c.is_empty());
        assert_eq!(fast.pos, generic.pos);
        assert_eq!(borrowed.pos, generic.pos);

        for d in [&mut fast, &mut generic, &mut borrowed] {
            assert_eq!(d.read_u8().unwrap(), 2);
        }
        let s = fast.read_i16_seq().unwrap();
        let g = generic.read_seq::<i16>().unwrap();
        let bs = borrowed.read_primitive_seq_borrowed::<i16>().unwrap();
        assert_eq!(s, g);
        assert_eq!(bs.to_vec(), g);
        assert_eq!(fast.pos, generic.pos);
        assert_eq!(borrowed.pos, generic.pos);

        let mut short_fast = CdrDecoder::new(&bytes[..8]).expect("header is valid");
        let mut short_generic = CdrDecoder::new(&bytes[..8]).expect("header is valid");
        short_fast.pos = 1;
        short_generic.pos = 1;
        assert!(short_fast.read_u32_array::<3>().is_err());
        assert!(short_generic.read_array::<u32, 3>().is_err());
    }
}

#[test]
fn wchar16_outside_bmp_writes_its_high_surrogate() {
    let mut enc = encoder(Endianness::Little);
    enc.write_wchar16('\u{1F600}');
    assert_eq!(enc.data_raw, vec![0x00, 0x01, 0x00, 0x00, 0x3d, 0xd8]);
    let mut dec = CdrDecoder::new(&enc.data_raw).expect("header is valid");
    assert!(matches!(
        dec.read_wchar_u16(),
        Err(ros2_message_gen::cdr_error::CdrError::InvalidUnicodeScalar {
            context: "CdrDecoder::read_wchar_u16",
            value: 0xD83D,
        })
    ));
}
