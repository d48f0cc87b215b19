use ros2_message_gen::codec::{decode_from_bytes, encode_to_vec, EncodeCdr, WChar16, WChar32};
use ros2_message_gen::decoder::CdrDecoder;
use ros2_message_gen::encoder::CdrEncoder;
use ros2_message_gen::encoding::{CdrEncoding, CdrRepresentation};
use ros2_message_gen::wire::Endianness;

fn little_endian_message(payload: &[u8]) -> Vec<u8> {
    let mut bytes = vec![0x00, 0x01, 0x00, 0x00];
    bytes.extend_from_slice(payload);
    bytes
}

#[test]
fn new_rejects_short_input() {
    assert!(CdrDecoder::new(&[0x00, 0x01, 0x00]).is_err());
}

#[test]
fn read_u32_uses_payload_after_encapsulation() {
    let bytes = little_endian_message(&[0x2a, 0x00, 0x00, 0x00]);
    let mut decoder = CdrDecoder::new(&bytes).expect("decoder should be created");
    assert_eq!(decoder.read_u32().expect("u32 should decode"), 42);
}

#[test]
fn read_u64_aligns_after_u8() {
    let bytes = little_endian_message(&[
        0x07, 0x00, 0x00, 0x00, 0x00, 0x00, 0x00, 0x00, 0x2a, 0x00, 0x00, 0x00, 0x00, 0x00, 0x00,
        0x00,
    ]);
    let mut decoder = CdrDecoder::new(&bytes).expect("decoder should be created");
    assert_eq!(decoder.read_u8().expect("u8 should decode"), 7);
    assert_eq!(decoder.read_u64().expect("u64 should decode"), 42);
}

#[test]
fn read_string_aligns_next_u64() {
    let bytes = little_endian_message(&[
        0x02, 0x00, 0x00, 0x00, b'a', 0x00, 0x00, 0x00, 0x2a, 0x00, 0x00, 0x00, 0x00, 0x00, 0x00,
        0x00,
    ]);
    let mut decoder = CdrDecoder::new(&bytes).expect("decoder should be created");
    assert_eq!(decoder.read_string().expect("string should decode"), "a");
    assert_eq!(decoder.read_u64().expect("u64 should decode"), 42);
}

#[test]
fn read_wstring_trims_utf16_terminator() {
    let bytes = little_endian_message(&[0x02, 0x00, 0x00, 0x00, 0x41, 0x00, 0x00, 0x00]);
    let mut decoder = CdrDecoder::new(&bytes).expect("decoder should be created");
    assert_eq!(decoder.read_wstring().expect("wstring should decode"), "A");
}

#[test]
fn read_wstring_rejects_invalid_utf16() {
    let bytes = little_endian_message(&[0x02, 0x00, 0x00, 0x00, 0x00, 0xd8, 0x00, 0x00]);
    let mut decoder = CdrDecoder::new(&bytes).expect("decoder should be created");
    assert!(decoder.read_wstring().is_err());
}

#[test]
fn read_octet_seq_reads_owned_bytes() {
    let bytes = little_endian_message(&[0x03, 0x00, 0x00, 0x00, 0xaa, 0xbb, 0xcc]);
    let mut decoder = CdrDecoder::new(&bytes).expect("decoder should be created");
    assert_eq!(
        decoder.read_octet_seq().expect("octet sequence should decode"),
        vec![0xaa, 0xbb, 0xcc]
    );
}

#[test]
fn read_seq_decodes_primitive_items() {
    let bytes = little_endian_message(&[0x03, 0x00, 0x00, 0x00, 0x11, 0x22, 0x33]);
    let mut decoder = CdrDecoder::new(&bytes).expect("decoder should be created");
    assert_eq!(
        decoder.read_seq::<u8>().expect("sequence should decode"),
        vec![0x11, 0x22, 0x33]
    );
}

#[test]
fn read_array_decodes_primitive_items() {
    let bytes = little_endian_message(&[0x34, 0x12, 0x78, 0x56]);
    let mut decoder = CdrDecoder::new(&bytes).expect("decoder should be created");
    assert_eq!(
        decoder.read_array::<u16, 2>().expect("array should decode"),
        [0x1234, 0x5678]
    );
}

#[test]
fn read_byte_array_reads_fixed_bytes() {
    let bytes = little_endian_message(&[0x2a, 0x2b, 0x2c, 0x2d]);
    let mut decoder = CdrDecoder::new(&bytes).expect("decoder should be created");
    assert_eq!(
        decoder.read_byte_array::<4>().expect("byte array should decode"),
        [0x2a, 0x2b, 0x2c, 0x2d]
    );
}

#[test]
fn wchar_wrapper_types_decode() {
    let wchar16_bytes = little_endian_message(&[0x41, 0x00]);
    assert_eq!(
        decode_from_bytes::<WChar16>(&wchar16_bytes).expect("wchar16 should decode"),
        WChar16('A')
    );

    let wchar32_bytes = little_endian_message(&[0x42, 0x00, 0x00, 0x00]);
    assert_eq!(
        decode_from_bytes::<WChar32>(&wchar32_bytes).expect("wchar32 should decode"),
        WChar32('B')
    );
}

#[test]
fn encode_round_trips_primitives() {
    let bytes = encode_to_vec(&42u32).expect("u32 should encode");
    assert_eq!(decode_from_bytes::<u32>(&bytes).expect("u32 should decode"), 42);

    let bytes = encode_to_vec(&-7i16).expect("i16 should encode");
    assert_eq!(decode_from_bytes::<i16>(&bytes).expect("i16 should decode"), -7);

    // A float travels as the bits of its IEEE 754 representation.
    let bytes = encode_to_vec(&3.5f32.to_bits()).expect("f32 should encode");
    assert_eq!(
        f32::from_bits(decode_from_bytes::<u32>(&bytes).expect("f32 should decode")),
        3.5
    );
}

#[test]
fn encode_round_trips_string() {
    let value = String::from("abc");
    let bytes = encode_to_vec(&value).expect("string should encode");
    assert_eq!(
        decode_from_bytes::<String>(&bytes).expect("string should decode"),
        value
    );
}

#[test]
fn encoder_aligns_u64_after_u8() {
    let mut encoder = CdrEncoder::new(CdrEncoding {
        cdr_representation: CdrRepresentation::Xcdr1,
        endianness: Endianness::Little,
    });
    7u8.encode_cdr(&mut encoder).expect("u8 should encode");
    42u64.encode_cdr(&mut encoder).expect("u64 should encode");

    let mut decoder = CdrDecoder::new(&encoder.data_raw).expect("decoder should be created");
    assert_eq!(decoder.read_u8().expect("u8 should decode"), 7);
    assert_eq!(decoder.read_u64().expect("u64 should decode"), 42);
}

#[test]
fn write_byte_array_encodes_fixed_bytes() {
    let mut encoder = CdrEncoder::new(CdrEncoding {
        cdr_representation: CdrRepresentation::Xcdr1,
        endianness: Endianness::Little,
    });
    encoder
        .write_byte_array(&[0x2a, 0x2b, 0x2c, 0x2d])
        .expect("byte array should encode");
    assert_eq!(encoder.data_raw, little_endian_message(&[0x2a, 0x2b, 0x2c, 0x2d]));
}

#[test]
fn reads_far_past_the_end_report_missing_bytes() {
    let bytes = little_endian_message(&[0x2a, 0x00, 0x00, 0x00]);
    let mut decoder = CdrDecoder::new(&bytes).expect("decoder should be created");
    decoder.pos = 1_000_000;
    let err = decoder.read_u32().expect_err("nothing is left to read");
    assert!(matches!(
        err,
        ros2_message_gen::cdr_error::CdrError::NotEnoughBytes {
            context: "CdrDecoder::read_bytes_raw",
            requested: 4,
            remaining: 0,
        }
    ));
    assert_eq!(decoder.pos, 1_000_000);
    decoder.pos = usize::MAX - 7;
    assert!(matches!(
        decoder.read_u64(),
        Err(ros2_message_gen::cdr_error::CdrError::LengthOverflow { .. })
    ));
}
