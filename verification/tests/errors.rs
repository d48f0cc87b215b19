use ros2_message_gen::cdr_error::CdrError;
use ros2_message_gen::codec::{decode_from_bytes, encode_to_vec};
use ros2_message_gen::decoder::CdrDecoder;
use ros2_message_gen::encoder::CdrEncoder;
use ros2_message_gen::encoding::{CdrEncoding, CdrRepresentation};
use ros2_message_gen::wire::Endianness;

fn le(payload: &[u8]) -> Vec<u8> {
    let mut bytes = vec![0x00, 0x01, 0x00, 0x00];
    bytes.extend_from_slice(payload);
    bytes
}

#[test]
fn short_input_error_text() {
    let err = CdrDecoder::new(&[0x00, 0x01, 0x00]).err().expect("too short");
    assert!(matches!(
        err,
        CdrError::InputTooShort { context: "CdrDecoder::new", min_len: 4, actual_len: 3 }
    ));
    assert_eq!(
        err.to_string(),
        "CdrDecoder::new: input too short, expected at least 4 bytes, got 3"
    );
}

#[test]
fn unknown_representation_is_rejected() {
    let err = CdrDecoder::new(&[0x00, 0x05, 0x00, 0x00]).err().expect("bad header");
    assert!(matches!(err, CdrError::InvalidRepresentation(0x0005)));
    assert_eq!(
        err.to_string(),
        "CdrEncoding::parse: invalid representation value 0x0005"
    );
    let err = CdrEncoding::parse(&[0xab, 0xcd, 0, 0]).err().expect("bad header");
    assert_eq!(
        err.to_string(),
        "CdrEncoding::parse: invalid representation value 0xabcd"
    );
    assert!(matches!(
        CdrEncoding::parse(&[0x00]),
        Err(CdrError::InputTooShort { context: "CdrEncoding::parse", min_len: 4, actual_len: 1 })
    ));
}

#[test]
fn reading_past_the_end_reports_remaining_bytes() {
    let bytes = le(&[0x01, 0x02]);
    let mut decoder = CdrDecoder::new(&bytes).unwrap();
    let err = decoder.read_u32().err().expect("only two bytes");
    assert!(matches!(
        err,
        CdrError::NotEnoughBytes { context: "CdrDecoder::read_bytes_raw", requested: 4, remaining: 2 }
    ));
    assert_eq!(
        err.to_string(),
        "CdrDecoder::read_bytes_raw: not enough bytes, requested 4, remaining 2"
    );
}

#[test]
fn invalid_bool_discriminant() {
    let bytes = le(&[0x02]);
    let mut decoder = CdrDecoder::new(&bytes).unwrap();
    let err = decoder.read_bool().err().expect("2 is no bool");
    assert!(matches!(err, CdrError::InvalidBool(2)));
    assert_eq!(err.to_string(), "CdrDecoder::read_bool: invalid boolean discriminant 2");
    let bytes = le(&[0x00, 0x01]);
    let mut decoder = CdrDecoder::new(&bytes).unwrap();
    assert!(!decoder.read_bool().unwrap());
    assert!(decoder.read_bool().unwrap());
}

#[test]
fn invalid_unicode_scalar() {
    let bytes = le(&[0x00, 0xd8, 0x00, 0x00]);
    let mut decoder = CdrDecoder::new(&bytes).unwrap();
    let err = decoder.read_wchar_u32().err().expect("surrogate");
    assert!(matches!(
        err,
        CdrError::InvalidUnicodeScalar { context: "CdrDecoder::read_wchar_u32", value: 0xd800 }
    ));
    assert_eq!(
        err.to_string(),
        "CdrDecoder::read_wchar_u32: invalid unicode scalar value 0xd800"
    );
    let bytes = le(&[0x00, 0xdc]);
    let mut decoder = CdrDecoder::new(&bytes).unwrap();
    assert!(matches!(
        decoder.read_wchar_u16(),
        Err(CdrError::InvalidUnicodeScalar { context: "CdrDecoder::read_wchar_u16", value: 0xdc00 })
    ));
}

#[test]
fn invalid_utf8_in_strings() {
    let bytes = le(&[0x02, 0x00, 0x00, 0x00, 0xff, 0x00]);
    let mut decoder = CdrDecoder::new(&bytes).unwrap();
    let err = decoder.read_string().err().expect("0xff is no utf8");
    assert!(matches!(err, CdrError::InvalidUtf8(_)));
    assert!(err.to_string().starts_with("CdrDecoder::read_string: invalid utf8: "));

    let mut decoder = CdrDecoder::new(&bytes).unwrap();
    let err = decoder.read_str().err().expect("0xff is no utf8");
    assert!(matches!(err, CdrError::InvalidUtf8Slice(_)));
    assert!(err.to_string().starts_with("CdrDecoder::read_str: invalid utf8: "));
}

#[test]
fn invalid_utf16_in_wide_strings() {
    let bytes = le(&[0x02, 0x00, 0x00, 0x00, 0x00, 0xd8, 0x00, 0x00]);
    let mut decoder = CdrDecoder::new(&bytes).unwrap();
    let err = decoder.read_wstring().err().expect("lone surrogate");
    assert!(matches!(err, CdrError::InvalidUtf16(_)));
    assert!(err.to_string().starts_with("CdrDecoder::read_wstring: invalid utf16: "));
}

#[test]
fn non_ascii_char_is_refused() {
    let mut encoder = CdrEncoder::new(CdrEncoding {
        cdr_representation: CdrRepresentation::Xcdr1,
        endianness: Endianness::Little,
    });
    let err = encoder.write_char('é').err().expect("not ascii");
    assert!(matches!(err, CdrError::NonAsciiChar('é')));
    assert_eq!(err.to_string(), "CdrEncoder::write_char: non-ascii char 'é'");
    assert_eq!(encoder.data_raw, vec![0x00, 0x01, 0x00, 0x00]);
    encoder.write_char('z').unwrap();
    assert_eq!(encoder.data_raw, vec![0x00, 0x01, 0x00, 0x00, b'z']);
}

#[test]
fn fixed_array_of_wrong_length() {
    let err = CdrError::FixedArrayLength { expected: 4, actual: 3 };
    assert_eq!(
        err.to_string(),
        "CdrDecoder::read_array: failed to build fixed-size array, expected 4 items, got 3"
    );
}

#[test]
fn other_error_texts() {
    assert_eq!(
        CdrError::LengthOverflow { context: "CdrDecoder::read_wstring" }.to_string(),
        "CdrDecoder::read_wstring: length overflow"
    );
    assert_eq!(
        CdrError::OddByteLength { context: "CdrDecoder::read_wstring", len: 3 }.to_string(),
        "CdrDecoder::read_wstring: expected an even byte length, got 3"
    );
    assert_eq!(
        CdrError::UnknownSchema("pkg/msg/X".to_string()).to_string(),
        "unknown schema: pkg/msg/X"
    );
}

#[test]
fn decode_from_bytes_reports_truncation() {
    let bytes = le(&[0x05, 0x00, 0x00, 0x00, b'a']);
    assert!(matches!(
        decode_from_bytes::<String>(&bytes),
        Err(CdrError::NotEnoughBytes { requested: 5, remaining: 1, .. })
    ));
    let encoded = encode_to_vec(&true).unwrap();
    assert_eq!(encoded, vec![0x00, 0x01, 0x00, 0x00, 0x01]);
}

#[test]
fn item_errors_pass_through_unchanged() {
    assert!(matches!(encode_to_vec(&'\u{e9}'), Err(CdrError::NonAsciiChar('\u{e9}'))));

    let mut encoder = CdrEncoder::new(CdrEncoding {
        cdr_representation: CdrRepresentation::Xcdr1,
        endianness: Endianness::Little,
    });
    let result = encoder.write_seq(&['a', '\u{e9}', 'b']);
    assert!(matches!(result, Err(CdrError::NonAsciiChar('\u{e9}'))));
    assert_eq!(encoder.data_raw, vec![0x00, 0x01, 0x00, 0x00, 0x03, 0x00, 0x00, 0x00, b'a']);

    let bytes = le(&[0x03, 0x00, 0x00, 0x00, 0x01, 0x05, 0x00]);
    let mut decoder = CdrDecoder::new(&bytes).expect("header is valid");
    assert!(matches!(decoder.read_seq::<bool>(), Err(CdrError::InvalidBool(5))));
    assert_eq!(decoder.pos, 6);

    assert!(matches!(decode_from_bytes::<bool>(&le(&[0x07])), Err(CdrError::InvalidBool(7))));
    let short = le(&[0x01]);
    let mut decoder = CdrDecoder::new(&short).expect("header is valid");
    assert!(matches!(
        decoder.read_array::<u8, 3>(),
        Err(CdrError::NotEnoughBytes { requested: 1, remaining: 0, .. })
    ));
}
