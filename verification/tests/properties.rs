use packed_encoder::decoder::{decode_packed, DecodeError, DecodeOrder, DecodeType, DecodedData};
use packed_encoder::encoder::{encode_packed, EncodeOrder, EncodeType};

#[test]
fn endianness_little_uint16() {
    let encoded = encode_packed(&[EncodeType::Uint16(0x0102)], EncodeOrder::Little).unwrap();
    assert_eq!(encoded, vec![0x02, 0x01]);
}

#[test]
fn endianness_big_uint16() {
    let encoded = encode_packed(&[EncodeType::Uint16(0x0102)], EncodeOrder::Big).unwrap();
    assert_eq!(encoded, vec![0x01, 0x02]);
}

#[test]
fn scenario_int8_str_bytes_little() {
    let values = &[
        EncodeType::Int8(-10),
        EncodeType::Str("hi".to_owned()),
        EncodeType::Bytes(vec![0xAA, 0xBB]),
    ];
    let encoded = encode_packed(values, EncodeOrder::Little).unwrap();
    assert_eq!(encoded, vec![0xF6, 0x68, 0x69, 0xAA, 0xBB]);

    let schedule = &[
        DecodeType::Int8,
        DecodeType::Str(2),
        DecodeType::Bytes(2),
    ];
    let decoded = decode_packed(schedule, &encoded, DecodeOrder::Little).unwrap();
    assert_eq!(decoded.len(), 3);
    assert_eq!(decoded[0] == DecodedData::Int8(-10), true);
    assert_eq!(decoded[1] == DecodedData::Str("hi".to_owned()), true);
    assert_eq!(decoded[2] == DecodedData::Bytes(vec![0xAA, 0xBB]), true);
}

#[test]
fn length_law_exact() {
    let values = &[
        EncodeType::Uint32(7),
        EncodeType::Str("abc".to_owned()),
        EncodeType::Bytes(vec![9, 9]),
    ];
    let encoded = encode_packed(values, EncodeOrder::Big).unwrap();
    // 4 bytes for the integer, 3 for the string, 2 for the bytes
    assert_eq!(encoded.len(), 9);
}

#[test]
fn signed_two_complement_bytes() {
    let encoded = encode_packed(&[EncodeType::Int16(-2)], EncodeOrder::Little).unwrap();
    assert_eq!(encoded, vec![0xFE, 0xFF]);
    let encoded_big = encode_packed(&[EncodeType::Int16(-2)], EncodeOrder::Big).unwrap();
    assert_eq!(encoded_big, vec![0xFF, 0xFE]);
}

#[test]
fn truncated_buffer_is_out_of_bounds() {
    let values = &[EncodeType::Uint64(123456789), EncodeType::Str("abcd".to_owned())];
    let schedule = &[DecodeType::Uint64, DecodeType::Str(4)];
    let encoded = encode_packed(values, EncodeOrder::Little).unwrap();
    // one byte shorter than the schedule requires
    let short = &encoded[..encoded.len() - 1];
    let result = decode_packed(schedule, short, DecodeOrder::Little);
    assert!(matches!(result, Err(DecodeError::IndexOutOfBounds)));
}

#[test]
fn empty_buffer_is_out_of_bounds() {
    let result = decode_packed(&[DecodeType::Int32], &[], DecodeOrder::Big);
    assert!(matches!(result, Err(DecodeError::IndexOutOfBounds)));
}

#[test]
fn invalid_utf8_reports_field_position() {
    // field 0 decodes fine; field 1 covers bytes that are not UTF-8
    let buffer = [1u8, 0xFF, 0xFE, 7];
    let schedule = &[DecodeType::Uint8, DecodeType::Str(2), DecodeType::Uint8];
    let result = decode_packed(schedule, &buffer, DecodeOrder::Little);
    assert!(matches!(result, Err(DecodeError::InvalidData(1))));
}

#[test]
fn empty_schedule_ignores_buffer() {
    let buffer = [1u8, 2, 3, 4];
    let decoded = decode_packed(&[], &buffer, DecodeOrder::Little).unwrap();
    assert_eq!(decoded.len(), 0);
    let decoded_big = decode_packed(&[], &buffer, DecodeOrder::Big).unwrap();
    assert_eq!(decoded_big.len(), 0);
}

#[test]
fn empty_values_empty_buffer() {
    let encoded = encode_packed(&[], EncodeOrder::Little).unwrap();
    assert_eq!(encoded.len(), 0);
}

#[test]
fn empty_string_and_empty_bytes() {
    let values = &[
        EncodeType::Str(String::new()),
        EncodeType::Bytes(vec![]),
        EncodeType::Uint8(5),
    ];
    let encoded = encode_packed(values, EncodeOrder::Little).unwrap();
    assert_eq!(encoded, vec![5]);

    let schedule = &[DecodeType::Str(0), DecodeType::Bytes(0), DecodeType::Uint8];
    let decoded = decode_packed(schedule, &encoded, DecodeOrder::Little).unwrap();
    assert_eq!(decoded[0] == DecodedData::Str(String::new()), true);
    assert_eq!(decoded[1] == DecodedData::Bytes(vec![]), true);
    assert_eq!(decoded[2] == DecodedData::Uint8(5), true);
}

#[test]
fn extreme_values_round_trip() {
    let values = &[
        EncodeType::Int128(i128::MIN),
        EncodeType::Int128(i128::MAX),
        EncodeType::Uint128(u128::MAX),
        EncodeType::Int8(i8::MIN),
        EncodeType::Uint8(u8::MAX),
    ];
    let schedule = &[
        DecodeType::Int128,
        DecodeType::Int128,
        DecodeType::Uint128,
        DecodeType::Int8,
        DecodeType::Uint8,
    ];
    for order in [EncodeOrder::Little, EncodeOrder::Big] {
        let decode_order = match order {
            EncodeOrder::Little => DecodeOrder::Little,
            EncodeOrder::Big => DecodeOrder::Big,
        };
        let encoded = encode_packed(values, order).unwrap();
        assert_eq!(encoded.len(), 50);
        let decoded = decode_packed(schedule, &encoded, decode_order).unwrap();
        assert_eq!(decoded[0] == DecodedData::Int128(i128::MIN), true);
        assert_eq!(decoded[1] == DecodedData::Int128(i128::MAX), true);
        assert_eq!(decoded[2] == DecodedData::Uint128(u128::MAX), true);
        assert_eq!(decoded[3] == DecodedData::Int8(i8::MIN), true);
        assert_eq!(decoded[4] == DecodedData::Uint8(u8::MAX), true);
    }
}

#[test]
fn multibyte_string_round_trip() {
    // a string whose UTF-8 encoding is longer than its character count
    let text = "héllo✓";
    let width = text.len();
    let values = &[EncodeType::Str(text.to_owned()), EncodeType::Uint16(300)];
    let schedule = &[DecodeType::Str(width), DecodeType::Uint16];
    let encoded = encode_packed(values, EncodeOrder::Big).unwrap();
    assert_eq!(encoded.len(), width + 2);
    let decoded = decode_packed(schedule, &encoded, DecodeOrder::Big).unwrap();
    assert_eq!(decoded[0] == DecodedData::Str(text.to_owned()), true);
    assert_eq!(decoded[1] == DecodedData::Uint16(300), true);
}

#[test]
fn trailing_bytes_are_ignored() {
    let buffer = [0x01u8, 0x02, 0xAA, 0xBB, 0xCC];
    let decoded = decode_packed(&[DecodeType::Uint16], &buffer, DecodeOrder::Big).unwrap();
    assert_eq!(decoded.len(), 1);
    assert_eq!(decoded[0] == DecodedData::Uint16(0x0102), true);
}
