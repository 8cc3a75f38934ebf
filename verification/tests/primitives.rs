use kafka_broker::errors::KafkaError;
use kafka_broker::primitive_types::{
    CompactArray, CompactNullableString, CompactString, NullableString, VarInt,
};
use kafka_broker::traits::{Decodable, Encodable};
use kafka_broker::wire::encode_var_int;

#[test]
fn varint_boundary_lengths() {
    // values 0, 127, 128, 16384 and the largest int32 encode to 1, 1, 2, 3
    // and 5 bytes respectively
    assert_eq!(encode_var_int(0), vec![0x00]);
    assert_eq!(encode_var_int(127), vec![0x7f]);
    assert_eq!(encode_var_int(128), vec![0x80, 0x01]);
    assert_eq!(encode_var_int(16384), vec![0x80, 0x80, 0x01]);
    assert_eq!(encode_var_int(i32::MAX as u32).len(), 5);
}

#[test]
fn varint_boundary_round_trips() {
    for value in [0i32, 127, 128, 16384, i32::MAX] {
        let encoded = VarInt { data: value }.encode();
        let (decoded, used) = VarInt::decode(&encoded).unwrap();
        assert_eq!(decoded.data, value);
        assert_eq!(used, encoded.len());
    }
}

#[test]
fn varint_round_trip_with_trailing_bytes() {
    let mut encoded = VarInt { data: 300 }.encode();
    let own_len = encoded.len();
    encoded.extend_from_slice(&[0xde, 0xad, 0xbe, 0xef]);
    let (decoded, used) = VarInt::decode(&encoded).unwrap();
    assert_eq!(decoded.data, 300);
    assert_eq!(used, own_len);
}

#[test]
fn varint_unterminated_is_decode_error() {
    // every byte carries the continuation bit: no terminating byte
    let r = VarInt::decode(&[0x80, 0x80, 0x80]);
    assert!(matches!(r, Err(KafkaError::DecodeError)));
    let r = VarInt::decode(&[]);
    assert!(matches!(r, Err(KafkaError::DecodeError)));
}

#[test]
fn compact_string_round_trip() {
    let value = CompactString::new("orders".to_string());
    let encoded = value.encode();
    // length prefix is byte length plus one
    assert_eq!(encoded[0], 7);
    let (decoded, used) = CompactString::decode(&encoded).unwrap();
    assert_eq!(decoded.data, "orders");
    assert_eq!(used, encoded.len());
}

#[test]
fn compact_string_multibyte_round_trip() {
    // a non-ASCII string exercises real UTF-8 decoding
    let value = CompactString::new("h\u{e9}llo \u{1f680}".to_string());
    let encoded = value.encode();
    let (decoded, used) = CompactString::decode(&encoded).unwrap();
    assert_eq!(decoded.data, "h\u{e9}llo \u{1f680}");
    assert_eq!(used, encoded.len());
}

#[test]
fn compact_string_invalid_utf8_is_decode_error() {
    // prefix says one byte follows, and that byte is not valid UTF-8
    let r = CompactString::decode(&[0x02, 0xff]);
    assert!(matches!(r, Err(KafkaError::DecodeError)));
}

#[test]
fn compact_string_zero_prefix_is_decode_error() {
    // a prefix of zero would mean a negative length for a non-nullable string
    let r = CompactString::decode(&[0x00]);
    assert!(matches!(r, Err(KafkaError::DecodeError)));
}

#[test]
fn compact_string_short_buffer_is_decode_error() {
    // prefix promises five bytes, only two follow
    let r = CompactString::decode(&[0x06, b'a', b'b']);
    assert!(matches!(r, Err(KafkaError::DecodeError)));
}

#[test]
fn compact_string_empty_vs_absent() {
    // encoding "" yields a present, empty string of length zero
    let empty = CompactString::new(String::new());
    let encoded = empty.encode();
    assert_eq!(encoded, vec![0x01]);
    let (decoded, used) = CompactString::decode(&encoded).unwrap();
    assert_eq!(decoded.data, "");
    assert_eq!(used, 1);

    // encoding the absent nullable string yields one zero byte, and
    // decoding it yields null, consuming exactly that byte
    let absent = CompactNullableString::new(None);
    let encoded = absent.encode();
    assert_eq!(encoded, vec![0x00]);
    let (decoded, used) = CompactNullableString::decode(&encoded).unwrap();
    assert!(decoded.data.is_none());
    assert_eq!(used, 1);
}

#[test]
fn compact_nullable_string_present_round_trip() {
    let value = CompactNullableString::new(Some(CompactString::new("abc".to_string())));
    let encoded = value.encode();
    let (decoded, used) = CompactNullableString::decode(&encoded).unwrap();
    assert_eq!(decoded.data.unwrap().data, "abc");
    assert_eq!(used, encoded.len());
}

#[test]
fn nullable_string_round_trips() {
    let present = NullableString::new(Some("client".to_string()));
    let encoded = present.encode();
    assert_eq!(&encoded[..2], &[0x00, 0x06]);
    let (decoded, used) = NullableString::decode(&encoded).unwrap();
    assert_eq!(decoded.data.as_deref(), Some("client"));
    assert_eq!(used, encoded.len());

    let absent = NullableString::new(None);
    let encoded = absent.encode();
    assert_eq!(encoded, vec![0xff, 0xff]);
    let (decoded, used) = NullableString::decode(&encoded).unwrap();
    assert!(decoded.data.is_none());
    assert_eq!(used, 2);
}

#[test]
fn nullable_string_negative_length_is_decode_error() {
    // -2 is not the null marker and not a valid length
    let r = NullableString::decode(&[0xff, 0xfe]);
    assert!(matches!(r, Err(KafkaError::DecodeError)));
}

#[test]
fn compact_array_count_convention() {
    // an array of three elements carries the length prefix VarInt(4)
    let value = CompactArray::new(vec![1i32, 2, 3]);
    let encoded = value.encode();
    assert_eq!(encoded[0], 4);
    assert_eq!(encoded.len(), 1 + 3 * 4);

    // that prefix against a buffer holding only two full elements fails
    let truncated = &encoded[..1 + 2 * 4];
    let r = CompactArray::<i32>::decode(truncated);
    assert!(matches!(r, Err(KafkaError::DecodeError)));
}

#[test]
fn compact_array_round_trip() {
    let value = CompactArray::new(vec![5i32, -7, 0x7fff_abcd]);
    let encoded = value.encode();
    let (decoded, used) = CompactArray::<i32>::decode(&encoded).unwrap();
    assert_eq!(decoded.data, vec![5, -7, 0x7fff_abcd]);
    assert_eq!(used, encoded.len());
}

#[test]
fn compact_array_empty_round_trip() {
    let value = CompactArray::new(Vec::<i32>::new());
    let encoded = value.encode();
    assert_eq!(encoded, vec![0x01]);
    let (decoded, used) = CompactArray::<i32>::decode(&encoded).unwrap();
    assert!(decoded.data.is_empty());
    assert_eq!(used, 1);
}

#[test]
fn compact_array_zero_prefix_is_decode_error() {
    // a prefix of zero would mean a negative element count
    let r = CompactArray::<i32>::decode(&[0x00]);
    assert!(matches!(r, Err(KafkaError::DecodeError)));
}
