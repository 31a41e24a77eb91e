//! End-to-end tests of the frame encoder and the value decoder.

use lucid::{decode_request, decode_response, decode_value, encode_request, encode_value,
    DecodeError, EncodeError, Value, MAX_FRAME_SIZE};

fn le32(x: u32) -> Vec<u8> {
    x.to_le_bytes().to_vec()
}

fn le64(x: u64) -> Vec<u8> {
    x.to_le_bytes().to_vec()
}

#[test]
fn encode_request_exact_bytes() {
    let cmd = vec![String::from("hi")];
    let frame = encode_request(&cmd).unwrap();
    let mut expected = Vec::new();
    expected.extend_from_slice(&le32(10)); // total_len = 4 + (4 + 2)
    expected.extend_from_slice(&le32(1)); // arg_count
    expected.extend_from_slice(&le32(2)); // arg_len
    expected.extend_from_slice(b"hi");
    assert_eq!(frame, expected);
}

#[test]
fn encode_request_zero_arguments() {
    let frame = encode_request(&Vec::new()).unwrap();
    let mut expected = Vec::new();
    expected.extend_from_slice(&le32(4)); // total_len covers only arg_count
    expected.extend_from_slice(&le32(0));
    assert_eq!(frame, expected);
}

#[test]
fn encode_request_empty_string_argument() {
    let cmd = vec![String::from("GET"), String::new()];
    let frame = encode_request(&cmd).unwrap();
    let mut expected = Vec::new();
    expected.extend_from_slice(&le32(15)); // 4 + (4 + 3) + (4 + 0)
    expected.extend_from_slice(&le32(2));
    expected.extend_from_slice(&le32(3));
    expected.extend_from_slice(b"GET");
    expected.extend_from_slice(&le32(0));
    assert_eq!(frame, expected);
}

#[test]
fn request_round_trip() {
    let cmd = vec![
        String::from("SET"),
        String::from("key"),
        String::from("value with spaces"),
        String::new(),
    ];
    let frame = encode_request(&cmd).unwrap();
    let back = decode_request(&frame).unwrap();
    assert_eq!(back, cmd);
}

#[test]
fn request_round_trip_zero_arguments() {
    let frame = encode_request(&Vec::new()).unwrap();
    let back = decode_request(&frame).unwrap();
    assert_eq!(back, Vec::<String>::new());
}

#[test]
fn request_round_trip_non_ascii() {
    let cmd = vec![String::from("SET"), String::from("clé"), String::from("âge")];
    let frame = encode_request(&cmd).unwrap();
    assert_eq!(decode_request(&frame).unwrap(), cmd);
}

#[test]
fn oversized_request_rejected() {
    // total_len = 4 + 4 + 4089 = 4097, one byte over the cap.
    let cmd = vec!["x".repeat(4089)];
    assert_eq!(encode_request(&cmd), Err(EncodeError::FrameTooLarge));
}

#[test]
fn request_at_cap_accepted() {
    // total_len = 4 + 4 + 4088 = 4096, exactly at the cap.
    let cmd = vec!["x".repeat(4088)];
    let frame = encode_request(&cmd).unwrap();
    assert_eq!(frame.len(), 4 + MAX_FRAME_SIZE);
    assert_eq!(decode_request(&frame).unwrap(), cmd);
}

#[test]
fn decode_nil() {
    let payload = vec![0u8];
    assert_eq!(decode_response(&payload).unwrap(), Value::Nil);
}

#[test]
fn decode_integer() {
    let mut payload = vec![3u8];
    payload.extend_from_slice(&(-42i64).to_le_bytes());
    assert_eq!(decode_response(&payload).unwrap(), Value::Int(-42));
}

#[test]
fn decode_float_bits() {
    let mut payload = vec![4u8];
    payload.extend_from_slice(&1.5f64.to_bits().to_le_bytes());
    match decode_response(&payload).unwrap() {
        Value::Float(bits) => assert_eq!(f64::from_bits(bits), 1.5),
        other => panic!("expected a float, got {:?}", other),
    }
}

#[test]
fn decode_string() {
    let mut payload = vec![2u8];
    payload.extend_from_slice(&le32(5));
    payload.extend_from_slice(b"hello");
    assert_eq!(decode_response(&payload).unwrap(), Value::Str(String::from("hello")));
}

#[test]
fn decode_string_non_ascii() {
    let bytes = "héllo".as_bytes();
    let mut payload = vec![2u8];
    payload.extend_from_slice(&le32(bytes.len() as u32));
    payload.extend_from_slice(bytes);
    assert_eq!(decode_response(&payload).unwrap(), Value::Str(String::from("héllo")));
}

#[test]
fn nested_array_consumption() {
    // Array of three children: Nil, Integer(7), String("hi").
    // 1 (tag) + 4 (count) + 1 (nil) + 9 (int) + 7 (str) = 22 bytes.
    let mut payload = vec![5u8];
    payload.extend_from_slice(&le32(3));
    payload.push(0); // Nil
    payload.push(3); // Integer
    payload.extend_from_slice(&7i64.to_le_bytes());
    payload.push(2); // String
    payload.extend_from_slice(&le32(2));
    payload.extend_from_slice(b"hi");
    assert_eq!(payload.len(), 22);

    let (value, consumed) = decode_value(&payload, 0).unwrap();
    assert_eq!(consumed, 22);
    assert_eq!(
        value,
        Value::Array(vec![Value::Nil, Value::Int(7), Value::Str(String::from("hi"))]),
    );
    assert_eq!(decode_response(&payload).unwrap(), value);
}

#[test]
fn doubly_nested_array() {
    // [[Int(1)], Nil]
    let mut inner = vec![5u8];
    inner.extend_from_slice(&le32(1));
    inner.push(3);
    inner.extend_from_slice(&1i64.to_le_bytes());

    let mut payload = vec![5u8];
    payload.extend_from_slice(&le32(2));
    payload.extend_from_slice(&inner);
    payload.push(0);

    assert_eq!(
        decode_response(&payload).unwrap(),
        Value::Array(vec![Value::Array(vec![Value::Int(1)]), Value::Nil]),
    );
}

#[test]
fn truncated_string_fails() {
    // Declares a string of length 10 but supplies only 3 payload bytes.
    let mut payload = vec![2u8];
    payload.extend_from_slice(&le32(10));
    payload.extend_from_slice(b"abc");
    assert_eq!(decode_response(&payload), Err(DecodeError::TruncatedInput));
    assert_eq!(decode_value(&payload, 0), Err(DecodeError::TruncatedInput));
}

#[test]
fn truncated_integer_fails() {
    let payload = vec![3u8, 1, 2, 3];
    assert_eq!(decode_response(&payload), Err(DecodeError::TruncatedInput));
}

#[test]
fn empty_payload_fails() {
    let payload = Vec::new();
    assert_eq!(decode_response(&payload), Err(DecodeError::TruncatedInput));
}

#[test]
fn unknown_tag_fails() {
    let payload = vec![9u8];
    assert_eq!(decode_response(&payload), Err(DecodeError::UnknownTag));
}

#[test]
fn invalid_utf8_fails() {
    let mut payload = vec![2u8];
    payload.extend_from_slice(&le32(2));
    payload.extend_from_slice(&[0xff, 0xfe]);
    assert_eq!(decode_response(&payload), Err(DecodeError::InvalidEncoding));
}

#[test]
fn invalid_utf8_in_error_message_fails() {
    let mut payload = vec![1u8];
    payload.extend_from_slice(&(-1i32).to_le_bytes());
    payload.extend_from_slice(&le32(1));
    payload.push(0x80);
    assert_eq!(decode_response(&payload), Err(DecodeError::InvalidEncoding));
}

#[test]
fn frame_mismatch_on_leftover_bytes() {
    // A 20-byte payload whose single top-level Integer consumes only 9.
    let mut payload = vec![3u8];
    payload.extend_from_slice(&7i64.to_le_bytes());
    payload.extend_from_slice(&[0u8; 11]);
    assert_eq!(payload.len(), 20);
    assert_eq!(decode_response(&payload), Err(DecodeError::FrameMismatch));
    // The inner decoder itself succeeds and reports the 9 bytes consumed.
    let (value, consumed) = decode_value(&payload, 0).unwrap();
    assert_eq!((value, consumed), (Value::Int(7), 9));
}

#[test]
fn error_variant_round_trip() {
    let original = Value::Error { code: -5, message: String::from("bad key") };
    let bytes = encode_value(&original);
    match decode_response(&bytes).unwrap() {
        Value::Error { code, message } => {
            assert_eq!(code, -5);
            assert_eq!(message, "bad key");
        },
        other => panic!("expected an error value, got {:?}", other),
    }
}

#[test]
fn value_round_trip_all_variants() {
    let original = Value::Array(vec![
        Value::Nil,
        Value::Error { code: 404, message: String::from("missing") },
        Value::Str(String::from("héllo")),
        Value::Int(i64::MIN),
        Value::Float(2.25f64.to_bits()),
        Value::Array(Vec::new()),
    ]);
    let bytes = encode_value(&original);
    assert_eq!(decode_response(&bytes).unwrap(), original);
}

#[test]
fn encode_value_exact_bytes() {
    assert_eq!(encode_value(&Value::Nil), vec![0u8]);

    let mut expected_int = vec![3u8];
    expected_int.extend_from_slice(&7i64.to_le_bytes());
    assert_eq!(encode_value(&Value::Int(7)), expected_int);

    let mut expected_err = vec![1u8];
    expected_err.extend_from_slice(&(-5i32).to_le_bytes());
    expected_err.extend_from_slice(&le32(7));
    expected_err.extend_from_slice(b"bad key");
    assert_eq!(
        encode_value(&Value::Error { code: -5, message: String::from("bad key") }),
        expected_err,
    );

    let mut expected_float = vec![4u8];
    expected_float.extend_from_slice(&le64(1.5f64.to_bits()));
    assert_eq!(encode_value(&Value::Float(1.5f64.to_bits())), expected_float);
}

#[test]
fn decode_is_idempotent() {
    let mut payload = vec![5u8];
    payload.extend_from_slice(&le32(2));
    payload.push(0);
    payload.push(3);
    payload.extend_from_slice(&9i64.to_le_bytes());
    let first = decode_response(&payload);
    let second = decode_response(&payload);
    assert_eq!(first, second);
}

#[test]
fn array_child_error_propagates() {
    // An array of two children whose second child has an unknown tag.
    let mut payload = vec![5u8];
    payload.extend_from_slice(&le32(2));
    payload.push(0);
    payload.push(7);
    assert_eq!(decode_response(&payload), Err(DecodeError::UnknownTag));
}

#[test]
fn array_declaring_too_many_children_fails() {
    let mut payload = vec![5u8];
    payload.extend_from_slice(&le32(3));
    payload.push(0);
    assert_eq!(decode_response(&payload), Err(DecodeError::TruncatedInput));
}

#[test]
fn decode_request_detects_total_len_mismatch() {
    let cmd = vec![String::from("hi")];
    let mut frame = encode_request(&cmd).unwrap();
    frame[0] = frame[0].wrapping_add(1);
    assert_eq!(decode_request(&frame), Err(DecodeError::FrameMismatch));
}

#[test]
fn decode_request_rejects_invalid_utf8_argument() {
    let mut frame = Vec::new();
    frame.extend_from_slice(&le32(9)); // total_len = 4 + 4 + 1
    frame.extend_from_slice(&le32(1));
    frame.extend_from_slice(&le32(1));
    frame.push(0xff);
    assert_eq!(decode_request(&frame), Err(DecodeError::InvalidEncoding));
}
