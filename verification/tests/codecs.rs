use tsid_bench::{
    CodecError, FlatBufferEncoder, LengthPrefixedEncoder, MemcomparableEncoder, RowEncoder,
    VarintEncoder, decode_varint, encode_rows, encode_to_vec, encode_varint, try_encode_to_vec,
};

fn roundtrip_pairs<E: RowEncoder>(encoder: &E, pairs: &[(u32, String)]) {
    let mut buffer = Vec::new();
    encoder.encode(&mut buffer, pairs);
    let decoded = encoder.decode(&buffer).expect("decode failed");

    assert_eq!(decoded.len(), pairs.len());
    for (i, (col_id, value)) in decoded.iter().enumerate() {
        assert_eq!(*col_id, pairs[i].0);
        assert_eq!(value, &pairs[i].1);
    }
}

fn check_roundtrip<E: RowEncoder>(encoder: &E) {
    let pairs: Vec<(u32, String)> = vec![
        (0, "value_0".to_owned()),
        (5, "value_5".to_owned()),
        (10, "value_10".to_owned()),
    ];
    roundtrip_pairs(encoder, &pairs);
}

fn check_roundtrip_empty<E: RowEncoder>(encoder: &E) {
    let pairs: Vec<(u32, String)> = vec![];
    let mut buffer = Vec::new();
    encoder.encode(&mut buffer, &pairs);
    let decoded = encoder.decode(&buffer).expect("decode failed");
    assert_eq!(decoded.len(), 0);
}

fn check_roundtrip_special_chars<E: RowEncoder>(encoder: &E) {
    let pairs: Vec<(u32, String)> = [
        (0, "hello world"),
        (1, "with\ttab"),
        (2, "with\nnewline"),
        (3, "unicode: 你好🌍"),
        (4, ""),
    ]
    .into_iter()
    .map(|(col_id, val)| (col_id, val.to_owned()))
    .collect();
    roundtrip_pairs(encoder, &pairs);
}

fn check_roundtrip_large_col_ids<E: RowEncoder>(encoder: &E) {
    let pairs: Vec<(u32, String)> = [
        (0, "small"),
        (127, "one_byte_max"),
        (128, "two_bytes_min"),
        (16383, "two_bytes_max"),
        (16384, "three_bytes_min"),
    ]
    .into_iter()
    .map(|(col_id, val)| (col_id, val.to_owned()))
    .collect();
    roundtrip_pairs(encoder, &pairs);
}

#[test]
fn length_prefixed_roundtrip() {
    check_roundtrip(&LengthPrefixedEncoder);
}

#[test]
fn length_prefixed_roundtrip_empty() {
    check_roundtrip_empty(&LengthPrefixedEncoder);
}

#[test]
fn length_prefixed_roundtrip_special_chars() {
    check_roundtrip_special_chars(&LengthPrefixedEncoder);
}

#[test]
fn length_prefixed_roundtrip_large_col_ids() {
    check_roundtrip_large_col_ids(&LengthPrefixedEncoder);
}

#[test]
fn varint_roundtrip() {
    check_roundtrip(&VarintEncoder);
}

#[test]
fn varint_roundtrip_empty() {
    check_roundtrip_empty(&VarintEncoder);
}

#[test]
fn varint_roundtrip_special_chars() {
    check_roundtrip_special_chars(&VarintEncoder);
}

#[test]
fn varint_roundtrip_large_col_ids() {
    check_roundtrip_large_col_ids(&VarintEncoder);
}

#[test]
fn varint_encoding() {
    let test_values = [0u32, 1, 127, 128, 255, 256, 16383, 16384, u32::MAX];

    for &val in &test_values {
        let mut buffer = Vec::new();
        encode_varint(&mut buffer, val);
        let (decoded, _) = decode_varint(&buffer).expect("decode failed");
        assert_eq!(decoded, val, "Failed for value {}", val);
    }
}

#[test]
fn varint_length_grows_at_group_boundaries() {
    let cases: [(u32, usize); 8] = [
        (0, 1),
        (1, 1),
        (127, 1),
        (128, 2),
        (16383, 2),
        (16384, 3),
        (2097151, 3),
        (u32::MAX, 5),
    ];
    for (val, expected_len) in cases {
        let mut buffer = Vec::new();
        encode_varint(&mut buffer, val);
        assert_eq!(buffer.len(), expected_len, "length for {}", val);
    }
}

#[test]
fn memcomparable_roundtrip() {
    check_roundtrip(&MemcomparableEncoder);
}

#[test]
fn memcomparable_roundtrip_empty() {
    check_roundtrip_empty(&MemcomparableEncoder);
}

#[test]
fn memcomparable_roundtrip_special_chars() {
    check_roundtrip_special_chars(&MemcomparableEncoder);
}

#[test]
fn memcomparable_roundtrip_large_col_ids() {
    check_roundtrip_large_col_ids(&MemcomparableEncoder);
}

#[test]
fn test_encode() {
    let encoder = MemcomparableEncoder;
    let pairs: Vec<(u32, String)> = vec![(0, "value_0".to_owned()), (1, "value_1".to_owned())];

    let mut buffer = Vec::new();
    encoder.encode(&mut buffer, &pairs);

    assert!(!buffer.is_empty());
}

#[test]
fn memcomparable_exact_bytes() {
    let encoder = MemcomparableEncoder;
    let pairs: Vec<(u32, String)> = vec![(3, "ab".to_owned()), (7, String::new())];
    let mut buffer = Vec::new();
    encoder.encode(&mut buffer, &pairs);
    let expected: Vec<u8> = vec![
        0, 0, 0, 3, // column id 3, big-endian
        1, // non-empty marker
        b'a', b'b', 0, 0, 0, 0, 0, 0, // one group, zero-padded
        2, // final group holds two meaningful bytes
        0, 0, 0, 7, // column id 7, big-endian
        0, // empty marker
    ];
    assert_eq!(buffer, expected);
}

#[test]
fn memcomparable_preserves_value_order() {
    let encoder = MemcomparableEncoder;
    let rows: Vec<Vec<(u32, String)>> = vec![
        vec![(1, "".to_owned()), (2, "x".to_owned())],
        vec![(1, "a".to_owned()), (2, "".to_owned())],
        vec![(1, "a".to_owned()), (2, "b".to_owned())],
        vec![(1, "ab".to_owned()), (2, "".to_owned())],
        vec![(1, "abcdefgh".to_owned()), (2, "".to_owned())],
        vec![(1, "abcdefghi".to_owned()), (2, "".to_owned())],
        vec![(1, "b".to_owned()), (2, "".to_owned())],
    ];
    let encoded: Vec<Vec<u8>> = rows.iter().map(|r| encode_to_vec(&encoder, r)).collect();
    for i in 0..encoded.len() - 1 {
        assert!(
            encoded[i] < encoded[i + 1],
            "row {} should sort below row {}",
            i,
            i + 1
        );
    }
}

#[test]
fn flatbuffer_roundtrip() {
    check_roundtrip(&FlatBufferEncoder);
}

#[test]
fn flatbuffer_roundtrip_empty() {
    check_roundtrip_empty(&FlatBufferEncoder);
}

#[test]
fn flatbuffer_roundtrip_special_chars() {
    check_roundtrip_special_chars(&FlatBufferEncoder);
}

#[test]
fn flatbuffer_roundtrip_large_col_ids() {
    check_roundtrip_large_col_ids(&FlatBufferEncoder);
}

#[test]
fn length_prefixed_exact_bytes() {
    // Schema ["host", "region"], row values ["a", "b"].
    let pairs: Vec<(u32, String)> = vec![(0, "a".to_owned()), (1, "b".to_owned())];
    let encoded = encode_to_vec(&LengthPrefixedEncoder, &pairs);
    let expected: Vec<u8> = vec![
        2, 0, 0, 0, // count = 2
        0, 0, 0, 0, 1, 0, 0, 0, b'a', // column 0, length 1, "a"
        1, 0, 0, 0, 1, 0, 0, 0, b'b', // column 1, length 1, "b"
    ];
    assert_eq!(encoded, expected);

    let decoded = LengthPrefixedEncoder.decode(&expected).expect("decode failed");
    assert_eq!(decoded, vec![(0, "a".to_owned()), (1, "b".to_owned())]);
}

#[test]
fn decode_rejects_malformed_input() {
    // Truncated buffers and garbage framing must fail, never misparse.
    assert_eq!(
        LengthPrefixedEncoder.decode(&[2, 0, 0, 0, 9]),
        Err(CodecError::MalformedInput)
    );
    assert_eq!(
        LengthPrefixedEncoder.decode(&[1, 0, 0]),
        Err(CodecError::MalformedInput)
    );
    assert_eq!(
        VarintEncoder.decode(&[0x80]),
        Err(CodecError::MalformedInput)
    );
    assert_eq!(
        VarintEncoder.decode(&[2, 1, 1, b'x']),
        Err(CodecError::MalformedInput)
    );
    assert_eq!(
        MemcomparableEncoder.decode(&[0, 0, 0, 1, 7]),
        Err(CodecError::MalformedInput)
    );
    assert_eq!(
        MemcomparableEncoder.decode(&[0, 0, 0]),
        Err(CodecError::MalformedInput)
    );
    assert_eq!(
        FlatBufferEncoder.decode(&[0u8; 23]),
        Err(CodecError::MalformedInput)
    );
    assert_eq!(
        FlatBufferEncoder.decode(&[9u8; 40]),
        Err(CodecError::MalformedInput)
    );
    // Invalid UTF-8 value bytes are malformed for a string row.
    assert_eq!(
        LengthPrefixedEncoder.decode(&[1, 0, 0, 0, 0, 0, 0, 0, 1, 0, 0, 0, 0xFF]),
        Err(CodecError::MalformedInput)
    );
}

#[test]
fn codec_names_are_stable() {
    assert_eq!(LengthPrefixedEncoder.name(), "length_prefixed");
    assert_eq!(VarintEncoder.name(), "varint");
    assert_eq!(MemcomparableEncoder.name(), "memcomparable");
    assert_eq!(FlatBufferEncoder.name(), "flatbuffer");
}

#[test]
fn encode_rows_encodes_each_row() {
    let rows: Vec<Vec<(u32, String)>> = vec![
        vec![(0, "a".to_owned()), (1, "b".to_owned())],
        vec![],
        vec![(7, "seven".to_owned())],
    ];
    let bufs = encode_rows(&VarintEncoder, &rows).expect("rows should encode");
    assert_eq!(bufs.len(), rows.len());
    for (buf, row) in bufs.iter().zip(rows.iter()) {
        assert_eq!(&VarintEncoder.decode(buf).expect("decode failed"), row);
    }
}

#[test]
fn try_encode_to_vec_matches_encode_to_vec() {
    let pairs: Vec<(u32, String)> = vec![(0, "a".to_owned()), (1, "b".to_owned())];
    let direct = encode_to_vec(&LengthPrefixedEncoder, &pairs);
    let checked = try_encode_to_vec(&LengthPrefixedEncoder, &pairs).expect("row fits");
    assert_eq!(direct, checked);
}
