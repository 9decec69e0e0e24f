use first_unique::record::{decode_bucket, decode_record, encode_record, RecordError, WordOffset};

#[test]
fn record_layout_is_length_prefixed() {
    let bytes = encode_record(&WordOffset("ab".to_owned(), 258)).unwrap();
    assert_eq!(
        bytes,
        vec![2, 0, 0, 0, 0, 0, 0, 0, b'a', b'b', 2, 1, 0, 0, 0, 0, 0, 0]
    );
}

#[test]
fn bucket_round_trip() {
    let recs = vec![
        WordOffset("qwer".to_owned(), 0),
        WordOffset("".to_owned(), 5),
        WordOffset("zxcv".to_owned(), u64::MAX),
        WordOffset("ü".to_owned(), 42),
    ];
    let mut bytes = Vec::new();
    for r in &recs {
        bytes.extend(encode_record(r).unwrap());
    }
    assert_eq!(decode_bucket(&bytes).unwrap(), recs);
}

#[test]
fn empty_bucket_has_no_records() {
    assert_eq!(decode_bucket(&[]).unwrap(), Vec::<WordOffset>::new());
}

#[test]
fn decode_record_returns_next_position() {
    let mut bytes = encode_record(&WordOffset("a".to_owned(), 7)).unwrap();
    bytes.extend(encode_record(&WordOffset("bc".to_owned(), 9)).unwrap());
    let (first, next) = decode_record(&bytes, 0).unwrap();
    assert_eq!(first, WordOffset("a".to_owned(), 7));
    assert_eq!(next, 17);
    let (second, end) = decode_record(&bytes, next).unwrap();
    assert_eq!(second, WordOffset("bc".to_owned(), 9));
    assert_eq!(end, bytes.len());
}

#[test]
fn short_record_is_truncated() {
    let bytes = encode_record(&WordOffset("abc".to_owned(), 1)).unwrap();
    for cut in 1..bytes.len() {
        assert_eq!(decode_bucket(&bytes[..cut]).unwrap_err(), RecordError::Truncated);
    }
}

#[test]
fn invalid_token_bytes_are_rejected() {
    let mut bytes = vec![1, 0, 0, 0, 0, 0, 0, 0, 0xff];
    bytes.extend_from_slice(&[0; 8]);
    assert_eq!(decode_bucket(&bytes).unwrap_err(), RecordError::InvalidUtf8);
}
