use first_unique::chunk::ChunkError;
use first_unique::pipeline::{first_unique, scan};
use first_unique::record::WordOffset;

fn answer(data: &str) -> Option<(String, u64)> {
    first_unique(data.as_bytes(), 3, 7).unwrap()
}

#[test]
fn scenario_a_repeated_first_token() {
    assert_eq!(answer("a\nb\na\nc\n"), Some(("b".to_owned(), 2)));
}

#[test]
fn scenario_b_all_unique() {
    assert_eq!(answer("x\ny\nz\n"), Some(("x".to_owned(), 0)));
}

#[test]
fn scenario_c_no_unique_token() {
    assert_eq!(answer("a\na\n"), None);
}

#[test]
fn scenario_d_no_trailing_delimiter() {
    assert_eq!(answer("foo\nbar"), Some(("foo".to_owned(), 0)));
}

#[test]
fn empty_input_has_no_answer() {
    assert_eq!(answer(""), None);
}

#[test]
fn answer_is_first_unique_in_file_order() {
    // Unique tokens: "dd" at 9 and "e" at 15; "dd" comes first.
    let data = "aa\nbb\naa\ndd\nbb\ne\n";
    for cap in 1..=8u64 {
        for buckets in 1..=5usize {
            assert_eq!(
                first_unique(data.as_bytes(), cap, buckets).unwrap(),
                Some(("dd".to_owned(), 9))
            );
        }
    }
}

#[test]
fn scan_is_independent_of_window_size() {
    let data = b"longer-than-window\nx\n\nlonger-than-window";
    let expected = vec![
        WordOffset("longer-than-window".to_owned(), 0),
        WordOffset("x".to_owned(), 19),
        WordOffset("".to_owned(), 21),
        WordOffset("longer-than-window".to_owned(), 22),
    ];
    for cap in 1..=50u64 {
        assert_eq!(scan(data, cap).unwrap(), expected);
    }
}

#[test]
fn invalid_utf8_aborts_the_run() {
    let data = [b'a', b'\n', 0xc3, b'\n', b'b'];
    assert_eq!(first_unique(&data, 2, 3).unwrap_err(), ChunkError::DecodeError);
}

#[test]
fn multibyte_tokens_keep_byte_offsets() {
    assert_eq!(
        first_unique("é\né\nñ\n".as_bytes(), 1, 4).unwrap(),
        Some(("ñ".to_owned(), 6))
    );
}
