use first_unique::chunk::{ChunkError, ChunkFile, DEFAULT_CHUNK_SIZE};

fn reader_over(data: &[u8], cap: u64) -> (ChunkFile, usize) {
    (ChunkFile::new(data.len() as u64, cap), 0)
}

/// Reads every token, refilling `cap` bytes at a time.
fn all_words(data: &[u8], cap: u64) -> Result<Vec<(String, u64)>, ChunkError> {
    let (mut reader, mut pos) = reader_over(data, cap);
    let mut out = Vec::new();
    loop {
        match reader.next_word() {
            Ok(w) => out.push(w),
            Err(ChunkError::NextChunk) => {
                let end = std::cmp::min(data.len(), pos + cap as usize);
                reader.load_chunk(&data[pos..end])?;
                pos = end;
            }
            Err(ChunkError::Eof) => return Ok(out),
            Err(e) => return Err(e),
        }
    }
}

#[test]
fn test_word() {
    let mut data = Vec::new();
    data.extend_from_slice("qwer\n".as_bytes());
    data.extend_from_slice("abcd\n".as_bytes());
    data.extend_from_slice("zxcv\n".as_bytes());

    let mut chunk_file = ChunkFile::new(data.len() as u64, DEFAULT_CHUNK_SIZE);
    assert_eq!(chunk_file.next_word().unwrap_err(), ChunkError::NextChunk);
    chunk_file.load_chunk(&data).unwrap();

    assert_eq!(chunk_file.next_word().unwrap(), ("qwer".to_owned(), 0u64));

    assert_eq!(chunk_file.next_word().unwrap(), ("abcd".to_owned(), 5u64));

    assert_eq!(chunk_file.next_word().unwrap(), ("zxcv".to_owned(), 10u64));
}

#[test]
fn eof_after_last_token() {
    let words = all_words(b"a\nb\n", 64).unwrap();
    assert_eq!(words, vec![("a".to_owned(), 0), ("b".to_owned(), 2)]);
}

#[test]
fn trailing_token_without_delimiter() {
    let words = all_words(b"foo\nbar", 64).unwrap();
    assert_eq!(words, vec![("foo".to_owned(), 0), ("bar".to_owned(), 4)]);
}

#[test]
fn token_longer_than_window() {
    let data = b"ab\nabcdefghij\nxy";
    for cap in 1..=20u64 {
        let words = all_words(data, cap).unwrap();
        assert_eq!(
            words,
            vec![
                ("ab".to_owned(), 0),
                ("abcdefghij".to_owned(), 3),
                ("xy".to_owned(), 14)
            ],
            "cap {}",
            cap
        );
    }
}

#[test]
fn empty_lines_are_tokens() {
    let words = all_words(b"a\n\nb\n", 2).unwrap();
    assert_eq!(
        words,
        vec![("a".to_owned(), 0), ("".to_owned(), 2), ("b".to_owned(), 3)]
    );
}

#[test]
fn empty_input_ends_at_once() {
    let mut reader = ChunkFile::new(0, 8);
    assert!(reader.is_end());
    assert_eq!(reader.next_word().unwrap_err(), ChunkError::Eof);
}

#[test]
fn empty_refill_before_end_is_io_error() {
    let mut reader = ChunkFile::new(10, 4);
    assert_eq!(reader.next_word().unwrap_err(), ChunkError::NextChunk);
    assert_eq!(reader.load_chunk(&[]).unwrap_err(), ChunkError::IoError);
}

#[test]
fn invalid_utf8_token_is_decode_error() {
    let data = [b'o', b'k', b'\n', 0xff, 0xfe, b'\n'];
    assert_eq!(all_words(&data, 4).unwrap_err(), ChunkError::DecodeError);
}

#[test]
fn refill_reports_bytes_taken() {
    let mut reader = ChunkFile::new(6, 3);
    assert_eq!(reader.chunk_cap(), 3);
    assert_eq!(reader.next_word().unwrap_err(), ChunkError::NextChunk);
    assert_eq!(reader.load_chunk(b"abc").unwrap(), 3);
    assert!(!reader.is_end());
    assert_eq!(reader.next_word().unwrap_err(), ChunkError::NextChunk);
    assert_eq!(reader.load_chunk(b"\nd\n").unwrap(), 3);
    assert!(reader.is_end());
    assert_eq!(reader.next_word().unwrap(), ("abc".to_owned(), 0));
    assert_eq!(reader.next_word().unwrap(), ("d".to_owned(), 4));
    assert_eq!(reader.next_word().unwrap_err(), ChunkError::Eof);
}
