use first_unique::count::Counter;
use first_unique::merge::MergeCounter;
use first_unique::record::{encode_record, RecordError, WordOffset};

#[test]
fn test_count() {
    let mut counter = Counter::new();

    assert_eq!(1, counter.count("abcd".into(), 0));

    assert_eq!(2, counter.count("abcd".into(), 5));

    assert_eq!(1, counter.count("qwer".into(), 10));

    assert_eq!(2, counter.count("qwer".into(), 15));
}

#[test]
fn rotate_keeps_smallest_unique_offset() {
    let mut counter = Counter::new();
    counter.count("a".into(), 0);
    counter.count("b".into(), 2);
    counter.count("a".into(), 4);
    counter.count("c".into(), 6);
    counter.rotate();
    assert_eq!(counter.finish(), Some(("b".to_owned(), 2)));
}

#[test]
fn map_is_fresh_after_rotate() {
    let mut counter = Counter::new();
    counter.count("a".into(), 10);
    counter.rotate();
    // "a" in the next bucket starts again at one.
    assert_eq!(counter.count("a".into(), 3), 1);
    counter.rotate();
    assert_eq!(counter.finish(), Some(("a".to_owned(), 3)));
}

#[test]
fn finish_without_winner_is_none() {
    let mut counter = Counter::new();
    counter.count("a".into(), 0);
    counter.count("a".into(), 1);
    counter.rotate();
    assert_eq!(counter.finish(), None);
}

#[test]
fn run_reduces_a_bucket_of_bytes() {
    let mut bytes = Vec::new();
    for (w, o) in [("x", 8u64), ("y", 3), ("x", 11)] {
        bytes.extend(encode_record(&WordOffset(w.to_owned(), o)).unwrap());
    }
    let mut counter = Counter::new();
    counter.run(&bytes).unwrap();
    let mut other = Vec::new();
    other.extend(encode_record(&WordOffset("z".to_owned(), 1)).unwrap());
    counter.run(&other).unwrap();
    assert_eq!(counter.finish(), Some(("z".to_owned(), 1)));
}

#[test]
fn run_rejects_a_corrupt_bucket() {
    let mut counter = Counter::new();
    assert_eq!(counter.run(&[1, 2, 3]).unwrap_err(), RecordError::Truncated);
    assert_eq!(counter.finish(), None);
}

#[test]
fn reduce_records_picks_bucket_winner() {
    let mut counter = Counter::new();
    let recs = vec![
        WordOffset("p".to_owned(), 1),
        WordOffset("q".to_owned(), 5),
        WordOffset("p".to_owned(), 9),
        WordOffset("r".to_owned(), 12),
    ];
    counter.reduce_records(&recs);
    assert_eq!(counter.finish(), Some(("q".to_owned(), 5)));
}

#[test]
fn merge_counter_merges_adjacent_entries() {
    let mut m = MergeCounter::new();
    m.count("abcd".into(), 1, 7);
    m.count("abcd".into(), 1, 20);
    m.count("efgh".into(), 1, 12);
    m.count("ijkl".into(), 1, 3);
    assert_eq!(m.get_ans(), Some(("ijkl".to_owned(), 3)));
}

#[test]
fn merge_counter_keeps_first_on_tie_and_skips_repeats() {
    let mut m = MergeCounter::new();
    m.count("a".into(), 2, 0);
    m.count("b".into(), 1, 5);
    m.count("c".into(), 1, 5);
    assert_eq!(m.get_ans(), Some(("b".to_owned(), 5)));
    assert_eq!(m.ans, Some(("b".to_owned(), 5)));
}

#[test]
fn merge_counter_empty_has_no_answer() {
    let mut m = MergeCounter::new();
    assert_eq!(m.get_ans(), None);
}

#[test]
fn reduce_bucket_splits_an_oversized_bucket() {
    let mut bytes = Vec::new();
    let mut off = 0u64;
    for i in 0..30 {
        let w = format!("t{}", i % 20);
        bytes.extend(encode_record(&WordOffset(w.clone(), off)).unwrap());
        off += w.len() as u64 + 1;
    }
    // Tokens t10..t19 occur once; t10 is first, at offset 30.
    let mut counter = Counter::new();
    assert_eq!(counter.reduce_bucket(&bytes, 64, 6).unwrap(), false);
    assert_eq!(counter.finish(), Some(("t10".to_owned(), 30)));
}

#[test]
fn reduce_bucket_rejects_a_corrupt_bucket() {
    let mut counter = Counter::new();
    assert_eq!(
        counter.reduce_bucket(&[9, 0, 0], 64, 3).unwrap_err(),
        RecordError::Truncated
    );
}
