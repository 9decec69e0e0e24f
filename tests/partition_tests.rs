use first_unique::partition::{
    rebalance, records_size, split, sub_bucket_count, HashSplitFile, SplitStep,
};
use first_unique::record::{decode_bucket, WordOffset};
use first_unique::utils::{bucket_index, hash, salted_hash};

fn recs(words: &[&str]) -> Vec<WordOffset> {
    let mut off = 0u64;
    let mut out = Vec::new();
    for w in words {
        out.push(WordOffset((*w).to_owned(), off));
        off += w.len() as u64 + 1;
    }
    out
}

fn sorted(mut v: Vec<WordOffset>) -> Vec<WordOffset> {
    v.sort_by(|a, b| (a.1, &a.0).cmp(&(b.1, &b.0)));
    v
}

#[test]
fn hash_is_deterministic_and_salt_matters() {
    let a = "token".to_owned();
    assert_eq!(hash(&a), hash(&"token".to_owned()));
    assert_ne!(hash(&a), hash(&"tokem".to_owned()));
    assert_ne!(salted_hash(&a, 1), salted_hash(&a, 2));
}

#[test]
fn bucket_index_is_hash_modulo_count() {
    let w = "abc".to_owned();
    assert_eq!(bucket_index(&w, 0, 50) as u64, hash(&w) % 50);
    assert_eq!(bucket_index(&w, 3, 7) as u64, salted_hash(&w, 3) % 7);
}

#[test]
fn split_covers_every_record_once() {
    let input = recs(&["a", "b", "a", "c", "d", "b", "e", "f", "a"]);
    let buckets = split(&input, 0, 4);
    assert_eq!(buckets.len(), 4);
    let mut all = Vec::new();
    for (b, bucket) in buckets.iter().enumerate() {
        let mut last = None;
        for r in bucket {
            assert_eq!(bucket_index(&r.0, 0, 4), b);
            assert!(last.map_or(true, |o| o < r.1));
            last = Some(r.1);
            all.push(r.clone());
        }
    }
    assert_eq!(sorted(all), sorted(input));
}

#[test]
fn records_size_counts_framing_and_bytes() {
    assert_eq!(records_size(&recs(&["ab", "é"])), 16 + 2 + 16 + 2);
    assert_eq!(records_size(&Vec::new()), 0);
}

#[test]
fn sub_bucket_count_rounds_up_plus_one() {
    assert_eq!(sub_bucket_count(100, 50), 3);
    assert_eq!(sub_bucket_count(101, 50), 4);
}

#[test]
fn rebalance_splits_until_within_threshold() {
    let words: Vec<String> = (0..40).map(|i| format!("w{}", i)).collect();
    let refs: Vec<&str> = words.iter().map(|s| s.as_str()).collect();
    let input = recs(&refs);
    let (parts, capped) = rebalance(&input, 0, 100, 8);
    assert!(!capped);
    assert!(parts.len() > 1);
    let mut all = Vec::new();
    for p in &parts {
        assert!(records_size(p) <= 100);
        all.extend(p.iter().cloned());
    }
    assert_eq!(sorted(all), sorted(input));
}

#[test]
fn rebalance_stops_at_depth_cap_for_one_repeated_token() {
    let input = recs(&["same"; 30]);
    let (parts, capped) = rebalance(&input, 0, 64, 3);
    assert!(capped);
    let mut all = Vec::new();
    for p in &parts {
        all.extend(p.iter().cloned());
    }
    assert_eq!(sorted(all), sorted(input));
}

#[test]
fn rebalance_keeps_small_bucket_whole() {
    let input = recs(&["a", "b"]);
    let (parts, capped) = rebalance(&input, 0, 1000, 4);
    assert!(!capped);
    assert_eq!(parts, vec![input]);
}

#[test]
fn hash_split_file_routes_each_token() {
    let data = b"a\nb\na\nc\n";
    let count = 3usize;
    let mut pass = HashSplitFile::new(data.len() as u64, 3, count);
    assert_eq!(pass.chunk_cap(), 3);
    let mut pos = 0usize;
    let mut buckets: Vec<Vec<u8>> = vec![Vec::new(); count];
    loop {
        match pass.split().unwrap() {
            SplitStep::Record(b, bytes) => buckets[b].extend(bytes),
            SplitStep::NeedData => {
                let end = std::cmp::min(data.len(), pos + 3);
                pass.load_chunk(&data[pos..end]).unwrap();
                pos = end;
            }
            SplitStep::Done => break,
        }
    }
    let mut all = Vec::new();
    for (b, bytes) in buckets.iter().enumerate() {
        for r in decode_bucket(bytes).unwrap() {
            assert_eq!(bucket_index(&r.0, 0, count as u64), b);
            all.push(r);
        }
    }
    assert_eq!(sorted(all), recs(&["a", "b", "a", "c"]));
}
