//! The whole pipeline over an input held in memory: chunked scan, hash
//! partition, per-bucket reduction and global aggregation.
use crate::chunk::{ChunkError, ChunkFile, Scan};
use crate::count::{Counter, opt_pair};
use crate::model::{
    Rec, better, in_scan_order, is_winner, lemma_min_concat, lemma_partition_winner, lemma_select_members, lemma_spans_increasing,
    lemma_winner_is_first, min_candidate, records_of, select, token_spans, tokens_utf8, unique_at,
};
use crate::partition::{buckets_of, models_of, route_key, split};
use crate::record::{
    WordOffset, bucket_bytes, copy_range, lemma_bucket_round_trip, parse_bucket, rec_of, recs_of,
};
use vstd::utf8::encode_utf8;
use vstd::prelude::*;

verus! {

/// Scans `data` in windows of `chunk_cap` bytes and returns its records.
/// The records, offsets included, are those of the text whatever the window
/// size, also for tokens longer than a window.
pub fn scan(data: &[u8], chunk_cap: u64) -> (r: Result<Vec<WordOffset>, ChunkError>)
    requires
        chunk_cap > 0,
    ensures
        r is Ok <==> tokens_utf8(data@),
        r matches Ok(v) ==> recs_of(v@) == records_of(data@),
        r matches Err(e) ==> e == ChunkError::DecodeError,
{
    let len = data.len();
    let mut reader = ChunkFile::new(len as u64, chunk_cap);
    let mut records: Vec<WordOffset> = Vec::new();
    let mut pos: usize = 0;
    proof {
        assert(data@.subrange(0, 0) =~= Seq::<u8>::empty());
        reader.lemma_wf();
        assert(reader.scanned() =~= Seq::<u8>::empty());
        assert(token_spans(Seq::<u8>::empty()) == Seq::<(int, int)>::empty());
        assert(records_of(Seq::<u8>::empty()) =~= Seq::<Rec>::empty());
        assert(recs_of(records@) =~= Seq::<Rec>::empty());
    }
    loop
        invariant
            reader.wf(),
            pos <= len == data@.len(),
            reader.loaded() == data@.subrange(0, pos as int),
            reader.spec_file_size() == len as u64,
            reader.spec_chunk_cap() == chunk_cap,
            recs_of(records@) == records_of(reader.scanned()),
            tokens_utf8(reader.scanned()),
        decreases len - pos, len - reader.cursor(),
    {
        proof {
            reader.lemma_wf();
        }
        let ghost sc = reader.scanned();
        match reader.next_record() {
            Ok(Scan::Token(w)) => {
                let ghost before = records@;
                records.push(w);
                assert(recs_of(records@) =~= recs_of(before).push(rec_of(w)));
                proof {
                    reader.lemma_wf();
                }
            },
            Ok(Scan::NeedData) => {
                let step = if chunk_cap < (len - pos) as u64 {
                    chunk_cap as usize
                } else {
                    len - pos
                };
                let bytes = copy_range(data, pos, pos + step);
                let ghost before = reader.loaded();
                let _ = reader.load_chunk(bytes.as_slice());
                pos = pos + step;
                proof {
                    assert(before + bytes@ =~= data@.subrange(0, pos as int));
                    reader.lemma_wf();
                }
            },
            Ok(Scan::End) => {
                proof {
                    assert(reader.loaded() =~= data@);
                    assert(sc == data@);
                }
                return Ok(records);
            },
            Err(e) => {
                proof {
                    assert(reader.loaded() =~= data@.subrange(0, pos as int));
                    if !reader.at_end() {
                        assert(data@.subrange(0, reader.loaded().len() as int) =~= reader.loaded());
                    } else {
                        assert(reader.loaded() =~= data@);
                    }
                }
                return Err(e);
            },
        }
    }
}

/// Reduces the buckets one at a time, each with a fresh counter map, and
/// returns the best of their winners.
pub fn reduce(buckets: &Vec<Vec<WordOffset>>) -> (r: Option<(String, u64)>)
    ensures
        exists|ws: Seq<Option<Rec>>|
            ws.len() == buckets@.len() && (forall|b: int|
                0 <= b < ws.len() ==> is_winner(recs_of((#[trigger] buckets@[b])@), ws[b]))
                && opt_pair(r) == min_candidate(ws),
{
    let mut counter = Counter::new();
    let mut b: usize = 0;
    while b < buckets.len()
        invariant
            b <= buckets@.len(),
            counter.wf(),
            counter.seen() == Seq::<Rec>::empty(),
            counter.winners().len() == b,
            forall|j: int|
                0 <= j < b ==> is_winner(recs_of((#[trigger] buckets@[j])@), counter.winners()[j]),
        decreases buckets@.len() - b,
    {
        let ghost before = counter.winners();
        counter.reduce_records(&buckets[b]);
        proof {
            assert forall|j: int| 0 <= j < b + 1 implies is_winner(
                recs_of((#[trigger] buckets@[j])@),
                counter.winners()[j],
            ) by {
                if j < b {
                    assert(counter.winners()[j] == before[j]);
                }
            }
        }
        b += 1;
    }
    let ghost ws = counter.winners();
    let r = counter.finish();
    assert(ws.len() == buckets@.len());
    r
}

/// Finds the first token of `data` that occurs exactly once, with its
/// offset: scans in windows of `chunk_cap` bytes, partitions into
/// `bucket_count` buckets by hash, reduces each bucket and keeps the best
/// winner. `None` when no token occurs exactly once; an error when a token
/// is not UTF-8.
pub fn first_unique(data: &[u8], chunk_cap: u64, bucket_count: usize) -> (r: Result<
    Option<(String, u64)>,
    ChunkError,
>)
    requires
        chunk_cap > 0,
        bucket_count > 0,
    ensures
        r is Ok <==> tokens_utf8(data@),
        r matches Ok(a) ==> is_winner(records_of(data@), opt_pair(a)),
        r matches Err(e) ==> e == ChunkError::DecodeError,
{
    let records = match scan(data, chunk_cap) {
        Ok(v) => v,
        Err(e) => return Err(e),
    };
    let buckets = split(&records, 0, bucket_count);
    let r = reduce(&buckets);
    proof {
        let recs = recs_of(records@);
        let key = route_key(0, bucket_count as u64);
        let ws = choose|ws: Seq<Option<Rec>>|
            ws.len() == buckets@.len() && (forall|b: int|
                0 <= b < ws.len() ==> is_winner(recs_of((#[trigger] buckets@[b])@), ws[b]))
                && opt_pair(r) == min_candidate(ws);
        assert(models_of(buckets@).len() == buckets@.len());
        assert(buckets@.len() == bucket_count);
        assert forall|b: int| 0 <= b < ws.len() implies is_winner(select(recs, key, b), #[trigger] ws[b]) by {
            assert(models_of(buckets@)[b] == recs_of(buckets@[b]@));
            assert(models_of(buckets@)[b] == buckets_of(recs, key, bucket_count as nat)[b]);
        }
        assert forall|i: int| 0 <= i < recs.len() implies 0 <= key(#[trigger] recs[i].0)
            < ws.len() by {
            let h = crate::utils::token_hash(recs[i].0);
            assert(h % (bucket_count as u64) < bucket_count as u64);
            assert(key(recs[i].0) == (h % (bucket_count as u64)) as int);
        }
        lemma_partition_winner(recs, key, ws);
    }
    Ok(r)
}

/// The records of a text are in scan order: offsets strictly increase.
pub proof fn lemma_records_in_order(data: Seq<u8>)
    requires
        data.len() <= u64::MAX,
    ensures
        in_scan_order(records_of(data)),
{
    lemma_spans_increasing(data, 0, 0);
    let sp = token_spans(data);
    let recs = records_of(data);
    assert forall|i: int, j: int| 0 <= i < j < recs.len() implies recs[i].1 < recs[j].1 by {
        assert(sp[i].0 < sp[j].0);
        assert(0 <= sp[i].0 < data.len());
        assert(0 <= sp[j].0 < data.len());
    }
}

/// The answer of `first_unique` is the first token of the text, in file
/// order, that occurs exactly once.
pub proof fn lemma_first_in_file_order(data: Seq<u8>, r: Rec)
    requires
        data.len() <= u64::MAX,
        is_winner(records_of(data), Some(r)),
    ensures
        exists|i: int|
            #![trigger records_of(data)[i]]
            unique_at(records_of(data), i) && records_of(data)[i] == r && forall|j: int|
                0 <= j < i ==> !unique_at(records_of(data), j),
{
    lemma_records_in_order(data);
    lemma_winner_is_first(records_of(data), r);
}

/// The best of the groups' bests is the best of all candidates, in order.
pub proof fn lemma_min_flatten(segs: Seq<Seq<Option<Rec>>>)
    ensures
        min_candidate(segs.flatten()) == min_candidate(
            segs.map_values(|g: Seq<Option<Rec>>| min_candidate(g)),
        ),
    decreases segs.len(),
{
    let mins = segs.map_values(|g: Seq<Option<Rec>>| min_candidate(g));
    if segs.len() > 0 {
        let rest = segs.drop_first();
        let rest_mins = rest.map_values(|g: Seq<Option<Rec>>| min_candidate(g));
        lemma_min_flatten(rest);
        lemma_min_concat(segs[0], rest.flatten());
        assert(mins =~= seq![min_candidate(segs[0])] + rest_mins);
        lemma_min_concat(seq![min_candidate(segs[0])], rest_mins);
        let m0 = min_candidate(segs[0]);
        assert(seq![m0].drop_last() =~= Seq::<Option<Rec>>::empty());
        assert(min_candidate(seq![m0]) == better(min_candidate(Seq::<Option<Rec>>::empty()), m0));
        assert(min_candidate(seq![m0]) == m0);
        assert(segs.flatten() == segs.first() + rest.flatten());
        assert(min_candidate(segs.flatten()) == better(m0, min_candidate(rest.flatten())));
        assert(min_candidate(mins) == better(m0, min_candidate(rest_mins)));
    } else {
        assert(mins =~= Seq::<Option<Rec>>::empty());
        assert(segs.flatten() == Seq::<Option<Rec>>::empty());
    }
}

/// Bucket files written by the partition pass and reduced one at a time
/// give the answer over the whole input. When bucket `b` holds the bytes of
/// the records routed to it, and the best of `segs[b]`, the winners that
/// reducing it added, is the winner of what it reads back as, then the best
/// of all winners, in bucket order, is the winner of the input.
pub proof fn lemma_bucket_files(
    recs: Seq<Rec>,
    count: u64,
    files: Seq<Seq<u8>>,
    segs: Seq<Seq<Option<Rec>>>,
)
    requires
        count > 0,
        files.len() == count,
        segs.len() == count,
        forall|i: int| 0 <= i < recs.len() ==> encode_utf8(#[trigger] recs[i].0).len() <= u64::MAX,
        forall|b: int|
            0 <= b < count ==> #[trigger] files[b] == bucket_bytes(
                select(recs, route_key(0, count), b),
            ),
        forall|b: int|
            0 <= b < count ==> is_winner(
                parse_bucket(#[trigger] files[b])->Some_0,
                min_candidate(segs[b]),
            ),
    ensures
        is_winner(recs, min_candidate(segs.flatten())),
{
    let key = route_key(0, count);
    let ws = segs.map_values(|g: Seq<Option<Rec>>| min_candidate(g));
    assert forall|b: int| 0 <= b < ws.len() implies is_winner(select(recs, key, b), #[trigger] ws[b]) by {
        let sel = select(recs, key, b);
        lemma_select_members(recs, key, b);
        assert forall|m: int| 0 <= m < sel.len() implies encode_utf8(#[trigger] sel[m].0).len()
            <= u64::MAX by {
            let i = choose|i: int| 0 <= i < recs.len() && recs[i] == sel[m] && key(recs[i].0) == b;
            assert(encode_utf8(recs[i].0).len() <= u64::MAX);
        }
        lemma_bucket_round_trip(sel);
        assert(files[b] == bucket_bytes(sel));
    }
    assert forall|i: int| 0 <= i < recs.len() implies 0 <= key(#[trigger] recs[i].0) < ws.len() by {
        let h = crate::utils::token_hash(recs[i].0);
        assert(key(recs[i].0) == (h % count) as int);
    }
    lemma_partition_winner(recs, key, ws);
    lemma_min_flatten(segs);
}

} // verus!
