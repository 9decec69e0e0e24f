//! The hash partitioner: sends each record to the bucket that its token's
//! hash picks, keeping scan order within a bucket, and splits an oversized
//! bucket again under a salted hash until it fits or a depth cap is reached.
use crate::model::{Rec, better, next_delim, is_winner, records_of, token_spans, tokens_utf8, lemma_min_concat, lemma_partition_winner, min_candidate, select};
use crate::chunk::{ChunkError, ChunkFile, Scan};
use crate::record::{RecordError, WordOffset, encode_record, rec_of, record_bytes, recs_of};
use crate::utils::{bucket_index, route};
use vstd::multiset::Multiset;
use vstd::prelude::*;
use vstd::utf8::encode_utf8;

verus! {

broadcast use vstd::seq_lib::group_to_multiset_ensures;

/// The default number of buckets of the first partition level.
pub const DEFAULT_BUCKET_COUNT: usize = 50;

/// The default size, in bytes, above which a bucket is split again.
pub const DEFAULT_BUCKET_THRESHOLD: u64 = 2147483648;

/// The default number of levels below the first at which splitting stops.
pub const DEFAULT_MAX_LEVEL: u64 = 4;

/// The key that sends a token to its bucket among `count` at `level`.
pub open spec fn route_key(level: u64, count: u64) -> spec_fn(Seq<char>) -> int {
    |w: Seq<char>| route(w, level, count)
}

/// The buckets `0..n` that `key` makes of `recs`.
pub open spec fn buckets_of(recs: Seq<Rec>, key: spec_fn(Seq<char>) -> int, n: nat) -> Seq<
    Seq<Rec>,
> {
    Seq::new(n, |b: int| select(recs, key, b))
}

/// All records of a sequence of buckets, as a multiset.
pub open spec fn union_of(bs: Seq<Seq<Rec>>) -> Multiset<Rec>
    decreases bs.len(),
{
    if bs.len() == 0 {
        Multiset::empty()
    } else {
        union_of(bs.drop_last()).add(bs.last().to_multiset())
    }
}

/// The models of a sequence of buckets.
pub open spec fn models_of(bs: Seq<Vec<WordOffset>>) -> Seq<Seq<Rec>> {
    bs.map_values(|b: Vec<WordOffset>| recs_of(b@))
}

/// The size of a bucket on disk: each record takes sixteen bytes of framing
/// and its token's UTF-8 bytes.
pub open spec fn bucket_size(recs: Seq<Rec>) -> nat
    decreases recs.len(),
{
    if recs.len() == 0 {
        0
    } else {
        bucket_size(recs.drop_last()) + 16 + encode_utf8(recs.last().0).len()
    }
}

proof fn lemma_union_empty(n: nat)
    ensures
        union_of(Seq::new(n, |b: int| Seq::<Rec>::empty())) == Multiset::<Rec>::empty(),
    decreases n,
{
    if n > 0 {
        let bs = Seq::new(n, |b: int| Seq::<Rec>::empty());
        assert(bs.drop_last() =~= Seq::new((n - 1) as nat, |b: int| Seq::<Rec>::empty()));
        lemma_union_empty((n - 1) as nat);
        assert(bs.last().to_multiset() =~= Multiset::<Rec>::empty()) by {
            assert(bs.last().len() == 0);
        }
        assert(union_of(bs) =~= Multiset::<Rec>::empty());
    }
}

proof fn lemma_union_insert(bs: Seq<Seq<Rec>>, b0: int, r: Rec)
    requires
        0 <= b0 < bs.len(),
    ensures
        union_of(bs.update(b0, bs[b0].push(r))) == union_of(bs).insert(r),
    decreases bs.len(),
{
    let bs2 = bs.update(b0, bs[b0].push(r));
    if b0 == bs.len() - 1 {
        assert(bs2.drop_last() =~= bs.drop_last());
        assert(union_of(bs2) =~= union_of(bs).insert(r));
    } else {
        assert(bs2.drop_last() =~= bs.drop_last().update(b0, bs[b0].push(r)));
        lemma_union_insert(bs.drop_last(), b0, r);
        assert(union_of(bs2) =~= union_of(bs).insert(r));
    }
}

/// Partitioning loses and duplicates nothing: the buckets together hold
/// exactly the records of the input.
pub proof fn lemma_split_covers(recs: Seq<Rec>, key: spec_fn(Seq<char>) -> int, n: nat)
    requires
        forall|i: int| 0 <= i < recs.len() ==> 0 <= key(#[trigger] recs[i].0) < n,
    ensures
        union_of(buckets_of(recs, key, n)) == recs.to_multiset(),
    decreases recs.len(),
{
    if recs.len() == 0 {
        assert(buckets_of(recs, key, n) =~= Seq::new(n, |b: int| Seq::<Rec>::empty()));
        lemma_union_empty(n);
        assert(recs.to_multiset() =~= Multiset::<Rec>::empty());
    } else {
        let init = recs.drop_last();
        let r = recs.last();
        let b0 = key(r.0);
        assert(key(recs[recs.len() - 1].0) == b0);
        assert forall|i: int| 0 <= i < init.len() implies 0 <= key(#[trigger] init[i].0) < n by {
            assert(init[i] == recs[i]);
        }
        lemma_split_covers(init, key, n);
        let bs = buckets_of(init, key, n);
        assert(buckets_of(recs, key, n) =~= bs.update(b0, bs[b0].push(r)));
        lemma_union_insert(bs, b0, r);
        assert(init.push(r) =~= recs);
    }
}

/// Sends each record to bucket `route(token, level, count)`, keeping scan
/// order within each bucket.
pub fn split(records: &Vec<WordOffset>, level: u64, count: usize) -> (r: Vec<Vec<WordOffset>>)
    requires
        count > 0,
    ensures
        models_of(r@) == buckets_of(recs_of(records@), route_key(level, count as u64), count as nat),
{
    let ghost key = route_key(level, count as u64);
    let mut buckets: Vec<Vec<WordOffset>> = Vec::new();
    let mut b: usize = 0;
    while b < count
        invariant
            b <= count,
            buckets@.len() == b,
            forall|j: int| 0 <= j < b ==> (#[trigger] buckets@[j])@.len() == 0,
        decreases count - b,
    {
        buckets.push(Vec::new());
        b += 1;
    }
    let mut i: usize = 0;
    assert forall|j: int| 0 <= j < count implies recs_of((#[trigger] buckets@[j])@) == select(
        recs_of(records@).subrange(0, 0),
        key,
        j,
    ) by {
        assert(recs_of(buckets@[j]@) =~= Seq::<Rec>::empty());
    }
    while i < records.len()
        invariant
            count > 0,
            key == route_key(level, count as u64),
            i <= records@.len(),
            buckets@.len() == count,
            forall|j: int|
                0 <= j < count ==> recs_of((#[trigger] buckets@[j])@) == select(
                    recs_of(records@).subrange(0, i as int),
                    key,
                    j,
                ),
        decreases records@.len() - i,
    {
        let ghost pre = recs_of(records@).subrange(0, i as int);
        let ghost next = recs_of(records@).subrange(0, i + 1);
        let w = &records[i];
        let idx = bucket_index(&w.0, level, count as u64);
        let item = WordOffset(w.0.clone(), w.1);
        let ghost old_buckets = buckets@;
        buckets[idx].push(item);
        proof {
            assert(next.drop_last() =~= pre);
            assert(next.last() == rec_of(records@[i as int]));
            assert(next.last().0 == w.0@);
            assert(route_key(level, count as u64)(w.0@) == route(w.0@, level, count as u64));
            assert(key(next.last().0) == idx as int);
            assert forall|j: int| 0 <= j < count implies recs_of((#[trigger] buckets@[j])@)
                == select(next, key, j) by {
                if j == idx {
                    assert(recs_of(buckets@[j]@) =~= recs_of(old_buckets[j]@).push(rec_of(item)));
                } else {
                    assert(buckets@[j] == old_buckets[j]);
                }
            }
        }
        i += 1;
    }
    proof {
        assert(recs_of(records@).subrange(0, records@.len() as int) =~= recs_of(records@));
        assert(models_of(buckets@) =~= buckets_of(recs_of(records@), key, count as nat));
    }
    buckets
}

/// Multisets of buckets add up over concatenation.
proof fn lemma_union_concat(a: Seq<Seq<Rec>>, b: Seq<Seq<Rec>>)
    ensures
        union_of(a + b) == union_of(a).add(union_of(b)),
    decreases b.len(),
{
    if b.len() == 0 {
        assert(a + b =~= a);
        assert(union_of(a).add(union_of(b)) =~= union_of(a));
    } else {
        assert((a + b).drop_last() =~= a + b.drop_last());
        lemma_union_concat(a, b.drop_last());
        assert(union_of(a + b) =~= union_of(a).add(union_of(b)));
    }
}

/// The on-disk size of a bucket, saturating at `u64::MAX`.
pub fn records_size(recs: &Vec<WordOffset>) -> (r: u64)
    ensures
        r == if bucket_size(recs_of(recs@)) <= u64::MAX {
            bucket_size(recs_of(recs@))
        } else {
            u64::MAX as nat
        },
{
    let mut total: u64 = 0;
    let mut i: usize = 0;
    while i < recs.len()
        invariant
            i <= recs@.len(),
            total == if bucket_size(recs_of(recs@).subrange(0, i as int)) <= u64::MAX {
                bucket_size(recs_of(recs@).subrange(0, i as int))
            } else {
                u64::MAX as nat
            },
        decreases recs@.len() - i,
    {
        let n = recs[i].0.as_str().as_bytes().len() as u64;
        proof {
            let s1 = recs_of(recs@).subrange(0, i + 1);
            assert(s1.drop_last() =~= recs_of(recs@).subrange(0, i as int));
            assert(s1.last() == rec_of(recs@[i as int]));
            assert(n == encode_utf8(s1.last().0).len());
        }
        total = total.saturating_add(16).saturating_add(n);
        i += 1;
    }
    assert(recs_of(recs@).subrange(0, i as int) =~= recs_of(recs@));
    total
}

/// How many sub-buckets an oversized bucket is split into: enough that each
/// is expected under the threshold, plus one.
pub fn sub_bucket_count(size: u64, threshold: u64) -> (r: u64)
    requires
        threshold > 0,
        size / threshold + 2 <= u64::MAX,
    ensures
        r == size / threshold + (if size % threshold == 0 {
            0u64
        } else {
            1u64
        }) + 1,
{
    let q = size / threshold;
    if size % threshold == 0 {
        q + 1
    } else {
        q + 2
    }
}

/// Copies a bucket.
fn copy_bucket(recs: &Vec<WordOffset>) -> (r: Vec<WordOffset>)
    ensures
        recs_of(r@) == recs_of(recs@),
{
    let mut out: Vec<WordOffset> = Vec::new();
    let mut i: usize = 0;
    while i < recs.len()
        invariant
            i <= recs@.len(),
            recs_of(out@) == recs_of(recs@).subrange(0, i as int),
        decreases recs@.len() - i,
    {
        let ghost before = out@;
        let item = WordOffset(recs[i].0.clone(), recs[i].1);
        out.push(item);
        proof {
            assert(out@ == before.push(item));
            assert(recs_of(out@) =~= recs_of(before).push(rec_of(item)));
            assert(rec_of(item) == recs_of(recs@)[i as int]);
        }
        i += 1;
        assert(recs_of(out@) =~= recs_of(recs@).subrange(0, i as int));
    }
    assert(recs_of(recs@).subrange(0, i as int) =~= recs_of(recs@));
    out
}

/// `ws` holds a winner for each bucket of `bs`.
pub open spec fn all_winners(bs: Seq<Seq<Rec>>, ws: Seq<Option<Rec>>) -> bool {
    ws.len() == bs.len() && forall|b: int| 0 <= b < ws.len() ==> is_winner(#[trigger] bs[b], ws[b])
}

/// The size of a bucket as `records_size` reports it: saturated at
/// `u64::MAX`.
pub open spec fn saturated_size(recs: Seq<Rec>) -> nat {
    if bucket_size(recs) <= u64::MAX {
        bucket_size(recs)
    } else {
        u64::MAX as nat
    }
}

/// How many sub-buckets a bucket of `size` is split into: the size over the
/// threshold, rounded up, plus one.
pub open spec fn split_count(size: nat, threshold: nat) -> nat {
    size / threshold + (if size % threshold == 0 {
        0nat
    } else {
        1nat
    }) + 1
}

/// A bucket at `level` is split again: it is over the threshold, the depth
/// cap is not reached, and its split count can be computed and allocated.
pub open spec fn splits_again(recs: Seq<Rec>, level: u64, threshold: u64, max_level: u64) -> bool {
    &&& saturated_size(recs) > threshold
    &&& level < max_level
    &&& saturated_size(recs) / (threshold as nat) <= u64::MAX - 2
    &&& split_count(saturated_size(recs), threshold as nat) <= usize::MAX
}

/// The buckets of a sequence of groups of buckets, in order.
pub open spec fn flatten(segs: Seq<Seq<Seq<Rec>>>) -> Seq<Seq<Rec>>
    decreases segs.len(),
{
    if segs.len() == 0 {
        Seq::empty()
    } else {
        flatten(segs.drop_last()) + segs.last()
    }
}

/// `out` is what rebalancing `recs`, found at `level`, yields, and `capped`
/// whether a bucket of it is still over the threshold. A bucket that is not
/// split again stands alone. One that is split again goes into
/// `split_count` sub-buckets under the hash salted with the next level, and
/// `out` is the concatenation of what rebalancing each of them yields.
pub open spec fn rebalanced(
    recs: Seq<Rec>,
    level: u64,
    threshold: u64,
    max_level: u64,
    out: Seq<Seq<Rec>>,
    capped: bool,
) -> bool
    decreases max_level - level,
{
    if !splits_again(recs, level, threshold, max_level) || level >= max_level {
        out == seq![recs] && capped == (bucket_size(recs) > threshold)
    } else {
        let m = split_count(saturated_size(recs), threshold as nat);
        let key = route_key((level + 1) as u64, m as u64);
        exists|segs: Seq<Seq<Seq<Rec>>>, caps: Seq<bool>|
            segs.len() == m && caps.len() == m && out == flatten(segs) && (capped <==> exists|
                t: int,
            | 0 <= t < m && #[trigger] caps[t]) && forall|t: int|
                0 <= t < m ==> rebalanced(
                    select(recs, key, t),
                    (level + 1) as u64,
                    threshold,
                    max_level,
                    #[trigger] segs[t],
                    caps[t],
                )
    }
}

/// Splits a bucket found at `level` again while it exceeds `threshold`,
/// each time under the hash salted with the next level, and stops at
/// `max_level`. Returns the resulting buckets and whether one of them is
/// still over the threshold (a bucket of one repeated token never shrinks).
/// The buckets together hold exactly the records of the input, and the best
/// of their winners is the winner of the input.
pub fn rebalance(bucket: &Vec<WordOffset>, level: u64, threshold: u64, max_level: u64) -> (r: (
    Vec<Vec<WordOffset>>,
    bool,
))
    requires
        0 < threshold < u64::MAX,
        level <= max_level,
    ensures
        union_of(models_of(r.0@)) == recs_of(bucket@).to_multiset(),
        r.1 <==> exists|i: int|
            0 <= i < r.0@.len() && bucket_size(recs_of((#[trigger] r.0@[i])@)) > threshold,
        r.0@.len() >= 1,
        level >= max_level || bucket_size(recs_of(bucket@)) <= threshold ==> r.0@.len() == 1,
        rebalanced(recs_of(bucket@), level, threshold, max_level, models_of(r.0@), r.1),
        forall|ws: Seq<Option<Rec>>|
            #[trigger] all_winners(models_of(r.0@), ws) ==> is_winner(
                recs_of(bucket@),
                min_candidate(ws),
            ),
    decreases max_level - level,
{
    let size = records_size(bucket);
    let fits = size <= threshold;
    let m: u64 = if fits || level >= max_level || size / threshold > u64::MAX - 2 {
        0
    } else {
        sub_bucket_count(size, threshold)
    };
    if m == 0 || m > usize::MAX as u64 {
        let copy = copy_bucket(bucket);
        let mut out: Vec<Vec<WordOffset>> = Vec::new();
        out.push(copy);
        proof {
            assert(models_of(out@) =~= seq![recs_of(bucket@)]);
            assert(seq![recs_of(bucket@)].drop_last() =~= Seq::<Seq<Rec>>::empty());
            assert(union_of(models_of(out@)) == union_of(Seq::<Seq<Rec>>::empty()).add(
                recs_of(bucket@).to_multiset(),
            ));
            assert(union_of(models_of(out@)) =~= recs_of(bucket@).to_multiset());
            assert(!splits_again(recs_of(bucket@), level, threshold, max_level));
            assert(rebalanced(
                recs_of(bucket@),
                level,
                threshold,
                max_level,
                models_of(out@),
                !fits,
            ));
            assert forall|ws: Seq<Option<Rec>>| #[trigger]
                all_winners(models_of(out@), ws) implies is_winner(
                recs_of(bucket@),
                min_candidate(ws),
            ) by {
                assert(ws.drop_last() =~= Seq::<Option<Rec>>::empty());
                assert(models_of(out@)[0] == recs_of(bucket@));
                assert(is_winner(models_of(out@)[0], ws[0]));
                assert(min_candidate(ws) == better(min_candidate(ws.drop_last()), ws.last()));
            }
            assert(recs_of(out@[0]@) == recs_of(bucket@));
            if !fits {
                assert(bucket_size(recs_of(out@[0]@)) > threshold);
            } else {
                assert forall|i: int| 0 <= i < out@.len() implies !(bucket_size(
                    recs_of((#[trigger] out@[i])@),
                ) > threshold) by {
                    assert(i == 0);
                }
            }
        }
        return (out, !fits);
    }
    let next = level + 1;
    let parts = split(bucket, next, m as usize);
    let ghost recs = recs_of(bucket@);
    let ghost key = route_key(next, m);
    assert(models_of(parts@).len() == parts@.len());
    assert((m as usize) as u64 == m);
    let mut out: Vec<Vec<WordOffset>> = Vec::new();
    let mut capped = false;
    let mut j: usize = 0;
    let ghost mut segs: Seq<Seq<Seq<Rec>>> = Seq::empty();
    let ghost mut caps: Seq<bool> = Seq::empty();
    proof {
        assert(splits_again(recs, level, threshold, max_level));
        assert(m as nat == split_count(saturated_size(recs), threshold as nat));
        assert forall|ws: Seq<Option<Rec>>| #[trigger]
            all_winners(models_of(out@), ws) implies exists|pw: Seq<Option<Rec>>|
            all_winners(buckets_of(recs, key, 0), pw) && min_candidate(ws) == min_candidate(pw) by {
            assert(all_winners(buckets_of(recs, key, 0), ws));
        }
        assert(models_of(parts@).subrange(0, 0) =~= Seq::<Seq<Rec>>::empty());
        assert(models_of(out@) =~= Seq::<Seq<Rec>>::empty());
    }
    while j < parts.len()
        invariant
            j <= parts@.len() == m,
            level < max_level,
            next == level + 1,
            0 < threshold < u64::MAX,
            models_of(parts@) == buckets_of(recs, key, m as nat),
            recs == recs_of(bucket@),
            key == route_key(next, m),
            union_of(models_of(out@)) == union_of(models_of(parts@).subrange(0, j as int)),
            capped <==> exists|i: int|
                0 <= i < out@.len() && bucket_size(recs_of((#[trigger] out@[i])@)) > threshold,
            j > 0 ==> out@.len() >= 1,
            segs.len() == j && caps.len() == j,
            models_of(out@) == flatten(segs),
            capped <==> exists|t: int| 0 <= t < j && #[trigger] caps[t],
            forall|t: int|
                0 <= t < j ==> rebalanced(
                    select(recs, key, t),
                    next,
                    threshold,
                    max_level,
                    #[trigger] segs[t],
                    caps[t],
                ),
            forall|ws: Seq<Option<Rec>>| #[trigger]
                all_winners(models_of(out@), ws) ==> exists|pw: Seq<Option<Rec>>|
                    all_winners(buckets_of(recs, key, j as nat), pw) && min_candidate(ws)
                        == min_candidate(pw),
        decreases parts@.len() - j,
    {
        let (mut sub, sub_capped) = rebalance(&parts[j], next, threshold, max_level);
        let ghost before = out@;
        let ghost sub_view = sub@;
        proof {
            assert(models_of(parts@)[j as int] == recs_of(parts@[j as int]@));
            assert(buckets_of(recs, key, m as nat)[j as int] == select(recs, key, j as int));
        }
        out.append(&mut sub);
        proof {
            assert(out@ == before + sub_view);
            assert(models_of(out@) =~= models_of(before) + models_of(sub_view));
            lemma_union_concat(models_of(before), models_of(sub_view));
            assert(models_of(parts@).subrange(0, j + 1) =~= models_of(parts@).subrange(
                0,
                j as int,
            ).push(recs_of(parts@[j as int]@)));
            assert(models_of(parts@).subrange(0, j + 1).drop_last() =~= models_of(
                parts@,
            ).subrange(0, j as int));
            assert forall|i: int| 0 <= i < sub_view.len() implies #[trigger] out@[before.len()
                + i] == sub_view[i] by {}
            assert forall|i: int| 0 <= i < before.len() implies #[trigger] out@[i] == before[i] by {}
            if sub_capped {
                let i = choose|i: int|
                    0 <= i < sub_view.len() && bucket_size(recs_of((#[trigger] sub_view[i])@))
                        > threshold;
                assert(out@[before.len() + i] == sub_view[i]);
            }
            if capped {
                let i = choose|i: int|
                    0 <= i < before.len() && bucket_size(recs_of((#[trigger] before[i])@))
                        > threshold;
                assert(out@[i] == before[i]);
            }
            assert forall|ws: Seq<Option<Rec>>| #[trigger]
                all_winners(models_of(out@), ws) implies exists|pw: Seq<Option<Rec>>|
                all_winners(buckets_of(recs, key, (j + 1) as nat), pw) && min_candidate(ws)
                    == min_candidate(pw) by {
                let ws1 = ws.subrange(0, before.len() as int);
                let ws2 = ws.subrange(before.len() as int, ws.len() as int);
                assert(ws1 + ws2 =~= ws);
                assert forall|b: int| 0 <= b < ws1.len() implies is_winner(
                    #[trigger] models_of(before)[b],
                    ws1[b],
                ) by {
                    assert(models_of(out@)[b] == models_of(before)[b]);
                    assert(ws[b] == ws1[b]);
                }
                assert(all_winners(models_of(before), ws1));
                assert forall|b: int| 0 <= b < ws2.len() implies is_winner(
                    #[trigger] models_of(sub_view)[b],
                    ws2[b],
                ) by {
                    assert(models_of(out@)[before.len() + b] == models_of(sub_view)[b]);
                    assert(ws[before.len() + b] == ws2[b]);
                }
                assert(all_winners(models_of(sub_view), ws2));
                let pw = choose|pw: Seq<Option<Rec>>|
                    all_winners(buckets_of(recs, key, j as nat), pw) && min_candidate(ws1)
                        == min_candidate(pw);
                let pw2 = pw.push(min_candidate(ws2));
                lemma_min_concat(ws1, ws2);
                assert(pw2.drop_last() =~= pw);
                assert forall|t: int| 0 <= t < pw2.len() implies is_winner(
                    #[trigger] buckets_of(recs, key, (j + 1) as nat)[t],
                    pw2[t],
                ) by {
                    if t < j {
                        assert(pw2[t] == pw[t]);
                        assert(buckets_of(recs, key, j as nat)[t] == select(recs, key, t));
                    }
                }
                assert(all_winners(buckets_of(recs, key, (j + 1) as nat), pw2));
                assert(min_candidate(pw2) == better(min_candidate(pw), min_candidate(ws2)));
                assert(min_candidate(ws) == min_candidate(pw2));
            }
        }
        proof {
            let segs2 = segs.push(models_of(sub_view));
            let caps2 = caps.push(sub_capped);
            assert(segs2.drop_last() =~= segs);
            assert(flatten(segs2) == flatten(segs) + models_of(sub_view));
            assert(models_of(out@) == flatten(segs2));
            assert forall|t: int| 0 <= t < j + 1 implies rebalanced(
                select(recs, key, t),
                next,
                threshold,
                max_level,
                #[trigger] segs2[t],
                caps2[t],
            ) by {
                if t < j {
                    assert(segs2[t] == segs[t] && caps2[t] == caps[t]);
                }
            }
            if capped {
                let t = choose|t: int| 0 <= t < j && #[trigger] caps[t];
                assert(caps2[t]);
            }
            if sub_capped {
                assert(caps2[j as int]);
            }
            assert((capped || sub_capped) <==> exists|t: int| 0 <= t < j + 1 && #[trigger] caps2[t]) by {
                if exists|t: int| 0 <= t < j + 1 && #[trigger] caps2[t] {
                    let t = choose|t: int| 0 <= t < j + 1 && #[trigger] caps2[t];
                    if t < j {
                        assert(caps[t]);
                    }
                }
            }
            segs = segs2;
            caps = caps2;
        }
        capped = capped || sub_capped;
        j += 1;
    }
    proof {
        assert(models_of(parts@).subrange(0, j as int) =~= models_of(parts@));
        assert forall|i: int| 0 <= i < recs.len() implies 0 <= key(#[trigger] recs[i].0) < m by {
            let h = crate::utils::salted_token_hash(recs[i].0, next);
            assert(key(recs[i].0) == (h % m) as int);
        }
        lemma_split_covers(recs, key, m as nat);
        assert forall|ws: Seq<Option<Rec>>| #[trigger]
            all_winners(models_of(out@), ws) implies is_winner(recs, min_candidate(ws)) by {
            let pw = choose|pw: Seq<Option<Rec>>|
                all_winners(buckets_of(recs, key, j as nat), pw) && min_candidate(ws)
                    == min_candidate(pw);
            assert forall|b: int| 0 <= b < pw.len() implies is_winner(
                select(recs, key, b),
                #[trigger] pw[b],
            ) by {
                assert(buckets_of(recs, key, j as nat)[b] == select(recs, key, b));
            }
            lemma_partition_winner(recs, key, pw);
        }
        assert(route_key((level + 1) as u64, m as u64) == key);
        assert(rebalanced(recs, level, threshold, max_level, models_of(out@), capped));
    }
    (out, capped)
}

/// What the partition pass asks of its caller next.
pub enum SplitStep {
    /// Append the encoded record `.1` to bucket `.0`.
    Record(usize, Vec<u8>),
    /// Read the next bytes of the input and hand them to `load_chunk`.
    NeedData,
    /// Every token has been routed.
    Done,
}

/// The partition pass: scans the input through a chunk reader and routes
/// each record, encoded, to the bucket that its token's hash picks.
pub struct HashSplitFile {
    inner: ChunkFile,
    count: usize,
}

impl HashSplitFile {
    /// The chunk reader.
    pub closed spec fn reader(&self) -> ChunkFile {
        self.inner
    }

    /// The number of buckets.
    pub closed spec fn spec_count(&self) -> usize {
        self.count
    }

    /// The records routed so far, in scan order.
    pub open spec fn records(&self) -> Seq<Rec> {
        records_of(self.reader().scanned())
    }

    /// What each bucket has received so far.
    pub open spec fn routed(&self) -> Seq<Seq<Rec>> {
        buckets_of(self.records(), route_key(0, self.spec_count() as u64), self.spec_count() as nat)
    }

    /// The reader is well formed, every token routed was UTF-8, and there is
    /// at least one bucket.
    pub closed spec fn wf(&self) -> bool {
        self.inner.wf() && self.count > 0 && tokens_utf8(self.inner.scanned())
    }

    /// A pass over an input of `file_size` bytes, read `chunk_cap` bytes at a
    /// time, into `count` buckets.
    pub fn new(file_size: u64, chunk_cap: u64, count: usize) -> (r: HashSplitFile)
        requires
            chunk_cap > 0,
            count > 0,
        ensures
            r.wf(),
            r.spec_count() == count,
            r.reader().loaded() == Seq::<u8>::empty(),
            r.reader().spec_file_size() == file_size,
            r.reader().spec_chunk_cap() == chunk_cap,
            r.records() == Seq::<Rec>::empty(),
    {
        let inner = ChunkFile::new(file_size, chunk_cap);
        proof {
            assert(inner.scanned() =~= Seq::<u8>::empty());
            assert(token_spans(Seq::<u8>::empty()) == Seq::<(int, int)>::empty());
            assert(records_of(Seq::<u8>::empty()) =~= Seq::<Rec>::empty());
        }
        HashSplitFile { inner, count }
    }

    /// The number of bytes to read per refill.
    pub fn chunk_cap(&self) -> (r: u64)
        ensures
            r == self.reader().spec_chunk_cap(),
    {
        self.inner.chunk_cap()
    }

    /// Hands the next bytes of the input to the reader.
    pub fn load_chunk(&mut self, data: &[u8]) -> (r: Result<usize, ChunkError>)
        requires
            old(self).wf(),
            !old(self).reader().at_end(),
            old(self).reader().loaded().len() + data@.len() <= u64::MAX,
        ensures
            final(self).wf(),
            final(self).spec_count() == old(self).spec_count(),
            final(self).records() == old(self).records(),
            final(self).reader().spec_file_size() == old(self).reader().spec_file_size(),
            final(self).reader().spec_chunk_cap() == old(self).reader().spec_chunk_cap(),
            match r {
                Ok(n) => n == data@.len() && n > 0 && final(self).reader().loaded() == old(
                    self,
                ).reader().loaded() + data@,
                Err(e) => e == ChunkError::IoError && data@.len() == 0 && final(self).reader().loaded()
                    == old(self).reader().loaded(),
            },
    {
        self.inner.load_chunk(data)
    }

    /// Takes one step of the pass: routes the next record, or asks for more
    /// input, or reports that every token has been routed.
    pub fn split(&mut self) -> (r: Result<SplitStep, RecordError>)
        requires
            old(self).wf(),
        ensures
            final(self).wf(),
            final(self).spec_count() == old(self).spec_count(),
            final(self).reader().loaded() == old(self).reader().loaded(),
            final(self).reader().spec_file_size() == old(self).reader().spec_file_size(),
            final(self).reader().spec_chunk_cap() == old(self).reader().spec_chunk_cap(),
            match r {
                Ok(SplitStep::Record(b, bytes)) => exists|x: Rec|
                    final(self).records() == old(self).records().push(x) && b as int == route(
                        x.0,
                        0,
                        old(self).spec_count() as u64,
                    ) && bytes@ == record_bytes(x.0, x.1),
                Ok(SplitStep::NeedData) => !old(self).reader().at_end() && next_delim(
                    old(self).reader().loaded(),
                    old(self).reader().cursor(),
                ) == old(self).reader().loaded().len() && final(self).records() == old(
                    self,
                ).records(),
                Ok(SplitStep::Done) => old(self).reader().at_end() && final(self).records()
                    == old(self).records() && final(self).records() == records_of(
                    old(self).reader().loaded(),
                ),
                Err(RecordError::InvalidUtf8) => forall|d: Seq<u8>|
                    d.len() >= old(self).reader().loaded().len() && d.subrange(
                        0,
                        old(self).reader().loaded().len() as int,
                    ) == old(self).reader().loaded() && (old(self).reader().at_end() ==> d == old(
                        self,
                    ).reader().loaded()) ==> !tokens_utf8(d),
                Err(RecordError::Encode) => false,
                Err(RecordError::Truncated) => false,
            },
    {
        let ghost before = self.inner;
        match self.inner.next_record() {
            Ok(Scan::Token(w)) => {
                let b = bucket_index(&w.0, 0, self.count as u64);
                match encode_record(&w) {
                    Ok(bytes) => {
                        assert(self.records() == old(self).records().push(rec_of(w)));
                        Ok(SplitStep::Record(b, bytes))
                    },
                    Err(e) => Err(e),
                }
            },
            Ok(Scan::NeedData) => Ok(SplitStep::NeedData),
            Ok(Scan::End) => Ok(SplitStep::Done),
            Err(_) => Err(RecordError::InvalidUtf8),
        }
    }
}

} // verus!
