//! The bucket reducer and the global aggregator: counts one bucket at a time
//! in a fresh counter map, keeps the bucket's winner, and keeps the best
//! winner over all buckets.
use crate::model::{
    Rec, better, count_of, first_at, is_winner, lemma_count_absent, lemma_count_pos,
    lemma_count_push, lemma_unique_index, min_candidate, unique_at,
};
use crate::partition::{all_winners, models_of, rebalance};
use crate::record::{RecordError, WordOffset, decode_bucket, parse_bucket, rec_of, recs_of};
use crate::utils::{hash, token_hash};
use std::collections::HashMap;
use vstd::prelude::*;

verus! {

broadcast use vstd::std_specs::hash::group_hash_axioms;

/// The index map lists entry `k` under hash `h`.
pub open spec fn index_has(index: Map<u64, Vec<usize>>, h: u64, k: int) -> bool {
    index.contains_key(h) && exists|t: int|
        0 <= t < index[h]@.len() && #[trigger] index[h]@[t] as int == k
}

/// A counter map entry: token, occurrence count, offset of its first record.
#[derive(Debug, Clone, PartialEq, Eq)]
pub struct WordCountOffset(pub String, pub u64, pub u64);

/// The model of an optional record.
pub open spec fn opt_rec(w: Option<WordOffset>) -> Option<Rec> {
    match w {
        None => None,
        Some(w) => Some(rec_of(w)),
    }
}

/// The model of an optional (token, offset) pair.
pub open spec fn opt_pair(w: Option<(String, u64)>) -> Option<Rec> {
    match w {
        None => None,
        Some(p) => Some((p.0@, p.1)),
    }
}

/// Counts the records of one bucket at a time and keeps the best winner.
pub struct Counter {
    /// The counter map's entries, in order of first occurrence.
    map: Vec<WordCountOffset>,
    /// For each token hash, the indices of the entries whose token has it.
    index: HashMap<u64, Vec<usize>>,
    best: Option<WordOffset>,
    /// The records counted since the map was last emptied.
    seen: Ghost<Seq<Rec>>,
    /// The winner of each bucket reduced so far.
    winners: Ghost<Seq<Option<Rec>>>,
}

impl Counter {
    /// The records counted in the current bucket.
    pub closed spec fn seen(&self) -> Seq<Rec> {
        self.seen@
    }

    /// The winners of the buckets reduced so far.
    pub closed spec fn winners(&self) -> Seq<Option<Rec>> {
        self.winners@
    }

    /// The index lists each entry under its token's hash, and lists nothing
    /// else.
    pub closed spec fn index_wf(&self) -> bool {
        &&& forall|k: int|
            0 <= k < self.map@.len() ==> #[trigger] index_has(
                self.index@,
                token_hash(self.map@[k].0@),
                k,
            )
        &&& forall|h: u64, j: int|
            self.index@.contains_key(h) && 0 <= j < self.index@[h]@.len() ==> {
                let k = #[trigger] self.index@[h]@[j];
                k < self.map@.len() && token_hash(self.map@[k as int].0@) == h
            }
    }

    /// The map counts exactly the records seen, the index locates its
    /// entries, and `best` is the best winner.
    pub closed spec fn wf(&self) -> bool {
        &&& self.index_wf()
        &&& forall|k: int|
            0 <= k < self.map@.len() ==> {
                let e = #[trigger] self.map@[k];
                count_of(self.seen@, e.0@) == e.1 as nat && first_at(self.seen@, e.0@, e.2)
            }
        &&& forall|i: int|
            0 <= i < self.seen@.len() ==> exists|k: int|
                0 <= k < self.map@.len() && #[trigger] self.map@[k].0@ == #[trigger] self.seen@[i].0
        &&& forall|k1: int, k2: int|
            0 <= k1 < self.map@.len() && 0 <= k2 < self.map@.len() && k1 != k2
                ==> #[trigger] self.map@[k1].0@ != #[trigger] self.map@[k2].0@
        &&& opt_rec(self.best) == min_candidate(self.winners@)
    }

    /// A counter with an empty map and no bucket reduced yet.
    pub fn new() -> (r: Counter)
        ensures
            r.wf(),
            r.seen() == Seq::<Rec>::empty(),
            r.winners() == Seq::<Option<Rec>>::empty(),
    {
        Counter {
            map: Vec::new(),
            index: HashMap::new(),
            best: None,
            seen: Ghost(Seq::empty()),
            winners: Ghost(Seq::empty()),
        }
    }

    /// Index of the entry for `word`, whose hash is `h`, if the map has one.
    fn find(&self, word: &String, h: u64) -> (r: Option<usize>)
        requires
            self.wf(),
            h == token_hash(word@),
        ensures
            r matches Some(k) ==> k < self.map@.len() && self.map@[k as int].0@ == word@,
            r is None ==> forall|k: int| 0 <= k < self.map@.len() ==> self.map@[k].0@ != word@,
    {
        match self.index.get(&h) {
            None => {
                proof {
                    assert forall|k: int| 0 <= k < self.map@.len() implies self.map@[k].0@
                        != word@ by {
                        assert(index_has(self.index@, token_hash(self.map@[k].0@), k));
                    }
                }
                None
            },
            Some(list) => {
                let mut j: usize = 0;
                while j < list.len()
                    invariant
                        self.wf(),
                        self.index@.contains_key(h),
                        list@ == self.index@[h]@,
                        j <= list@.len(),
                        forall|t: int|
                            0 <= t < j ==> self.map@[list@[t] as int].0@ != word@,
                    decreases list@.len() - j,
                {
                    let k = list[j];
                    proof {
                        assert(self.index@[h]@[j as int] == k);
                    }
                    if self.map[k].0 == *word {
                        return Some(k);
                    }
                    j += 1;
                }
                proof {
                    assert forall|k: int| 0 <= k < self.map@.len() implies self.map@[k].0@
                        != word@ by {
                        if self.map@[k].0@ == word@ {
                            assert(index_has(self.index@, token_hash(self.map@[k].0@), k));
                            let t = choose|t: int|
                                0 <= t < self.index@[h]@.len() && #[trigger] self.index@[h]@[t] as int
                                    == k;
                            assert(list@[t] as int == k);
                            assert(self.map@[list@[t] as int].0@ != word@);
                        }
                    }
                }
                None
            },
        }
    }

    /// Counts one record: a known token's count grows by one, an unknown
    /// token enters the map with count one and this offset.
    pub fn count(&mut self, word: String, offset: u64) -> (r: u64)
        requires
            old(self).wf(),
            old(self).seen().len() < u64::MAX,
        ensures
            r == count_of(final(self).seen(), word@),
            final(self).wf(),
            final(self).seen() == old(self).seen().push((word@, offset)),
            final(self).winners() == old(self).winners(),
    {
        let ghost old_seen = self.seen@;
        let ghost r: Rec = (word@, offset);
        let ghost new_seen = old_seen.push(r);
        assert forall|i: int| 0 <= i < old_seen.len() implies #[trigger] new_seen[i] == old_seen[i] by {}
        let h = hash(&word);
        match self.find(&word, h) {
            Some(k) => {
                let e = &self.map[k];
                proof {
                    lemma_count_push(old_seen, r, e.0@);
                    assert(count_of(old_seen, e.0@) <= old_seen.len()) by {
                        crate::model::lemma_count_le_len(old_seen, e.0@);
                    }
                }
                let n = e.1 + 1;
                let updated = WordCountOffset(e.0.clone(), n, e.2);
                self.map.set(k, updated);
                self.seen = Ghost(new_seen);
                proof {
                    assert forall|k2: int| 0 <= k2 < self.map@.len() implies #[trigger] self.map@[k2].0@
                        == old(self).map@[k2].0@ by {}
                    assert forall|k2: int| 0 <= k2 < self.map@.len() implies #[trigger] index_has(
                        self.index@,
                        token_hash(self.map@[k2].0@),
                        k2,
                    ) by {
                        assert(index_has(old(self).index@, token_hash(old(self).map@[k2].0@), k2));
                    }
                    assert forall|h2: u64, j: int|
                        self.index@.contains_key(h2) && 0 <= j < self.index@[h2]@.len() implies {
                        let k2 = #[trigger] self.index@[h2]@[j];
                        k2 < self.map@.len() && token_hash(self.map@[k2 as int].0@) == h2
                    } by {
                        let k2 = self.index@[h2]@[j];
                        assert(self.map@[k2 as int].0@ == old(self).map@[k2 as int].0@);
                    }
                    assert(self.index_wf());
                    assert forall|j: int| 0 <= j < self.map@.len() implies {
                        let e = #[trigger] self.map@[j];
                        count_of(self.seen@, e.0@) == e.1 as nat && first_at(self.seen@, e.0@, e.2)
                    } by {
                        let e = self.map@[j];
                        lemma_count_push(old_seen, r, e.0@);
                        let i = choose|i: int|
                            #![trigger old_seen[i]]
                            0 <= i < old_seen.len() && old_seen[i].0 == e.0@ && old_seen[i].1 == e.2
                                && forall|j: int| 0 <= j < i ==> #[trigger] old_seen[j].0 != e.0@;
                        assert(new_seen[i] == old_seen[i]);
                    }
                    assert forall|i: int| 0 <= i < self.seen@.len() implies exists|k: int|
                        0 <= k < self.map@.len() && #[trigger] self.map@[k].0@
                            == #[trigger] self.seen@[i].0 by {
                        if i < old_seen.len() {
                            assert(self.seen@[i] == old_seen[i]);
                            let kk = choose|kk: int|
                                0 <= kk < old(self).map@.len() && #[trigger] old(self).map@[kk].0@
                                    == old_seen[i].0;
                            assert(self.map@[kk].0@ == self.seen@[i].0);
                        } else {
                            assert(self.map@[k as int].0@ == self.seen@[i].0);
                        }
                    }
                    assert(self.map@[k as int].0@ == word@);
                }
                n
            },
            None => {
                proof {
                    lemma_count_push(old_seen, r, word@);
                    assert forall|i: int| 0 <= i < old_seen.len() implies #[trigger] old_seen[i].0
                        != word@ by {
                        let kk = choose|kk: int|
                            0 <= kk < old(self).map@.len() && #[trigger] old(self).map@[kk].0@
                                == #[trigger] old_seen[i].0;
                    }
                    lemma_count_absent(old_seen, word@);
                }
                let n = self.map.len();
                let mut list: Vec<usize> = match self.index.remove(&h) {
                    Some(l) => l,
                    None => Vec::new(),
                };
                let ghost old_list = list@;
                list.push(n);
                self.index.insert(h, list);
                self.map.push(WordCountOffset(word, 1, offset));
                self.seen = Ghost(new_seen);
                proof {
                    let oi = old(self).index@;
                    assert(old_list == if oi.contains_key(h) {
                        oi[h]@
                    } else {
                        Seq::<usize>::empty()
                    });
                    assert(self.index@ == oi.insert(h, self.index@[h]));
                    assert(self.index@[h]@ == old_list.push(n));
                    assert forall|k2: int| 0 <= k2 < self.map@.len() implies #[trigger] index_has(
                        self.index@,
                        token_hash(self.map@[k2].0@),
                        k2,
                    ) by {
                        if k2 < n {
                            assert(self.map@[k2] == old(self).map@[k2]);
                            let hk = token_hash(self.map@[k2].0@);
                            assert(index_has(oi, hk, k2));
                            let t = choose|t: int|
                                0 <= t < oi[hk]@.len() && #[trigger] oi[hk]@[t] as int == k2;
                            if hk == h {
                                assert(self.index@[h]@[t] == old_list[t]);
                            } else {
                                assert(self.index@[hk] == oi[hk]);
                                assert(self.index@[hk]@[t] == oi[hk]@[t]);
                            }
                        } else {
                            assert(self.map@[k2].0@ == r.0);
                            assert(self.index@[h]@[old_list.len() as int] as int == k2);
                        }
                    }
                    assert forall|h2: u64, j: int|
                        self.index@.contains_key(h2) && 0 <= j < self.index@[h2]@.len() implies {
                        let k2 = #[trigger] self.index@[h2]@[j];
                        k2 < self.map@.len() && token_hash(self.map@[k2 as int].0@) == h2
                    } by {
                        let k2 = self.index@[h2]@[j];
                        if h2 == h {
                            if j < old_list.len() {
                                assert(old_list[j] == oi[h]@[j]);
                                assert(self.map@[k2 as int] == old(self).map@[k2 as int]);
                            }
                        } else {
                            assert(self.index@[h2] == oi[h2]);
                            assert(self.map@[k2 as int] == old(self).map@[k2 as int]);
                        }
                    }
                    assert(self.index_wf());
                }
                proof {
                    let n = old(self).map@.len() as int;
                    assert(new_seen[old_seen.len() as int] == r);
                    assert forall|j: int| 0 <= j < self.map@.len() implies {
                        let e = #[trigger] self.map@[j];
                        count_of(self.seen@, e.0@) == e.1 as nat && first_at(self.seen@, e.0@, e.2)
                    } by {
                        let e = self.map@[j];
                        lemma_count_push(old_seen, r, e.0@);
                        if j < n {
                            assert(e == old(self).map@[j]);
                            let i = choose|i: int|
                                #![trigger old_seen[i]]
                                0 <= i < old_seen.len() && old_seen[i].0 == e.0@ && old_seen[i].1
                                    == e.2 && forall|j: int|
                                    0 <= j < i ==> #[trigger] old_seen[j].0 != e.0@;
                            assert(new_seen[i] == old_seen[i]);
                        } else {
                            let i = old_seen.len() as int;
                            assert(new_seen[i] == r);
                            assert forall|j: int| 0 <= j < i implies #[trigger] new_seen[j].0
                                != e.0@ by {
                                assert(new_seen[j] == old_seen[j]);
                            }
                        }
                    }
                    assert forall|i: int| 0 <= i < self.seen@.len() implies exists|k: int|
                        0 <= k < self.map@.len() && #[trigger] self.map@[k].0@
                            == #[trigger] self.seen@[i].0 by {
                        if i < old_seen.len() {
                            assert(self.seen@[i] == old_seen[i]);
                            let kk = choose|kk: int|
                                0 <= kk < old(self).map@.len() && #[trigger] old(self).map@[kk].0@
                                    == old_seen[i].0;
                            assert(self.map@[kk] == old(self).map@[kk]);
                        } else {
                            assert(self.map@[n].0@ == self.seen@[i].0);
                        }
                    }
                    assert forall|k1: int, k2: int|
                        0 <= k1 < self.map@.len() && 0 <= k2 < self.map@.len() && k1 != k2
                            implies #[trigger] self.map@[k1].0@ != #[trigger] self.map@[k2].0@ by {
                        if k1 < n && k2 < n {
                            assert(self.map@[k1] == old(self).map@[k1]);
                            assert(self.map@[k2] == old(self).map@[k2]);
                        } else if k1 < n {
                            assert(self.map@[k1] == old(self).map@[k1]);
                        } else {
                            assert(self.map@[k2] == old(self).map@[k2]);
                        }
                    }
                }
                1
            },
        }
    }
    /// Ends the current bucket: its winner (the record of smallest offset
    /// among those whose token was counted once) joins the winners, and the
    /// map is emptied for the next bucket.
    pub fn rotate(&mut self)
        requires
            old(self).wf(),
        ensures
            final(self).wf(),
            final(self).seen() == Seq::<Rec>::empty(),
            exists|w: Option<Rec>|
                is_winner(old(self).seen(), w) && final(self).winners() == old(self).winners().push(
                    w,
                ),
    {
        let ghost seen = self.seen@;
        let mut local: Option<WordOffset> = None;
        let mut k: usize = 0;
        while k < self.map.len()
            invariant
                self.wf(),
                self.seen@ == seen,
                k <= self.map@.len(),
                local is None ==> forall|j: int| 0 <= j < k ==> #[trigger] self.map@[j].1 != 1,
                local matches Some(b) ==> exists|j: int|
                    0 <= j < k && #[trigger] self.map@[j].1 == 1 && self.map@[j].0@ == b.0@
                        && self.map@[j].2 == b.1,
                local matches Some(b) ==> forall|j: int|
                    0 <= j < k && #[trigger] self.map@[j].1 == 1 ==> b.1 <= self.map@[j].2,
            decreases self.map@.len() - k,
        {
            let e = &self.map[k];
            if e.1 == 1 {
                let take = match &local {
                    None => true,
                    Some(b) => e.2 < b.1,
                };
                if take {
                    local = Some(WordOffset(e.0.clone(), e.2));
                }
            }
            k += 1;
        }
        proof {
            match opt_rec(local) {
                None => {
                    assert forall|i: int| 0 <= i < seen.len() implies !unique_at(seen, i) by {
                        let kk = choose|kk: int|
                            0 <= kk < self.map@.len() && #[trigger] self.map@[kk].0@
                                == #[trigger] seen[i].0;
                        assert(self.map@[kk].1 != 1);
                    }
                },
                Some(b) => {
                    let j = choose|j: int|
                        0 <= j < self.map@.len() && #[trigger] self.map@[j].1 == 1
                            && self.map@[j].0@ == b.0 && self.map@[j].2 == b.1;
                    let e = self.map@[j];
                    let i = choose|i: int|
                        #![trigger seen[i]]
                        0 <= i < seen.len() && seen[i].0 == e.0@ && seen[i].1 == e.2 && forall|
                            j: int,
                        | 0 <= j < i ==> #[trigger] seen[j].0 != e.0@;
                    assert(unique_at(seen, i));
                    assert forall|j2: int| unique_at(seen, j2) implies b.1 <= #[trigger] seen[j2].1 by {
                        let kk = choose|kk: int|
                            0 <= kk < self.map@.len() && #[trigger] self.map@[kk].0@
                                == #[trigger] seen[j2].0;
                        let e2 = self.map@[kk];
                        let i2 = choose|i2: int|
                            #![trigger seen[i2]]
                            0 <= i2 < seen.len() && seen[i2].0 == e2.0@ && seen[i2].1 == e2.2
                                && forall|j: int| 0 <= j < i2 ==> #[trigger] seen[j].0 != e2.0@;
                        lemma_unique_index(seen, j2, i2);
                    }
                    assert(is_winner(seen, opt_rec(local)));
                },
            }
        }
        let take = match (&self.best, &local) {
            (None, Some(_)) => true,
            (Some(a), Some(b)) => b.1 < a.1,
            _ => false,
        };
        if take {
            self.best = local;
        }
        let ghost w = opt_rec(local);
        proof {
            assert(self.winners@.push(w).drop_last() =~= self.winners@);
        }
        self.winners = Ghost(self.winners@.push(w));
        self.map = Vec::new();
        self.index = HashMap::new();
        self.seen = Ghost(Seq::empty());
        assert(is_winner(old(self).seen(), w) && self.winners() == old(self).winners().push(w));
    }

    /// Reduces one bucket, given as its records: counts them in the fresh
    /// map, then rotates.
    pub fn reduce_records(&mut self, recs: &Vec<WordOffset>)
        requires
            old(self).wf(),
            old(self).seen() == Seq::<Rec>::empty(),
        ensures
            final(self).wf(),
            final(self).seen() == Seq::<Rec>::empty(),
            exists|w: Option<Rec>|
                is_winner(recs_of(recs@), w) && final(self).winners() == old(self).winners().push(
                    w,
                ),
    {
        let ghost model = recs_of(recs@);
        let mut i: usize = 0;
        while i < recs.len()
            invariant
                self.wf(),
                i <= recs@.len(),
                model == recs_of(recs@),
                self.seen() == model.subrange(0, i as int),
                self.winners() == old(self).winners(),
            decreases recs@.len() - i,
        {
            let w = recs[i].0.clone();
            let _ = self.count(w, recs[i].1);
            i += 1;
            assert(self.seen() =~= model.subrange(0, i as int));
        }
        assert(model.subrange(0, i as int) =~= model);
        self.rotate();
    }

    /// Reduces one bucket, given as its bytes. A bucket that is not records
    /// back to back is an error, and nothing of it is counted.
    pub fn run(&mut self, bucket: &[u8]) -> (r: Result<(), RecordError>)
        requires
            old(self).wf(),
            old(self).seen() == Seq::<Rec>::empty(),
        ensures
            final(self).wf(),
            r is Ok <==> parse_bucket(bucket@) is Some,
            r is Ok ==> final(self).seen() == Seq::<Rec>::empty() && exists|w: Option<Rec>|
                is_winner(parse_bucket(bucket@)->Some_0, w) && final(self).winners()
                    == old(self).winners().push(w),
            r is Err ==> *final(self) == *old(self),
    {
        let recs = match decode_bucket(bucket) {
            Ok(v) => v,
            Err(e) => return Err(e),
        };
        self.reduce_records(&recs);
        Ok(())
    }

    /// Reduces one bucket, given as its bytes, splitting it again first
    /// while it is over `threshold` (as `rebalance` does, from level zero up
    /// to `max_level`). Each resulting bucket is counted in a fresh map and
    /// rotated, so the best of their winners is the winner of the bucket.
    /// Returns whether a bucket stayed over the threshold. A bucket that is
    /// not records back to back is an error, and nothing of it is counted.
    pub fn reduce_bucket(&mut self, bucket: &[u8], threshold: u64, max_level: u64) -> (r: Result<
        bool,
        RecordError,
    >)
        requires
            old(self).wf(),
            old(self).seen() == Seq::<Rec>::empty(),
            0 < threshold < u64::MAX,
        ensures
            final(self).wf(),
            r is Ok <==> parse_bucket(bucket@) is Some,
            r is Ok ==> final(self).seen() == Seq::<Rec>::empty() && exists|seg: Seq<Option<Rec>>|
                final(self).winners() == old(self).winners() + seg && is_winner(
                    parse_bucket(bucket@)->Some_0,
                    min_candidate(seg),
                ),
            r is Err ==> *final(self) == *old(self),
    {
        let recs = match decode_bucket(bucket) {
            Ok(v) => v,
            Err(e) => return Err(e),
        };
        let (parts, capped) = rebalance(&recs, 0, threshold, max_level);
        let ghost start = self.winners();
        let mut k: usize = 0;
        while k < parts.len()
            invariant
                self.wf(),
                self.seen() == Seq::<Rec>::empty(),
                k <= parts@.len(),
                self.winners().len() == start.len() + k,
                self.winners().subrange(0, start.len() as int) == start,
                forall|t: int|
                    0 <= t < k ==> is_winner(
                        #[trigger] models_of(parts@)[t],
                        self.winners()[start.len() + t],
                    ),
            decreases parts@.len() - k,
        {
            let ghost before = self.winners();
            self.reduce_records(&parts[k]);
            proof {
                let w = choose|w: Option<Rec>|
                    is_winner(recs_of(parts@[k as int]@), w) && self.winners() == before.push(w);
                assert(self.winners().subrange(0, start.len() as int) =~= before.subrange(
                    0,
                    start.len() as int,
                ));
                assert forall|t: int| 0 <= t < k + 1 implies is_winner(
                    #[trigger] models_of(parts@)[t],
                    self.winners()[start.len() + t],
                ) by {
                    if t < k {
                        assert(self.winners()[start.len() + t] == before[start.len() + t]);
                    }
                }
            }
            k += 1;
        }
        proof {
            let fin = self.winners();
            let seg = fin.subrange(start.len() as int, fin.len() as int);
            assert(fin =~= start + seg);
            assert forall|t: int| 0 <= t < seg.len() implies is_winner(
                #[trigger] models_of(parts@)[t],
                seg[t],
            ) by {
                assert(seg[t] == fin[start.len() + t]);
            }
            assert(all_winners(models_of(parts@), seg));
        }
        Ok(capped)
    }

    /// The best winner over all buckets reduced: the one of smallest offset,
    /// or `None` when no bucket had one.
    pub fn finish(self) -> (r: Option<(String, u64)>)
        requires
            self.wf(),
        ensures
            opt_pair(r) == min_candidate(self.winners()),
    {
        match self.best {
            None => None,
            Some(b) => Some((b.0, b.1)),
        }
    }
}

} // verus!
