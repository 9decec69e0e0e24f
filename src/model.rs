//! The mathematical model: tokens of a byte text, records, occurrence counts
//! and the winner of a sequence of records.
use vstd::prelude::*;
use vstd::utf8::{decode_utf8, valid_utf8};

verus! {

/// The line terminator that separates tokens.
pub const DELIM: u8 = 10;

/// A record in the model: a token's text and its absolute offset.
pub type Rec = (Seq<char>, u64);

/// Index of the first delimiter at or after `i`, or the length of `data`.
pub open spec fn next_delim(data: Seq<u8>, i: int) -> int
    decreases data.len() - i,
{
    if i >= data.len() {
        data.len() as int
    } else if data[i] == DELIM {
        i
    } else {
        next_delim(data, i + 1)
    }
}

/// The spans `(start, end)` of the tokens of `data` from position `i` on,
/// where the token being scanned started at `start`.
pub open spec fn spans_from(data: Seq<u8>, start: int, i: int) -> Seq<(int, int)>
    decreases data.len() - i,
{
    if i >= data.len() {
        if start < data.len() {
            seq![(start, data.len() as int)]
        } else {
            Seq::empty()
        }
    } else if data[i] == DELIM {
        seq![(start, i)] + spans_from(data, i + 1, i + 1)
    } else {
        spans_from(data, start, i + 1)
    }
}

/// The spans of all tokens of `data`: maximal runs between delimiters, with
/// a trailing run kept when `data` does not end with a delimiter.
pub open spec fn token_spans(data: Seq<u8>) -> Seq<(int, int)> {
    spans_from(data, 0, 0)
}

/// How often the token `w` occurs in `recs`.
pub open spec fn count_of(recs: Seq<Rec>, w: Seq<char>) -> nat
    decreases recs.len(),
{
    if recs.len() == 0 {
        0
    } else {
        count_of(recs.drop_last(), w) + if recs.last().0 == w {
            1nat
        } else {
            0nat
        }
    }
}

/// The record at `i` carries a token that occurs exactly once.
pub open spec fn unique_at(recs: Seq<Rec>, i: int) -> bool {
    0 <= i < recs.len() && count_of(recs, recs[i].0) == 1
}

/// `res` is the unique record of smallest offset, or `None` when no token of
/// `recs` occurs exactly once.
pub open spec fn is_winner(recs: Seq<Rec>, res: Option<Rec>) -> bool {
    match res {
        None => forall|i: int| 0 <= i < recs.len() ==> !unique_at(recs, i),
        Some(r) => exists|i: int|
            #![trigger recs[i]]
            unique_at(recs, i) && recs[i] == r && (forall|j: int|
                unique_at(recs, j) ==> r.1 <= #[trigger] recs[j].1),
    }
}

/// Offsets strictly increase along `recs`, as they do in scan order.
pub open spec fn in_scan_order(recs: Seq<Rec>) -> bool {
    forall|i: int, j: int| 0 <= i < j < recs.len() ==> recs[i].1 < recs[j].1
}

/// The records of `recs` whose token `key` sends to `b`, in their order.
pub open spec fn select(recs: Seq<Rec>, key: spec_fn(Seq<char>) -> int, b: int) -> Seq<Rec>
    decreases recs.len(),
{
    if recs.len() == 0 {
        Seq::empty()
    } else if key(recs.last().0) == b {
        select(recs.drop_last(), key, b).push(recs.last())
    } else {
        select(recs.drop_last(), key, b)
    }
}

/// The candidate of smallest offset among `ws`; the earlier one on a tie.
pub open spec fn min_candidate(ws: Seq<Option<Rec>>) -> Option<Rec>
    decreases ws.len(),
{
    if ws.len() == 0 {
        None
    } else {
        better(min_candidate(ws.drop_last()), ws.last())
    }
}


/// Counting over a sequence with one more record.
pub proof fn lemma_count_push(recs: Seq<Rec>, r: Rec, w: Seq<char>)
    ensures
        count_of(recs.push(r), w) == count_of(recs, w) + if r.0 == w {
            1nat
        } else {
            0nat
        },
{
    assert(recs.push(r).drop_last() =~= recs);
}

/// A token that stands at some index is counted at least once.
pub proof fn lemma_count_pos(recs: Seq<Rec>, i: int)
    requires
        0 <= i < recs.len(),
    ensures
        count_of(recs, recs[i].0) >= 1,
    decreases recs.len(),
{
    if i < recs.len() - 1 {
        lemma_count_pos(recs.drop_last(), i);
    }
}

/// A token that stands at two indices is counted at least twice.
pub proof fn lemma_count_two(recs: Seq<Rec>, i: int, j: int)
    requires
        0 <= i < j < recs.len(),
        recs[i].0 == recs[j].0,
    ensures
        count_of(recs, recs[i].0) >= 2,
    decreases recs.len(),
{
    if j < recs.len() - 1 {
        lemma_count_two(recs.drop_last(), i, j);
    } else {
        lemma_count_pos(recs.drop_last(), i);
    }
}

/// A token that stands at no index is not counted.
pub proof fn lemma_count_absent(recs: Seq<Rec>, w: Seq<char>)
    requires
        forall|i: int| 0 <= i < recs.len() ==> #[trigger] recs[i].0 != w,
    ensures
        count_of(recs, w) == 0,
    decreases recs.len(),
{
    if recs.len() > 0 {
        lemma_count_absent(recs.drop_last(), w);
    }
}

/// A token counted once stands at one index only.
pub proof fn lemma_unique_index(recs: Seq<Rec>, i: int, j: int)
    requires
        unique_at(recs, i),
        0 <= j < recs.len(),
        recs[j].0 == recs[i].0,
    ensures
        i == j,
{
    if i < j {
        lemma_count_two(recs, i, j);
    } else if j < i {
        lemma_count_two(recs, j, i);
    }
}

/// `off` is the offset of the first record of token `w` in `recs`.
pub open spec fn first_at(recs: Seq<Rec>, w: Seq<char>, off: u64) -> bool {
    exists|i: int|
        #![trigger recs[i]]
        0 <= i < recs.len() && recs[i].0 == w && recs[i].1 == off && forall|j: int|
            0 <= j < i ==> #[trigger] recs[j].0 != w
}

/// Keeps the candidate of smaller offset; the first one on a tie.
pub open spec fn better(a: Option<Rec>, b: Option<Rec>) -> Option<Rec> {
    match (a, b) {
        (None, x) => x,
        (Some(x), None) => Some(x),
        (Some(x), Some(y)) => if y.1 < x.1 {
            Some(y)
        } else {
            Some(x)
        },
    }
}


/// A token is counted at most once per record.
pub proof fn lemma_count_le_len(recs: Seq<Rec>, w: Seq<char>)
    ensures
        count_of(recs, w) <= recs.len(),
    decreases recs.len(),
{
    if recs.len() > 0 {
        lemma_count_le_len(recs.drop_last(), w);
    }
}

/// A bucket counts a token of its own as often as all records do, and
/// counts no other token.
pub proof fn lemma_select_count(recs: Seq<Rec>, key: spec_fn(Seq<char>) -> int, b: int, w: Seq<char>)
    ensures
        count_of(select(recs, key, b), w) == if key(w) == b {
            count_of(recs, w)
        } else {
            0
        },
    decreases recs.len(),
{
    if recs.len() > 0 {
        lemma_select_count(recs.drop_last(), key, b, w);
        if key(recs.last().0) == b {
            lemma_count_push(select(recs.drop_last(), key, b), recs.last(), w);
        }
    }
}

/// Each record of a bucket is a record of the input with that key, and each
/// record of the input stands in the bucket of its key.
pub proof fn lemma_select_members(recs: Seq<Rec>, key: spec_fn(Seq<char>) -> int, b: int)
    ensures
        forall|m: int|
            #![trigger select(recs, key, b)[m]]
            0 <= m < select(recs, key, b).len() ==> exists|i: int|
                0 <= i < recs.len() && recs[i] == select(recs, key, b)[m] && key(recs[i].0) == b,
        forall|i: int|
            #![trigger recs[i]]
            0 <= i < recs.len() && key(recs[i].0) == b ==> exists|m: int|
                0 <= m < select(recs, key, b).len() && recs[i] == select(recs, key, b)[m],
    decreases recs.len(),
{
    if recs.len() > 0 {
        let init = recs.drop_last();
        let sel = select(recs, key, b);
        let sel0 = select(init, key, b);
        lemma_select_members(init, key, b);
        assert(init =~= recs.drop_last());
        if key(recs.last().0) == b {
            assert(sel == sel0.push(recs.last()));
        } else {
            assert(sel == sel0);
        }
        assert forall|m: int|
            #![trigger sel[m]]
            0 <= m < sel.len() implies exists|i: int|
                0 <= i < recs.len() && recs[i] == sel[m] && key(recs[i].0) == b by {
            if m < sel0.len() {
                assert(sel[m] == sel0[m]);
                let i = choose|i: int| 0 <= i < init.len() && init[i] == sel0[m] && key(init[i].0) == b;
                assert(recs[i] == init[i]);
            } else {
                assert(key(recs.last().0) == b);
                let i = recs.len() - 1;
                assert(recs[i] == sel[m] && key(recs[i].0) == b);
            }
        }
        assert forall|i: int|
            #![trigger recs[i]]
            0 <= i < recs.len() && key(recs[i].0) == b implies exists|m: int|
                0 <= m < sel.len() && recs[i] == sel[m] by {
            if i < init.len() {
                assert(recs[i] == init[i]);
                let m = choose|m: int| 0 <= m < sel0.len() && init[i] == sel0[m];
                assert(sel[m] == sel0[m]);
            } else {
                assert(sel[sel.len() - 1] == recs[i]);
            }
        }
    }
}

/// The best of a set of candidates is one of them and is no later than any.
pub proof fn lemma_min_candidate(ws: Seq<Option<Rec>>)
    ensures
        min_candidate(ws) is None ==> forall|b: int| 0 <= b < ws.len() ==> #[trigger] ws[b] is None,
        min_candidate(ws) matches Some(r) ==> exists|b: int|
            0 <= b < ws.len() && #[trigger] ws[b] == Some(r),
        min_candidate(ws) matches Some(r) ==> forall|b: int|
            0 <= b < ws.len() && #[trigger] ws[b] is Some ==> r.1 <= ws[b]->Some_0.1,
    decreases ws.len(),
{
    if ws.len() > 0 {
        let init = ws.drop_last();
        lemma_min_candidate(init);
        assert forall|b: int| 0 <= b < init.len() implies #[trigger] ws[b] == init[b] by {}
        if let Some(r) = min_candidate(init) {
            let b = choose|b: int| 0 <= b < init.len() && #[trigger] init[b] == Some(r);
            assert(ws[b] == init[b]);
        }
    }
}

/// When the records are split into buckets by a key on their tokens, the
/// best of the buckets' winners is the winner of all the records: the
/// partition neither loses nor invents a unique token.
pub proof fn lemma_partition_winner(
    recs: Seq<Rec>,
    key: spec_fn(Seq<char>) -> int,
    ws: Seq<Option<Rec>>,
)
    requires
        forall|i: int| 0 <= i < recs.len() ==> 0 <= key(#[trigger] recs[i].0) < ws.len(),
        forall|b: int| 0 <= b < ws.len() ==> is_winner(select(recs, key, b), #[trigger] ws[b]),
    ensures
        is_winner(recs, min_candidate(ws)),
{
    lemma_min_candidate(ws);
    // A unique record of the input is unique in its bucket, where the
    // bucket's winner is no later than it.
    assert forall|i: int| unique_at(recs, i) implies {
        let b = key(#[trigger] recs[i].0);
        ws[b] is Some && ws[b]->Some_0.1 <= recs[i].1
    } by {
        let b = key(recs[i].0);
        let sel = select(recs, key, b);
        lemma_select_members(recs, key, b);
        let m = choose|m: int| 0 <= m < sel.len() && recs[i] == sel[m];
        lemma_select_count(recs, key, b, recs[i].0);
        assert(unique_at(sel, m));
        assert(is_winner(sel, ws[b]));
    }
    match min_candidate(ws) {
        None => {
            assert forall|i: int| 0 <= i < recs.len() implies !unique_at(recs, i) by {
                if unique_at(recs, i) {
                    assert(ws[key(recs[i].0)] is None);
                }
            }
        },
        Some(r) => {
            let b = choose|b: int| 0 <= b < ws.len() && #[trigger] ws[b] == Some(r);
            let sel = select(recs, key, b);
            assert(is_winner(sel, ws[b]));
            let m = choose|m: int|
                #![trigger sel[m]]
                unique_at(sel, m) && sel[m] == r && (forall|j: int|
                    unique_at(sel, j) ==> r.1 <= #[trigger] sel[j].1);
            lemma_select_members(recs, key, b);
            let i = choose|i: int| 0 <= i < recs.len() && recs[i] == sel[m] && key(recs[i].0) == b;
            lemma_select_count(recs, key, b, r.0);
            assert(unique_at(recs, i));
            assert forall|j: int| unique_at(recs, j) implies r.1 <= #[trigger] recs[j].1 by {
                let bj = key(recs[j].0);
                assert(ws[bj] is Some);
            }
        },
    }
}

/// Tokens before a token start `c` are those of the prefix up to `c`; the
/// bytes after `c` cannot change them.
pub proof fn lemma_spans_prefix(d: Seq<u8>, c: int, s: int, i: int)
    requires
        0 <= s <= i <= c <= d.len(),
        c == 0 || d[c - 1] == DELIM,
        i == c ==> s == c,
    ensures
        spans_from(d, s, i) == spans_from(d.subrange(0, c), s, i) + spans_from(d, c, c),
    decreases c - i,
{
    let p = d.subrange(0, c);
    if i == c {
        assert(spans_from(p, s, i) == Seq::<(int, int)>::empty());
        assert(spans_from(d, s, i) == Seq::<(int, int)>::empty() + spans_from(d, c, c));
    } else {
        assert(p[i] == d[i]);
        if d[i] == DELIM {
            lemma_spans_prefix(d, c, i + 1, i + 1);
            assert(spans_from(d, s, i) == seq![(s, i)] + spans_from(d, i + 1, i + 1));
            assert(spans_from(p, s, i) == seq![(s, i)] + spans_from(p, i + 1, i + 1));
            assert(seq![(s, i)] + (spans_from(p, i + 1, i + 1) + spans_from(d, c, c)) =~= (seq![
                (s, i),
            ] + spans_from(p, i + 1, i + 1)) + spans_from(d, c, c));
        } else {
            lemma_spans_prefix(d, c, s, i + 1);
        }
    }
}

/// The token that starts at `c` runs to the next delimiter, or to the end.
pub proof fn lemma_spans_token(d: Seq<u8>, c: int, i: int)
    requires
        0 <= c <= i <= next_delim(d, c),
        forall|k: int| c <= k < i ==> d[k] != DELIM,
    ensures
        next_delim(d, i) == next_delim(d, c),
        next_delim(d, c) < d.len() ==> spans_from(d, c, i) == seq![(c, next_delim(d, c))]
            + spans_from(d, next_delim(d, c) + 1, next_delim(d, c) + 1),
        next_delim(d, c) >= d.len() && c < d.len() ==> spans_from(d, c, i) == seq![
            (c, d.len() as int),
        ],
    decreases d.len() - i,
{
    lemma_next_delim_facts(d, c);
    if i < d.len() && d[i] != DELIM {
        lemma_spans_token(d, c, i + 1);
    } else if i < next_delim(d, c) {
        lemma_next_delim_facts(d, i);
    }
}

/// `next_delim` finds a delimiter, or the end, with none before it.
pub proof fn lemma_next_delim_facts(d: Seq<u8>, i: int)
    requires
        0 <= i,
    ensures
        i <= next_delim(d, i) || i > d.len(),
        next_delim(d, i) <= d.len(),
        next_delim(d, i) < d.len() ==> d[next_delim(d, i)] == DELIM,
        forall|k: int| i <= k < next_delim(d, i) ==> d[k] != DELIM,
    decreases d.len() - i,
{
    if i < d.len() && d[i] != DELIM {
        lemma_next_delim_facts(d, i + 1);
    }
}

/// A position with no delimiter before it since `c`, at a delimiter or at
/// the end, is the delimiter that ends the token at `c`.
pub proof fn lemma_next_delim_at(d: Seq<u8>, c: int, x: int)
    requires
        0 <= c <= x <= d.len(),
        forall|k: int| c <= k < x ==> d[k] != DELIM,
        x == d.len() || d[x] == DELIM,
    ensures
        next_delim(d, c) == x,
    decreases x - c,
{
    if c < x {
        lemma_next_delim_at(d, c + 1, x);
    }
}


/// The best of two sequences of candidates is the better of their bests.
pub proof fn lemma_min_concat(a: Seq<Option<Rec>>, b: Seq<Option<Rec>>)
    ensures
        min_candidate(a + b) == better(min_candidate(a), min_candidate(b)),
    decreases b.len(),
{
    if b.len() == 0 {
        assert(a + b =~= a);
    } else {
        assert((a + b).drop_last() =~= a + b.drop_last());
        lemma_min_concat(a, b.drop_last());
    }
}

/// Token spans start inside the text, after the scan start, in increasing
/// order.
pub proof fn lemma_spans_increasing(d: Seq<u8>, s: int, i: int)
    requires
        0 <= s <= i,
        s < i ==> s < d.len(),
    ensures
        forall|k: int|
            0 <= k < spans_from(d, s, i).len() ==> s <= (#[trigger] spans_from(d, s, i)[k]).0
                < d.len() && spans_from(d, s, i)[k].0 <= spans_from(d, s, i)[k].1 <= d.len(),
        forall|k: int, l: int|
            0 <= k < l < spans_from(d, s, i).len() ==> (#[trigger] spans_from(d, s, i)[k]).0
                < (#[trigger] spans_from(d, s, i)[l]).0,
    decreases d.len() - i,
{
    let sp = spans_from(d, s, i);
    if i >= d.len() {
        if s < d.len() {
            assert(sp == seq![(s, d.len() as int)]);
        } else {
            assert(sp.len() == 0);
        }
    } else if d[i] == DELIM {
        lemma_spans_increasing(d, i + 1, i + 1);
        let rest = spans_from(d, i + 1, i + 1);
        assert(sp == seq![(s, i)] + rest);
        assert forall|k: int| 0 <= k < sp.len() implies s <= (#[trigger] sp[k]).0 < d.len()
            && sp[k].0 <= sp[k].1 <= d.len() by {
            if k > 0 {
                assert(sp[k] == rest[k - 1]);
            }
        }
        assert forall|k: int, l: int| 0 <= k < l < sp.len() implies (#[trigger] sp[k]).0 < (
        #[trigger] sp[l]).0 by {
            assert(sp[l] == rest[l - 1]);
            if k > 0 {
                assert(sp[k] == rest[k - 1]);
            }
        }
    } else {
        lemma_spans_increasing(d, s, i + 1);
        assert(sp == spans_from(d, s, i + 1));
    }
}

/// In records of increasing offsets, the winner is the first record, in
/// scan order, whose token occurs exactly once.
pub proof fn lemma_winner_is_first(recs: Seq<Rec>, r: Rec)
    requires
        in_scan_order(recs),
        is_winner(recs, Some(r)),
    ensures
        exists|i: int|
            #![trigger recs[i]]
            unique_at(recs, i) && recs[i] == r && forall|j: int| 0 <= j < i ==> !unique_at(recs, j),
{
    let i = choose|i: int|
        #![trigger recs[i]]
        unique_at(recs, i) && recs[i] == r && (forall|j: int|
            unique_at(recs, j) ==> r.1 <= #[trigger] recs[j].1);
    assert forall|j: int| 0 <= j < i implies !unique_at(recs, j) by {
        if unique_at(recs, j) {
            assert(r.1 <= recs[j].1);
            assert(recs[j].1 < recs[i].1);
        }
    }
}

/// The token of `data` in span `sp`, decoded, with its offset.
pub open spec fn span_record(data: Seq<u8>, sp: (int, int)) -> Rec {
    (decode_utf8(data.subrange(sp.0, sp.1)), sp.0 as u64)
}

/// The records of `data` in scan order.
pub open spec fn records_of(data: Seq<u8>) -> Seq<Rec> {
    token_spans(data).map_values(|sp: (int, int)| span_record(data, sp))
}

/// Every token of `data` is UTF-8.
pub open spec fn tokens_utf8(data: Seq<u8>) -> bool {
    forall|k: int|
        0 <= k < token_spans(data).len() ==> valid_utf8(
            data.subrange(#[trigger] token_spans(data)[k].0, token_spans(data)[k].1),
        )
}

} // verus!
