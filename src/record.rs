//! Bucket records: a token with its offset, framed as the token's byte length
//! (a little-endian `u64`), its UTF-8 bytes, then the offset (a little-endian
//! `u64`). A bucket is records back to back; a bucket ends where its bytes end,
//! so a short or malformed record is an error and never an end of input.
use crate::model::Rec;
use vstd::prelude::*;
use vstd::utf8::{decode_utf8, encode_utf8, valid_utf8};

verus! {

broadcast use vstd::utf8::encode_utf8_decode_utf8, vstd::utf8::encode_utf8_valid_utf8;

/// A token and the absolute offset of its first byte.
#[derive(Debug, Clone, PartialEq, Eq)]
pub struct WordOffset(pub String, pub u64);

/// Why a bucket's bytes could not be read back as records.
#[derive(Debug, Clone, Copy, PartialEq, Eq)]
pub enum RecordError {
    /// The bytes end inside a record.
    Truncated,
    /// A record's token bytes are not UTF-8.
    InvalidUtf8,
    /// A record could not be encoded.
    Encode,
}

/// The model of a record.
pub open spec fn rec_of(w: WordOffset) -> Rec {
    (w.0@, w.1)
}

/// The model of a sequence of records.
pub open spec fn recs_of(v: Seq<WordOffset>) -> Seq<Rec> {
    v.map_values(|w: WordOffset| rec_of(w))
}

/// The eight little-endian bytes of `x`.
pub open spec fn le64(x: u64) -> Seq<u8> {
    seq![
        x as u8,
        (x >> 8) as u8,
        (x >> 16) as u8,
        (x >> 24) as u8,
        (x >> 32) as u8,
        (x >> 40) as u8,
        (x >> 48) as u8,
        (x >> 56) as u8,
    ]
}

/// The `u64` whose little-endian bytes are the first eight of `s`.
pub open spec fn le64_value(s: Seq<u8>) -> u64 {
    (s[0] as u64) | ((s[1] as u64) << 8u64) | ((s[2] as u64) << 16u64) | ((s[3] as u64) << 24u64)
        | ((s[4] as u64) << 32u64) | ((s[5] as u64) << 40u64) | ((s[6] as u64) << 48u64) | ((
    s[7] as u64) << 56u64)
}

/// The bytes of one record.
pub open spec fn record_bytes(w: Seq<char>, offset: u64) -> Seq<u8> {
    le64(encode_utf8(w).len() as u64) + encode_utf8(w) + le64(offset)
}

/// The bytes of records written one after the other.
pub open spec fn bucket_bytes(recs: Seq<Rec>) -> Seq<u8>
    decreases recs.len(),
{
    if recs.len() == 0 {
        Seq::empty()
    } else {
        record_bytes(recs[0].0, recs[0].1) + bucket_bytes(recs.drop_first())
    }
}

/// The token length that the record at the front of `s` announces.
pub open spec fn announced_len(s: Seq<u8>) -> int {
    le64_value(s.subrange(0, 8)) as int
}

/// The front of `s` holds a whole record frame.
pub open spec fn frame_fits(s: Seq<u8>) -> bool {
    8 <= s.len() && 16 + announced_len(s) <= s.len()
}

/// The record at the front of `s` and its length in bytes, or `None` when
/// the front is no well-formed record.
pub open spec fn parse_record(s: Seq<u8>) -> Option<(Rec, int)> {
    if !frame_fits(s) {
        None
    } else {
        let n = announced_len(s);
        let b = s.subrange(8, 8 + n);
        if !valid_utf8(b) {
            None
        } else {
            Some(((decode_utf8(b), le64_value(s.subrange(8 + n, 16 + n))), 16 + n))
        }
    }
}

/// The records that `s` holds, or `None` when it is not records back to back.
pub open spec fn parse_bucket(s: Seq<u8>) -> Option<Seq<Rec>>
    decreases s.len(),
{
    if s.len() == 0 {
        Some(Seq::empty())
    } else {
        match parse_record(s) {
            None => None,
            Some((r, n)) => if 0 < n <= s.len() {
                match parse_bucket(s.subrange(n, s.len() as int)) {
                    None => None,
                    Some(rest) => Some(seq![r] + rest),
                }
            } else {
                None
            },
        }
    }
}

proof fn lemma_le64_round_trip(x: u64)
    ensures
        le64_value(le64(x)) == x,
{
    assert(((x as u8) as u64) | ((((x >> 8) as u8) as u64) << 8u64) | ((((x >> 16) as u8) as u64)
        << 16u64) | ((((x >> 24) as u8) as u64) << 24u64) | ((((x >> 32) as u8) as u64) << 32u64)
        | ((((x >> 40) as u8) as u64) << 40u64) | ((((x >> 48) as u8) as u64) << 48u64) | ((((x
        >> 56) as u8) as u64) << 56u64) == x) by (bit_vector);
}

/// A record read back from the front of its own bytes, whatever follows
/// them, is the record that was written.
pub proof fn lemma_record_round_trip(w: Seq<char>, offset: u64, rest: Seq<u8>)
    requires
        encode_utf8(w).len() <= u64::MAX,
    ensures
        parse_record(record_bytes(w, offset) + rest) == Some(
            ((w, offset), 16 + encode_utf8(w).len() as int),
        ),
{
    let e = encode_utf8(w);
    let n = e.len() as u64;
    let s = record_bytes(w, offset) + rest;
    lemma_le64_round_trip(n);
    lemma_le64_round_trip(offset);
    assert(s.subrange(0, 8) =~= le64(n));
    assert(s.subrange(8, 8 + n) =~= e);
    assert(s.subrange(8 + n, 16 + n) =~= le64(offset));
}

/// Records written to a bucket and read back are the records written, in
/// their order.
#[verifier::rlimit(40)]
pub proof fn lemma_bucket_round_trip(recs: Seq<Rec>)
    requires
        forall|i: int| 0 <= i < recs.len() ==> encode_utf8(#[trigger] recs[i].0).len() <= u64::MAX,
    ensures
        parse_bucket(bucket_bytes(recs)) == Some(recs),
    decreases recs.len(),
{
    if recs.len() > 0 {
        let tail = recs.drop_first();
        let rb = record_bytes(recs[0].0, recs[0].1);
        let s = bucket_bytes(recs);
        assert(tail.len() < recs.len());
        assert forall|i: int| 0 <= i < tail.len() implies encode_utf8(#[trigger] tail[i].0).len()
            <= u64::MAX by {
            assert(tail[i] == recs[i + 1]);
        }
        lemma_bucket_round_trip(tail);
        lemma_record_round_trip(recs[0].0, recs[0].1, bucket_bytes(tail));
        assert(s.subrange(rb.len() as int, s.len() as int) =~= bucket_bytes(tail));
        assert(seq![(recs[0].0, recs[0].1)] + tail =~= recs);
    }
}

/// Relies on `bincode::serialize` with its default options: integers as
/// fixed-width little-endian, a `str` as its `u64` byte length followed by
/// its UTF-8 bytes, a pair as its fields in order. With those options the
/// size limit is infinite and the writer is a `Vec`, so a pair of a `str`
/// and a `u64` always serializes.
#[verifier::external_body]
fn serialize_record(word: &str, offset: u64) -> (r: Option<Vec<u8>>)
    ensures
        r is Some,
        r matches Some(b) ==> b@ == record_bytes(word@, offset),
{
    bincode::serialize(&(word, offset)).ok()
}

/// Relies on `String::from_utf8`: it succeeds exactly on valid UTF-8, and
/// the string then holds the characters that the bytes encode.
#[verifier::external_body]
pub(crate) fn string_from_utf8(b: Vec<u8>) -> (r: Option<String>)
    ensures
        r is Some <==> valid_utf8(b@),
        r matches Some(s) ==> s@ == decode_utf8(b@),
{
    String::from_utf8(b).ok()
}

/// Encodes one record.
pub fn encode_record(w: &WordOffset) -> (r: Result<Vec<u8>, RecordError>)
    ensures
        r is Ok,
        r matches Ok(b) ==> b@ == record_bytes(w.0@, w.1),
{
    match serialize_record(w.0.as_str(), w.1) {
        Some(b) => Ok(b),
        None => Err(RecordError::Encode),
    }
}

/// Reads the little-endian `u64` at `at`.
fn read_u64_le(buf: &[u8], at: usize) -> (r: u64)
    requires
        at + 8 <= buf@.len(),
    ensures
        r == le64_value(buf@.subrange(at as int, at + 8)),
{
    let s = Ghost(buf@.subrange(at as int, at + 8));
    assert(s@[0] == buf@[at as int] && s@[7] == buf@[at + 7]);
    (buf[at] as u64) | ((buf[at + 1] as u64) << 8u64) | ((buf[at + 2] as u64) << 16u64) | ((buf[at
        + 3] as u64) << 24u64) | ((buf[at + 4] as u64) << 32u64) | ((buf[at + 5] as u64) << 40u64)
        | ((buf[at + 6] as u64) << 48u64) | ((buf[at + 7] as u64) << 56u64)
}

/// Copies `buf[lo..hi]`.
pub(crate) fn copy_range(buf: &[u8], lo: usize, hi: usize) -> (r: Vec<u8>)
    requires
        lo <= hi <= buf@.len(),
    ensures
        r@ == buf@.subrange(lo as int, hi as int),
{
    let mut out: Vec<u8> = Vec::with_capacity(hi - lo);
    let mut i: usize = lo;
    while i < hi
        invariant
            lo <= i <= hi <= buf@.len(),
            out@ == buf@.subrange(lo as int, i as int),
        decreases hi - i,
    {
        out.push(buf[i]);
        i += 1;
        assert(out@ =~= buf@.subrange(lo as int, i as int));
    }
    out
}

/// Reads the record that starts at `at`, and returns it with the position
/// just past it.
pub fn decode_record(buf: &[u8], at: usize) -> (r: Result<(WordOffset, usize), RecordError>)
    requires
        at <= buf@.len(),
    ensures
        ({
            let s = buf@.subrange(at as int, buf@.len() as int);
            match r {
                Ok((w, next)) => parse_record(s) == Some((rec_of(w), next - at)),
                Err(RecordError::Truncated) => !frame_fits(s),
                Err(RecordError::InvalidUtf8) => frame_fits(s) && parse_record(s) is None,
                Err(RecordError::Encode) => false,
            }
        }),
{
    let ghost s = buf@.subrange(at as int, buf@.len() as int);
    let left = buf.len() - at;
    if left < 8 {
        return Err(RecordError::Truncated);
    }
    let n = read_u64_le(buf, at);
    assert(buf@.subrange(at as int, at + 8) =~= s.subrange(0, 8));
    if n > (left - 8) as u64 || ((left - 8) as u64) - n < 8 {
        return Err(RecordError::Truncated);
    }
    let n = n as usize;
    let bytes = copy_range(buf, at + 8, at + 8 + n);
    assert(bytes@ =~= s.subrange(8, 8 + n));
    let word = match string_from_utf8(bytes) {
        Some(w) => w,
        None => return Err(RecordError::InvalidUtf8),
    };
    let offset = read_u64_le(buf, at + 8 + n);
    assert(buf@.subrange(at + 8 + n, at + 16 + n) =~= s.subrange(8 + n, 16 + n));
    Ok((WordOffset(word, offset), at + 16 + n))
}

/// Reads a whole bucket back into its records.
pub fn decode_bucket(buf: &[u8]) -> (r: Result<Vec<WordOffset>, RecordError>)
    ensures
        r is Ok <==> parse_bucket(buf@) is Some,
        r matches Ok(v) ==> parse_bucket(buf@) == Some(recs_of(v@)),
{
    let mut out: Vec<WordOffset> = Vec::new();
    let mut at: usize = 0;
    assert(buf@.subrange(0, buf@.len() as int) =~= buf@);
    while at < buf.len()
        invariant
            at <= buf@.len(),
            parse_bucket(buf@) == match parse_bucket(buf@.subrange(at as int, buf@.len() as int)) {
                None => None,
                Some(rest) => Some(recs_of(out@) + rest),
            },
        decreases buf@.len() - at,
    {
        let ghost s = buf@.subrange(at as int, buf@.len() as int);
        match decode_record(buf, at) {
            Ok((w, next)) => {
                assert(s.subrange(next - at, s.len() as int) =~= buf@.subrange(
                    next as int,
                    buf@.len() as int,
                ));
                let ghost old_out = out@;
                out.push(w);
                proof {
                    assert(recs_of(out@) =~= recs_of(old_out) + seq![rec_of(w)]);
                    match parse_bucket(buf@.subrange(next as int, buf@.len() as int)) {
                        None => {},
                        Some(rest) => {
                            assert(recs_of(out@) + rest =~= recs_of(old_out) + (seq![rec_of(w)]
                                + rest));
                        },
                    }
                }
                at = next;
            },
            Err(e) => {
                return Err(e);
            },
        }
    }
    assert(buf@.subrange(at as int, buf@.len() as int) =~= Seq::<u8>::empty());
    assert(recs_of(out@) + Seq::<Rec>::empty() =~= recs_of(out@));
    Ok(out)
}

} // verus!
