//! The chunk reader: a window over the input that is refilled on demand and
//! yields each token with the absolute offset of its first byte. The bytes
//! of the input are handed in by the caller, window by window.
use crate::model::{
    DELIM, lemma_next_delim_at, lemma_next_delim_facts, lemma_spans_increasing, lemma_spans_prefix,
    lemma_spans_token, next_delim, records_of, spans_from, token_spans, tokens_utf8,
};
use crate::record::{WordOffset, copy_range, rec_of, string_from_utf8};
use vstd::prelude::*;
use vstd::utf8::{decode_utf8, valid_utf8};

verus! {

/// The default number of bytes read per refill.
pub const DEFAULT_CHUNK_SIZE: u64 = 1073741824;

/// What stops `next_word` from yielding a token.
#[derive(Debug, Clone, Copy, PartialEq, Eq)]
pub enum ChunkError {
    /// The window ends inside a token and input remains: refill, then retry.
    NextChunk,
    /// Every token has been yielded.
    Eof,
    /// The input could not be read, or ended before its announced size.
    IoError,
    /// A token's bytes are not UTF-8.
    DecodeError,
}

/// What one step of the scan produced.
pub enum Scan {
    /// The next token, with its offset.
    Token(WordOffset),
    /// The window ends inside a token and input remains: refill, then retry.
    NeedData,
    /// Every token has been read.
    End,
}

/// At a token start `c` of `data`, the tokens are those before `c`, then
/// the one from `c` to `e`.
proof fn lemma_token_at(data: Seq<u8>, c: int, e: int)
    requires
        0 <= c < data.len(),
        c == 0 || data[c - 1] == DELIM,
        next_delim(data, c) == e,
    ensures
        token_spans(data).len() > token_spans(data.subrange(0, c)).len(),
        token_spans(data)[token_spans(data.subrange(0, c)).len() as int] == (c, e),
{
    lemma_spans_prefix(data, c, 0, 0);
    lemma_next_delim_facts(data, c);
    lemma_spans_token(data, c, c);
}

/// A sliding window over an input of known size.
pub struct ChunkFile {
    /// The loaded bytes from absolute position `base` on.
    chunk: Vec<u8>,
    /// The cursor within `chunk`.
    chunk_pos: usize,
    /// Absolute position of `chunk[0]`.
    base: u64,
    file_size: u64,
    /// Bytes loaded so far.
    load_size: u64,
    chunk_cap: u64,
    is_end: bool,
    /// Every byte loaded so far.
    loaded: Ghost<Seq<u8>>,
    /// The spans of the tokens yielded so far.
    emitted: Ghost<Seq<(int, int)>>,
}

impl ChunkFile {
    /// Every byte loaded so far: a prefix of the input.
    pub closed spec fn loaded(&self) -> Seq<u8> {
        self.loaded@
    }

    /// Absolute position of the next byte to scan.
    pub closed spec fn cursor(&self) -> int {
        self.base + self.chunk_pos
    }

    /// The spans of the tokens yielded so far.
    pub closed spec fn emitted(&self) -> Seq<(int, int)> {
        self.emitted@
    }

    /// The announced size of the input.
    pub closed spec fn spec_file_size(&self) -> u64 {
        self.file_size
    }

    /// The number of bytes to read per refill.
    pub closed spec fn spec_chunk_cap(&self) -> u64 {
        self.chunk_cap
    }

    /// The bytes scanned so far.
    pub open spec fn scanned(&self) -> Seq<u8> {
        self.loaded().subrange(0, self.cursor())
    }

    /// All of the input is loaded.
    pub open spec fn at_end(&self) -> bool {
        self.loaded().len() >= self.spec_file_size()
    }

    /// The window holds the loaded bytes from `base` on, the cursor stands at
    /// a token start (or at the end after the last token), and the tokens
    /// yielded are exactly those before the cursor.
    pub closed spec fn wf(&self) -> bool {
        &&& self.chunk@ == self.loaded@.subrange(self.base as int, self.loaded@.len() as int)
        &&& self.loaded@.len() == self.load_size
        &&& self.base + self.chunk_pos <= self.load_size
        &&& self.is_end == (self.load_size >= self.file_size)
        &&& self.chunk_cap > 0
        &&& self.cursor() == 0 || self.loaded@[self.cursor() - 1] == DELIM || (self.is_end
            && self.cursor() == self.loaded@.len())
        &&& self.emitted@ == token_spans(self.loaded@.subrange(0, self.cursor()))
    }

    /// What a well-formed reader states of its cursor and its tokens.
    pub proof fn lemma_wf(&self)
        requires
            self.wf(),
        ensures
            0 <= self.cursor() <= self.loaded().len(),
            self.cursor() == 0 || self.loaded()[self.cursor() - 1] == DELIM || (self.at_end()
                && self.cursor() == self.loaded().len()),
            self.emitted() == token_spans(self.loaded().subrange(0, self.cursor())),
            self.spec_chunk_cap() > 0,
    {
    }

    /// A reader over an input of `file_size` bytes, with an empty window:
    /// the first `next_word` asks for a refill unless the input is empty.
    pub fn new(file_size: u64, chunk_cap: u64) -> (r: ChunkFile)
        requires
            chunk_cap > 0,
        ensures
            r.wf(),
            r.loaded() == Seq::<u8>::empty(),
            r.cursor() == 0,
            r.emitted() == Seq::<(int, int)>::empty(),
            r.spec_file_size() == file_size,
            r.spec_chunk_cap() == chunk_cap,
    {
        let r = ChunkFile {
            chunk: Vec::new(),
            chunk_pos: 0,
            base: 0,
            file_size,
            load_size: 0,
            chunk_cap,
            is_end: file_size == 0,
            loaded: Ghost(Seq::empty()),
            emitted: Ghost(Seq::empty()),
        };
        assert(r.chunk@ =~= r.loaded@.subrange(0, 0));
        assert(token_spans(Seq::<u8>::empty()) == Seq::<(int, int)>::empty());
        assert(r.loaded@.subrange(0, 0) =~= Seq::<u8>::empty());
        r
    }

    /// The number of bytes to read per refill.
    pub fn chunk_cap(&self) -> (r: u64)
        ensures
            r == self.spec_chunk_cap(),
    {
        self.chunk_cap
    }

    /// Whether all of the input is loaded.
    pub fn is_end(&self) -> (r: bool)
        requires
            self.wf(),
        ensures
            r == self.at_end(),
    {
        self.is_end
    }

    /// Refills the window: the unscanned tail moves to the front and `data`,
    /// the next bytes of the input, follows it. A token longer than the
    /// window is thus kept whole. An empty `data` before the end of the input
    /// means that the input ended early.
    pub fn load_chunk(&mut self, data: &[u8]) -> (r: Result<usize, ChunkError>)
        requires
            old(self).wf(),
            !old(self).at_end(),
            old(self).loaded().len() + data@.len() <= u64::MAX,
        ensures
            final(self).wf(),
            final(self).spec_file_size() == old(self).spec_file_size(),
            final(self).spec_chunk_cap() == old(self).spec_chunk_cap(),
            final(self).cursor() == old(self).cursor(),
            final(self).emitted() == old(self).emitted(),
            final(self).scanned() == old(self).scanned(),
            match r {
                Ok(n) => n == data@.len() && n > 0 && final(self).loaded() == old(self).loaded()
                    + data@,
                Err(e) => e == ChunkError::IoError && data@.len() == 0 && final(self).loaded()
                    == old(self).loaded(),
            },
    {
        if data.len() == 0 {
            return Err(ChunkError::IoError);
        }
        let ghost old_loaded = self.loaded@;
        let ghost c = self.cursor();
        let mut window: Vec<u8> = Vec::new();
        let mut i: usize = self.chunk_pos;
        while i < self.chunk.len()
            invariant
                self.chunk_pos <= i <= self.chunk@.len(),
                window@ == self.chunk@.subrange(self.chunk_pos as int, i as int),
            decreases self.chunk@.len() - i,
        {
            window.push(self.chunk[i]);
            i += 1;
            assert(window@ =~= self.chunk@.subrange(self.chunk_pos as int, i as int));
        }
        let ghost tail = window@;
        let mut j: usize = 0;
        while j < data.len()
            invariant
                j <= data@.len(),
                window@ == tail + data@.subrange(0, j as int),
            decreases data@.len() - j,
        {
            window.push(data[j]);
            j += 1;
            assert(window@ =~= tail + data@.subrange(0, j as int));
        }
        self.base = self.base + self.chunk_pos as u64;
        self.chunk_pos = 0;
        self.chunk = window;
        self.load_size = self.load_size + data.len() as u64;
        self.is_end = self.load_size >= self.file_size;
        self.loaded = Ghost(old_loaded + data@);
        proof {
            assert(data@.subrange(0, data@.len() as int) =~= data@);
            assert(self.chunk@ =~= self.loaded@.subrange(self.base as int, self.loaded@.len() as int));
            assert(self.loaded@.subrange(0, c) =~= old_loaded.subrange(0, c));
            if c > 0 {
                assert(self.loaded@[c - 1] == old_loaded[c - 1]);
            }
        }
        Ok(data.len())
    }

    /// Yields the next token and its absolute offset. A token ends at a
    /// delimiter; once all input is loaded, also at the end of the input.
    pub fn next_word(&mut self) -> (r: Result<(String, u64), ChunkError>)
        requires
            old(self).wf(),
        ensures
            final(self).wf(),
            final(self).loaded() == old(self).loaded(),
            final(self).spec_file_size() == old(self).spec_file_size(),
            final(self).spec_chunk_cap() == old(self).spec_chunk_cap(),
            ({
                let l = old(self).loaded();
                let c = old(self).cursor();
                let e = next_delim(l, c);
                let has_token = e < l.len() || (old(self).at_end() && c < l.len());
                match r {
                    Ok((w, off)) => has_token && valid_utf8(l.subrange(c, e)) && w@ == decode_utf8(
                        l.subrange(c, e),
                    ) && off == c && final(self).cursor() == (if e < l.len() {
                        e + 1
                    } else {
                        e
                    }) && final(self).emitted() == old(self).emitted().push((c, e)),
                    Err(ChunkError::DecodeError) => has_token && !valid_utf8(l.subrange(c, e))
                        && final(self).cursor() == c
                        && final(self).emitted() == old(self).emitted(),
                    Err(ChunkError::NextChunk) => e == l.len() && !old(self).at_end()
                        && final(self).cursor() == c
                        && final(self).emitted() == old(self).emitted(),
                    Err(ChunkError::Eof) => c == l.len() && old(self).at_end()
                        && final(self).cursor() == c
                        && final(self).emitted() == old(self).emitted(),
                    Err(ChunkError::IoError) => false,
                }
            }),
    {
        let ghost l = self.loaded@;
        let ghost c = self.cursor();
        let start = self.chunk_pos;
        let mut k: usize = start;
        while k < self.chunk.len() && self.chunk[k] != DELIM
            invariant
                start <= k <= self.chunk@.len(),
                forall|j: int| start <= j < k ==> self.chunk@[j] != DELIM,
            decreases self.chunk@.len() - k,
        {
            k += 1;
        }
        let ghost e = self.base + k;
        proof {
            assert forall|j: int| c <= j < e implies l[j] != DELIM by {
                assert(l[j] == self.chunk@[j - self.base]);
            }
            if k < self.chunk.len() {
                assert(l[e] == self.chunk@[k as int]);
            }
            lemma_next_delim_at(l, c, e);
        }
        let found = k < self.chunk.len();
        if !found {
            if start == k {
                if self.is_end {
                    return Err(ChunkError::Eof);
                }
                return Err(ChunkError::NextChunk);
            }
            if !self.is_end {
                return Err(ChunkError::NextChunk);
            }
        }
        let mut bytes: Vec<u8> = Vec::new();
        let mut i: usize = start;
        while i < k
            invariant
                start <= i <= k <= self.chunk@.len(),
                bytes@ == self.chunk@.subrange(start as int, i as int),
            decreases k - i,
        {
            bytes.push(self.chunk[i]);
            i += 1;
            assert(bytes@ =~= self.chunk@.subrange(start as int, i as int));
        }
        assert(bytes@ =~= l.subrange(c, e));
        let offset = self.base + start as u64;
        let w = match string_from_utf8(bytes) {
            Some(w) => w,
            None => return Err(ChunkError::DecodeError),
        };
        self.chunk_pos = if found {
            k + 1
        } else {
            k
        };
        proof {
            let c2 = self.cursor();
            let q = l.subrange(0, c2);
            lemma_next_delim_facts(l, c);
            assert(q.subrange(0, c) =~= l.subrange(0, c));
            if c > 0 {
                assert(q[c - 1] == l[c - 1]);
            }
            lemma_spans_prefix(q, c, 0, 0);
            assert forall|j: int| c <= j < e implies q[j] != DELIM by {
                assert(q[j] == l[j]);
            }
            if found {
                assert(q[e] == l[e]);
                lemma_next_delim_at(q, c, e);
                lemma_spans_token(q, c, c);
                assert(spans_from(q, e + 1, e + 1) == Seq::<(int, int)>::empty());
            } else {
                assert(q =~= l);
                lemma_next_delim_at(q, c, e);
                lemma_spans_token(q, c, c);
            }
            assert(token_spans(q) =~= self.emitted@.push((c, e)));
        }
        self.emitted = Ghost(self.emitted@.push((c, e)));
        Ok((w, offset))
    }

    /// Reads the next record. The records of the bytes scanned grow by the
    /// token read; a token that is not UTF-8 is an error, since it is a
    /// token of every input that begins with the bytes loaded.
    pub fn next_record(&mut self) -> (r: Result<Scan, ChunkError>)
        requires
            old(self).wf(),
            tokens_utf8(old(self).scanned()),
        ensures
            final(self).wf(),
            final(self).loaded() == old(self).loaded(),
            final(self).spec_file_size() == old(self).spec_file_size(),
            final(self).spec_chunk_cap() == old(self).spec_chunk_cap(),
            match r {
                Ok(Scan::Token(w)) => records_of(final(self).scanned()) == records_of(
                    old(self).scanned(),
                ).push(rec_of(w)) && tokens_utf8(final(self).scanned()) && final(self).cursor()
                    > old(self).cursor(),
                Ok(Scan::NeedData) => !old(self).at_end() && next_delim(
                    old(self).loaded(),
                    old(self).cursor(),
                ) == old(self).loaded().len() && final(self).cursor() == old(self).cursor(),
                Ok(Scan::End) => old(self).at_end() && final(self).scanned() == old(self).loaded()
                    && old(self).scanned() == old(self).loaded() && final(self).cursor() == old(
                    self,
                ).cursor(),
                Err(e) => e == ChunkError::DecodeError && final(self).scanned() == old(
                    self,
                ).scanned() && forall|d: Seq<u8>|
                    d.len() >= old(self).loaded().len() && d.subrange(
                        0,
                        old(self).loaded().len() as int,
                    ) == old(self).loaded() && (old(self).at_end() ==> d == old(self).loaded())
                        ==> !tokens_utf8(d),
            },
    {
        proof {
            self.lemma_wf();
        }
        let ghost l = self.loaded();
        let ghost c = self.cursor();
        let ghost p = self.scanned();
        let ghost e = next_delim(l, c);
        proof {
            lemma_next_delim_facts(l, c);
        }
        match self.next_word() {
            Ok((w, off)) => {
                proof {
                    self.lemma_wf();
                    let q = self.scanned();
                    let c2 = self.cursor();
                    assert(token_spans(q) == token_spans(p).push((c, e)));
                    lemma_spans_increasing(p, 0, 0);
                    let item = WordOffset(w, off);
                    assert(q.subrange(c, e) =~= l.subrange(c, e));
                    assert forall|k: int| 0 <= k < token_spans(p).len() implies {
                        let sp = #[trigger] token_spans(p)[k];
                        q.subrange(sp.0, sp.1) == p.subrange(sp.0, sp.1)
                    } by {
                        let sp = token_spans(p)[k];
                        assert(spans_from(p, 0, 0)[k] == sp);
                        assert(q.subrange(sp.0, sp.1) =~= p.subrange(sp.0, sp.1));
                    }
                    assert forall|k: int| 0 <= k < token_spans(q).len() implies valid_utf8(
                        q.subrange(#[trigger] token_spans(q)[k].0, token_spans(q)[k].1),
                    ) by {
                        if k < token_spans(p).len() {
                            assert(token_spans(q)[k] == token_spans(p)[k]);
                        }
                    }
                    assert(records_of(q) =~= records_of(p).push(rec_of(item))) by {
                        assert forall|k: int| 0 <= k < token_spans(p).len() implies #[trigger] records_of(
                            q,
                        )[k] == records_of(p)[k] by {
                            assert(token_spans(q)[k] == token_spans(p)[k]);
                        }
                    }
                }
                Ok(Scan::Token(WordOffset(w, off)))
            },
            Err(ChunkError::NextChunk) => Ok(Scan::NeedData),
            Err(ChunkError::Eof) => {
                assert(self.scanned() =~= l);
                Ok(Scan::End)
            },
            Err(_) => {
                proof {
                    assert forall|d: Seq<u8>|
                        d.len() >= l.len() && d.subrange(0, l.len() as int) == l && (old(
                            self,
                        ).at_end() ==> d == l) implies !tokens_utf8(d) by {
                        assert(d.subrange(c, e) =~= l.subrange(c, e));
                        if e < l.len() {
                            assert(d[e] == l[e]);
                        }
                        assert forall|k: int| c <= k < e implies d[k] != DELIM by {
                            assert(d[k] == l[k]);
                        }
                        lemma_next_delim_at(d, c, e);
                        if c > 0 {
                            assert(d[c - 1] == l[c - 1]);
                        }
                        assert(d.subrange(0, c) =~= l.subrange(0, c));
                        lemma_token_at(d, c, e);
                        let k = token_spans(l.subrange(0, c)).len() as int;
                        assert(token_spans(d)[k] == (c, e));
                        assert(!valid_utf8(
                            d.subrange(token_spans(d)[k].0, token_spans(d)[k].1),
                        ));
                    }
                }
                Err(ChunkError::DecodeError)
            },
        }
    }
}

} // verus!
