//! A reducer over entries sorted by token: merges the counts of adjacent
//! entries of the same token and keeps the earliest token counted once.
use crate::count::{WordCountOffset, opt_pair};
use crate::model::{Rec, better};
use vstd::prelude::*;

verus! {

/// The model of an entry: token, count, offset.
pub type Entry = (Seq<char>, u64, u64);

/// The model of a counter map entry.
pub open spec fn entry_of(e: WordCountOffset) -> Entry {
    (e.0@, e.1, e.2)
}

/// The answer once the run `p` is complete: `p` competes when its count is
/// one, and replaces the answer only with a strictly smaller offset.
pub open spec fn settle(ans: Option<Rec>, p: Entry) -> Option<Rec> {
    if p.1 == 1 {
        better(ans, Some((p.0, p.2)))
    } else {
        ans
    }
}

/// Reduces a stream of (token, count, offset) entries in which entries of
/// one token are adjacent.
pub struct MergeCounter {
    inner: Vec<WordCountOffset>,
    pub ans: Option<(String, u64)>,
}

impl MergeCounter {
    /// The run being merged, if any.
    pub closed spec fn pending(&self) -> Option<Entry> {
        if self.inner@.len() == 0 {
            None
        } else {
            Some(entry_of(self.inner@[0]))
        }
    }

    /// The answer over the completed runs.
    pub closed spec fn answer(&self) -> Option<Rec> {
        match self.ans {
            None => None,
            Some(p) => Some((p.0@, p.1)),
        }
    }

    /// At most one run is pending.
    pub closed spec fn wf(&self) -> bool {
        self.inner@.len() <= 1
    }

    /// A reducer with nothing pending and no answer.
    pub fn new() -> (r: MergeCounter)
        ensures
            r.wf(),
            r.pending() is None,
            r.answer() is None,
    {
        MergeCounter { inner: Vec::new(), ans: None }
    }

    /// Settles the pending run into the answer.
    fn settle_pending(&mut self, last: WordCountOffset)
        ensures
            final(self).inner == old(self).inner,
            final(self).answer() == settle(old(self).answer(), entry_of(last)),
    {
        if last.1 == 1 {
            let take = match &self.ans {
                None => true,
                Some(a) => last.2 < a.1,
            };
            if take {
                self.ans = Some((last.0, last.2));
            }
        }
    }

    /// Feeds one entry: it joins the pending run when its token is the
    /// same, else the pending run is settled and the entry starts a new one.
    pub fn count(&mut self, key: String, other_count: u64, offset: u64)
        requires
            old(self).wf(),
            old(self).pending() matches Some(p) ==> (p.0 == key@ ==> p.1 + other_count <= u64::MAX),
        ensures
            final(self).wf(),
            match old(self).pending() {
                None => final(self).pending() == Some((key@, other_count, offset))
                    && final(self).answer() == old(self).answer(),
                Some(p) => if p.0 == key@ {
                    final(self).pending() == Some((p.0, (p.1 + other_count) as u64, p.2))
                        && final(self).answer() == old(self).answer()
                } else {
                    final(self).pending() == Some((key@, other_count, offset))
                        && final(self).answer() == settle(old(self).answer(), p)
                },
            },
    {
        if self.inner.len() == 0 {
            self.inner.push(WordCountOffset(key, other_count, offset));
            return;
        }
        if self.inner[0].0 == key {
            let e = &self.inner[0];
            let merged = WordCountOffset(e.0.clone(), e.1 + other_count, e.2);
            self.inner.set(0, merged);
        } else {
            let last = self.inner.pop().unwrap();
            self.settle_pending(last);
            self.inner.push(WordCountOffset(key, other_count, offset));
        }
    }

    /// Settles the pending run, if any, and returns the answer.
    pub fn get_ans(&mut self) -> (r: Option<(String, u64)>)
        requires
            old(self).wf(),
        ensures
            final(self).wf(),
            final(self).pending() is None,
            final(self).answer() == match old(self).pending() {
                None => old(self).answer(),
                Some(p) => settle(old(self).answer(), p),
            },
            opt_pair(r) == final(self).answer(),
    {
        if let Some(last) = self.inner.pop() {
            self.settle_pending(last);
        }
        proof {
            assert(self.inner@.len() == 0);
        }
        match &self.ans {
            None => None,
            Some(p) => Some((p.0.clone(), p.1)),
        }
    }
}

} // verus!
