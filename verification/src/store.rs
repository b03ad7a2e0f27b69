//! The two stores that pieces point into.

use crate::span::{store_of, Source};
use vstd::prelude::*;
use vstd::slice::slice_subrange;

verus! {

/// Owner of both stores. The original store is set once and never
/// written again; the added store only grows at its end. Nothing is ever
/// removed or rewritten, so a run of text that was once handed out stays
/// where it is for as long as the stores live.
///
/// Both stores share one buffer: the original text lies at its front and
/// the added text follows it. Together they therefore never hold more
/// code points than a machine integer can count.
pub struct Stores {
    buffer: Vec<char>,
    original_len: usize,
}

impl Stores {
    /// The boundary between the two stores lies inside the buffer.
    pub closed spec fn wf(&self) -> bool {
        self.original_len <= self.buffer@.len()
    }

    /// The content of the original store.
    pub closed spec fn original(&self) -> Seq<char> {
        self.buffer@.take(self.original_len as int)
    }

    /// The content of the added store.
    pub closed spec fn added(&self) -> Seq<char> {
        self.buffer@.skip(self.original_len as int)
    }

    /// The content of the store that `source` names.
    pub open spec fn content(&self, source: Source) -> Seq<char> {
        store_of(source, self.original(), self.added())
    }

    /// The two stores together fit in memory: the sum of their lengths
    /// is a machine integer.
    pub proof fn lemma_lengths_fit(&self)
        requires
            self.wf(),
        ensures
            self.original().len() + self.added().len() <= usize::MAX,
    {
        assert(self.buffer@.len() == self.buffer.len());
    }

    /// Stores that hold `original` and no added text.
    pub fn new(original: Vec<char>) -> (r: Stores)
        ensures
            r.wf(),
            r.original() == original@,
            r.added() == Seq::<char>::empty(),
    {
        let original_len = original.len();
        let stores = Stores { buffer: original, original_len };
        assert(stores.original() =~= original@);
        assert(stores.added() =~= Seq::<char>::empty());
        stores
    }

    /// The number of code points in the store that `source` names.
    pub fn len(&self, source: Source) -> (r: usize)
        requires
            self.wf(),
        ensures
            r == self.content(source).len(),
    {
        match source {
            Source::Original => self.original_len,
            Source::Added => self.buffer.len() - self.original_len,
        }
    }

    /// Appends `text` to the added store and returns where it now lies:
    /// the offset of its first code point in that store, and its length.
    pub fn append(&mut self, text: &[char]) -> (r: (usize, usize))
        requires
            old(self).wf(),
        ensures
            final(self).wf(),
            final(self).original() == old(self).original(),
            final(self).added() == old(self).added() + text@,
            r.0 == old(self).added().len(),
            r.1 == text@.len(),
    {
        let start = self.buffer.len() - self.original_len;
        let mut i: usize = 0;
        while i < text.len()
            invariant
                i <= text.len(),
                self.original_len == old(self).original_len,
                self.buffer@ == old(self).buffer@ + text@.take(i as int),
            decreases text.len() - i,
        {
            self.buffer.push(text[i]);
            i = i + 1;
        }
        assert(text@.take(i as int) =~= text@);
        assert(self.original() =~= old(self).original());
        assert(self.added() =~= old(self).added() + text@);
        (start, text.len())
    }

    /// The `length` code points from `start` on in the store that `source`
    /// names, or `None` where that run does not lie inside the store.
    pub fn slice(&self, source: Source, start: usize, length: usize) -> (r: Option<&[char]>)
        requires
            self.wf(),
        ensures
            r is Some <==> start + length <= self.content(source).len(),
            r matches Some(run) ==> run@ == self.content(source).subrange(
                start as int,
                start + length,
            ),
    {
        let (base, size) = match source {
            Source::Original => (0, self.original_len),
            Source::Added => (self.original_len, self.buffer.len() - self.original_len),
        };
        if length <= size && start <= size - length {
            let run = slice_subrange(
                self.buffer.as_slice(),
                base + start,
                base + start + length,
            );
            assert(run@ =~= self.content(source).subrange(start as int, start + length));
            Some(run)
        } else {
            None
        }
    }
}

} // verus!
