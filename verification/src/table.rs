//! The piece table: the editing buffer itself.

use crate::error::EditError;
use crate::laws::{
    delete_agrees_with_plain_text, insert_agrees_with_plain_text, length_is_text_length,
    load_reads_back,
};
use crate::locator::locate;
use crate::model::{delete_text, insert_text, Model};
use crate::piece::{spans, Piece};
use crate::span::{
    kept_left, kept_right, lemma_cut_at, lemma_offset_monotone, lemma_offset_step, lemma_run_at,
    offset_of, Source, Span,
};
use crate::store::Stores;
use crate::text::{all_scalar_values, chars_of, decode_units, push_chars, text_of_units};
use vstd::prelude::*;

verus! {

/// A text buffer that records edits as a list of pieces over two stores
/// and never copies the document.
pub struct PieceTable {
    stores: Stores,
    pieces: Vec<Piece>,
    length: usize,
}

impl View for PieceTable {
    type V = Model;

    closed spec fn view(&self) -> Model {
        Model {
            original: self.stores.original(),
            added: self.stores.added(),
            pieces: spans(self.pieces@),
        }
    }
}

/// A piece that may be absent, as a list of spans.
spec fn optional(piece: Option<Piece>) -> Seq<Span> {
    match piece {
        Some(p) => seq![p@],
        None => Seq::empty(),
    }
}

/// Replaces everything between two cuts by `middle`. The first cut lies
/// `from.1` code points into piece `from.0`, the second `to.1` code points
/// into piece `to.0`. The pieces outside the cuts stay, the two cut pieces
/// are narrowed to what lies outside, and a cut at the very edge of a
/// piece leaves no empty piece behind.
fn replace_span(
    pieces: &mut Vec<Piece>,
    from: (usize, usize),
    to: (usize, usize),
    middle: Option<Piece>,
)
    requires
        from.0 <= to.0 < old(pieces).len(),
        from.1 <= old(pieces)[from.0 as int].length,
        to.1 <= old(pieces)[to.0 as int].length,
        old(pieces)[to.0 as int].start + old(pieces)[to.0 as int].length <= usize::MAX,
    ensures
        spans(final(pieces)@) == spans(old(pieces)@).take(from.0 as int) + kept_left(
            old(pieces)[from.0 as int]@,
            from.1 as int,
        ) + optional(middle) + kept_right(old(pieces)[to.0 as int]@, to.1 as int) + spans(
            old(pieces)@,
        ).skip(to.0 + 1),
{
    let first = pieces[from.0];
    let last = pieces[to.0];
    let mut tail = pieces.split_off(to.0 + 1);
    pieces.truncate(from.0);
    if from.1 > 0 {
        pieces.push(first.left(from.1));
    }
    match middle {
        Some(piece) => {
            pieces.push(piece);
        },
        None => {},
    }
    if to.1 < last.length {
        pieces.push(last.right(to.1));
    }
    pieces.append(&mut tail);
    assert(spans(pieces@) =~= spans(old(pieces)@).take(from.0 as int) + kept_left(
        old(pieces)[from.0 as int]@,
        from.1 as int,
    ) + optional(middle) + kept_right(old(pieces)[to.0 as int]@, to.1 as int) + spans(
        old(pieces)@,
    ).skip(to.0 + 1));
}

impl PieceTable {
    /// The bookkeeping is in order: the recorded document length is the
    /// sum of the piece lengths, and the document is no longer than what
    /// the two stores hold together.
    pub closed spec fn consistent(&self) -> bool {
        &&& self.stores.wf()
        &&& self.length == self@.len()
        &&& self@.len() <= self@.original.len() + self@.added.len()
    }

    /// The table is well formed: no piece is empty, every piece lies
    /// inside its store, and the bookkeeping is in order.
    pub open spec fn wf(&self) -> bool {
        &&& self@.valid()
        &&& self.consistent()
    }

    /// A table that holds `original`: the original store is that text,
    /// nothing has been added, and one piece spans the whole text. An
    /// empty text gives a table without pieces.
    pub fn new(original: &str) -> (r: PieceTable)
        ensures
            r.wf(),
            r@ == Model::load(original@),
            r@.text() == original@,
            r@.len() == original@.len(),
    {
        let text = chars_of(original);
        let length = text.len();
        let mut pieces: Vec<Piece> = Vec::new();
        if length > 0 {
            pieces.push(Piece { source: Source::Original, start: 0, length });
        }
        let table = PieceTable { stores: Stores::new(text), pieces, length };
        proof {
            load_reads_back(original@);
            assert(table@ =~= Model::load(original@));
        }
        table
    }

    /// The length of the document.
    pub fn len(&self) -> (r: usize)
        requires
            self.wf(),
        ensures
            r == self@.len(),
            r == self@.text().len(),
    {
        proof {
            length_is_text_length(self@);
        }
        self.length
    }

    /// The piece list, in document order.
    pub fn pieces(&self) -> (r: &Vec<Piece>)
        ensures
            spans(r@) == self@.pieces,
    {
        &self.pieces
    }

    /// Inserts `text` at `position`, which is known to lie inside the
    /// document.
    fn insert_run(&mut self, position: usize, text: &[char])
        requires
            old(self).wf(),
            position <= old(self)@.len(),
        ensures
            final(self).wf(),
            final(self)@ == old(self)@.insert(position as int, text@),
    {
        let ghost before = self@;
        proof {
            insert_agrees_with_plain_text(before, position as int, text@);
        }
        if text.len() == 0 {
            return ;
        }
        let (start, length) = self.stores.append(text);
        let piece = Piece { source: Source::Added, start, length };
        match locate(&self.pieces, position) {
            Some((index, within)) => {
                proof {
                    self.stores.lemma_lengths_fit();
                    assert(before.pieces[index as int].fits(before.original, before.added));
                    assert forall|j: int| 0 <= j < before.pieces.len() implies (
                    #[trigger] before.pieces[j]).length > 0 by {
                        assert(before.pieces[j].fits(before.original, before.added));
                    }
                    lemma_cut_at(before.pieces, index as int, within as int);
                }
                replace_span(&mut self.pieces, (index, within), (index, within), Some(piece));
            },
            None => {
                // A document without pieces: the new piece is the only one.
                self.pieces.push(piece);
            },
        }
        self.length = self.length + length;
        assert(self@ =~= before.insert(position as int, text@));
    }

    /// Inserts `s` at `position`.
    ///
    /// The text is appended to the added store. Where `position` falls
    /// strictly inside a piece, that piece is split in two and the new
    /// piece is placed between the halves; where it falls on a boundary,
    /// the new piece is placed between its neighbours and nothing is
    /// split. An empty `s` changes nothing. A `position` beyond the end of
    /// the document is refused with `OutOfBounds`, and nothing changes.
    pub fn insert(&mut self, position: usize, s: &str) -> (r: Result<(), EditError>)
        requires
            old(self).wf(),
        ensures
            final(self).wf(),
            r == (if position <= old(self)@.len() {
                Ok::<(), EditError>(())
            } else {
                Err(EditError::OutOfBounds)
            }),
            final(self)@ == old(self)@.insert(position as int, s@),
            final(self)@.text() == insert_text(old(self)@.text(), position as int, s@),
            final(self)@.len() == old(self)@.len() + (if position <= old(self)@.len() {
                s@.len()
            } else {
                0
            }),
    {
        proof {
            insert_agrees_with_plain_text(self@, position as int, s@);
        }
        if position > self.length {
            return Err(EditError::OutOfBounds);
        }
        let text = chars_of(s);
        self.insert_run(position, text.as_slice());
        Ok(())
    }

    /// Inserts at `position` the text whose code points are `units`.
    ///
    /// Every unit is decoded before anything is stored: where one of them
    /// is no Unicode scalar value, the call is refused with
    /// `EncodingError` and nothing changes. A `position` beyond the end of
    /// the document is refused with `OutOfBounds`, whatever `units` holds.
    /// Otherwise the call does what `insert` does with that text.
    pub fn insert_code_points(&mut self, position: usize, units: &[u32]) -> (r: Result<
        (),
        EditError,
    >)
        requires
            old(self).wf(),
        ensures
            final(self).wf(),
            r == (if position > old(self)@.len() {
                Err::<(), EditError>(EditError::OutOfBounds)
            } else if !all_scalar_values(units@) {
                Err(EditError::EncodingError)
            } else {
                Ok(())
            }),
            r is Ok ==> final(self)@ == old(self)@.insert(position as int, text_of_units(units@)),
            r is Ok ==> final(self)@.text() == insert_text(
                old(self)@.text(),
                position as int,
                text_of_units(units@),
            ),
            r is Err ==> final(self)@ == old(self)@,
    {
        if position > self.length {
            return Err(EditError::OutOfBounds);
        }
        match decode_units(units) {
            Some(text) => {
                proof {
                    insert_agrees_with_plain_text(self@, position as int, text@);
                }
                self.insert_run(position, text.as_slice());
                Ok(())
            },
            None => Err(EditError::EncodingError),
        }
    }

    /// Deletes the `length` code points from `position` on.
    ///
    /// Pieces that lie wholly inside the range are dropped. A piece that
    /// the range overlaps at one edge is narrowed from that edge. A piece
    /// that holds the whole range strictly inside is split into what
    /// lies before and what lies after. The stores are not touched. A
    /// `length` of 0 changes nothing. A `position` beyond the end of the
    /// document is refused with `OutOfBounds`; a range that begins inside
    /// the document and ends beyond it is refused with `InvalidRange`. A
    /// refused call changes nothing.
    pub fn delete(&mut self, position: usize, length: usize) -> (r: Result<(), EditError>)
        requires
            old(self).wf(),
        ensures
            final(self).wf(),
            r == (if position > old(self)@.len() {
                Err::<(), EditError>(EditError::OutOfBounds)
            } else if position + length > old(self)@.len() {
                Err(EditError::InvalidRange)
            } else {
                Ok(())
            }),
            final(self)@ == old(self)@.delete(position as int, length as int),
            final(self)@.text() == delete_text(old(self)@.text(), position as int, length as int),
            final(self)@.len() == old(self)@.len() - (if r is Ok {
                length
            } else {
                0
            }),
    {
        let ghost before = self@;
        proof {
            delete_agrees_with_plain_text(before, position as int, length as int);
        }
        if position > self.length {
            return Err(EditError::OutOfBounds);
        }
        if length > self.length - position {
            return Err(EditError::InvalidRange);
        }
        if length == 0 {
            return Ok(());
        }
        let from = locate(&self.pieces, position);
        let to = locate(&self.pieces, position + length);
        match (from, to) {
            (Some(from), Some(to)) => {
                proof {
                    let all = before.pieces;
                    self.stores.lemma_lengths_fit();
                    assert(all[to.0 as int].fits(before.original, before.added));
                    assert forall|j: int| 0 <= j < all.len() implies (#[trigger] all[j]).length
                        > 0 by {
                        assert(all[j].fits(before.original, before.added));
                    }
                    lemma_cut_at(all, from.0 as int, from.1 as int);
                    lemma_cut_at(all, to.0 as int, to.1 as int);
                    if to.0 < from.0 {
                        lemma_offset_step(all, to.0 as int);
                        lemma_offset_monotone(all, to.0 as int + 1, from.0 as int);
                    }
                }
                replace_span(&mut self.pieces, from, to, None);
                self.length = self.length - length;
                assert(self@ =~= before.delete(position as int, length as int));
            },
            // Both ends of the range lie inside a document that is not
            // empty, so both are located.
            _ => {},
        }
        Ok(())
    }

    /// The code points of the document from `start` up to `end`, which
    /// are known to name a range inside the document.
    fn collect(&self, start: usize, end: usize) -> (r: String)
        requires
            self.wf(),
            start <= end <= self@.len(),
        ensures
            r@ == self@.text().subrange(start as int, end as int),
    {
        let ghost all = self@.pieces;
        let ghost text = self@.text();
        let mut out = String::new();
        proof {
            length_is_text_length(self@);
            assert(out@ =~= text.subrange(start as int, start as int));
        }
        if start == end {
            return out;
        }
        match locate(&self.pieces, start) {
            Some((first, within)) => {
                let mut index: usize = first;
                let mut lo: usize = within;
                let mut at: usize = start;
                proof {
                    if within == all[first as int].length {
                        lemma_offset_step(all, first as int);
                    }
                }
                while at < end
                    invariant
                        self.wf(),
                        all == self@.pieces,
                        text == self@.text(),
                        text.len() == self@.len(),
                        start <= at <= end <= self@.len(),
                        out@ == text.subrange(start as int, at as int),
                        at < end ==> index < all.len() && lo < all[index as int].length && at
                            == offset_of(all, index as int) + lo,
                    decreases end - at,
                {
                    let piece = self.pieces[index];
                    let rest = piece.length - lo;
                    let count = if end - at < rest {
                        end - at
                    } else {
                        rest
                    };
                    proof {
                        assert(all.len() == self.pieces.len());
                        self.stores.lemma_lengths_fit();
                        lemma_run_at(
                            all,
                            index as int,
                            lo as int,
                            lo + count,
                            self@.original,
                            self@.added,
                        );
                        lemma_offset_step(all, index as int);
                        lemma_offset_monotone(all, index + 1, all.len() as int);
                        assert(text.subrange(start as int, at as int) + text.subrange(
                            at as int,
                            at + count,
                        ) =~= text.subrange(start as int, at + count));
                        assert forall|j: int| 0 <= j < all.len() implies (#[trigger] all[j]).length
                            > 0 by {
                            assert(all[j].fits(self@.original, self@.added));
                        }
                    }
                    match self.stores.slice(piece.source, piece.start + lo, count) {
                        Some(run) => {
                            push_chars(&mut out, run);
                        },
                        // Every piece lies inside its store.
                        None => {},
                    }
                    at = at + count;
                    index = index + 1;
                    lo = 0;
                }
            },
            // The range is not empty, so the document has pieces.
            None => {},
        }
        out
    }

    /// The code points of the document from `start` up to `end`, as a
    /// string. Only the pieces that overlap the range are read.
    ///
    /// A `start` beyond the end of the document is refused with
    /// `OutOfBounds`; an `end` before `start` or beyond the end of the
    /// document is refused with `InvalidRange`.
    pub fn read(&self, start: usize, end: usize) -> (r: Result<String, EditError>)
        requires
            self.wf(),
        ensures
            match r {
                Ok(run) => start <= end <= self@.len() && run@ == self@.text().subrange(
                    start as int,
                    end as int,
                ),
                Err(e) => if start > self@.len() {
                    e == EditError::OutOfBounds
                } else {
                    e == EditError::InvalidRange && (end < start || end > self@.len())
                },
            },
    {
        if start > self.length {
            return Err(EditError::OutOfBounds);
        }
        if end < start || end > self.length {
            return Err(EditError::InvalidRange);
        }
        Ok(self.collect(start, end))
    }

    /// The whole document, as a string.
    pub fn edited_string(&self) -> (r: String)
        requires
            self.wf(),
        ensures
            r@ == self@.text(),
    {
        proof {
            length_is_text_length(self@);
            assert(self@.text().subrange(0, self@.len() as int) =~= self@.text());
        }
        self.collect(0, self.length)
    }

    /// The code point at `index`, or `None` where `index` is not inside
    /// the document.
    pub fn char_at(&self, index: usize) -> (r: Option<char>)
        requires
            self.wf(),
        ensures
            r == (if index < self@.len() {
                Some(self@.text()[index as int])
            } else {
                None
            }),
    {
        if index >= self.length {
            return None;
        }
        let ghost all = self@.pieces;
        let ghost text = self@.text();
        match locate(&self.pieces, index) {
            Some((at, within)) => {
                let piece = self.pieces[at];
                proof {
                    self.stores.lemma_lengths_fit();
                    length_is_text_length(self@);
                    if within == all[at as int].length {
                        lemma_offset_step(all, at as int);
                    }
                    lemma_run_at(
                        all,
                        at as int,
                        within as int,
                        within + 1,
                        self@.original,
                        self@.added,
                    );
                    assert(text.subrange(index as int, index + 1)[0] == text[index as int]);
                }
                match self.stores.slice(piece.source, piece.start + within, 1) {
                    Some(run) => Some(run[0]),
                    // Every piece lies inside its store.
                    None => None,
                }
            },
            // `index` lies inside the document, so it is located.
            None => None,
        }
    }
}

} // verus!
