//! The piece table as a mathematical value, and the plain-text model that
//! it is measured against.

use crate::span::{all_fit, spans_before, spans_from, text_of, total_len, Source, Span};
use vstd::prelude::*;

verus! {

/// The state of a piece table: the two stores and the piece list.
#[verifier::ext_equal]
pub struct Model {
    /// The text as it was loaded.
    pub original: Seq<char>,
    /// Every inserted text, in the order of insertion.
    pub added: Seq<char>,
    /// The piece list. Its spans, read in order, are the document.
    pub pieces: Seq<Span>,
}

impl Model {
    /// The document: the text of the pieces, concatenated in order.
    pub open spec fn text(self) -> Seq<char> {
        text_of(self.pieces, self.original, self.added)
    }

    /// The document length: the sum of the piece lengths.
    pub open spec fn len(self) -> nat {
        total_len(self.pieces)
    }

    /// No piece is empty and every piece lies inside its store.
    pub open spec fn valid(self) -> bool {
        all_fit(self.pieces, self.original, self.added)
    }

    /// The state right after loading `text`: no inserted text yet, and one
    /// piece that spans the whole original, or no piece where `text` is
    /// empty.
    pub open spec fn load(text: Seq<char>) -> Model {
        Model {
            original: text,
            added: Seq::empty(),
            pieces: if text.len() == 0 {
                Seq::empty()
            } else {
                seq![Span { source: Source::Original, start: 0, length: text.len() }]
            },
        }
    }

    /// The state after inserting `text` at `position`. The text is
    /// appended to the added store, and a piece that names it is placed
    /// between the pieces that describe the document before `position`
    /// and those that describe it from `position` on. An empty `text` or a
    /// `position` outside the document changes nothing.
    pub open spec fn insert(self, position: int, text: Seq<char>) -> Model {
        if 0 <= position <= self.len() && text.len() > 0 {
            let piece = Span { source: Source::Added, start: self.added.len(), length: text.len() };
            Model {
                original: self.original,
                added: self.added + text,
                pieces: spans_before(self.pieces, position) + seq![piece] + spans_from(
                    self.pieces,
                    position,
                ),
            }
        } else {
            self
        }
    }

    /// The state after deleting `length` code points from `position` on.
    /// Only the piece list changes: what remains are the pieces that
    /// describe the document before `position` and those that describe it
    /// from `position + length` on. A `length` of 0 or a range that is not
    /// inside the document changes nothing.
    pub open spec fn delete(self, position: int, length: int) -> Model {
        if 0 <= position && 0 < length && position + length <= self.len() {
            Model {
                original: self.original,
                added: self.added,
                pieces: spans_before(self.pieces, position) + spans_from(
                    self.pieces,
                    position + length,
                ),
            }
        } else {
            self
        }
    }

    /// The state after one edit.
    pub open spec fn apply(self, edit: Edit) -> Model {
        match edit {
            Edit::Insert { position, text } => self.insert(position, text),
            Edit::Delete { position, length } => self.delete(position, length),
        }
    }

    /// The state after a sequence of edits, applied in order.
    pub open spec fn replay(self, edits: Seq<Edit>) -> Model
        decreases edits.len(),
    {
        if edits.len() == 0 {
            self
        } else {
            self.replay(edits.drop_last()).apply(edits.last())
        }
    }
}

/// One edit of a document.
pub enum Edit {
    Insert { position: int, text: Seq<char> },
    Delete { position: int, length: int },
}

/// `text` inserted into the plain text `doc` at `position`. A `position`
/// outside `doc` changes nothing.
pub open spec fn insert_text(doc: Seq<char>, position: int, text: Seq<char>) -> Seq<char> {
    if 0 <= position <= doc.len() {
        doc.take(position) + text + doc.skip(position)
    } else {
        doc
    }
}

/// The plain text `doc` without the `length` code points from `position`
/// on. A range that is not inside `doc` changes nothing.
pub open spec fn delete_text(doc: Seq<char>, position: int, length: int) -> Seq<char> {
    if 0 <= position && 0 <= length && position + length <= doc.len() {
        doc.take(position) + doc.skip(position + length)
    } else {
        doc
    }
}

/// One edit applied to the plain text `doc`.
pub open spec fn apply_text(doc: Seq<char>, edit: Edit) -> Seq<char> {
    match edit {
        Edit::Insert { position, text } => insert_text(doc, position, text),
        Edit::Delete { position, length } => delete_text(doc, position, length),
    }
}

/// A sequence of edits applied in order to the plain text `doc`.
pub open spec fn replay_text(doc: Seq<char>, edits: Seq<Edit>) -> Seq<char>
    decreases edits.len(),
{
    if edits.len() == 0 {
        doc
    } else {
        apply_text(replay_text(doc, edits.drop_last()), edits.last())
    }
}

} // verus!
