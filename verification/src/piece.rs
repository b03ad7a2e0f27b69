//! Pieces: the descriptors a piece list is made of.

use crate::span::{Source, Span};
use vstd::prelude::*;

verus! {

/// A descriptor that names the `length` code points from `start` on in
/// the store `source`. A piece is never changed once it exists: an edit
/// puts narrower pieces in its place.
#[derive(Clone, Copy, Debug, PartialEq, Eq, Structural)]
pub struct Piece {
    pub source: Source,
    pub start: usize,
    pub length: usize,
}

impl View for Piece {
    type V = Span;

    open spec fn view(&self) -> Span {
        Span { source: self.source, start: self.start as nat, length: self.length as nat }
    }
}

/// The spans that a list of pieces stands for.
pub open spec fn spans(pieces: Seq<Piece>) -> Seq<Span> {
    pieces.map_values(|p: Piece| p@)
}

impl Piece {
    /// The piece that names the first `n` code points of this one.
    pub(crate) fn left(self, n: usize) -> (r: Piece)
        requires
            n <= self.length,
        ensures
            r@ == self@.left(n as int),
    {
        Piece { source: self.source, start: self.start, length: n }
    }

    /// The piece that names what follows the first `n` code points of
    /// this one.
    pub(crate) fn right(self, n: usize) -> (r: Piece)
        requires
            n <= self.length,
            self.start + self.length <= usize::MAX,
        ensures
            r@ == self@.right(n as int),
    {
        Piece { source: self.source, start: self.start + n, length: self.length - n }
    }
}

} // verus!
