//! The position locator: from a document offset to a piece and an offset
//! inside it.

use crate::piece::{spans, Piece};
use crate::span::{lemma_offset_monotone, lemma_offset_step, offset_of, total_len};
use vstd::prelude::*;

verus! {

/// Resolves the document offset `offset` to the index of a piece and an
/// offset inside that piece, by adding up piece lengths from the front.
///
/// An offset inside the document resolves to the piece that holds the
/// code point at that offset; an offset on the boundary between two
/// pieces therefore resolves to the start of the second. The offset at
/// the end of the document resolves to the end of the last piece. There
/// is no result for an offset beyond the end, nor for a list without
/// pieces.
pub fn locate(pieces: &Vec<Piece>, offset: usize) -> (r: Option<(usize, usize)>)
    ensures
        r is None <==> pieces.len() == 0 || offset > total_len(spans(pieces@)),
        r matches Some((index, within)) ==> {
            &&& index < pieces.len()
            &&& offset_of(spans(pieces@), index as int) + within == offset
            &&& within <= pieces[index as int].length
            &&& within == pieces[index as int].length ==> index == pieces.len() - 1
        },
{
    let n = pieces.len();
    if n == 0 {
        return None;
    }
    let ghost all = spans(pieces@);
    let mut index: usize = 0;
    let mut begin: usize = 0;
    proof {
        lemma_offset_step(all, 0);
    }
    while index + 1 < n && pieces[index].length <= offset - begin
        invariant
            n == pieces.len(),
            all == spans(pieces@),
            index < n,
            begin == offset_of(all, index as int),
            begin <= offset,
        decreases n - index,
    {
        proof {
            lemma_offset_step(all, index as int);
        }
        begin = begin + pieces[index].length;
        index = index + 1;
    }
    proof {
        lemma_offset_step(all, index as int);
        lemma_offset_monotone(all, index as int + 1, n as int);
    }
    let within = offset - begin;
    if within <= pieces[index].length {
        Some((index, within))
    } else {
        None
    }
}

} // verus!
