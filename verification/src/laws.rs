//! What holds of every piece table, proved over the model.

use crate::model::{apply_text, delete_text, insert_text, replay_text, Edit, Model};
use crate::span::{
    all_fit, lemma_cut_at, lemma_cut_text, lemma_offset_monotone, lemma_offset_step, lemma_single,
    lemma_text_len, lemma_text_of_concat, offset_of, spans_before, spans_from, text_of, Source,
    Span,
};
use vstd::prelude::*;

verus! {

/// Text appended to the added store leaves every piece where it was:
/// spans that fit still fit, and they still read the same text.
pub proof fn added_store_only_grows(
    spans: Seq<Span>,
    original: Seq<char>,
    added: Seq<char>,
    more: Seq<char>,
)
    requires
        all_fit(spans, original, added),
    ensures
        all_fit(spans, original, added + more),
        text_of(spans, original, added + more) == text_of(spans, original, added),
    decreases spans.len(),
{
    if spans.len() > 0 {
        let last = spans.last();
        assert(last.fits(original, added));
        assert(all_fit(spans.drop_last(), original, added)) by {
            assert forall|i: int| 0 <= i < spans.drop_last().len() implies (
            #[trigger] spans.drop_last()[i]).fits(original, added) by {
                assert(spans[i].fits(original, added));
            }
        }
        added_store_only_grows(spans.drop_last(), original, added, more);
        assert(last.text(original, added + more) =~= last.text(original, added));
        assert forall|i: int| 0 <= i < spans.len() implies (#[trigger] spans[i]).fits(
            original,
            added + more,
        ) by {
            assert(spans[i].fits(original, added));
        }
    }
}

/// A valid table describes as many code points as its length says.
pub proof fn length_is_text_length(m: Model)
    requires
        m.valid(),
    ensures
        m.text().len() == m.len(),
{
    lemma_text_len(m.pieces, m.original, m.added);
}

/// A freshly loaded table reads back the text it was loaded with, the
/// empty text included.
pub proof fn load_reads_back(text: Seq<char>)
    ensures
        Model::load(text).valid(),
        Model::load(text).text() == text,
        Model::load(text).len() == text.len(),
{
    let m = Model::load(text);
    if text.len() > 0 {
        let whole = Span { source: Source::Original, start: 0, length: text.len() };
        lemma_single(whole, m.original, m.added);
        assert(whole.text(m.original, m.added) =~= text);
    } else {
        assert(m.text() =~= text);
    }
}

/// An insertion does to the document what it does to a plain text, and
/// leaves the table valid.
pub proof fn insert_agrees_with_plain_text(m: Model, position: int, text: Seq<char>)
    requires
        m.valid(),
    ensures
        m.insert(position, text).valid(),
        m.insert(position, text).text() == insert_text(m.text(), position, text),
        m.insert(position, text).len() == if 0 <= position <= m.len() {
            m.len() + text.len()
        } else {
            m.len()
        },
{
    let doc = m.text();
    length_is_text_length(m);
    if 0 <= position <= m.len() && text.len() > 0 {
        let after = m.insert(position, text);
        let piece = Span { source: Source::Added, start: m.added.len(), length: text.len() };
        let before = spans_before(m.pieces, position);
        let from = spans_from(m.pieces, position);
        lemma_cut_text(m.pieces, position, m.original, m.added);
        added_store_only_grows(before, m.original, m.added, text);
        added_store_only_grows(from, m.original, m.added, text);
        lemma_single(piece, after.original, after.added);
        assert(piece.text(after.original, after.added) =~= text);
        lemma_text_of_concat(before, seq![piece], after.original, after.added);
        lemma_text_of_concat(before + seq![piece], from, after.original, after.added);
        assert forall|i: int| 0 <= i < after.pieces.len() implies (#[trigger] after.pieces[i]).fits(
            after.original,
            after.added,
        ) by {
            if i < before.len() {
                assert(after.pieces[i] == before[i]);
            } else if i == before.len() {
                assert(after.pieces[i] == piece);
            } else {
                assert(after.pieces[i] == from[i - before.len() - 1]);
            }
        }
        length_is_text_length(after);
    } else if 0 <= position <= m.len() {
        assert(doc.take(position) + text + doc.skip(position) =~= doc);
    }
}

/// A deletion does to the document what it does to a plain text, and
/// leaves the table valid.
pub proof fn delete_agrees_with_plain_text(m: Model, position: int, length: int)
    requires
        m.valid(),
    ensures
        m.delete(position, length).valid(),
        m.delete(position, length).text() == delete_text(m.text(), position, length),
        m.delete(position, length).len() == if 0 <= position && 0 <= length && position + length
            <= m.len() {
            m.len() - length
        } else {
            m.len() as int
        },
{
    let doc = m.text();
    length_is_text_length(m);
    if 0 <= position && 0 < length && position + length <= m.len() {
        let after = m.delete(position, length);
        let before = spans_before(m.pieces, position);
        let from = spans_from(m.pieces, position + length);
        lemma_cut_text(m.pieces, position, m.original, m.added);
        lemma_cut_text(m.pieces, position + length, m.original, m.added);
        lemma_text_of_concat(before, from, m.original, m.added);
        assert forall|i: int| 0 <= i < after.pieces.len() implies (#[trigger] after.pieces[i]).fits(
            after.original,
            after.added,
        ) by {
            if i < before.len() {
                assert(after.pieces[i] == before[i]);
            } else {
                assert(after.pieces[i] == from[i - before.len()]);
            }
        }
        length_is_text_length(after);
    } else if 0 <= position && length == 0 && position <= m.len() {
        assert(doc.take(position) + doc.skip(position) =~= doc);
    }
}

/// Whatever edits are applied, in whatever order, the pieces read in
/// order give the text that the same edits give when they are applied to
/// a plain text; and the table stays valid.
pub proof fn edits_agree_with_plain_text(m: Model, edits: Seq<Edit>)
    requires
        m.valid(),
    ensures
        m.replay(edits).valid(),
        m.replay(edits).text() == replay_text(m.text(), edits),
        m.replay(edits).len() == replay_text(m.text(), edits).len(),
    decreases edits.len(),
{
    if edits.len() == 0 {
        length_is_text_length(m);
    } else {
        let earlier = m.replay(edits.drop_last());
        edits_agree_with_plain_text(m, edits.drop_last());
        match edits.last() {
            Edit::Insert { position, text } => {
                insert_agrees_with_plain_text(earlier, position, text);
            },
            Edit::Delete { position, length } => {
                delete_agrees_with_plain_text(earlier, position, length);
            },
        }
        length_is_text_length(m.replay(edits));
    }
}

/// Inserting the empty text and deleting nothing leave the table as it
/// is: the same stores, the same pieces, hence the same text and length.
pub proof fn empty_edits_change_nothing(m: Model, position: int)
    ensures
        m.insert(position, Seq::empty()) == m,
        m.delete(position, 0) == m,
{
}

/// An insertion followed by the deletion of what was inserted restores
/// the text and the length of the document.
pub proof fn insert_then_delete_restores(m: Model, position: int, text: Seq<char>)
    requires
        m.valid(),
    ensures
        m.insert(position, text).delete(position, text.len() as int).text() == m.text(),
        m.insert(position, text).delete(position, text.len() as int).len() == m.len(),
{
    let doc = m.text();
    let mid = m.insert(position, text);
    length_is_text_length(m);
    insert_agrees_with_plain_text(m, position, text);
    delete_agrees_with_plain_text(mid, position, text.len() as int);
    assert(delete_text(insert_text(doc, position, text), position, text.len() as int) =~= doc);
}

/// An insertion strictly inside piece `i`, `off` code points into it,
/// replaces that piece by its left part, the new piece and its right
/// part, and leaves every other piece alone. The two parts come from the
/// same store as piece `i`, meet at the cut, and their lengths add up to
/// the length of piece `i`.
pub proof fn interior_insert_splits_one_piece(m: Model, i: int, off: int, text: Seq<char>)
    requires
        m.valid(),
        0 <= i < m.pieces.len(),
        0 < off < m.pieces[i].length,
        text.len() > 0,
    ensures
        ({
            let piece = m.pieces[i];
            let inserted = Span { source: Source::Added, start: m.added.len(), length: text.len() };
            let position = offset_of(m.pieces, i) + off;
            &&& m.insert(position, text).pieces == m.pieces.take(i) + seq![
                piece.left(off),
                inserted,
                piece.right(off),
            ] + m.pieces.skip(i + 1)
            &&& piece.left(off).length + piece.right(off).length == piece.length
            &&& piece.left(off).source == piece.source
            &&& piece.right(off).source == piece.source
            &&& piece.left(off).start == piece.start
            &&& piece.left(off).end() == piece.right(off).start
            &&& piece.right(off).end() == piece.end()
            &&& piece.left(off).text(m.original, m.added) + piece.right(off).text(
                m.original,
                m.added,
            ) == piece.text(m.original, m.added)
        }),
{
    let piece = m.pieces[i];
    let inserted = Span { source: Source::Added, start: m.added.len(), length: text.len() };
    let position = offset_of(m.pieces, i) + off;
    assert forall|j: int| 0 <= j < m.pieces.len() implies (#[trigger] m.pieces[j]).length > 0 by {
        assert(m.pieces[j].fits(m.original, m.added));
    }
    lemma_cut_at(m.pieces, i, off);
    lemma_offset_step(m.pieces, i);
    lemma_offset_monotone(m.pieces, i + 1, m.pieces.len() as int);
    assert(piece.fits(m.original, m.added));
    assert(piece.left(off).text(m.original, m.added) + piece.right(off).text(m.original, m.added)
        =~= piece.text(m.original, m.added));
    assert(m.insert(position, text).pieces =~= m.pieces.take(i) + seq![
        piece.left(off),
        inserted,
        piece.right(off),
    ] + m.pieces.skip(i + 1));
}

/// A deletion that begins strictly inside piece `i` and ends strictly
/// inside a later piece `j` removes every piece between the two, keeps
/// the left part of piece `i` and the right part of piece `j`, and leaves
/// every other piece alone.
pub proof fn delete_across_pieces_narrows_two(m: Model, i: int, from: int, j: int, to: int)
    requires
        m.valid(),
        0 <= i < j < m.pieces.len(),
        0 < from < m.pieces[i].length,
        0 < to < m.pieces[j].length,
    ensures
        ({
            let position = offset_of(m.pieces, i) + from;
            let end = offset_of(m.pieces, j) + to;
            &&& position < end
            &&& m.delete(position, end - position).pieces == m.pieces.take(i) + seq![
                m.pieces[i].left(from),
                m.pieces[j].right(to),
            ] + m.pieces.skip(j + 1)
        }),
{
    let position = offset_of(m.pieces, i) + from;
    let end = offset_of(m.pieces, j) + to;
    assert forall|k: int| 0 <= k < m.pieces.len() implies (#[trigger] m.pieces[k]).length > 0 by {
        assert(m.pieces[k].fits(m.original, m.added));
    }
    lemma_cut_at(m.pieces, i, from);
    lemma_cut_at(m.pieces, j, to);
    lemma_offset_step(m.pieces, i);
    lemma_offset_step(m.pieces, j);
    lemma_offset_monotone(m.pieces, i + 1, j);
    lemma_offset_monotone(m.pieces, j + 1, m.pieces.len() as int);
    assert(m.delete(position, end - position).pieces =~= m.pieces.take(i) + seq![
        m.pieces[i].left(from),
        m.pieces[j].right(to),
    ] + m.pieces.skip(j + 1));
}

} // verus!
