//! Spans: the mathematical description of a piece list.
//!
//! Everything here is specification and proof. A span names a run of code
//! points in one store; a sequence of spans, read in order, describes a
//! document.

use vstd::prelude::*;

verus! {

/// The store a run of text lives in.
#[derive(Clone, Copy, Debug, PartialEq, Eq, Structural)]
pub enum Source {
    /// The text as it was loaded. It is never written again.
    Original,
    /// The store that every inserted text is appended to.
    Added,
}

/// A contiguous run of `length` code points that begins at `start` in the
/// store named by `source`.
pub struct Span {
    pub source: Source,
    pub start: nat,
    pub length: nat,
}

/// The content of the store that `source` names.
pub open spec fn store_of(source: Source, original: Seq<char>, added: Seq<char>) -> Seq<char> {
    match source {
        Source::Original => original,
        Source::Added => added,
    }
}

impl Span {
    /// One past the last store offset the span covers.
    pub open spec fn end(self) -> nat {
        self.start + self.length
    }

    /// The first `n` code points of the span.
    pub open spec fn left(self, n: int) -> Span {
        Span { source: self.source, start: self.start, length: n as nat }
    }

    /// What remains of the span after its first `n` code points.
    pub open spec fn right(self, n: int) -> Span {
        Span {
            source: self.source,
            start: (self.start + n) as nat,
            length: (self.length - n) as nat,
        }
    }

    /// The span is not empty and lies inside its store.
    pub open spec fn fits(self, original: Seq<char>, added: Seq<char>) -> bool {
        &&& self.length > 0
        &&& self.end() <= store_of(self.source, original, added).len()
    }

    /// The text the span refers to.
    pub open spec fn text(self, original: Seq<char>, added: Seq<char>) -> Seq<char> {
        store_of(self.source, original, added).subrange(self.start as int, self.end() as int)
    }
}

/// The sum of the lengths of `spans`.
pub open spec fn total_len(spans: Seq<Span>) -> nat
    decreases spans.len(),
{
    if spans.len() == 0 {
        0
    } else {
        total_len(spans.drop_last()) + spans.last().length
    }
}

/// The texts of `spans`, concatenated in order.
pub open spec fn text_of(spans: Seq<Span>, original: Seq<char>, added: Seq<char>) -> Seq<char>
    decreases spans.len(),
{
    if spans.len() == 0 {
        Seq::empty()
    } else {
        text_of(spans.drop_last(), original, added) + spans.last().text(original, added)
    }
}

/// Every span is non-empty and lies inside its store.
pub open spec fn all_fit(spans: Seq<Span>, original: Seq<char>, added: Seq<char>) -> bool {
    forall|i: int| 0 <= i < spans.len() ==> (#[trigger] spans[i]).fits(original, added)
}

/// The document offset at which span `i` begins: the total length of the
/// spans before it.
pub open spec fn offset_of(spans: Seq<Span>, i: int) -> nat {
    total_len(spans.take(i))
}

/// The spans that describe the first `k` code points of the document:
/// the spans that end at or before `k`, followed by the left part of the
/// span that `k` falls inside, if there is one.
pub open spec fn spans_before(spans: Seq<Span>, k: int) -> Seq<Span>
    decreases spans.len(),
{
    if spans.len() == 0 || k <= 0 {
        Seq::empty()
    } else if k < spans[0].length {
        seq![spans[0].left(k)]
    } else {
        seq![spans[0]] + spans_before(spans.drop_first(), k - spans[0].length)
    }
}

/// The spans that describe the document from its `k`-th code point on:
/// the right part of the span that `k` falls inside, if there is one,
/// followed by the spans that begin at or after `k`.
pub open spec fn spans_from(spans: Seq<Span>, k: int) -> Seq<Span>
    decreases spans.len(),
{
    if spans.len() == 0 || k <= 0 {
        spans
    } else if k < spans[0].length {
        seq![spans[0].right(k)] + spans.drop_first()
    } else {
        spans_from(spans.drop_first(), k - spans[0].length)
    }
}

/// The total length of a concatenation is the sum of the total lengths.
pub proof fn lemma_total_len_concat(a: Seq<Span>, b: Seq<Span>)
    ensures
        total_len(a + b) == total_len(a) + total_len(b),
    decreases b.len(),
{
    if b.len() == 0 {
        assert(a + b =~= a);
    } else {
        assert((a + b).drop_last() =~= a + b.drop_last());
        assert((a + b).last() == b.last());
        lemma_total_len_concat(a, b.drop_last());
    }
}

/// The text of a concatenation is the concatenation of the texts.
pub proof fn lemma_text_of_concat(
    a: Seq<Span>,
    b: Seq<Span>,
    original: Seq<char>,
    added: Seq<char>,
)
    ensures
        text_of(a + b, original, added) == text_of(a, original, added) + text_of(
            b,
            original,
            added,
        ),
    decreases b.len(),
{
    if b.len() == 0 {
        assert(a + b =~= a);
        assert(text_of(a, original, added) + text_of(b, original, added) =~= text_of(
            a,
            original,
            added,
        ));
    } else {
        assert((a + b).drop_last() =~= a + b.drop_last());
        assert((a + b).last() == b.last());
        lemma_text_of_concat(a, b.drop_last(), original, added);
        assert(text_of(a + b, original, added) =~= text_of(a, original, added) + text_of(
            b,
            original,
            added,
        ));
    }
}

/// A single span: its total length is its length, its text its own text.
pub proof fn lemma_single(x: Span, original: Seq<char>, added: Seq<char>)
    ensures
        total_len(seq![x]) == x.length,
        text_of(seq![x], original, added) == x.text(original, added),
{
    let s = seq![x];
    assert(s.drop_last() =~= Seq::<Span>::empty());
    assert(total_len(s.drop_last()) == 0);
    assert(text_of(s.drop_last(), original, added) =~= Seq::<char>::empty());
    assert(text_of(s, original, added) =~= x.text(original, added));
}

/// Spans that fit describe as many code points as their lengths add up to.
pub proof fn lemma_text_len(spans: Seq<Span>, original: Seq<char>, added: Seq<char>)
    requires
        all_fit(spans, original, added),
    ensures
        text_of(spans, original, added).len() == total_len(spans),
    decreases spans.len(),
{
    if spans.len() > 0 {
        assert(spans.last().fits(original, added));
        assert(all_fit(spans.drop_last(), original, added)) by {
            assert forall|i: int| 0 <= i < spans.drop_last().len() implies (
            #[trigger] spans.drop_last()[i]).fits(original, added) by {
                assert(spans[i].fits(original, added));
            }
        }
        lemma_text_len(spans.drop_last(), original, added);
    }
}

/// Span `i` begins where span `i - 1` ends; the first span begins at 0 and
/// the last one ends at the total length.
pub proof fn lemma_offset_step(spans: Seq<Span>, i: int)
    requires
        0 <= i < spans.len(),
    ensures
        offset_of(spans, 0) == 0,
        offset_of(spans, i + 1) == offset_of(spans, i) + spans[i].length,
        offset_of(spans, spans.len() as int) == total_len(spans),
{
    assert(spans.take(0) =~= Seq::<Span>::empty());
    assert(spans.take(i + 1).drop_last() =~= spans.take(i));
    assert(spans.take(i + 1).last() == spans[i]);
    assert(spans.take(spans.len() as int) =~= spans);
}

/// Offsets grow with the index, and none exceeds the total length.
pub proof fn lemma_offset_monotone(spans: Seq<Span>, i: int, j: int)
    requires
        0 <= i <= j <= spans.len(),
    ensures
        offset_of(spans, i) <= offset_of(spans, j) <= total_len(spans),
{
    assert(spans.take(j) =~= spans.take(i) + spans.subrange(i, j));
    lemma_total_len_concat(spans.take(i), spans.subrange(i, j));
    assert(spans =~= spans.take(j) + spans.skip(j));
    lemma_total_len_concat(spans.take(j), spans.skip(j));
}

/// Dropping the first span moves every later offset down by its length.
proof fn lemma_offset_drop_first(spans: Seq<Span>, i: int)
    requires
        1 <= i <= spans.len(),
    ensures
        offset_of(spans, i) == spans[0].length + offset_of(spans.drop_first(), i - 1),
{
    let head = seq![spans[0]];
    let rest = spans.drop_first().take(i - 1);
    assert(spans.take(i) =~= head + rest);
    lemma_total_len_concat(head, rest);
    assert(head.drop_last() =~= Seq::<Span>::empty());
    assert(total_len(head.drop_last()) == 0);
}

/// The left part of `span` cut at `off`, as a list: empty where the cut
/// lies at the start of the span.
pub open spec fn kept_left(span: Span, off: int) -> Seq<Span> {
    if off > 0 {
        seq![span.left(off)]
    } else {
        Seq::empty()
    }
}

/// The right part of `span` cut at `off`, as a list: empty where the cut
/// lies at the end of the span.
pub open spec fn kept_right(span: Span, off: int) -> Seq<Span> {
    if off < span.length {
        seq![span.right(off)]
    } else {
        Seq::empty()
    }
}

/// The shape of `spans_before` and `spans_from` at the offset that lies
/// `off` code points into span `i`: the spans before `i` are kept whole,
/// span `i` is cut at `off`, and the spans after `i` are kept whole. A cut
/// at either end of span `i` leaves no empty part behind.
pub proof fn lemma_cut_at(spans: Seq<Span>, i: int, off: int)
    requires
        forall|j: int| 0 <= j < spans.len() ==> (#[trigger] spans[j]).length > 0,
        0 <= i < spans.len(),
        0 <= off <= spans[i].length,
    ensures
        spans_before(spans, offset_of(spans, i) + off) == spans.take(i) + kept_left(spans[i], off),
        spans_from(spans, offset_of(spans, i) + off) == kept_right(spans[i], off) + spans.skip(
            i + 1,
        ),
    decreases i,
{
    let k = offset_of(spans, i) + off;
    let rest = spans.drop_first();
    let first = spans[0];
    if i == 0 {
        assert(spans.take(0) =~= Seq::<Span>::empty());
        assert(rest =~= spans.skip(1));
        assert(k == off);
        if off == 0 {
            assert(first.right(0) == first);
            assert(spans =~= seq![first] + spans.skip(1));
            assert(spans_before(spans, k) =~= spans.take(0) + Seq::<Span>::empty());
        } else if off < first.length {
            assert(spans_before(spans, k) =~= spans.take(0) + seq![first.left(off)]);
        } else {
            assert(first.left(off) == first);
            assert(spans_before(rest, 0) =~= Seq::<Span>::empty());
            assert(spans_before(spans, k) =~= spans.take(0) + seq![first.left(off)]);
            assert(spans_from(rest, 0) =~= rest);
            assert(spans_from(spans, k) =~= Seq::<Span>::empty() + spans.skip(1));
        }
    } else {
        lemma_offset_drop_first(spans, i);
        assert(k - first.length == offset_of(rest, i - 1) + off);
        assert(rest[i - 1] == spans[i]);
        assert forall|j: int| 0 <= j < rest.len() implies (#[trigger] rest[j]).length > 0 by {
            assert(rest[j] == spans[j + 1]);
        }
        lemma_cut_at(rest, i - 1, off);
        assert(first.length > 0);
        assert(k >= first.length);
        assert(spans.take(i) =~= seq![first] + rest.take(i - 1));
        assert(rest.skip(i) =~= spans.skip(i + 1));
        let mid = if off > 0 {
            seq![spans[i].left(off)]
        } else {
            Seq::<Span>::empty()
        };
        assert(spans_before(spans, k) == seq![first] + spans_before(rest, k - first.length));
        assert(seq![first] + (rest.take(i - 1) + mid) =~= spans.take(i) + mid);
    }
}

/// The part of the document that span `i` covers is the text of span `i`.
pub proof fn lemma_text_at(spans: Seq<Span>, i: int, original: Seq<char>, added: Seq<char>)
    requires
        all_fit(spans, original, added),
        0 <= i < spans.len(),
    ensures
        offset_of(spans, i + 1) == offset_of(spans, i) + spans[i].length,
        offset_of(spans, i + 1) <= text_of(spans, original, added).len(),
        text_of(spans, original, added).subrange(
            offset_of(spans, i) as int,
            offset_of(spans, i + 1) as int,
        ) == spans[i].text(original, added),
{
    let head = spans.take(i);
    let tail = spans.skip(i + 1);
    assert(spans =~= head + seq![spans[i]] + tail);
    assert(all_fit(head, original, added)) by {
        assert forall|j: int| 0 <= j < head.len() implies (#[trigger] head[j]).fits(
            original,
            added,
        ) by {
            assert(head[j] == spans[j]);
        }
    }
    assert(all_fit(tail, original, added)) by {
        assert forall|j: int| 0 <= j < tail.len() implies (#[trigger] tail[j]).fits(
            original,
            added,
        ) by {
            assert(tail[j] == spans[j + i + 1]);
        }
    }
    assert(spans[i].fits(original, added));
    lemma_offset_step(spans, i);
    lemma_single(spans[i], original, added);
    lemma_text_len(head, original, added);
    lemma_text_len(tail, original, added);
    lemma_text_of_concat(head, seq![spans[i]], original, added);
    lemma_text_of_concat(head + seq![spans[i]], tail, original, added);
    let text = text_of(head, original, added) + spans[i].text(original, added) + text_of(
        tail,
        original,
        added,
    );
    assert(text.subrange(offset_of(spans, i) as int, offset_of(spans, i + 1) as int)
        =~= spans[i].text(original, added));
}

/// Inside span `i`, the document reads what the store of span `i` holds:
/// the run from `lo` to `hi` code points into the span is the same text
/// in both.
pub proof fn lemma_run_at(
    spans: Seq<Span>,
    i: int,
    lo: int,
    hi: int,
    original: Seq<char>,
    added: Seq<char>,
)
    requires
        all_fit(spans, original, added),
        0 <= i < spans.len(),
        0 <= lo <= hi <= spans[i].length,
    ensures
        offset_of(spans, i) + hi <= text_of(spans, original, added).len(),
        spans[i].start + hi <= store_of(spans[i].source, original, added).len(),
        text_of(spans, original, added).subrange(offset_of(spans, i) + lo, offset_of(spans, i) + hi)
            == store_of(spans[i].source, original, added).subrange(
            spans[i].start + lo,
            spans[i].start + hi,
        ),
{
    lemma_text_at(spans, i, original, added);
    assert(spans[i].fits(original, added));
    let text = text_of(spans, original, added);
    let begin = offset_of(spans, i) as int;
    let whole = text.subrange(begin, begin + spans[i].length);
    assert(whole.subrange(lo, hi) =~= text.subrange(begin + lo, begin + hi));
    assert(spans[i].text(original, added).subrange(lo, hi) =~= store_of(
        spans[i].source,
        original,
        added,
    ).subrange(spans[i].start + lo, spans[i].start + hi));
}

/// Cutting a span list at offset `k` cuts its text at `k`: the spans
/// before describe the first `k` code points, the spans from `k` on
/// describe the rest, and both lists still fit their stores.
pub proof fn lemma_cut_text(spans: Seq<Span>, k: int, original: Seq<char>, added: Seq<char>)
    requires
        all_fit(spans, original, added),
        0 <= k <= total_len(spans),
    ensures
        all_fit(spans_before(spans, k), original, added),
        all_fit(spans_from(spans, k), original, added),
        text_of(spans_before(spans, k), original, added) == text_of(spans, original, added).take(
            k,
        ),
        text_of(spans_from(spans, k), original, added) == text_of(spans, original, added).skip(k),
    decreases spans.len(),
{
    let text = text_of(spans, original, added);
    if spans.len() == 0 || k == 0 {
        assert(text_of(Seq::<Span>::empty(), original, added) =~= text.take(0));
        assert(text =~= text.skip(0));
    } else {
        let first = spans[0];
        let rest = spans.drop_first();
        let rest_text = text_of(rest, original, added);
        assert(spans =~= seq![first] + rest);
        lemma_single(first, original, added);
        lemma_text_of_concat(seq![first], rest, original, added);
        lemma_total_len_concat(seq![first], rest);
        assert(text == first.text(original, added) + rest_text);
        assert(first.fits(original, added));
        assert(all_fit(rest, original, added)) by {
            assert forall|j: int| 0 <= j < rest.len() implies (#[trigger] rest[j]).fits(
                original,
                added,
            ) by {
                assert(rest[j] == spans[j + 1]);
            }
        }
        if k < first.length {
            let l = first.left(k);
            let r = first.right(k);
            lemma_single(l, original, added);
            lemma_single(r, original, added);
            lemma_text_of_concat(seq![r], rest, original, added);
            assert(l.text(original, added) =~= text.take(k));
            assert(r.text(original, added) + rest_text =~= text.skip(k));
            assert(all_fit(seq![r] + rest, original, added)) by {
                assert forall|j: int| 0 <= j < (seq![r] + rest).len() implies (#[trigger] (seq![r]
                    + rest)[j]).fits(original, added) by {
                    if j > 0 {
                        assert((seq![r] + rest)[j] == rest[j - 1]);
                    }
                }
            }
        } else {
            let m = k - first.length;
            lemma_cut_text(rest, m, original, added);
            lemma_text_len(rest, original, added);
            assert(first.text(original, added).len() == first.length);
            let before = spans_before(rest, m);
            lemma_text_of_concat(seq![first], before, original, added);
            assert(first.text(original, added) + rest_text.take(m) =~= text.take(k));
            assert(rest_text.skip(m) =~= text.skip(k));
            assert(all_fit(seq![first] + before, original, added)) by {
                assert forall|j: int| 0 <= j < (seq![first] + before).len() implies (
                #[trigger] (seq![first] + before)[j]).fits(original, added) by {
                    if j > 0 {
                        assert((seq![first] + before)[j] == before[j - 1]);
                    }
                }
            }
        }
    }
}

} // verus!
