//! Spans as an editor's ranges.
//!
//! A span comes from the compiler and a range goes to the editor. The text in between may have
//! moved on since the span was taken, so an end of it can fall inside a character; such a span
//! is no range of the text, and what converts one says so in what it requires.

use crate::position::{countable, has_position, position_of, LineIndex, Range};
use crate::syntax::Span;
use crate::utf::{is_boundary, lemma_boundary_agrees, lemma_whole_is_boundary};
use vstd::prelude::*;

verus! {

/// Whether a byte offset begins a character of the text, or is its end.
pub fn boundary(text: &str, offset: usize) -> (yes: bool)
    ensures
        yes == is_boundary(text@, offset as int),
{
    proof {
        lemma_boundary_agrees(text@, offset as int);
    }
    text.is_char_boundary(offset)
}

/// Whether an offset has a position in the text.
pub fn offset_fits(index: &LineIndex, offset: usize) -> (yes: bool)
    ensures
        yes == has_position(index@, offset as int),
{
    let text: &str = index.text();
    let bytes = text.as_bytes();
    if offset >= bytes.len() {
        proof {
            lemma_whole_is_boundary(index@);
        }
        true
    } else {
        boundary(text, offset)
    }
}

/// Whether both ends of a span have a position in the text.
pub open spec fn span_fits(text: Seq<char>, span: Span) -> bool {
    has_position(text, span.start as int) && has_position(text, span.end as int)
}

/// Whether a span is one of the text, the right way round, with positions whose counts fit.
pub open spec fn is_plain(text: Seq<char>, span: Span) -> bool {
    &&& span_fits(text, span)
    &&& span.start <= span.end
    &&& countable(text, span.start as int)
    &&& countable(text, span.end as int)
}

/// A span as a range of the text.
pub open spec fn range_of(text: Seq<char>, span: Span) -> Range {
    Range {
        start: position_of(text, span.start as int),
        end: position_of(text, span.end as int),
    }
}

/// Whether both ends of a span have a position in the text.
pub fn fits(index: &LineIndex, span: Span) -> (yes: bool)
    ensures
        yes == span_fits(index@, span),
{
    offset_fits(index, span.start) && offset_fits(index, span.end)
}

/// A span turned into a range within one file.
pub fn range(index: &LineIndex, span: Span) -> (range: Range)
    requires
        span_fits(index@, span),
    ensures
        range == range_of(index@, span),
{
    Range { start: index.position(span.start), end: index.position(span.end) }
}

/// Whether every one of some spans fits.
pub open spec fn spans_fit(text: Seq<char>, spans: Seq<Span>) -> bool {
    forall|i: int| 0 <= i < spans.len() ==> span_fits(text, #[trigger] spans[i])
}

/// Spans as ranges of the text, one for one.
pub open spec fn ranges_of(text: Seq<char>, spans: Seq<Span>) -> Seq<Range> {
    Seq::new(spans.len(), |i: int| range_of(text, spans[i]))
}

/// Whether every one of some spans fits.
pub fn all_fit(index: &LineIndex, spans: &[Span]) -> (yes: bool)
    ensures
        yes == spans_fit(index@, spans@),
{
    let n: usize = spans.len();
    let mut i: usize = 0;
    while i < n
        invariant
            n == spans@.len(),
            i <= n,
            forall|j: int| 0 <= j < i ==> span_fits(index@, #[trigger] spans@[j]),
        decreases n - i,
    {
        if !fits(index, spans[i]) {
            return false;
        }
        i = i + 1;
    }
    true
}

/// Spans turned into ranges within one file.
pub fn ranges(index: &LineIndex, spans: &[Span]) -> (out: Vec<Range>)
    requires
        spans_fit(index@, spans@),
    ensures
        out@ == ranges_of(index@, spans@),
{
    let mut out: Vec<Range> = Vec::new();
    let n: usize = spans.len();
    let mut i: usize = 0;
    while i < n
        invariant
            n == spans@.len(),
            i <= n,
            spans_fit(index@, spans@),
            out@ =~= ranges_of(index@, spans@).take(i as int),
        decreases n - i,
    {
        out.push(range(index, spans[i]));
        i = i + 1;
    }
    out
}

} // verus!
