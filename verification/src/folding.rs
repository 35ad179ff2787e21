//! Everything worth collapsing: declarations and the blocks inside them.

use crate::analysis::Checked;
use crate::position::{position_of, LineIndex};
use crate::ranges::{all_fit, spans_fit};
use crate::sort::{
    ascending, law_a_listing_is_in_order_and_complete, listing, sort_dedup, Listed, Ranked,
};
use crate::syntax::{Decl, Span};
use vstd::prelude::*;

verus! {

/// The first and the last line of something.
#[derive(Debug, Clone, Copy, PartialEq, Eq, Structural)]
pub struct Lines {
    pub first: u32,
    pub last: u32,
}

impl Ranked for Lines {
    /// Listed by the first line, then by the last.
    open spec fn at_most(self, other: Self) -> bool {
        self.first < other.first || (self.first == other.first && self.last <= other.last)
    }

    fn ranks_at_most(&self, other: &Self) -> (yes: bool) {
        self.first < other.first || (self.first == other.first && self.last <= other.last)
    }

    proof fn order_laws(a: Self, b: Self, c: Self) {
    }
}

impl Listed for Lines {
    fn same_as(&self, other: &Self) -> (same: bool) {
        self.first == other.first && self.last == other.last
    }

    proof fn distinct_laws(a: Self, b: Self) {
    }
}

/// Where declarations stand.
pub open spec fn decl_spans(decls: Seq<Decl>) -> Seq<Span> {
    Seq::new(decls.len(), |i: int| decls[i].span)
}

/// Where declarations stand.
pub fn spans_of_decls(decls: &[Decl]) -> (spans: Vec<Span>)
    ensures
        spans@ == decl_spans(decls@),
{
    let mut spans: Vec<Span> = Vec::new();
    let n: usize = decls.len();
    let mut i: usize = 0;
    while i < n
        invariant
            n == decls@.len(),
            i <= n,
            spans@ =~= decl_spans(decls@).take(i as int),
        decreases n - i,
    {
        spans.push(decls[i].span);
        i = i + 1;
    }
    spans
}

/// The spans that can be folded.
pub open spec fn foldable(checked: Checked) -> Seq<Span> {
    decl_spans(checked.module.decls@) + checked.module.blocks@
}

/// The first and the last line of a span.
pub open spec fn lines_of(text: Seq<char>, span: Span) -> Lines {
    Lines {
        first: position_of(text, span.start as int).line,
        last: position_of(text, span.end as int).line,
    }
}

/// Lines as pairs of numbers.
pub open spec fn pairs(lines: Seq<Lines>) -> Seq<(u32, u32)> {
    Seq::new(lines.len(), |i: int| (lines[i].first, lines[i].last))
}

/// The lines of those spans that cover more than one.
pub open spec fn folds(text: Seq<char>, spans: Seq<Span>) -> Seq<Lines>
    decreases spans.len(),
{
    if spans.len() == 0 {
        Seq::empty()
    } else {
        let before = folds(text, spans.drop_last());
        let lines = lines_of(text, spans.last());
        if lines.last > lines.first {
            before.push(lines)
        } else {
            before
        }
    }
}

/// The spans that can be folded.
fn fold_spans(checked: &Checked) -> (spans: Vec<Span>)
    ensures
        spans@ == foldable(*checked),
{
    let mut spans: Vec<Span> = spans_of_decls(&checked.module.decls);
    let ghost blocks = checked.module.blocks@;
    let ghost decls = spans@;
    let n: usize = checked.module.blocks.len();
    let mut i: usize = 0;
    while i < n
        invariant
            blocks == checked.module.blocks@,
            n == blocks.len(),
            i <= n,
            spans@ =~= decls + blocks.take(i as int),
        decreases n - i,
    {
        spans.push(checked.module.blocks[i]);
        i = i + 1;
    }
    spans
}

/// Everything worth collapsing, as lines.
///
/// Folded by line rather than by character, which is what editors show. A range that begins and
/// ends on the same line is dropped: an editor renders it as a fold marker that does nothing
/// when clicked.
pub fn folding_ranges(checked: &Checked, index: &LineIndex) -> (lines: Vec<(u32, u32)>)
    requires
        spans_fit(index@, foldable(*checked)),
    ensures
        lines@ == pairs(listing(folds(index@, foldable(*checked)))),
{
    let spans: Vec<Span> = fold_spans(checked);
    let mut out: Vec<Lines> = Vec::new();
    let n: usize = spans.len();
    let mut i: usize = 0;
    while i < n
        invariant
            n == spans@.len(),
            i <= n,
            spans_fit(index@, spans@),
            out@ == folds(index@, spans@.take(i as int)),
        decreases n - i,
    {
        proof {
            assert(spans@.take(i + 1).drop_last() =~= spans@.take(i as int));
        }
        let first: u32 = index.position(spans[i].start).line;
        let last: u32 = index.position(spans[i].end).line;
        if last > first {
            out.push(Lines { first, last });
        }
        i = i + 1;
    }
    proof {
        assert(spans@.take(n as int) =~= spans@);
    }
    paired(&sort_dedup(out))
}

fn paired(lines: &[Lines]) -> (out: Vec<(u32, u32)>)
    ensures
        out@ == pairs(lines@),
{
    let mut out: Vec<(u32, u32)> = Vec::new();
    let n: usize = lines.len();
    let mut i: usize = 0;
    while i < n
        invariant
            n == lines@.len(),
            i <= n,
            out@ =~= pairs(lines@).take(i as int),
        decreases n - i,
    {
        out.push((lines[i].first, lines[i].last));
        i = i + 1;
    }
    out
}

/// Whether everything worth collapsing can be shown.
pub fn can_fold(checked: &Checked, index: &LineIndex) -> (yes: bool)
    ensures
        yes == spans_fit(index@, foldable(*checked)),
{
    all_fit(index, &fold_spans(checked))
}

proof fn lemma_folds(text: Seq<char>, spans: Seq<Span>, lines: Lines)
    ensures
        folds(text, spans).contains(lines) <==> exists|i: int|
            0 <= i < spans.len() && lines_of(text, #[trigger] spans[i]) == lines && lines.last
                > lines.first,
    decreases spans.len(),
{
    if spans.len() > 0 {
        let init = spans.drop_last();
        let before = folds(text, init);
        let all = folds(text, spans);
        lemma_folds(text, init, lines);
        if all.contains(lines) {
            let k = choose|k: int| 0 <= k < all.len() && all[k] == lines;
            if k < before.len() {
                assert(before[k] == lines);
                let i = choose|i: int|
                    0 <= i < init.len() && lines_of(text, #[trigger] init[i]) == lines && lines.last
                        > lines.first;
                assert(lines_of(text, spans[i]) == lines);
            } else {
                assert(lines_of(text, spans[spans.len() - 1]) == lines);
            }
        }
        if exists|i: int|
            0 <= i < spans.len() && lines_of(text, #[trigger] spans[i]) == lines && lines.last
                > lines.first {
            let i = choose|i: int|
                0 <= i < spans.len() && lines_of(text, #[trigger] spans[i]) == lines && lines.last
                    > lines.first;
            if i < init.len() {
                assert(lines_of(text, init[i]) == lines);
                let k = choose|k: int| 0 <= k < before.len() && before[k] == lines;
                assert(all[k] == lines);
            } else {
                assert(all[all.len() - 1] == lines);
            }
        }
    }
}

/// Folds are in order, each once; every fold covers more than one line; and every span that does
/// is folded.
pub proof fn law_folds_cover_lines(text: Seq<char>, spans: Seq<Span>)
    ensures
        ascending(listing(folds(text, spans))),
        forall|lines: Lines| #[trigger]
            listing(folds(text, spans)).contains(lines) <==> exists|i: int|
                0 <= i < spans.len() && lines_of(text, #[trigger] spans[i]) == lines && lines.last
                    > lines.first,
{
    law_a_listing_is_in_order_and_complete(folds(text, spans));
    assert forall|lines: Lines| #[trigger]
        listing(folds(text, spans)).contains(lines) <==> exists|i: int|
            0 <= i < spans.len() && lines_of(text, #[trigger] spans[i]) == lines && lines.last
                > lines.first by {
        lemma_folds(text, spans, lines);
        assert(folds(text, spans).contains(lines) <==> listing(folds(text, spans)).contains(
            lines,
        ));
    }
}

/// Every declaration and every block that takes more than one line can be folded from its first
/// line to its last, nothing else can, no lines are listed twice, and they are in order.
pub proof fn law_everything_of_several_lines_folds(
    checked: Checked,
    text: Seq<char>,
    lines: Seq<(u32, u32)>,
)
    requires
        lines == pairs(listing(folds(text, foldable(checked)))),
    ensures
        forall|first: u32, last: u32| #[trigger]
            lines.contains((first, last)) <==> first < last && ((exists|i: int|
                0 <= i < checked.module.decls@.len() && position_of(
                    text,
                    (#[trigger] checked.module.decls@[i]).span.start as int,
                ).line == first && position_of(
                    text,
                    checked.module.decls@[i].span.end as int,
                ).line == last) || (exists|i: int|
                0 <= i < checked.module.blocks@.len() && position_of(
                    text,
                    (#[trigger] checked.module.blocks@[i]).start as int,
                ).line == first && position_of(text, checked.module.blocks@[i].end as int).line
                    == last)),
        forall|i: int, j: int|
            0 <= i < j < lines.len() ==> ({
                let (a, b) = (#[trigger] lines[i], #[trigger] lines[j]);
                a.0 < b.0 || (a.0 == b.0 && a.1 < b.1)
            }),
{
    let spans = foldable(checked);
    let decls = checked.module.decls@;
    let blocks = checked.module.blocks@;
    let all = listing(folds(text, spans));
    law_folds_cover_lines(text, spans);
    assert forall|first: u32, last: u32| #[trigger]
        lines.contains((first, last)) <==> first < last && ((exists|i: int|
            0 <= i < decls.len() && position_of(text, (#[trigger] decls[i]).span.start as int).line
                == first && position_of(text, decls[i].span.end as int).line == last) || (exists|
            i: int,
        |
            0 <= i < blocks.len() && position_of(text, (#[trigger] blocks[i]).start as int).line
                == first && position_of(text, blocks[i].end as int).line == last)) by {
        let want = Lines { first, last };
        if lines.contains((first, last)) {
            let k = choose|k: int| 0 <= k < lines.len() && lines[k] == (first, last);
            assert(all[k] == want);
            assert(all.contains(want));
            let i = choose|i: int|
                0 <= i < spans.len() && lines_of(text, #[trigger] spans[i]) == want && want.last
                    > want.first;
            if i < decls.len() {
                assert(decls[i].span == spans[i]);
            } else {
                assert(blocks[i - decls.len()] == spans[i]);
            }
        }
        if first < last && exists|i: int|
            0 <= i < decls.len() && position_of(text, (#[trigger] decls[i]).span.start as int).line
                == first && position_of(text, decls[i].span.end as int).line == last {
            let i = choose|i: int|
                0 <= i < decls.len() && position_of(
                    text,
                    (#[trigger] decls[i]).span.start as int,
                ).line == first && position_of(text, decls[i].span.end as int).line == last;
            assert(lines_of(text, spans[i]) == want);
            assert(all.contains(want));
            let k = choose|k: int| 0 <= k < all.len() && all[k] == want;
            assert(lines[k] == (first, last));
        }
        if first < last && exists|i: int|
            0 <= i < blocks.len() && position_of(text, (#[trigger] blocks[i]).start as int).line
                == first && position_of(text, blocks[i].end as int).line == last {
            let i = choose|i: int|
                0 <= i < blocks.len() && position_of(
                    text,
                    (#[trigger] blocks[i]).start as int,
                ).line == first && position_of(text, blocks[i].end as int).line == last;
            assert(spans[decls.len() + i] == blocks[i]);
            assert(lines_of(text, spans[decls.len() + i]) == want);
            assert(all.contains(want));
            let k = choose|k: int| 0 <= k < all.len() && all[k] == want;
            assert(lines[k] == (first, last));
        }
    }
    assert forall|i: int, j: int| 0 <= i < j < lines.len() implies ({
        let (a, b) = (#[trigger] lines[i], #[trigger] lines[j]);
        a.0 < b.0 || (a.0 == b.0 && a.1 < b.1)
    }) by {
        assert(all[i].at_most(all[j]) && all[i] != all[j]);
    }
}

} // verus!
