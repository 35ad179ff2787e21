//! Expanding the selection: each press widens to the next enclosing thing.

use crate::analysis::Checked;
use crate::folding::{decl_spans, spans_of_decls};
use crate::position::{
    law_positions_keep_the_order_of_offsets, not_after, offset_of, position_of, LineIndex,
    Position, Range,
};
use crate::ranges::{all_fit, is_plain, ranges, ranges_of, spans_fit};
use crate::signatures::width;
use crate::sort::{law_a_listing_is_in_order_and_complete, listing, sort_dedup, Listed, Ranked};
use crate::syntax::{Expr, Span};
use vstd::prelude::*;

verus! {

/// A span among those around a cursor.
#[derive(Debug, Clone, Copy, PartialEq, Eq, Structural)]
pub struct Around(pub Span);

impl Ranked for Around {
    /// Narrower first, which gives the nesting order; of two as wide, the one that starts
    /// first.
    open spec fn at_most(self, other: Self) -> bool {
        width(self.0) < width(other.0) || (width(self.0) == width(other.0) && self.0.start
            <= other.0.start)
    }

    fn ranks_at_most(&self, other: &Self) -> (yes: bool) {
        let a: i128 = self.0.end as i128 - self.0.start as i128;
        let b: i128 = other.0.end as i128 - other.0.start as i128;
        a < b || (a == b && self.0.start <= other.0.start)
    }

    proof fn order_laws(a: Self, b: Self, c: Self) {
    }
}

impl Listed for Around {
    fn same_as(&self, other: &Self) -> (same: bool) {
        self.0.start == other.0.start && self.0.end == other.0.end
    }

    proof fn distinct_laws(a: Self, b: Self) {
    }
}

/// Where expressions stand.
pub open spec fn expr_spans(exprs: Seq<Expr>) -> Seq<Span> {
    Seq::new(exprs.len(), |i: int| exprs[i].span)
}

/// Everything that the selection can widen to: expressions, patterns, blocks, and declarations
/// as the outermost step.
pub open spec fn selectable(checked: Checked) -> Seq<Span> {
    expr_spans(checked.module.exprs@) + checked.module.patterns@ + checked.module.blocks@
        + decl_spans(checked.module.decls@)
}

/// Those spans that an offset lies in.
pub open spec fn around(spans: Seq<Span>, offset: int) -> Seq<Around>
    decreases spans.len(),
{
    if spans.len() == 0 {
        Seq::empty()
    } else if spans.last().holds(offset) {
        around(spans.drop_last(), offset).push(Around(spans.last()))
    } else {
        around(spans.drop_last(), offset)
    }
}

/// The spans themselves.
pub open spec fn bare(chain: Seq<Around>) -> Seq<Span> {
    Seq::new(chain.len(), |i: int| chain[i].0)
}

/// The chain of spans around an offset, innermost first.
pub open spec fn chain_at(checked: Checked, offset: int) -> Seq<Span> {
    bare(listing(around(selectable(checked), offset)))
}

proof fn lemma_around_concat(a: Seq<Span>, b: Seq<Span>, offset: int)
    ensures
        around(a + b, offset) == around(a, offset) + around(b, offset),
    decreases b.len(),
{
    if b.len() == 0 {
        assert(a + b =~= a);
        assert(around(a, offset) + around(b, offset) =~= around(a, offset));
    } else {
        lemma_around_concat(a, b.drop_last(), offset);
        assert((a + b).drop_last() =~= a + b.drop_last());
        assert(around(a + b, offset) =~= around(a, offset) + around(b, offset));
    }
}

/// Add those of some spans that an offset lies in.
fn keep(found: &mut Vec<Around>, spans: &[Span], offset: usize)
    ensures
        final(found)@ == old(found)@ + around(spans@, offset as int),
{
    let ghost before = found@;
    let n: usize = spans.len();
    let mut i: usize = 0;
    proof {
        assert(before + around(spans@.take(0), offset as int) =~= before);
    }
    while i < n
        invariant
            n == spans@.len(),
            i <= n,
            found@ == before + around(spans@.take(i as int), offset as int),
        decreases n - i,
    {
        proof {
            assert(spans@.take(i + 1).drop_last() =~= spans@.take(i as int));
        }
        if spans[i].contains(offset) {
            found.push(Around(spans[i]));
        }
        i = i + 1;
        proof {
            assert(found@ =~= before + around(spans@.take(i as int), offset as int));
        }
    }
    proof {
        assert(spans@.take(n as int) =~= spans@);
    }
}

/// Where expressions stand.
fn spans_of_exprs(exprs: &[Expr]) -> (spans: Vec<Span>)
    ensures
        spans@ == expr_spans(exprs@),
{
    let mut spans: Vec<Span> = Vec::new();
    let n: usize = exprs.len();
    let mut i: usize = 0;
    while i < n
        invariant
            n == exprs@.len(),
            i <= n,
            spans@ =~= expr_spans(exprs@).take(i as int),
        decreases n - i,
    {
        spans.push(exprs[i].span);
        i = i + 1;
    }
    spans
}

/// The chain of spans around a position, in bytes, innermost first.
pub fn selection_spans(checked: &Checked, index: &LineIndex, pos: Position) -> (chain: Vec<Span>)
    ensures
        chain@ == chain_at(*checked, offset_of(index@, pos) as int),
{
    let offset: usize = index.offset(pos);
    let ghost o = offset as int;
    let ghost exprs = expr_spans(checked.module.exprs@);
    let ghost patterns = checked.module.patterns@;
    let ghost blocks = checked.module.blocks@;
    let ghost decls = decl_spans(checked.module.decls@);
    let mut found: Vec<Around> = Vec::new();
    keep(&mut found, &spans_of_exprs(&checked.module.exprs), offset);
    keep(&mut found, &checked.module.patterns, offset);
    keep(&mut found, &checked.module.blocks, offset);
    keep(&mut found, &spans_of_decls(&checked.module.decls), offset);
    proof {
        lemma_around_concat(exprs + patterns + blocks, decls, o);
        lemma_around_concat(exprs + patterns, blocks, o);
        lemma_around_concat(exprs, patterns, o);
        assert(found@ =~= around(selectable(*checked), o));
    }
    let sorted: Vec<Around> = sort_dedup(found);
    let mut chain: Vec<Span> = Vec::new();
    let n: usize = sorted.len();
    let mut i: usize = 0;
    while i < n
        invariant
            n == sorted@.len(),
            i <= n,
            chain@ =~= bare(sorted@).take(i as int),
        decreases n - i,
    {
        chain.push(sorted[i].0);
        i = i + 1;
    }
    chain
}

/// The chain of ranges around a position, innermost first.
///
/// Patterns as well as expressions: expanding the selection from the `x` in `let x = ...` is the
/// same gesture as expanding it from a use of `x`. Blocks are the step between a statement and
/// its function, and the declaration is the outermost.
pub fn selection_range(checked: &Checked, index: &LineIndex, pos: Position) -> (chain: Vec<Range>)
    requires
        spans_fit(index@, chain_at(*checked, offset_of(index@, pos) as int)),
    ensures
        chain@ == ranges_of(index@, chain_at(*checked, offset_of(index@, pos) as int)),
{
    ranges(index, &selection_spans(checked, index, pos))
}

/// Whether every range around a position can be shown.
pub fn can_select(checked: &Checked, index: &LineIndex, pos: Position) -> (yes: bool)
    ensures
        yes == spans_fit(index@, chain_at(*checked, offset_of(index@, pos) as int)),
{
    all_fit(index, &selection_spans(checked, index, pos))
}

proof fn lemma_around(spans: Seq<Span>, offset: int, span: Span)
    ensures
        around(spans, offset).contains(Around(span)) <==> spans.contains(span) && span.holds(
            offset,
        ),
    decreases spans.len(),
{
    let found = around(spans, offset);
    if spans.len() > 0 {
        let init = spans.drop_last();
        let before = around(init, offset);
        lemma_around(init, offset, span);
        if found.contains(Around(span)) {
            let k = choose|k: int| 0 <= k < found.len() && found[k] == Around(span);
            if k < before.len() {
                assert(before[k] == Around(span));
                let i = choose|i: int| 0 <= i < init.len() && init[i] == span;
                assert(spans[i] == span);
            } else {
                assert(spans[spans.len() - 1] == span);
            }
        }
        if spans.contains(span) && span.holds(offset) {
            let i = choose|i: int| 0 <= i < spans.len() && spans[i] == span;
            if i < init.len() {
                assert(init[i] == span);
                let k = choose|k: int| 0 <= k < before.len() && before[k] == Around(span);
                assert(found[k] == Around(span));
            } else {
                assert(found[found.len() - 1] == Around(span));
            }
        }
    }
}

/// The chain holds exactly the spans around the cursor, each once, and never narrows.
pub proof fn law_the_chain_is_what_surrounds_the_cursor(checked: Checked, offset: int)
    ensures
        forall|span: Span| #[trigger]
            chain_at(checked, offset).contains(span) <==> selectable(checked).contains(span)
                && span.holds(offset),
        forall|i: int, j: int|
            0 <= i < j < chain_at(checked, offset).len() ==> width(
                #[trigger] chain_at(checked, offset)[i],
            ) <= width(#[trigger] chain_at(checked, offset)[j]) && chain_at(checked, offset)[i]
                != chain_at(checked, offset)[j],
{
    let spans = selectable(checked);
    let found = around(spans, offset);
    let list = listing(found);
    let chain = chain_at(checked, offset);
    law_a_listing_is_in_order_and_complete(found);
    assert forall|span: Span| #[trigger] chain.contains(span) <==> spans.contains(span)
        && span.holds(offset) by {
        lemma_around(spans, offset, span);
        assert(list.contains(Around(span)) <==> found.contains(Around(span)));
        if chain.contains(span) {
            let k = choose|k: int| 0 <= k < chain.len() && chain[k] == span;
            assert(list[k] == Around(span));
        }
        if list.contains(Around(span)) {
            let k = choose|k: int| 0 <= k < list.len() && list[k] == Around(span);
            assert(chain[k] == span);
        }
    }
    assert forall|i: int, j: int| 0 <= i < j < chain.len() implies width(#[trigger] chain[i])
        <= width(#[trigger] chain[j]) && chain[i] != chain[j] by {
        assert(list[i].at_most(list[j]));
    }
}

/// Whether of any two spans that overlap one lies inside the other, as in a tree.
pub open spec fn laminar(spans: Seq<Span>) -> bool {
    forall|i: int, j: int|
        0 <= i < spans.len() && 0 <= j < spans.len() ==> {
            let a = #[trigger] spans[i];
            let b = #[trigger] spans[j];
            ||| a.end <= b.start
            ||| b.end <= a.start
            ||| (a.start <= b.start && b.end <= a.end)
            ||| (b.start <= a.start && a.end <= b.end)
        }
}

/// Where spans nest as in a tree, each step of the chain contains the one before it, in bytes
/// and as an editor's range, and is strictly wider: repeated presses come to an end.
pub proof fn law_each_step_contains_the_one_before(
    checked: Checked,
    text: Seq<char>,
    offset: int,
    i: int,
    j: int,
)
    requires
        laminar(selectable(checked)),
        is_plain(text, chain_at(checked, offset)[i]),
        is_plain(text, chain_at(checked, offset)[j]),
        0 <= i < j < chain_at(checked, offset).len(),
    ensures
        chain_at(checked, offset)[j].start <= chain_at(checked, offset)[i].start,
        chain_at(checked, offset)[i].end <= chain_at(checked, offset)[j].end,
        width(chain_at(checked, offset)[i]) < width(chain_at(checked, offset)[j]),
        not_after(
            position_of(text, chain_at(checked, offset)[j].start as int),
            position_of(text, chain_at(checked, offset)[i].start as int),
        ),
        not_after(
            position_of(text, chain_at(checked, offset)[i].end as int),
            position_of(text, chain_at(checked, offset)[j].end as int),
        ),
{
    let spans = selectable(checked);
    let chain = chain_at(checked, offset);
    law_the_chain_is_what_surrounds_the_cursor(checked, offset);
    let inner = chain[i];
    let outer = chain[j];
    assert(chain.contains(inner));
    assert(chain.contains(outer));
    let a = choose|a: int| 0 <= a < spans.len() && spans[a] == inner;
    let b = choose|b: int| 0 <= b < spans.len() && spans[b] == outer;
    assert(spans[a] == inner && spans[b] == outer);
    assert(width(inner) <= width(outer) && inner != outer);
    law_positions_keep_the_order_of_offsets(text, outer.start as int, inner.start as int);
    law_positions_keep_the_order_of_offsets(text, inner.end as int, outer.end as int);
}

/// What can be selected: an expression, a pattern, a block or a declaration.
pub open spec fn can_be_selected(checked: Checked, span: Span) -> bool {
    ||| exists|i: int|
        0 <= i < checked.module.exprs@.len() && (#[trigger] checked.module.exprs@[i]).span == span
    ||| checked.module.patterns@.contains(span)
    ||| checked.module.blocks@.contains(span)
    ||| exists|i: int|
        0 <= i < checked.module.decls@.len() && (#[trigger] checked.module.decls@[i]).span == span
}

/// Everything that can be selected and holds the cursor is in the chain, once, and nothing else
/// is; the narrower comes first, and of those as wide the one that starts first.
pub proof fn law_everything_around_the_cursor_is_in_the_chain(checked: Checked, offset: int)
    ensures
        forall|span: Span| #[trigger]
            chain_at(checked, offset).contains(span) <==> can_be_selected(checked, span)
                && span.start <= offset && offset < span.end,
        forall|i: int, j: int|
            0 <= i < j < chain_at(checked, offset).len() ==> ({
                let (a, b) = (
                    #[trigger] chain_at(checked, offset)[i],
                    #[trigger] chain_at(checked, offset)[j],
                );
                ||| a.end - a.start < b.end - b.start
                ||| (a.end - a.start == b.end - b.start && a.start < b.start)
            }),
{
    law_the_chain_is_what_surrounds_the_cursor(checked, offset);
    let all = selectable(checked);
    let exprs = expr_spans(checked.module.exprs@);
    let patterns = checked.module.patterns@;
    let blocks = checked.module.blocks@;
    let decls = decl_spans(checked.module.decls@);
    assert forall|span: Span| #[trigger] all.contains(span) <==> can_be_selected(checked, span) by {
        if all.contains(span) {
            let i = choose|i: int| 0 <= i < all.len() && all[i] == span;
            if i < exprs.len() {
                assert(checked.module.exprs@[i].span == span);
            } else if i < exprs.len() + patterns.len() {
                assert(patterns[i - exprs.len()] == span);
            } else if i < exprs.len() + patterns.len() + blocks.len() {
                assert(blocks[i - exprs.len() - patterns.len()] == span);
            } else {
                assert(checked.module.decls@[i - exprs.len() - patterns.len()
                    - blocks.len()].span == span);
            }
        }
        if exists|i: int|
            0 <= i < checked.module.exprs@.len() && (#[trigger] checked.module.exprs@[i]).span
                == span {
            let i = choose|i: int|
                0 <= i < checked.module.exprs@.len() && (#[trigger] checked.module.exprs@[i]).span
                    == span;
            assert(all[i] == span);
        }
        if patterns.contains(span) {
            let i = choose|i: int| 0 <= i < patterns.len() && patterns[i] == span;
            assert(all[exprs.len() + i] == span);
        }
        if blocks.contains(span) {
            let i = choose|i: int| 0 <= i < blocks.len() && blocks[i] == span;
            assert(all[exprs.len() + patterns.len() + i] == span);
        }
        if exists|i: int|
            0 <= i < checked.module.decls@.len() && (#[trigger] checked.module.decls@[i]).span
                == span {
            let i = choose|i: int|
                0 <= i < checked.module.decls@.len() && (#[trigger] checked.module.decls@[i]).span
                    == span;
            assert(all[exprs.len() + patterns.len() + blocks.len() + i] == span);
        }
    }
    let chain = listing(around(all, offset));
    law_a_listing_is_in_order_and_complete(around(all, offset));
    assert forall|i: int, j: int| 0 <= i < j < chain_at(checked, offset).len() implies ({
        let (a, b) = (
            #[trigger] chain_at(checked, offset)[i],
            #[trigger] chain_at(checked, offset)[j],
        );
        ||| a.end - a.start < b.end - b.start
        ||| (a.end - a.start == b.end - b.start && a.start < b.start)
    }) by {
        assert(chain[i].at_most(chain[j]) && chain[i] != chain[j]);
        assert(chain[i].0 == chain_at(checked, offset)[i]);
        assert(chain[j].0 == chain_at(checked, offset)[j]);
    }
}

} // verus!
