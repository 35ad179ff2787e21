//! Documentation: the `///` block above a declaration.
//!
//! Doc comments never reach the syntax tree, so the text is recovered from the comments that
//! the lexer set aside.

use crate::analysis::{text_in, Analyzer, Checked};
use crate::position::{newlines, LineIndex};
use crate::ranges::boundary;
use crate::syntax::{DefSite, Span, Trivia, TriviaKind};
use crate::text::{
    chars_of, cut, cut_of, is_white, join, joined, law_trimming_takes_the_white_space_around, texts,
    trim, trim_run, trimmed,
};
use crate::utf::is_boundary;
use vstd::prelude::*;

verus! {

/// Whether what stands between a comment and what follows it leaves the two adjacent: white
/// space, and no blank line.
pub open spec fn adjacent(gap: Seq<char>) -> bool {
    trimmed(gap).len() == 0 && newlines(gap) <= 1
}

/// The lines of the doc comments that end where `at` begins. The run ends at the first comment
/// that is no doc comment or not adjacent; comments that reach beyond `at` are no part of it.
pub open spec fn doc_run(text: Seq<char>, trivia: Seq<Trivia>, at: int) -> Seq<Seq<char>>
    decreases trivia.len(),
{
    if trivia.len() == 0 {
        Seq::empty()
    } else {
        let t = trivia.last();
        let above = trivia.drop_last();
        if t.span.end > at {
            doc_run(text, above, at)
        } else if t.kind != TriviaKind::Doc || !adjacent(cut_of(text, t.span.end as int, at)) {
            Seq::empty()
        } else {
            doc_run(text, above, t.span.start as int).push(trimmed(t.text@))
        }
    }
}

/// Whether every place that finding the run has to cut the text at is a boundary of it.
pub open spec fn doc_fits(text: Seq<char>, trivia: Seq<Trivia>, at: int) -> bool
    decreases trivia.len(),
{
    if trivia.len() == 0 {
        true
    } else {
        let t = trivia.last();
        let above = trivia.drop_last();
        if t.span.end > at {
            doc_fits(text, above, at)
        } else if t.kind != TriviaKind::Doc {
            true
        } else {
            &&& is_boundary(text, t.span.end as int)
            &&& is_boundary(text, at)
            &&& adjacent(cut_of(text, t.span.end as int, at)) ==> doc_fits(
                text,
                above,
                t.span.start as int,
            )
        }
    }
}

/// The documentation above a span: its lines joined, or none.
pub open spec fn docs_above(text: Seq<char>, trivia: Seq<Trivia>, at: int) -> Option<Seq<char>> {
    let run = doc_run(text, trivia, at);
    if run.len() == 0 {
        None
    } else {
        Some(joined(run, "\n"@))
    }
}

/// Whether a gap leaves a comment and what follows it adjacent.
fn leaves_adjacent(gap: &str) -> (yes: bool)
    ensures
        yes == adjacent(gap@),
{
    let chars: Vec<char> = chars_of(gap);
    let n: usize = chars.len();
    let (a, b): (usize, usize) = trim_run(&chars, 0, n);
    proof {
        assert(chars@.subrange(0, n as int) =~= gap@);
    }
    if a != b {
        return false;
    }
    let mut count: usize = 0;
    let mut i: usize = 0;
    while i < n
        invariant
            n == chars@.len(),
            chars@ == gap@,
            count <= i <= n,
            count == newlines(gap@.take(i as int)),
        decreases n - i,
    {
        proof {
            assert(gap@.take(i + 1).drop_last() =~= gap@.take(i as int));
        }
        if chars[i] == '\n' {
            count = count + 1;
        }
        i = i + 1;
    }
    proof {
        assert(gap@.take(n as int) =~= gap@);
    }
    count <= 1
}

/// The `///` block immediately above `span`.
///
/// A run is only the declaration's own documentation if nothing but white space separates the
/// two. Otherwise the block documenting the previous function would be shown for this one,
/// which is worse than showing nothing because it is confidently wrong. So the walk stops at
/// the first gap with a blank line in it.
pub fn doc_above(text: &str, trivia: &[Trivia], span: Span) -> (doc: Option<String>)
    requires
        doc_fits(text@, trivia@, span.start as int),
    ensures
        doc is Some <==> docs_above(text@, trivia@, span.start as int) is Some,
        doc matches Some(d) ==> docs_above(text@, trivia@, span.start as int) == Some(d@),
{
    let ghost whole = doc_run(text@, trivia@, span.start as int);
    let mut lines: Vec<String> = Vec::new();
    let mut at: usize = span.start;
    let mut i: usize = trivia.len();
    proof {
        assert(trivia@.take(i as int) =~= trivia@);
        assert(texts(lines@).reverse() =~= Seq::<Seq<char>>::empty());
        assert(whole + texts(lines@).reverse() =~= whole);
    }
    let mut more: bool = true;
    while more && i > 0
        invariant
            i <= trivia@.len(),
            whole == doc_run(text@, trivia@, span.start as int),
            more ==> doc_fits(text@, trivia@.take(i as int), at as int),
            more ==> whole == doc_run(text@, trivia@.take(i as int), at as int) + texts(
                lines@,
            ).reverse(),
            !more ==> whole == texts(lines@).reverse(),
        decreases i,
    {
        let ghost above = trivia@.take(i - 1);
        proof {
            assert(trivia@.take(i as int).drop_last() =~= above);
        }
        i = i - 1;
        let t: &Trivia = &trivia[i];
        if t.span.end > at {
            continue ;
        }
        if t.kind != TriviaKind::Doc {
            more = false;
        } else if !leaves_adjacent(cut(text, t.span.end, at)) {
            more = false;
        } else {
            let line: String = trim(t.text.as_str());
            let ghost before = lines@;
            lines.push(line);
            at = t.span.start;
            proof {
                let rest = doc_run(text@, above, at as int);
                assert(texts(lines@).reverse() =~= seq![line@] + texts(before).reverse());
                assert(rest.push(line@) + texts(before).reverse() =~= rest + texts(
                    lines@,
                ).reverse());
            }
        }
        proof {
            if !more {
                assert(Seq::<Seq<char>>::empty() + texts(lines@).reverse() =~= texts(
                    lines@,
                ).reverse());
            }
        }
    }
    proof {
        if more {
            assert(doc_run(text@, trivia@.take(0), at as int) =~= Seq::<Seq<char>>::empty());
            assert(Seq::<Seq<char>>::empty() + texts(lines@).reverse() =~= texts(
                lines@,
            ).reverse());
        }
    }
    if lines.len() == 0 {
        return None;
    }
    let ordered: Vec<String> = reversed(lines);
    Some(join(&ordered, "\n"))
}

/// Strings from last to first.
fn reversed(lines: Vec<String>) -> (out: Vec<String>)
    ensures
        texts(out@) == texts(lines@).reverse(),
{
    let ghost given = lines@;
    let mut lines: Vec<String> = lines;
    let mut out: Vec<String> = Vec::new();
    while lines.len() > 0
        invariant
            lines@.len() + out@.len() == given.len(),
            lines@ == given.take(lines@.len() as int),
            texts(out@) =~= texts(given).reverse().take(out@.len() as int),
        decreases lines@.len(),
    {
        let ghost n = lines@.len();
        let ghost before = out@;
        match lines.pop() {
            Some(line) => {
                proof {
                    assert(line == given[n - 1]);
                }
                out.push(line);
                proof {
                    assert(texts(out@) =~= texts(before).push(line@));
                    assert(texts(given).reverse()[before.len() as int] == line@);
                }
            },
            None => {},
        }
    }
    out
}

/// Whether every place that finding the run has to cut the text at is a boundary of it.
pub fn docs_fit(text: &str, trivia: &[Trivia], span: Span) -> (yes: bool)
    ensures
        yes == doc_fits(text@, trivia@, span.start as int),
{
    let mut at: usize = span.start;
    let mut i: usize = trivia.len();
    proof {
        assert(trivia@.take(i as int) =~= trivia@);
    }
    while i > 0
        invariant
            i <= trivia@.len(),
            doc_fits(text@, trivia@, span.start as int) == doc_fits(
                text@,
                trivia@.take(i as int),
                at as int,
            ),
        decreases i,
    {
        proof {
            assert(trivia@.take(i as int).drop_last() =~= trivia@.take(i - 1));
        }
        i = i - 1;
        let t: &Trivia = &trivia[i];
        if t.span.end <= at {
            if t.kind != TriviaKind::Doc {
                return true;
            }
            if !boundary(text, t.span.end) || !boundary(text, at) {
                return false;
            }
            if !leaves_adjacent(cut(text, t.span.end, at)) {
                return true;
            }
            at = t.span.start;
        }
    }
    true
}

/// A declaration whose nearest comment above is an ordinary one, or stands apart from it by
/// anything but white space or by a blank line, has no documentation; and nor has one with no
/// comment above it.
pub proof fn law_only_an_adjacent_doc_comment_documents(
    text: Seq<char>,
    trivia: Seq<Trivia>,
    at: int,
    nearest: int,
)
    requires
        -1 <= nearest < trivia.len(),
        forall|i: int| nearest < i < trivia.len() ==> (#[trigger] trivia[i]).span.end > at,
        nearest >= 0 ==> trivia[nearest].span.end <= at,
    ensures
        docs_above(text, trivia, at) is Some <==> nearest >= 0 && trivia[nearest].kind
            == TriviaKind::Doc && adjacent(cut_of(text, trivia[nearest].span.end as int, at)),
    decreases trivia.len(),
{
    if trivia.len() > 0 && nearest < trivia.len() - 1 {
        let above = trivia.drop_last();
        assert(trivia[trivia.len() - 1].span.end > at);
        assert forall|i: int| nearest < i < above.len() implies (#[trigger] above[i]).span.end
            > at by {
            assert(above[i] == trivia[i]);
        }
        law_only_an_adjacent_doc_comment_documents(text, above, at, nearest);
    }
}

/// The documentation of what a span of a module declares, wherever that module lives.
pub open spec fn doc_at(
    checked: Checked,
    analyzer: Analyzer,
    current: Seq<char>,
    lexed: Option<Seq<Trivia>>,
    module: Seq<Seq<char>>,
    span: Span,
) -> Option<Seq<char>> {
    match checked.holder(analyzer, module) {
        Some(src) => docs_above(src.index@, src.trivia@, span.start as int),
        None => match lexed {
            Some(trivia) => docs_above(current, trivia, span.start as int),
            None => None,
        },
    }
}

/// Whether the documentation of what a span of a module declares can be looked for.
pub open spec fn doc_at_fits(
    checked: Checked,
    analyzer: Analyzer,
    current: Seq<char>,
    lexed: Option<Seq<Trivia>>,
    module: Seq<Seq<char>>,
    span: Span,
) -> bool {
    match checked.holder(analyzer, module) {
        Some(src) => doc_fits(src.index@, src.trivia@, span.start as int),
        None => match lexed {
            Some(trivia) => doc_fits(current, trivia, span.start as int),
            None => true,
        },
    }
}

/// The documentation of a definition, wherever it lives.
pub open spec fn doc_of(
    checked: Checked,
    analyzer: Analyzer,
    current: Seq<char>,
    lexed: Option<Seq<Trivia>>,
    site: DefSite,
) -> Option<Seq<char>> {
    doc_at(checked, analyzer, current, lexed, texts(site.module@), site.span)
}

/// Whether a definition's documentation can be looked for.
pub open spec fn doc_of_fits(
    checked: Checked,
    analyzer: Analyzer,
    current: Seq<char>,
    lexed: Option<Seq<Trivia>>,
    site: DefSite,
) -> bool {
    doc_at_fits(checked, analyzer, current, lexed, texts(site.module@), site.span)
}

/// The comments of a document, if it lexes.
pub open spec fn comments(lexed: Option<Vec<Trivia>>) -> Option<Seq<Trivia>> {
    match lexed {
        Some(t) => Some(t@),
        None => None,
    }
}

/// The documentation of what a span of a module declares.
///
/// A user's own function is documented in the document being edited; another file's function is
/// documented in that file. Both are answered here so no caller has to know which kind it is
/// holding. `lexed` is the document's comments, if it lexes.
pub fn find_doc(
    analyzer: &Analyzer,
    checked: &Checked,
    current: &LineIndex,
    lexed: &Option<Vec<Trivia>>,
    module: &[String],
    span: Span,
) -> (doc: Option<String>)
    requires
        doc_at_fits(*checked, *analyzer, current@, comments(*lexed), texts(module@), span),
    ensures
        text_in(doc) == doc_at(
            *checked,
            *analyzer,
            current@,
            comments(*lexed),
            texts(module@),
            span,
        ),
{
    match checked.source_of(analyzer, module) {
        Some(src) => doc_above(src.index.text(), &src.trivia, span),
        None => match lexed {
            Some(trivia) => doc_above(current.text(), trivia, span),
            None => None,
        },
    }
}

/// Whether the documentation of what a span of a module declares can be looked for.
pub fn can_find_doc(
    analyzer: &Analyzer,
    checked: &Checked,
    current: &LineIndex,
    lexed: &Option<Vec<Trivia>>,
    module: &[String],
    span: Span,
) -> (yes: bool)
    ensures
        yes == doc_at_fits(
            *checked,
            *analyzer,
            current@,
            comments(*lexed),
            texts(module@),
            span,
        ),
{
    match checked.source_of(analyzer, module) {
        Some(src) => docs_fit(src.index.text(), &src.trivia, span),
        None => match lexed {
            Some(trivia) => docs_fit(current.text(), trivia, span),
            None => true,
        },
    }
}

/// The documentation for a definition, wherever it lives.
pub fn doc_for(
    analyzer: &Analyzer,
    checked: &Checked,
    current: &LineIndex,
    lexed: &Option<Vec<Trivia>>,
    site: &DefSite,
) -> (doc: Option<String>)
    requires
        doc_of_fits(*checked, *analyzer, current@, comments(*lexed), *site),
    ensures
        text_in(doc) == doc_of(*checked, *analyzer, current@, comments(*lexed), *site),
{
    find_doc(analyzer, checked, current, lexed, &site.module, site.span)
}

/// Whether a definition's documentation can be looked for.
pub fn doc_for_fits(
    analyzer: &Analyzer,
    checked: &Checked,
    current: &LineIndex,
    lexed: &Option<Vec<Trivia>>,
    site: &DefSite,
) -> (yes: bool)
    ensures
        yes == doc_of_fits(*checked, *analyzer, current@, comments(*lexed), *site),
{
    can_find_doc(analyzer, checked, current, lexed, &site.module, site.span)
}

/// A gap leaves a comment and what follows it adjacent when it is white space with at most one
/// line break in it.
pub proof fn law_what_leaves_a_comment_adjacent(gap: Seq<char>)
    ensures
        adjacent(gap) <==> (forall|i: int| 0 <= i < gap.len() ==> is_white(#[trigger] gap[i])) && (
        forall|i: int, j: int|
            0 <= i < gap.len() && 0 <= j < gap.len() && #[trigger] gap[i] == '\n'
                && #[trigger] gap[j] == '\n' ==> i == j),
{
    let run = law_trimming_takes_the_white_space_around(gap);
    lemma_few_newlines(gap);
    if forall|i: int| 0 <= i < gap.len() ==> is_white(#[trigger] gap[i]) {
        if run.0 < run.1 {
            assert(is_white(gap[run.0]));
        }
    }
    if trimmed(gap).len() == 0 {
        assert(run.0 == run.1);
        assert forall|i: int| 0 <= i < gap.len() implies is_white(#[trigger] gap[i]) by {
            if i >= run.0 {
                assert(run.1 <= i);
            }
        }
    }
}

proof fn lemma_few_newlines(s: Seq<char>)
    ensures
        newlines(s) == 0 <==> forall|i: int| 0 <= i < s.len() ==> #[trigger] s[i] != '\n',
        newlines(s) <= 1 <==> forall|i: int, j: int|
            0 <= i < s.len() && 0 <= j < s.len() && #[trigger] s[i] == '\n' && #[trigger] s[j]
                == '\n' ==> i == j,
    decreases s.len(),
{
    if s.len() > 0 {
        let init = s.drop_last();
        lemma_few_newlines(init);
        assert forall|i: int| 0 <= i < init.len() implies #[trigger] s[i] == init[i] by {}
        let last = s.len() - 1;
        assert(s[last] == s.last());
        if s.last() == '\n' {
            if newlines(init) > 0 {
                let i = choose|i: int| 0 <= i < init.len() && init[i] == '\n';
                assert(s[i] == '\n' && s[last] == '\n' && i != last);
            } else {
                assert forall|i: int, j: int|
                    0 <= i < s.len() && 0 <= j < s.len() && #[trigger] s[i] == '\n'
                        && #[trigger] s[j] == '\n' implies i == j by {
                    if i < last {
                        assert(init[i] != '\n');
                    }
                    if j < last {
                        assert(init[j] != '\n');
                    }
                }
            }
        } else {
            if newlines(init) <= 1 {
                assert forall|i: int, j: int|
                    0 <= i < s.len() && 0 <= j < s.len() && #[trigger] s[i] == '\n'
                        && #[trigger] s[j] == '\n' implies i == j by {
                    assert(init[i] == '\n' && init[j] == '\n');
                }
            } else {
                let (i, j) = choose|i: int, j: int|
                    0 <= i < init.len() && 0 <= j < init.len() && #[trigger] init[i] == '\n'
                        && #[trigger] init[j] == '\n' && i != j;
                assert(s[i] == '\n' && s[j] == '\n');
            }
            if newlines(init) > 0 {
                let i = choose|i: int| 0 <= i < init.len() && init[i] == '\n';
                assert(s[i] == '\n');
            }
        }
    }
}

/// Documentation is read upwards, comment by comment: the nearest comment above is its last line
/// if it is a doc comment that nothing but white space separates from what it documents, and
/// what is above that comment in the same way are the lines before. Otherwise there is none.
pub proof fn law_documentation_is_every_line_of_the_block(
    text: Seq<char>,
    trivia: Seq<Trivia>,
    at: int,
    nearest: int,
)
    requires
        -1 <= nearest < trivia.len(),
        forall|i: int| nearest < i < trivia.len() ==> (#[trigger] trivia[i]).span.end > at,
        nearest >= 0 ==> trivia[nearest].span.end <= at,
    ensures
        nearest < 0 ==> docs_above(text, trivia, at) is None,
        nearest >= 0 ==> docs_above(text, trivia, at) == (if trivia[nearest].kind
            == TriviaKind::Doc && adjacent(cut_of(text, trivia[nearest].span.end as int, at)) {
            match docs_above(
                text,
                trivia.take(nearest),
                trivia[nearest].span.start as int,
            ) {
                Some(above) => Some(above + "\n"@ + trimmed(trivia[nearest].text@)),
                None => Some(trimmed(trivia[nearest].text@)),
            }
        } else {
            None
        }),
    decreases trivia.len(),
{
    if trivia.len() > 0 && nearest < trivia.len() - 1 {
        let init = trivia.drop_last();
        assert(trivia[trivia.len() - 1].span.end > at);
        assert forall|i: int| nearest < i < init.len() implies (#[trigger] init[i]).span.end
            > at by {
            assert(init[i] == trivia[i]);
        }
        if nearest >= 0 {
            assert(init[nearest] == trivia[nearest]);
            assert(init.take(nearest) =~= trivia.take(nearest));
        }
        law_documentation_is_every_line_of_the_block(text, init, at, nearest);
    } else if nearest >= 0 {
        assert(trivia.take(nearest) =~= trivia.drop_last());
        let above = doc_run(text, trivia.take(nearest), trivia[nearest].span.start as int);
        let line = trimmed(trivia[nearest].text@);
        assert(above.push(line).drop_last() =~= above);
        reveal_with_fuel(joined, 2);
    }
}

/// Documentation is looked for in the file that holds the module, and in the document where no
/// other file does and the document lexes.
pub proof fn law_documentation_is_looked_for_where_the_module_is(
    checked: Checked,
    analyzer: Analyzer,
    current: Seq<char>,
    lexed: Option<Vec<Trivia>>,
    module: Seq<Seq<char>>,
    span: Span,
)
    ensures
        checked.holder(analyzer, module) matches Some(src) ==> doc_at(
            checked,
            analyzer,
            current,
            comments(lexed),
            module,
            span,
        ) == docs_above(src.index@, src.trivia@, span.start as int),
        checked.holder(analyzer, module) is None ==> doc_at(
            checked,
            analyzer,
            current,
            comments(lexed),
            module,
            span,
        ) == (match lexed {
            Some(trivia) => docs_above(current, trivia@, span.start as int),
            None => None,
        }),
{
}

/// Documentation can be looked for wherever the comments and what they stand above are where the
/// text has boundaries, as they are in the text that was lexed.
pub proof fn law_documentation_of_a_lexed_text_can_be_looked_for(
    text: Seq<char>,
    trivia: Seq<Trivia>,
    at: int,
)
    requires
        is_boundary(text, at),
        forall|i: int|
            0 <= i < trivia.len() ==> is_boundary(text, (#[trigger] trivia[i]).span.start as int)
                && is_boundary(text, trivia[i].span.end as int),
    ensures
        doc_fits(text, trivia, at),
    decreases trivia.len(),
{
    if trivia.len() > 0 {
        let above = trivia.drop_last();
        let t = trivia[trivia.len() - 1];
        assert(is_boundary(text, t.span.start as int) && is_boundary(text, t.span.end as int));
        assert forall|i: int| 0 <= i < above.len() implies is_boundary(
            text,
            (#[trigger] above[i]).span.start as int,
        ) && is_boundary(text, above[i].span.end as int) by {
            assert(above[i] == trivia[i]);
        }
        law_documentation_of_a_lexed_text_can_be_looked_for(text, above, at);
        law_documentation_of_a_lexed_text_can_be_looked_for(text, above, t.span.start as int);
    }
}

/// Where there is no comment, or none at all that ends above, documentation can be looked for.
pub proof fn law_nothing_is_read_without_a_comment_above(
    text: Seq<char>,
    trivia: Seq<Trivia>,
    at: int,
)
    requires
        forall|i: int| 0 <= i < trivia.len() ==> (#[trigger] trivia[i]).span.end > at,
    ensures
        doc_fits(text, trivia, at),
    decreases trivia.len(),
{
    if trivia.len() > 0 {
        let above = trivia.drop_last();
        assert(trivia[trivia.len() - 1].span.end > at);
        assert forall|i: int| 0 <= i < above.len() implies (#[trigger] above[i]).span.end > at by {
            assert(above[i] == trivia[i]);
        }
        law_nothing_is_read_without_a_comment_above(text, above, at);
    }
}

} // verus!
