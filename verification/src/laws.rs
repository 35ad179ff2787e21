//! What an answer to a request promises, whatever it took to find it.
//!
//! Each law here takes a request and its answer and says what the editor is told, in terms of the
//! check and the text of the document alone.

use crate::analysis::{Analyzer, Checked};
use crate::completion::{
    law_every_function_with_a_body_is_offered, offers_fn, offers_local, scope,
};
use crate::docs::{comments, doc_fits};
use crate::documents::Doc;
use crate::folding::{foldable, law_everything_of_several_lines_folds};
use crate::hints::{
    hint_texts, hints_fit, hints_for, law_every_binding_without_a_type_is_hinted, wants_hint,
};
use crate::jump::{file_url_text, is_uri, URI_LIMIT};
use crate::navigation::{
    hover_of, hover_tail, is_under_cursor, law_a_hover_shows_the_signature_or_the_type,
    law_every_occurrence_is_found_and_renamed, law_references_in_a_text_that_fits_can_be_shown,
    names, nothing_under_cursor, reference_spans, strictly_in_order,
};
use crate::outline::{is_listed, law_every_declaration_is_in_the_outline, symbolises};
use crate::position::{offset_of, position_of, Position, Range};
use crate::ranges::{ranges_of, span_fits, spans_fit};
use crate::reply::{
    answers, edit_views, formatting, law_a_chain_links_its_ranges_in_order, links, query_fits,
    replacements, selected, Query, Reply, INVALID_REQUEST, METHOD_NOT_FOUND,
};
use crate::selection::{
    can_be_selected, chain_at, law_everything_around_the_cursor_is_in_the_chain,
};
use crate::signatures::{
    active_arg, first_fn, is_call_around, is_innermost_call, law_help_shows_every_parameter,
    law_the_called_function_is_helped_with, no_fn, signature_text,
};
use crate::sort::in_places;
use crate::syntax::{
    first_def, first_type, law_a_listed_definition_is_found, no_def, no_type, Decl, DefKind,
    Node, Span, Trivia,
};
use crate::text::texts;
use crate::tokens::{colours, decoded, is_coloured, law_every_resolved_name_is_coloured};
use crate::utf::byte_len;
use vstd::prelude::*;

verus! {

/// Whether a document is open with a text, and was checked.
pub open spec fn is_open(
    docs: Map<Seq<char>, Doc>,
    uri: Seq<char>,
    text: Seq<char>,
    checked: Checked,
) -> bool {
    docs.contains_key(uri) && docs[uri].index@ == text && docs[uri].checked == Some(checked)
}

/// Whether a document is not open, or was never checked.
pub open spec fn is_unchecked(docs: Map<Seq<char>, Doc>, uri: Seq<char>) -> bool {
    !docs.contains_key(uri) || docs[uri].checked is None
}

/// Whether a range is where a span of a text is.
pub open spec fn covers(range: Range, text: Seq<char>, span: Span) -> bool {
    range.start == position_of(text, span.start as int) && range.end == position_of(
        text,
        span.end as int,
    )
}

/// Where an expression is under the cursor, a hover is answered on it: with the signature of the
/// function that it names, if the compilation knows it; otherwise with the type that it was given,
/// whether or not it names anything; and with nothing if it was given none. A document that was
/// never checked has no hover.
pub proof fn law_a_hover_is_answered(
    docs: Map<Seq<char>, Doc>,
    analyzer: Analyzer,
    uri: String,
    pos: Position,
    node: Node,
    lexed: Option<Vec<Trivia>>,
    reply: Reply,
    text: Seq<char>,
    checked: Checked,
    k: int,
    f: int,
    t: int,
)
    requires
        answers(docs, analyzer, Query::Hover { uri, pos, innermost: Some(node), lexed }, reply),
    ensures
        is_unchecked(docs, uri@) ==> reply is Null,
        is_open(docs, uri@, text, checked) ==> {
            let defs = checked.result.defs@;
            let types = checked.result.types@;
            let fns = checked.env.fns@;
            let site = defs[k].1;
            let tail = hover_tail(checked, analyzer, text, lexed, site);
            let typed = "```neon\n"@ + types[t].1.text@ + "\n```"@;
            let known = site.kind == DefKind::Fn && !no_fn(fns, site);
            &&& first_def(defs, node.id, k) && site.kind == DefKind::Fn && first_fn(fns, site, f)
                ==> (reply matches Reply::Hover { text: shown, range } && covers(
                range,
                text,
                node.span,
            ) && shown@ == "```neon\n"@ + signature_text(fns[f]) + "\n```"@ + tail)
            &&& first_def(defs, node.id, k) && !known && first_type(types, node.id, t) ==> (reply
                matches Reply::Hover { text: shown, range } && covers(range, text, node.span)
                && shown@ == typed + tail)
            &&& no_def(defs, node.id) && first_type(types, node.id, t) ==> (reply
                matches Reply::Hover { text: shown, range } && covers(range, text, node.span)
                && shown@ == typed)
            &&& no_def(defs, node.id) && no_type(types, node.id) ==> reply is Null
            &&& first_def(defs, node.id, k) && !known && no_type(types, node.id) ==> reply is Null
        },
{
    if is_open(docs, uri@, text, checked) {
        law_a_hover_shows_the_signature_or_the_type(
            checked,
            analyzer,
            text,
            lexed,
            node,
            offset_of(text, pos) as int,
            k,
            f,
            t,
        );
    }
}

/// A hover is answered with what there is to show, wherever the cursor is.
pub proof fn law_a_hover_is_answered_with_what_there_is_to_show(
    docs: Map<Seq<char>, Doc>,
    analyzer: Analyzer,
    uri: String,
    pos: Position,
    innermost: Option<Node>,
    lexed: Option<Vec<Trivia>>,
    reply: Reply,
    text: Seq<char>,
    checked: Checked,
)
    requires
        answers(docs, analyzer, Query::Hover { uri, pos, innermost, lexed }, reply),
        is_open(docs, uri@, text, checked),
    ensures
        match hover_of(
            checked,
            analyzer,
            text,
            comments(lexed),
            innermost,
            offset_of(text, pos) as int,
        ) {
            Some((want, span)) => reply matches Reply::Hover { text: shown, range } && shown@
                == want && covers(range, text, span),
            None => reply is Null,
        },
{
}

/// Go to definition leads to what the name under the cursor was resolved to: in this document
/// where no other file holds its module, and otherwise in the file that does, under that file's
/// URL. It leads nowhere where there is no name, where it was not resolved, or where the file has
/// no URL.
pub proof fn law_a_definition_is_answered(
    docs: Map<Seq<char>, Doc>,
    analyzer: Analyzer,
    uri: String,
    innermost: Option<Node>,
    reply: Reply,
    text: Seq<char>,
    checked: Checked,
    k: int,
)
    requires
        answers(docs, analyzer, Query::Definition { uri, innermost }, reply),
    ensures
        is_unchecked(docs, uri@) ==> reply is Null,
        innermost is None ==> reply is Null,
        is_open(docs, uri@, text, checked) && (innermost matches Some(node) && no_def(
            checked.result.defs@,
            node.id,
        )) ==> reply is Null,
        is_open(docs, uri@, text, checked) && (innermost matches Some(node) && first_def(
            checked.result.defs@,
            node.id,
            k,
        )) ==> {
            let site = checked.result.defs@[k].1;
            match checked.holder(analyzer, texts(site.module@)) {
                None => reply matches Reply::Definition(place) && place.uri@ == uri@ && covers(
                    place.range,
                    text,
                    site.span,
                ),
                Some(src) => match file_url_text(src.path@) {
                    Some(url) => if is_uri(url) {
                        reply matches Reply::Definition(place) && place.uri@ == url && covers(
                            place.range,
                            src.index@,
                            site.span,
                        )
                    } else {
                        reply is Null
                    },
                    None => reply is Null,
                },
            }
        },
{
    if let Some(node) = innermost {
        law_a_listed_definition_is_found(checked.result, node.id);
    }
}

/// The references that a request is answered with are every place of this document that names
/// what the cursor is on, in order and each once: `spans` are those places. Where the cursor is on
/// nothing there are none.
pub proof fn law_references_are_answered(
    docs: Map<Seq<char>, Doc>,
    analyzer: Analyzer,
    uri: String,
    pos: Position,
    innermost: Option<Node>,
    reply: Reply,
    text: Seq<char>,
    checked: Checked,
    k: int,
) -> (spans: Seq<Span>)
    requires
        answers(docs, analyzer, Query::References { uri, pos, innermost }, reply),
    ensures
        is_unchecked(docs, uri@) ==> reply is Null,
        is_open(docs, uri@, text, checked) ==> {
            let offset = offset_of(text, pos) as int;
            &&& reply is References
            &&& nothing_under_cursor(checked, innermost, offset) ==> reply->References_0@.len()
                == 0
            &&& is_under_cursor(checked, innermost, offset, k) ==> {
                let found = reply->References_0@;
                &&& strictly_in_order(spans)
                &&& forall|span: Span| #[trigger]
                    spans.contains(span) <==> names(
                        checked,
                        analyzer,
                        checked.result.defs@[k].1,
                        span,
                    )
                &&& found.len() == spans.len()
                &&& forall|i: int|
                    0 <= i < found.len() ==> (#[trigger] found[i]).uri@ == uri@ && covers(
                        found[i].range,
                        text,
                        spans[i],
                    )
            }
        },
{
    let offset = offset_of(text, pos) as int;
    law_every_occurrence_is_found_and_renamed(checked, analyzer, innermost, offset, k);
    let spans = reference_spans(checked, analyzer, innermost, offset);
    if is_open(docs, uri@, text, checked) {
        assert(ranges_of(text, spans).len() == spans.len());
    }
    spans
}

/// A rename is answered with an edit for every place of this document that names what the cursor
/// is on, in order and each once, that puts the new name there: `spans` are those places. It is
/// refused, with an error that says so, exactly where the cursor is on nothing, the definition is
/// in another file, or the document was never checked.
pub proof fn law_a_rename_is_answered(
    docs: Map<Seq<char>, Doc>,
    analyzer: Analyzer,
    uri: String,
    pos: Position,
    innermost: Option<Node>,
    new_name: String,
    reply: Reply,
    text: Seq<char>,
    checked: Checked,
    k: int,
) -> (spans: Seq<Span>)
    requires
        answers(docs, analyzer, Query::Rename { uri, pos, innermost, new_name }, reply),
    ensures
        reply is Rename || (reply matches Reply::Failed(e) && e.code == INVALID_REQUEST
            && e.message@
            == "this name cannot be renamed from here: it is not defined in this file"@),
        is_unchecked(docs, uri@) ==> reply is Failed,
        is_open(docs, uri@, text, checked) ==> {
            let offset = offset_of(text, pos) as int;
            let here = checked.holder(analyzer, texts(checked.result.defs@[k].1.module@)) is None;
            &&& nothing_under_cursor(checked, innermost, offset) ==> reply is Failed
            &&& is_under_cursor(checked, innermost, offset, k) && !here ==> reply is Failed
            &&& is_under_cursor(checked, innermost, offset, k) && here ==> {
                &&& reply matches Reply::Rename { uri: target, edits } && target@ == uri@
                    && edits@.len() == spans.len() && (forall|i: int|
                    0 <= i < spans.len() ==> (#[trigger] edits@[i]).new_text@ == new_name@
                        && covers(edits@[i].range, text, spans[i]))
                &&& strictly_in_order(spans)
                &&& forall|span: Span| #[trigger]
                    spans.contains(span) <==> names(
                        checked,
                        analyzer,
                        checked.result.defs@[k].1,
                        span,
                    )
            }
        },
{
    let offset = offset_of(text, pos) as int;
    law_every_occurrence_is_found_and_renamed(checked, analyzer, innermost, offset, k);
    let spans = reference_spans(checked, analyzer, innermost, offset);
    if is_open(docs, uri@, text, checked) && is_under_cursor(checked, innermost, offset, k) {
        if let Reply::Rename { uri: target, edits } = reply {
            let told = edit_views(edits@);
            let want = replacements(ranges_of(text, spans), new_name@);
            assert(told == want);
            assert(told.len() == edits@.len() && want.len() == spans.len());
            assert forall|i: int| 0 <= i < spans.len() implies (#[trigger] edits@[i]).new_text@
                == new_name@ && covers(edits@[i].range, text, spans[i]) by {
                assert(told[i] == want[i]);
            }
        }
    }
    spans
}

/// A completion is answered with every binding in scope and then with every function of the
/// compilation that has a body, generic or not and in whichever module: `at` lists which, in the
/// order of the table. A document that was never checked is answered with nothing.
pub proof fn law_a_completion_is_answered(
    docs: Map<Seq<char>, Doc>,
    analyzer: Analyzer,
    uri: String,
    pos: Position,
    lexed: Option<Vec<Trivia>>,
    reply: Reply,
    text: Seq<char>,
    checked: Checked,
) -> (at: Seq<int>)
    requires
        answers(docs, analyzer, Query::Completion { uri, pos, lexed }, reply),
    ensures
        is_unchecked(docs, uri@) ==> reply is Null,
        is_open(docs, uri@, text, checked) ==> {
            let locals = scope(checked, text, offset_of(text, pos) as int);
            let fns = checked.env.fns@;
            &&& in_places(at, fns.len() as int)
            &&& forall|i: int|
                0 <= i < fns.len() ==> (#[trigger] at.contains(i) <==> fns[i].has_body)
            &&& reply matches Reply::Completions(items) && items@.len() == locals.len() + at.len()
                && (forall|i: int|
                0 <= i < locals.len() ==> offers_local(#[trigger] items@[i], locals[i])) && (
            forall|k: int|
                0 <= k < at.len() ==> offers_fn(items@[locals.len() + k], fns[#[trigger] at[k]]))
        },
{
    if is_open(docs, uri@, text, checked) {
        law_every_function_with_a_body_is_offered(
            checked,
            analyzer,
            text,
            lexed,
            offset_of(text, pos) as int,
            reply->Completions_0@,
        )
    } else {
        Seq::empty()
    }
}

/// Signature help is answered with the function that the innermost call around the cursor calls,
/// in whichever module it was declared: its signature, every parameter, and the argument that the
/// cursor is in. It is answered with nothing exactly where there is no call around the cursor, its
/// callee was not resolved, or no function of the compilation was declared there.
pub proof fn law_signature_help_is_answered(
    docs: Map<Seq<char>, Doc>,
    analyzer: Analyzer,
    uri: String,
    pos: Position,
    reply: Reply,
    text: Seq<char>,
    checked: Checked,
    j: int,
    k: int,
    f: int,
)
    requires
        answers(docs, analyzer, Query::SignatureHelp { uri, pos }, reply),
    ensures
        is_unchecked(docs, uri@) ==> reply is Null,
        is_open(docs, uri@, text, checked) ==> {
            let offset = offset_of(text, pos) as int;
            let exprs = checked.module.exprs@;
            let defs = checked.result.defs@;
            let fns = checked.env.fns@;
            let callee = exprs[j].kind->Call_callee;
            let args = exprs[j].kind->Call_args@;
            let sig = fns[f];
            &&& (forall|i: int|
                0 <= i < exprs.len() ==> !is_call_around(#[trigger] exprs[i], offset)) ==> reply
                is Null
            &&& is_innermost_call(exprs, offset, j) && no_def(defs, callee) ==> reply is Null
            &&& is_innermost_call(exprs, offset, j) && first_def(defs, callee, k) && no_fn(
                fns,
                defs[k].1,
            ) ==> reply is Null
            &&& is_innermost_call(exprs, offset, j) && first_def(defs, callee, k) && first_fn(
                fns,
                defs[k].1,
                f,
            ) ==> (reply matches Reply::SignatureHelp(help) && help.label@ == signature_text(sig)
                && help.parameters@.len() == sig.params@.len() && (forall|i: int|
                0 <= i < sig.params@.len() ==> (#[trigger] help.parameters@[i])@
                    == sig.params@[i].0@ + ": "@ + sig.params@[i].1.text@) && (active_arg(
                args,
                offset,
            ) <= u32::MAX ==> help.active_parameter == active_arg(args, offset)))
        },
{
    if is_open(docs, uri@, text, checked) {
        let offset = offset_of(text, pos) as int;
        law_the_called_function_is_helped_with(checked, offset, j);
        let callee = checked.module.exprs@[j].kind->Call_callee;
        if is_innermost_call(checked.module.exprs@, offset, j) && first_def(
            checked.result.defs@,
            callee,
            k,
        ) && first_fn(checked.env.fns@, checked.result.defs@[k].1, f) {
            let help = reply->SignatureHelp_0;
            law_help_shows_every_parameter(
                help,
                checked.env.fns@[f],
                active_arg(checked.module.exprs@[j].kind->Call_args@, offset),
            );
        }
    }
}

/// The outline that a request is answered with has every declaration that has a name, in order:
/// `at` lists which. A document that was never checked has none.
pub proof fn law_symbols_are_answered(
    docs: Map<Seq<char>, Doc>,
    analyzer: Analyzer,
    uri: String,
    reply: Reply,
    text: Seq<char>,
    checked: Checked,
) -> (at: Seq<int>)
    requires
        answers(docs, analyzer, Query::DocumentSymbol { uri }, reply),
    ensures
        reply is Symbols,
        is_unchecked(docs, uri@) ==> reply->Symbols_0@.len() == 0,
        is_open(docs, uri@, text, checked) ==> {
            let decls = checked.module.decls@;
            let symbols = reply->Symbols_0@;
            &&& in_places(at, decls.len() as int)
            &&& forall|i: int|
                0 <= i < decls.len() ==> (#[trigger] at.contains(i) <==> is_listed(decls[i].kind))
            &&& symbols.len() == at.len()
            &&& forall|k: int|
                0 <= k < at.len() ==> symbolises(symbols[k], decls[#[trigger] at[k]], text)
        },
{
    if is_open(docs, uri@, text, checked) {
        law_every_declaration_is_in_the_outline(
            text,
            checked.module.decls@,
            reply->Symbols_0@,
        )
    } else {
        if is_unchecked(docs, uri@) {
            let nothing = Seq::<Decl>::empty();
            let none = law_every_declaration_is_in_the_outline(text, nothing, reply->Symbols_0@);
            assert(nothing.len() == 0);
            if none.len() > 0 {
                assert(none[0] < nothing.len());
            }
        }
        Seq::empty()
    }
}

/// The hints that a request is answered with are for every `let` without its type written down
/// whose initialiser was given one: `at` lists which. A document that was never checked has none.
pub proof fn law_hints_are_answered(
    docs: Map<Seq<char>, Doc>,
    analyzer: Analyzer,
    uri: String,
    reply: Reply,
    text: Seq<char>,
    checked: Checked,
) -> (at: Seq<int>)
    requires
        answers(docs, analyzer, Query::InlayHint { uri }, reply),
    ensures
        reply is Hints,
        is_unchecked(docs, uri@) ==> reply->Hints_0@.len() == 0,
        is_open(docs, uri@, text, checked) ==> {
            let lets = checked.module.lets@;
            let hints = reply->Hints_0@;
            &&& in_places(at, lets.len() as int)
            &&& forall|i: int|
                0 <= i < lets.len() ==> (#[trigger] at.contains(i) <==> wants_hint(
                    checked,
                    lets[i],
                ))
            &&& hints.len() == at.len()
            &&& forall|k: int|
                0 <= k < at.len() ==> hints[k].0 == position_of(
                    text,
                    lets[#[trigger] at[k]].pattern.end as int,
                )
            &&& forall|k: int, t: int|
                0 <= k < at.len() && first_type(
                    checked.result.types@,
                    lets[#[trigger] at[k]].value,
                    t,
                ) ==> hints[k].1@ == ": "@ + (#[trigger] checked.result.types@[t]).1.text@
        },
{
    if is_open(docs, uri@, text, checked) {
        law_every_binding_without_a_type_is_hinted(checked, text, reply->Hints_0@)
    } else {
        if is_unchecked(docs, uri@) {
            let hints = reply->Hints_0@;
            assert(hint_texts(hints).len() == hints.len());
        }
        Seq::empty()
    }
}

/// The tokens that a request is answered with colour every name that resolved: `at` lists which.
/// A document that was never checked has none.
pub proof fn law_tokens_are_answered(
    docs: Map<Seq<char>, Doc>,
    analyzer: Analyzer,
    uri: String,
    reply: Reply,
    text: Seq<char>,
    checked: Checked,
) -> (at: Seq<int>)
    requires
        answers(docs, analyzer, Query::SemanticTokens { uri }, reply),
        query_fits(docs, analyzer, Query::SemanticTokens { uri }),
    ensures
        reply is Tokens,
        is_unchecked(docs, uri@) ==> reply->Tokens_0@.len() == 0,
        is_open(docs, uri@, text, checked) ==> {
            let exprs = checked.module.exprs@;
            let read = decoded(reply->Tokens_0@, Position { line: 0, character: 0 });
            &&& in_places(at, exprs.len() as int)
            &&& forall|i: int|
                0 <= i < exprs.len() ==> (#[trigger] at.contains(i) <==> is_coloured(
                    checked,
                    text,
                    exprs[i],
                ))
            &&& read.len() == at.len()
            &&& forall|i: int|
                0 <= i < exprs.len() && is_coloured(checked, text, #[trigger] exprs[i])
                    ==> exists|x: (Position, u32, u32)| #[trigger]
                    read.contains(x) && colours(x, checked, text, exprs[i])
        },
{
    if is_open(docs, uri@, text, checked) {
        law_every_resolved_name_is_coloured(checked, text, reply->Tokens_0@)
    } else {
        Seq::empty()
    }
}

/// The folds that a request is answered with are the lines of every declaration and every block
/// that takes several, in order and none twice. A document that was never checked has none.
pub proof fn law_folds_are_answered(
    docs: Map<Seq<char>, Doc>,
    analyzer: Analyzer,
    uri: String,
    reply: Reply,
    text: Seq<char>,
    checked: Checked,
)
    requires
        answers(docs, analyzer, Query::FoldingRange { uri }, reply),
    ensures
        reply is Folds,
        is_unchecked(docs, uri@) ==> reply->Folds_0@.len() == 0,
        is_open(docs, uri@, text, checked) ==> {
            let lines = reply->Folds_0@;
            let decls = checked.module.decls@;
            let blocks = checked.module.blocks@;
            &&& forall|first: u32, last: u32| #[trigger]
                lines.contains((first, last)) <==> first < last && ((exists|i: int|
                    0 <= i < decls.len() && position_of(
                        text,
                        (#[trigger] decls[i]).span.start as int,
                    ).line == first && position_of(text, decls[i].span.end as int).line == last)
                    || (exists|i: int|
                    0 <= i < blocks.len() && position_of(
                        text,
                        (#[trigger] blocks[i]).start as int,
                    ).line == first && position_of(text, blocks[i].end as int).line == last))
            &&& forall|i: int, j: int|
                0 <= i < j < lines.len() ==> ({
                    let (a, b) = (#[trigger] lines[i], #[trigger] lines[j]);
                    a.0 < b.0 || (a.0 == b.0 && a.1 < b.1)
                })
        },
{
    if is_open(docs, uri@, text, checked) {
        law_everything_of_several_lines_folds(checked, text, reply->Folds_0@);
    }
}

/// The answer for the `i`-th position of a selection request: a chain of everything that can be
/// selected and holds the position, the narrower first, and nothing but the position itself where
/// there is no such thing. `spans` are what the chain is made of.
pub proof fn law_a_selection_is_answered(
    docs: Map<Seq<char>, Doc>,
    analyzer: Analyzer,
    uri: String,
    positions: Vec<Position>,
    reply: Reply,
    text: Seq<char>,
    checked: Checked,
    i: int,
) -> (spans: Seq<Span>)
    requires
        answers(docs, analyzer, Query::SelectionRange { uri, positions }, reply),
        is_open(docs, uri@, text, checked),
        0 <= i < positions@.len(),
    ensures
        reply is Selections,
        reply->Selections_0@.len() == positions@.len(),
        ({
            let offset = offset_of(text, positions@[i]);
            let chain = links(reply->Selections_0@[i]);
            &&& forall|span: Span| #[trigger]
                spans.contains(span) <==> can_be_selected(checked, span) && span.start <= offset
                    && offset < span.end
            &&& forall|a: int, b: int|
                0 <= a < b < spans.len() ==> ({
                    let (x, y) = (#[trigger] spans[a], #[trigger] spans[b]);
                    ||| x.end - x.start < y.end - y.start
                    ||| (x.end - x.start == y.end - y.start && x.start < y.start)
                })
            &&& spans.len() == 0 ==> chain == seq![
                Range { start: positions@[i], end: positions@[i] },
            ]
            &&& spans.len() > 0 ==> chain.len() == spans.len() && forall|n: int|
                0 <= n < spans.len() ==> covers(#[trigger] chain[n], text, spans[n])
        }),
{
    let offset = offset_of(text, positions@[i]) as int;
    let spans = chain_at(checked, offset);
    law_everything_around_the_cursor_is_in_the_chain(checked, offset);
    let around = ranges_of(text, spans);
    let found = reply->Selections_0@;
    assert(found[i] == selected(checked, text, positions@[i]));
    if spans.len() > 0 {
        law_a_chain_links_its_ranges_in_order(around);
    } else {
        let empty = Range { start: positions@[i], end: positions@[i] };
        assert(links(found[i]) =~= seq![empty]);
    }
    spans
}

/// Formatting is answered with a single edit that replaces the whole text, from its beginning to
/// its end, with the formatted one; and with none where the document is not open, cannot be
/// formatted or is formatted already.
pub proof fn law_formatting_is_answered(
    docs: Map<Seq<char>, Doc>,
    analyzer: Analyzer,
    uri: String,
    formatted: Option<String>,
    reply: Reply,
)
    requires
        answers(docs, analyzer, Query::Formatting { uri, formatted }, reply),
    ensures
        reply is Edits,
        !docs.contains_key(uri@) || formatted is None ==> reply->Edits_0@.len() == 0,
        docs.contains_key(uri@) && (formatted matches Some(f) && f@ == docs[uri@].index@)
            ==> reply->Edits_0@.len() == 0,
        docs.contains_key(uri@) && (formatted matches Some(f) && f@ != docs[uri@].index@) ==> {
            let edits = reply->Edits_0@;
            let text = docs[uri@].index@;
            &&& edits.len() == 1
            &&& edits[0].new_text@ == formatted->0@
            &&& edits[0].range.start == (Position { line: 0, character: 0 })
            &&& edits[0].range.end == position_of(text, byte_len(text) as int)
        },
{
    let edits = reply->Edits_0@;
    let told = edit_views(edits);
    assert(told.len() == edits.len());
    if docs.contains_key(uri@) {
        let want = formatting(docs[uri@].index@, formatted);
        assert(told == want);
        if want.len() == 1 {
            assert(told[0] == want[0]);
        }
    }
}

/// A request that the server does not know is answered with an error that names it.
pub proof fn law_an_unknown_request_is_refused(
    docs: Map<Seq<char>, Doc>,
    analyzer: Analyzer,
    method: String,
    reply: Reply,
)
    requires
        answers(docs, analyzer, Query::Unknown { method }, reply),
    ensures
        reply matches Reply::Failed(e) && e.code == METHOD_NOT_FOUND && e.message@
            == "unhandled request: "@ + method@,
{
}

/// Whether every span of a check is one of a text: as in the text that was checked.
pub open spec fn is_of_text(checked: Checked, text: Seq<char>) -> bool {
    &&& forall|i: int|
        0 <= i < checked.module.exprs@.len() ==> span_fits(
            text,
            (#[trigger] checked.module.exprs@[i]).span,
        )
    &&& forall|i: int|
        0 <= i < checked.module.patterns@.len() ==> span_fits(
            text,
            #[trigger] checked.module.patterns@[i],
        )
    &&& forall|i: int|
        0 <= i < checked.module.blocks@.len() ==> span_fits(
            text,
            #[trigger] checked.module.blocks@[i],
        )
    &&& forall|i: int|
        0 <= i < checked.module.decls@.len() ==> span_fits(
            text,
            (#[trigger] checked.module.decls@[i]).span,
        )
    &&& forall|i: int|
        0 <= i < checked.module.lets@.len() ==> span_fits(
            text,
            (#[trigger] checked.module.lets@[i]).pattern,
        )
    &&& forall|i: int|
        0 <= i < checked.result.defs@.len() ==> span_fits(
            text,
            (#[trigger] checked.result.defs@[i]).1.span,
        )
}

/// A check of the text as it is now can answer every request that points into the document:
/// nothing is refused but for what other files do. A document that is not open, or was never
/// checked, never refuses one.
pub proof fn law_a_check_of_this_text_can_answer(
    docs: Map<Seq<char>, Doc>,
    analyzer: Analyzer,
    uri: String,
    pos: Position,
    innermost: Option<Node>,
    new_name: String,
    positions: Vec<Position>,
    lexed: Option<Vec<Trivia>>,
    formatted: Option<String>,
    text: Seq<char>,
    checked: Checked,
)
    requires
        is_unchecked(docs, uri@) || (is_open(docs, uri@, text, checked) && is_of_text(
            checked,
            text,
        )),
    ensures
        query_fits(docs, analyzer, Query::References { uri, pos, innermost }),
        query_fits(docs, analyzer, Query::Rename { uri, pos, innermost, new_name }),
        query_fits(docs, analyzer, Query::FoldingRange { uri }),
        query_fits(docs, analyzer, Query::SelectionRange { uri, positions }),
        query_fits(docs, analyzer, Query::InlayHint { uri }),
        query_fits(docs, analyzer, Query::SignatureHelp { uri, pos }),
        query_fits(docs, analyzer, Query::Completion { uri, pos, lexed }),
        query_fits(docs, analyzer, Query::Formatting { uri, formatted }),
        is_unchecked(docs, uri@) ==> {
            &&& query_fits(docs, analyzer, Query::Hover { uri, pos, innermost, lexed })
            &&& query_fits(docs, analyzer, Query::Definition { uri, innermost })
            &&& query_fits(docs, analyzer, Query::DocumentSymbol { uri })
            &&& query_fits(docs, analyzer, Query::SemanticTokens { uri })
        },
{
    if is_open(docs, uri@, text, checked) {
        law_references_in_a_text_that_fits_can_be_shown(
            checked,
            analyzer,
            text,
            innermost,
            offset_of(text, pos) as int,
        );
        let spans = foldable(checked);
        let decls = checked.module.decls@;
        assert forall|i: int| 0 <= i < spans.len() implies span_fits(text, #[trigger] spans[i]) by {
            if i < decls.len() {
                assert(spans[i] == decls[i].span);
            } else {
                assert(spans[i] == checked.module.blocks@[i - decls.len()]);
            }
        }
        assert forall|i: int| 0 <= i < positions@.len() implies spans_fit(
            text,
            chain_at(checked, offset_of(text, #[trigger] positions@[i]) as int),
        ) by {
            let offset = offset_of(text, positions@[i]) as int;
            let chain = chain_at(checked, offset);
            law_everything_around_the_cursor_is_in_the_chain(checked, offset);
            assert forall|n: int| 0 <= n < chain.len() implies span_fits(
                text,
                #[trigger] chain[n],
            ) by {
                assert(chain.contains(chain[n]));
                assert(can_be_selected(checked, chain[n]));
            }
        }
        lemma_hints_fit(checked, text, checked.module.lets@.len() as int);
        assert(checked.module.lets@.take(checked.module.lets@.len() as int)
            =~= checked.module.lets@);
    }
}

proof fn lemma_hints_fit(checked: Checked, text: Seq<char>, n: int)
    requires
        is_of_text(checked, text),
        0 <= n <= checked.module.lets@.len(),
    ensures
        hints_fit(text, hints_for(checked, checked.module.lets@.take(n))),
    decreases n,
{
    if n > 0 {
        let lets = checked.module.lets@;
        assert(lets.take(n).drop_last() =~= lets.take(n - 1));
        assert(lets.take(n).last() == lets[n - 1]);
        assert(span_fits(text, lets[n - 1].pattern));
        lemma_hints_fit(checked, text, n - 1);
    }
}

/// A hover can be answered, and a definition gone to, where the expression under the cursor is a
/// span of the text, what it names is one of the text it is in, with documentation that can be
/// looked for, and the URL of that file is short enough to parse.
pub proof fn law_a_name_of_this_text_can_be_asked_about(
    docs: Map<Seq<char>, Doc>,
    analyzer: Analyzer,
    uri: String,
    pos: Position,
    node: Node,
    lexed: Option<Vec<Trivia>>,
    text: Seq<char>,
    checked: Checked,
    k: int,
)
    requires
        is_open(docs, uri@, text, checked),
        span_fits(text, node.span),
        no_def(checked.result.defs@, node.id) || (first_def(checked.result.defs@, node.id, k) && {
            let span = checked.result.defs@[k].1.span;
            match checked.holder(analyzer, texts(checked.result.defs@[k].1.module@)) {
                None => span_fits(text, span) && (lexed matches Some(trivia) ==> doc_fits(
                    text,
                    trivia@,
                    span.start as int,
                )),
                Some(src) => span_fits(src.index@, span) && doc_fits(
                    src.index@,
                    src.trivia@,
                    span.start as int,
                ) && (file_url_text(src.path@) matches Some(url) ==> byte_len(url) <= URI_LIMIT),
            }
        }),
    ensures
        query_fits(docs, analyzer, Query::Hover { uri, pos, innermost: Some(node), lexed }),
        query_fits(docs, analyzer, Query::Definition { uri, innermost: Some(node) }),
{
    law_a_listed_definition_is_found(checked.result, node.id);
}

} // verus!
