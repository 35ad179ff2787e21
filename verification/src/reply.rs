//! Answering a request.
//!
//! A request that has nothing to say is answered with nothing rather than with an error: the
//! cursor spends most of its life on white space, and an editor that got an error for it would
//! log a failure every time the mouse moved.

use crate::analysis::{Analyzer, Checked};
use crate::completion::{completions, completions_of, offered, CompletionItem};
use crate::docs::comments;
use crate::documents::{Doc, Documents};
use crate::folding::{can_fold, foldable, folding_ranges, folds, pairs};
use crate::hints::{can_hint, hint_texts, hints_fit, hints_for, inlay_hints, shown_hints};
use crate::jump::{can_define, definition, definition_fits, definition_of, Location};
use crate::navigation::{
    can_hover, can_refer, can_rename, hover, hover_fits, hover_of, reference_spans, references,
    rename, rename_spans,
};
use crate::outline::{all_seen, can_outline, document_symbols, outline, outline_fits, Symbol};
use crate::position::{offset_of, position_of, LineIndex, Position, Range};
use crate::ranges::{range_of, ranges_of, spans_fit};
use crate::selection::{can_select, chain_at, selection_range};
use crate::signatures::{argument_at, called_at, signature_help, SignatureHelp};
use crate::sort::listing;
use crate::syntax::{Node, Trivia};
use crate::text::same_text;
use crate::tokens::{
    can_colour, encoded, origin, semantic_tokens, tokens_fit, tokens_of, SemanticToken,
};
use crate::utf::{byte_len, lemma_whole_is_boundary};
use vstd::prelude::*;

verus! {

/// A text to put in the place of a range.
#[derive(Debug)]
pub struct TextEdit {
    pub range: Range,
    pub new_text: String,
}

/// What edits say.
pub open spec fn edit_views(edits: Seq<TextEdit>) -> Seq<(Range, Seq<char>)> {
    Seq::new(edits.len(), |i: int| (edits[i].range, edits[i].new_text@))
}

/// A range, and the one that contains it.
#[derive(Debug)]
pub struct SelectionRange {
    pub range: Range,
    pub parent: Option<Box<SelectionRange>>,
}

/// Ranges as a chain, each linked to the next.
pub open spec fn linked(ranges: Seq<Range>) -> SelectionRange
    decreases ranges.len(),
{
    if ranges.len() <= 1 {
        SelectionRange { range: ranges[0], parent: None }
    } else {
        SelectionRange {
            range: ranges[0],
            parent: Some(Box::new(linked(ranges.drop_first()))),
        }
    }
}

/// Nested containing ranges, innermost first, as the linked list the protocol wants.
///
/// Built back to front because each link owns its parent.
pub fn chain(ranges: &[Range]) -> (link: Option<SelectionRange>)
    ensures
        link is Some <==> ranges@.len() > 0,
        link matches Some(l) ==> l == linked(ranges@),
{
    let n: usize = ranges.len();
    if n == 0 {
        return None;
    }
    let mut i: usize = n - 1;
    let mut node: SelectionRange = SelectionRange { range: ranges[i], parent: None };
    while i > 0
        invariant
            n == ranges@.len(),
            i < n,
            node == linked(ranges@.skip(i as int)),
        decreases i,
    {
        i = i - 1;
        proof {
            assert(ranges@.skip(i as int).drop_first() =~= ranges@.skip(i + 1));
        }
        node = SelectionRange { range: ranges[i], parent: Some(Box::new(node)) };
    }
    proof {
        assert(ranges@.skip(0) =~= ranges@);
    }
    Some(node)
}

/// The links of a chain, from the first.
pub open spec fn links(link: SelectionRange) -> Seq<Range>
    decreases link,
{
    seq![link.range] + (match link.parent {
        Some(parent) => links(*parent),
        None => Seq::empty(),
    })
}

/// Following a chain from its first link meets exactly the ranges it was made of, in order.
pub proof fn law_a_chain_links_its_ranges_in_order(ranges: Seq<Range>)
    requires
        ranges.len() > 0,
    ensures
        links(linked(ranges)) == ranges,
    decreases ranges.len(),
{
    if ranges.len() > 1 {
        law_a_chain_links_its_ranges_in_order(ranges.drop_first());
        assert(seq![ranges[0]] + ranges.drop_first() =~= ranges);
    } else {
        assert(links(linked(ranges)) =~= ranges);
    }
}

/// The edits that format a text: none where it is formatted already or cannot be; else one that
/// replaces everything.
pub open spec fn formatting(text: Seq<char>, formatted: Option<String>) -> Seq<(Range, Seq<char>)> {
    match formatted {
        Some(f) => if f@ == text {
            Seq::empty()
        } else {
            seq![
                (
                    Range {
                        start: Position { line: 0, character: 0 },
                        end: position_of(text, byte_len(text) as int),
                    },
                    f@,
                ),
            ]
        },
        None => Seq::empty(),
    }
}

/// Format a whole document, as one edit replacing everything.
///
/// A file that does not parse is left alone: the formatter reprints from the tree, so there is
/// nothing to reprint. Failing loudly here would mean an error popup on every format-on-save
/// while a line is half-written. `formatted` is what the formatter made of the text.
pub fn format_document(index: &LineIndex, formatted: Option<String>) -> (edits: Vec<TextEdit>)
    ensures
        edit_views(edits@) == formatting(index@, formatted),
{
    let mut edits: Vec<TextEdit> = Vec::new();
    let ghost want = formatting(index@, formatted);
    if let Some(new_text) = formatted {
        if !same_text(new_text.as_str(), index.text()) {
            proof {
                lemma_whole_is_boundary(index@);
            }
            let end: Position = index.position(index.text().as_bytes().len());
            let start: Position = Position { line: 0, character: 0 };
            edits.push(TextEdit { range: Range { start, end }, new_text });
        }
    }
    proof {
        assert(edit_views(edits@) =~= want);
    }
    edits
}

/// A request, with what the compiler found out for it: the innermost expression at a place, the
/// comments of the document, the document formatted.
#[allow(inconsistent_fields)]
pub enum Query {
    Formatting { uri: String, formatted: Option<String> },
    Hover { uri: String, pos: Position, innermost: Option<Node>, lexed: Option<Vec<Trivia>> },
    Definition { uri: String, innermost: Option<Node> },
    References { uri: String, pos: Position, innermost: Option<Node> },
    Rename { uri: String, pos: Position, innermost: Option<Node>, new_name: String },
    Completion { uri: String, pos: Position, lexed: Option<Vec<Trivia>> },
    SignatureHelp { uri: String, pos: Position },
    DocumentSymbol { uri: String },
    InlayHint { uri: String },
    SemanticTokens { uri: String },
    FoldingRange { uri: String },
    SelectionRange { uri: String, positions: Vec<Position> },
    Unknown { method: String },
}

/// An error that a request is answered with.
#[derive(Debug)]
pub struct ResponseError {
    pub code: i32,
    pub message: String,
}

/// The code of an error: the request is not one that this server answers.
pub const METHOD_NOT_FOUND: i32 = -32601;

/// The code of an error: the request cannot be carried out.
pub const INVALID_REQUEST: i32 = -32600;

/// The code of an error: the request's parameters are not what it takes.
pub const INVALID_PARAMS: i32 = -32602;

/// The answer to a request.
#[derive(Debug)]
pub enum Reply {
    /// There is nothing to say.
    Null,
    Edits(Vec<TextEdit>),
    Hover { text: String, range: Range },
    Definition(Location),
    References(Vec<Location>),
    /// The edits to one document.
    Rename { uri: String, edits: Vec<TextEdit> },
    Completions(Vec<CompletionItem>),
    SignatureHelp(SignatureHelp),
    Symbols(Vec<Symbol>),
    Hints(Vec<(Position, String)>),
    Tokens(Vec<SemanticToken>),
    Folds(Vec<(u32, u32)>),
    Selections(Vec<SelectionRange>),
    Failed(ResponseError),
}

/// Why the parameters of a request could not be read.
#[derive(Debug)]
pub enum Miscast {
    /// It is another request.
    Method,
    /// They are not what it takes.
    Params { method: String, error: String },
}

/// What a request is answered whose parameters could not be read.
pub fn cast_error(miscast: Miscast) -> (error: ResponseError)
    ensures
        match miscast {
            Miscast::Method => error.code == METHOD_NOT_FOUND && error.message@
                == "method mismatch"@,
            Miscast::Params { method, error: why } => error.code == INVALID_PARAMS
                && error.message@ == "bad params for "@ + method@ + ": "@ + why@,
        },
{
    match miscast {
        Miscast::Method => ResponseError {
            code: METHOD_NOT_FOUND,
            message: "method mismatch".to_owned(),
        },
        Miscast::Params { method, error } => {
            let mut message: String = "bad params for ".to_owned();
            message.append(method.as_str());
            message.append(": ");
            message.append(error.as_str());
            ResponseError { code: INVALID_PARAMS, message }
        },
    }
}

/// The most recent check of a document that is open, where there is one.
pub open spec fn check_of(docs: Map<Seq<char>, Doc>, uri: Seq<char>) -> Option<Checked> {
    if docs.contains_key(uri) {
        docs[uri].checked
    } else {
        None
    }
}

/// The text of a document that is open.
pub open spec fn text_at(docs: Map<Seq<char>, Doc>, uri: Seq<char>) -> Seq<char> {
    docs[uri].index@
}

/// Whether the places are ranges of one document.
pub open spec fn all_in(locations: Seq<Location>, uri: Seq<char>, ranges: Seq<Range>) -> bool {
    &&& locations.len() == ranges.len()
    &&& forall|i: int|
        0 <= i < ranges.len() ==> (#[trigger] locations[i]).uri@ == uri && locations[i].range
            == ranges[i]
}

/// The same text in the place of each range.
pub open spec fn replacements(ranges: Seq<Range>, new_text: Seq<char>) -> Seq<(Range, Seq<char>)> {
    Seq::new(ranges.len(), |i: int| (ranges[i], new_text))
}

/// What is selected around a position: the chain of ranges around it, or nothing but the position
/// itself where there is none.
pub open spec fn selected(checked: Checked, text: Seq<char>, pos: Position) -> SelectionRange {
    let around = ranges_of(text, chain_at(checked, offset_of(text, pos) as int));
    if around.len() == 0 {
        SelectionRange { range: Range { start: pos, end: pos }, parent: None }
    } else {
        linked(around)
    }
}

/// What is selected around each position, in order.
pub open spec fn chains(checked: Checked, text: Seq<char>, positions: Seq<Position>) -> Seq<
    SelectionRange,
> {
    Seq::new(positions.len(), |i: int| selected(checked, text, positions[i]))
}

/// Whether a reply is an error.
pub open spec fn fails(reply: Reply, code: i32, message: Seq<char>) -> bool {
    reply matches Reply::Failed(e) && e.code == code && e.message@ == message
}

/// Whether a reply answers a request.
pub open spec fn answers(
    docs: Map<Seq<char>, Doc>,
    analyzer: Analyzer,
    query: Query,
    reply: Reply,
) -> bool {
    match query {
        Query::Formatting { uri, formatted } => reply matches Reply::Edits(edits) && edit_views(
            edits@,
        ) == (if docs.contains_key(uri@) {
            formatting(text_at(docs, uri@), formatted)
        } else {
            Seq::empty()
        }),
        Query::Hover { uri, pos, innermost, lexed } => match check_of(docs, uri@) {
            Some(checked) => match hover_of(
                checked,
                analyzer,
                text_at(docs, uri@),
                comments(lexed),
                innermost,
                offset_of(text_at(docs, uri@), pos) as int,
            ) {
                Some((want, span)) => reply matches Reply::Hover { text, range } && text@ == want
                    && range == range_of(text_at(docs, uri@), span),
                None => reply is Null,
            },
            None => reply is Null,
        },
        Query::Definition { uri, innermost } => match check_of(docs, uri@) {
            Some(checked) => match definition_of(
                checked,
                analyzer,
                text_at(docs, uri@),
                uri@,
                innermost,
            ) {
                Some(want) => reply matches Reply::Definition(location) && location@ == want,
                None => reply is Null,
            },
            None => reply is Null,
        },
        Query::References { uri, pos, innermost } => match check_of(docs, uri@) {
            Some(checked) => reply matches Reply::References(locations) && all_in(
                locations@,
                uri@,
                ranges_of(
                    text_at(docs, uri@),
                    reference_spans(
                        checked,
                        analyzer,
                        innermost,
                        offset_of(text_at(docs, uri@), pos) as int,
                    ),
                ),
            ),
            None => reply is Null,
        },
        Query::Rename { uri, pos, innermost, new_name } => match rename_at(
            docs,
            analyzer,
            uri@,
            pos,
            innermost,
        ) {
            Some(ranges) => reply matches Reply::Rename { uri: target, edits } && target@ == uri@
                && edit_views(edits@) == replacements(ranges, new_name@),
            None => fails(
                reply,
                INVALID_REQUEST,
                "this name cannot be renamed from here: it is not defined in this file"@,
            ),
        },
        Query::Completion { uri, pos, lexed } => match check_of(docs, uri@) {
            Some(checked) => reply matches Reply::Completions(items) && offered(items@)
                == completions_of(
                checked,
                analyzer,
                text_at(docs, uri@),
                comments(lexed),
                offset_of(text_at(docs, uri@), pos) as int,
            ),
            None => reply is Null,
        },
        Query::SignatureHelp { uri, pos } => match check_of(docs, uri@) {
            Some(checked) => {
                let offset = offset_of(text_at(docs, uri@), pos) as int;
                match called_at(checked, offset) {
                    Some(sig) => reply matches Reply::SignatureHelp(help) && help.describes(
                        sig,
                        argument_at(checked, offset),
                    ),
                    None => reply is Null,
                }
            },
            None => reply is Null,
        },
        Query::DocumentSymbol { uri } => reply matches Reply::Symbols(symbols) && all_seen(
            symbols@,
        ) == (match check_of(docs, uri@) {
            Some(checked) => outline(text_at(docs, uri@), checked.module.decls@),
            None => Seq::empty(),
        }),
        Query::InlayHint { uri } => reply matches Reply::Hints(hints) && hint_texts(hints@) == (
        match check_of(docs, uri@) {
            Some(checked) => shown_hints(
                text_at(docs, uri@),
                hints_for(checked, checked.module.lets@),
            ),
            None => Seq::empty(),
        }),
        Query::SemanticTokens { uri } => reply matches Reply::Tokens(tokens) && tokens@ == (
        match check_of(docs, uri@) {
            Some(checked) => encoded(text_at(docs, uri@), tokens_of(checked), origin()),
            None => Seq::empty(),
        }),
        Query::FoldingRange { uri } => reply matches Reply::Folds(lines) && lines@ == (
        match check_of(docs, uri@) {
            Some(checked) => pairs(
                listing(folds(text_at(docs, uri@), foldable(checked))),
            ),
            None => Seq::empty(),
        }),
        Query::SelectionRange { uri, positions } => match check_of(docs, uri@) {
            Some(checked) => reply matches Reply::Selections(found) && found@ == chains(
                checked,
                text_at(docs, uri@),
                positions@,
            ),
            None => reply is Null,
        },
        Query::Unknown { method } => fails(
            reply,
            METHOD_NOT_FOUND,
            "unhandled request: "@ + method@,
        ),
    }
}

/// What a rename edits, where one is possible.
pub open spec fn rename_at(
    docs: Map<Seq<char>, Doc>,
    analyzer: Analyzer,
    uri: Seq<char>,
    pos: Position,
    innermost: Option<Node>,
) -> Option<Seq<Range>> {
    match check_of(docs, uri) {
        Some(checked) => match rename_spans(
            checked,
            analyzer,
            innermost,
            offset_of(text_at(docs, uri), pos) as int,
        ) {
            Some(spans) => Some(ranges_of(text_at(docs, uri), spans)),
            None => None,
        },
        None => None,
    }
}

/// Whether a request can be answered: what it is answered with is in the texts as they are now.
pub open spec fn query_fits(
    docs: Map<Seq<char>, Doc>,
    analyzer: Analyzer,
    query: Query,
) -> bool {
    match query {
        Query::Hover { uri, pos, innermost, lexed } => check_of(docs, uri@) matches Some(
            checked,
        ) ==> hover_fits(
            checked,
            analyzer,
            text_at(docs, uri@),
            comments(lexed),
            innermost,
            offset_of(text_at(docs, uri@), pos) as int,
        ),
        Query::Definition { uri, innermost } => check_of(docs, uri@) matches Some(checked)
            ==> definition_fits(checked, analyzer, text_at(docs, uri@), innermost),
        Query::References { uri, pos, innermost } => check_of(docs, uri@) matches Some(checked)
            ==> spans_fit(
            text_at(docs, uri@),
            reference_spans(
                checked,
                analyzer,
                innermost,
                offset_of(text_at(docs, uri@), pos) as int,
            ),
        ),
        Query::Rename { uri, pos, innermost, new_name } => check_of(docs, uri@) matches Some(
            checked,
        ) ==> (rename_spans(
            checked,
            analyzer,
            innermost,
            offset_of(text_at(docs, uri@), pos) as int,
        ) matches Some(spans) ==> spans_fit(text_at(docs, uri@), spans)),
        Query::DocumentSymbol { uri } => check_of(docs, uri@) matches Some(checked)
            ==> outline_fits(text_at(docs, uri@), checked.module.decls@),
        Query::InlayHint { uri } => check_of(docs, uri@) matches Some(checked) ==> hints_fit(
            text_at(docs, uri@),
            hints_for(checked, checked.module.lets@),
        ),
        Query::SemanticTokens { uri } => check_of(docs, uri@) matches Some(checked) ==> tokens_fit(
            text_at(docs, uri@),
            tokens_of(checked),
            origin(),
        ),
        Query::FoldingRange { uri } => check_of(docs, uri@) matches Some(checked) ==> spans_fit(
            text_at(docs, uri@),
            foldable(checked),
        ),
        Query::SelectionRange { uri, positions } => check_of(docs, uri@) matches Some(checked)
            ==> forall|i: int|
            0 <= i < positions@.len() ==> spans_fit(
                text_at(docs, uri@),
                chain_at(
                    checked,
                    offset_of(text_at(docs, uri@), #[trigger] positions@[i]) as int,
                ),
            ),
        _ => true,
    }
}

/// The most recent check of a document that is open, with the document.
fn checked_doc<'a>(docs: &'a Documents, uri: &str) -> (found: Option<(&'a Checked, &'a LineIndex)>)
    ensures
        found is Some <==> check_of(docs@, uri@) is Some,
        found matches Some((checked, index)) ==> check_of(docs@, uri@) == Some(*checked)
            && docs@[uri@].index == *index,
{
    match docs.get(uri) {
        Some(doc) => match &doc.checked {
            Some(checked) => Some((checked, &doc.index)),
            None => None,
        },
        None => None,
    }
}

/// Ranges as places in one document.
fn locations(uri: &str, ranges: &[Range]) -> (out: Vec<Location>)
    ensures
        all_in(out@, uri@, ranges@),
{
    let mut out: Vec<Location> = Vec::new();
    let n: usize = ranges.len();
    let mut i: usize = 0;
    while i < n
        invariant
            n == ranges@.len(),
            i <= n,
            out@.len() == i,
            forall|j: int|
                0 <= j < i ==> (#[trigger] out@[j]).uri@ == uri@ && out@[j].range == ranges@[j],
        decreases n - i,
    {
        out.push(Location { uri: uri.to_owned(), range: ranges[i] });
        i = i + 1;
    }
    out
}

/// The same text in the place of each range.
fn replace_all(ranges: &[Range], new_text: &str) -> (edits: Vec<TextEdit>)
    ensures
        edit_views(edits@) == replacements(ranges@, new_text@),
{
    let mut edits: Vec<TextEdit> = Vec::new();
    let n: usize = ranges.len();
    let mut i: usize = 0;
    while i < n
        invariant
            n == ranges@.len(),
            i <= n,
            edit_views(edits@) =~= replacements(ranges@, new_text@).take(i as int),
        decreases n - i,
    {
        let ghost before = edits@;
        edits.push(TextEdit { range: ranges[i], new_text: new_text.to_owned() });
        proof {
            assert(edit_views(edits@) =~= edit_views(before).push((ranges@[i as int], new_text@)));
        }
        i = i + 1;
    }
    edits
}

/// What is selected around each position, in order: the client pairs answers with positions by
/// where they stand, so every position has one.
fn selections(checked: &Checked, index: &LineIndex, positions: &[Position]) -> (found: Vec<
    SelectionRange,
>)
    requires
        forall|i: int|
            0 <= i < positions@.len() ==> spans_fit(
                index@,
                chain_at(*checked, offset_of(index@, #[trigger] positions@[i]) as int),
            ),
    ensures
        found@ == chains(*checked, index@, positions@),
{
    let mut found: Vec<SelectionRange> = Vec::new();
    let n: usize = positions.len();
    let mut i: usize = 0;
    while i < n
        invariant
            n == positions@.len(),
            i <= n,
            forall|i: int|
                0 <= i < positions@.len() ==> spans_fit(
                    index@,
                    chain_at(*checked, offset_of(index@, #[trigger] positions@[i]) as int),
                ),
            found@ =~= chains(*checked, index@, positions@).take(i as int),
        decreases n - i,
    {
        let pos: Position = positions[i];
        let link: SelectionRange = match chain(&selection_range(checked, index, pos)) {
            Some(link) => link,
            None => SelectionRange { range: Range { start: pos, end: pos }, parent: None },
        };
        found.push(link);
        i = i + 1;
    }
    found
}

/// An error as a reply.
fn failed(code: i32, message: String) -> (reply: Reply)
    ensures
        fails(reply, code, message@),
{
    Reply::Failed(ResponseError { code, message })
}

/// Rename answers "no" with an error, not with an empty edit: an empty edit tells the editor
/// that the rename succeeded and changed nothing, so the user sees their symbol keep its old
/// name with no explanation.
fn answer_rename(
    docs: &Documents,
    analyzer: &Analyzer,
    uri: String,
    pos: Position,
    innermost: Option<Node>,
    new_name: String,
) -> (reply: Reply)
    requires
        query_fits(docs@, *analyzer, Query::Rename { uri, pos, innermost, new_name }),
    ensures
        answers(docs@, *analyzer, Query::Rename { uri, pos, innermost, new_name }, reply),
{
    let ranges: Option<Vec<Range>> = match checked_doc(docs, uri.as_str()) {
        Some((checked, index)) => rename(analyzer, checked, index, innermost, pos),
        None => None,
    };
    match ranges {
        Some(ranges) => {
            let edits: Vec<TextEdit> = replace_all(&ranges, new_name.as_str());
            Reply::Rename { uri, edits }
        },
        None => failed(
            INVALID_REQUEST,
            "this name cannot be renamed from here: it is not defined in this file".to_owned(),
        ),
    }
}

/// Answer one request.
pub fn handle_request(docs: &Documents, analyzer: &Analyzer, query: Query) -> (reply: Reply)
    requires
        query_fits(docs@, *analyzer, query),
    ensures
        answers(docs@, *analyzer, query, reply),
{
    match query {
        Query::Formatting { uri, formatted } => match docs.get(uri.as_str()) {
            Some(doc) => Reply::Edits(format_document(&doc.index, formatted)),
            None => {
                let none: Vec<TextEdit> = Vec::new();
                proof {
                    assert(edit_views(none@) =~= Seq::<(Range, Seq<char>)>::empty());
                }
                Reply::Edits(none)
            },
        },
        Query::Hover { uri, pos, innermost, lexed } => match checked_doc(docs, uri.as_str()) {
            Some((checked, index)) => match hover(
                analyzer,
                checked,
                index,
                &lexed,
                innermost,
                pos,
            ) {
                Some((text, range)) => Reply::Hover { text, range },
                None => Reply::Null,
            },
            None => Reply::Null,
        },
        Query::Definition { uri, innermost } => match checked_doc(docs, uri.as_str()) {
            Some((checked, index)) => match definition(
                analyzer,
                checked,
                index,
                uri.as_str(),
                innermost,
            ) {
                Some(location) => Reply::Definition(location),
                None => Reply::Null,
            },
            None => Reply::Null,
        },
        Query::References { uri, pos, innermost } => match checked_doc(docs, uri.as_str()) {
            Some((checked, index)) => {
                let found: Vec<Range> = references(analyzer, checked, index, innermost, pos);
                Reply::References(locations(uri.as_str(), &found))
            },
            None => Reply::Null,
        },
        Query::Rename { uri, pos, innermost, new_name } => answer_rename(
            docs,
            analyzer,
            uri,
            pos,
            innermost,
            new_name,
        ),
        Query::Completion { uri, pos, lexed } => match checked_doc(docs, uri.as_str()) {
            Some((checked, index)) => Reply::Completions(
                completions(analyzer, checked, index, &lexed, pos),
            ),
            None => Reply::Null,
        },
        Query::SignatureHelp { uri, pos } => match checked_doc(docs, uri.as_str()) {
            Some((checked, index)) => match signature_help(checked, index, pos) {
                Some(help) => Reply::SignatureHelp(help),
                None => Reply::Null,
            },
            None => Reply::Null,
        },
        Query::DocumentSymbol { uri } => match checked_doc(docs, uri.as_str()) {
            Some((checked, index)) => Reply::Symbols(document_symbols(checked, index)),
            None => Reply::Symbols(Vec::new()),
        },
        Query::InlayHint { uri } => match checked_doc(docs, uri.as_str()) {
            Some((checked, index)) => Reply::Hints(inlay_hints(checked, index)),
            None => {
                let none: Vec<(Position, String)> = Vec::new();
                proof {
                    assert(hint_texts(none@) =~= Seq::<(Position, Seq<char>)>::empty());
                }
                Reply::Hints(none)
            },
        },
        Query::SemanticTokens { uri } => match checked_doc(docs, uri.as_str()) {
            Some((checked, index)) => Reply::Tokens(semantic_tokens(checked, index)),
            None => Reply::Tokens(Vec::new()),
        },
        Query::FoldingRange { uri } => match checked_doc(docs, uri.as_str()) {
            Some((checked, index)) => Reply::Folds(folding_ranges(checked, index)),
            None => Reply::Folds(Vec::new()),
        },
        Query::SelectionRange { uri, positions } => match checked_doc(docs, uri.as_str()) {
            Some((checked, index)) => Reply::Selections(selections(checked, index, &positions)),
            None => Reply::Null,
        },
        Query::Unknown { method } => {
            let mut message: String = "unhandled request: ".to_owned();
            message.append(method.as_str());
            failed(METHOD_NOT_FOUND, message)
        },
    }
}

/// Whether every chain of ranges around some positions can be shown.
fn can_select_all(checked: &Checked, index: &LineIndex, positions: &[Position]) -> (yes: bool)
    ensures
        yes == (forall|i: int|
            0 <= i < positions@.len() ==> spans_fit(
                index@,
                chain_at(*checked, offset_of(index@, #[trigger] positions@[i]) as int),
            )),
{
    let n: usize = positions.len();
    let mut i: usize = 0;
    while i < n
        invariant
            n == positions@.len(),
            i <= n,
            forall|j: int|
                0 <= j < i ==> spans_fit(
                    index@,
                    chain_at(*checked, offset_of(index@, #[trigger] positions@[j]) as int),
                ),
        decreases n - i,
    {
        if !can_select(checked, index, positions[i]) {
            proof {
                assert(!spans_fit(
                    index@,
                    chain_at(*checked, offset_of(index@, positions@[i as int]) as int),
                ));
            }
            return false;
        }
        i = i + 1;
    }
    true
}

/// Whether a request can be answered.
pub fn can_answer(docs: &Documents, analyzer: &Analyzer, query: &Query) -> (yes: bool)
    ensures
        yes == query_fits(docs@, *analyzer, *query),
{
    match query {
        Query::Formatting { uri: _, formatted: _ } => true,
        Query::Hover { uri, pos, innermost, lexed } => match checked_doc(docs, uri.as_str()) {
            Some((checked, index)) => can_hover(
                analyzer,
                checked,
                index,
                lexed,
                *innermost,
                *pos,
            ),
            None => true,
        },
        Query::Definition { uri, innermost } => match checked_doc(docs, uri.as_str()) {
            Some((checked, index)) => can_define(analyzer, checked, index, *innermost),
            None => true,
        },
        Query::References { uri, pos, innermost } => match checked_doc(docs, uri.as_str()) {
            Some((checked, index)) => can_refer(analyzer, checked, index, *innermost, *pos),
            None => true,
        },
        Query::Rename { uri, pos, innermost, new_name: _ } => match checked_doc(
            docs,
            uri.as_str(),
        ) {
            Some((checked, index)) => can_rename(analyzer, checked, index, *innermost, *pos),
            None => true,
        },
        Query::Completion { uri: _, pos: _, lexed: _ } => true,
        Query::SignatureHelp { uri: _, pos: _ } => true,
        Query::DocumentSymbol { uri } => match checked_doc(docs, uri.as_str()) {
            Some((checked, index)) => can_outline(&checked.module.decls, index),
            None => true,
        },
        Query::InlayHint { uri } => match checked_doc(docs, uri.as_str()) {
            Some((checked, index)) => can_hint(checked, index),
            None => true,
        },
        Query::SemanticTokens { uri } => match checked_doc(docs, uri.as_str()) {
            Some((checked, index)) => can_colour(checked, index),
            None => true,
        },
        Query::FoldingRange { uri } => match checked_doc(docs, uri.as_str()) {
            Some((checked, index)) => can_fold(checked, index),
            None => true,
        },
        Query::SelectionRange { uri, positions } => match checked_doc(docs, uri.as_str()) {
            Some((checked, index)) => can_select_all(checked, index, positions),
            None => true,
        },
        Query::Unknown { method: _ } => true,
    }
}

/// Answer one request; `None` where it cannot be, because the document has changed since it was
/// checked and a span of the check now falls inside a character, or because a hover's
/// documentation is to be looked for above a definition that now lies past the end of the text,
/// or because a file's URL is too long to parse.
pub fn try_handle_request(docs: &Documents, analyzer: &Analyzer, query: Query) -> (reply: Option<
    Reply,
>)
    ensures
        reply is Some <==> query_fits(docs@, *analyzer, query),
        reply matches Some(r) ==> answers(docs@, *analyzer, query, r),
{
    if can_answer(docs, analyzer, &query) {
        Some(handle_request(docs, analyzer, query))
    } else {
        None
    }
}

/// A completion is always answered, however stale the check is: with a list where the document
/// was ever checked, and with nothing where it was not.
pub proof fn law_a_completion_is_always_answered(
    docs: Map<Seq<char>, Doc>,
    analyzer: Analyzer,
    uri: String,
    pos: Position,
    lexed: Option<Vec<Trivia>>,
    reply: Reply,
)
    ensures
        query_fits(docs, analyzer, Query::Completion { uri, pos, lexed }),
        answers(docs, analyzer, Query::Completion { uri, pos, lexed }, reply) ==> {
            &&& reply is Completions <==> check_of(docs, uri@) is Some
            &&& reply is Null <==> check_of(docs, uri@) is None
        },
{
}

/// A name that is not defined in the document, or is in a document that was never checked, is
/// refused a rename with an error that says so; any other rename is answered with edits.
pub proof fn law_a_refused_rename_is_an_error(
    docs: Map<Seq<char>, Doc>,
    analyzer: Analyzer,
    uri: String,
    pos: Position,
    innermost: Option<Node>,
    new_name: String,
    reply: Reply,
)
    requires
        answers(docs, analyzer, Query::Rename { uri, pos, innermost, new_name }, reply),
    ensures
        reply is Failed <==> rename_at(docs, analyzer, uri@, pos, innermost) is None,
        reply is Failed || reply is Rename,
{
}

/// Every position of a selection request gets its answer, in the order asked: the ranges around
/// it, or an empty range at the position where nothing surrounds it.
pub proof fn law_every_position_is_answered(
    docs: Map<Seq<char>, Doc>,
    analyzer: Analyzer,
    uri: String,
    positions: Vec<Position>,
    reply: Reply,
)
    requires
        answers(docs, analyzer, Query::SelectionRange { uri, positions }, reply),
    ensures
        reply is Null <==> check_of(docs, uri@) is None,
        reply matches Reply::Selections(found) ==> {
            &&& found@.len() == positions@.len()
            &&& forall|i: int|
                0 <= i < positions@.len() ==> {
                    let around = ranges_of(
                        text_at(docs, uri@),
                        chain_at(
                            check_of(docs, uri@)->0,
                            offset_of(text_at(docs, uri@), positions@[i]) as int,
                        ),
                    );
                    links(#[trigger] found@[i]) == (if around.len() == 0 {
                        seq![Range { start: positions@[i], end: positions@[i] }]
                    } else {
                        around
                    })
                }
        },
{
    if let Some(checked) = check_of(docs, uri@) {
        let text = text_at(docs, uri@);
        let found = chains(checked, text, positions@);
        assert forall|i: int| 0 <= i < positions@.len() implies {
            let around = ranges_of(text, chain_at(checked, offset_of(text, positions@[i]) as int));
            links(#[trigger] found[i]) == (if around.len() == 0 {
                seq![Range { start: positions@[i], end: positions@[i] }]
            } else {
                around
            })
        } by {
            let around = ranges_of(text, chain_at(checked, offset_of(text, positions@[i]) as int));
            assert(found[i] == selected(checked, text, positions@[i]));
            if around.len() > 0 {
                law_a_chain_links_its_ranges_in_order(around);
            } else {
                let empty = Range { start: positions@[i], end: positions@[i] };
                assert(links(found[i]) =~= seq![empty]);
            }
        }
    }
}

} // verus!
