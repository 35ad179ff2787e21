use lsp_types::notification::Notification;
use lsp_types::request::Request;
use neon_lsp::analysis::{
    Analysis, Analyzer, Checked, Diagnostic, Severity, StdModule,
};
use neon_lsp::documents::{Doc, Documents};
use neon_lsp::methods::{needs_analysis, note_kind, request_kind, NoteKind, RequestKind};
use neon_lsp::position::{LineIndex, Position, Range};
use neon_lsp::publish::{
    can_render, empty_diagnostics, publish, publish_file, render, try_publish_file,
};
use neon_lsp::reply::{
    can_answer, cast_error, chain, format_document, handle_request, try_handle_request, Miscast,
    Query, Reply, INVALID_PARAMS, INVALID_REQUEST, METHOD_NOT_FOUND,
};
use neon_lsp::server::{
    document_event, noted, start_analyzer, uri_of, Action, Event, Input, Note, Pending, Server,
    DEBOUNCE, MAX_DELAY,
};
use neon_lsp::syntax::{
    Decl, DeclKind, DefKind, DefSite, Env, Expr, ExprId, ExprKind, FnSig, Let, Module, Node, Span,
    Trivia, TriviaKind, Ty, TypecheckResult,
};
use neon_lsp::toolchain::{Failure, Stdlib};

const A: &str = "file:///a.neon";
const B: &str = "file:///b.neon";

fn text(s: &str) -> String {
    s.to_string()
}

fn at(line: u32, character: u32) -> Position {
    Position { line, character }
}

/// `let x = 1; x` as the compiler sees it: a binding and a use.
const SOURCE: &str = "fn f() {\n  let x = 1;\n  x\n}\n";

fn checked() -> Checked {
    let binding = Span { start: 15, end: 16 };
    let site = DefSite { module: Vec::new(), span: binding, kind: DefKind::Local };
    Checked {
        module: Module {
            decls: vec![Decl { span: Span { start: 0, end: 27 }, kind: DeclKind::Fn(text("f")) }],
            exprs: vec![
                Expr { id: ExprId(0), span: Span { start: 19, end: 20 }, kind: ExprKind::Other },
                Expr { id: ExprId(1), span: Span { start: 24, end: 25 }, kind: ExprKind::Path },
            ],
            patterns: vec![binding],
            blocks: vec![Span { start: 7, end: 27 }],
            lets: vec![Let { pattern: binding, binds: true, annotated: false, value: ExprId(0) }],
        },
        doc_module: Vec::new(),
        result: TypecheckResult {
            defs: vec![(ExprId(1), site)],
            types: vec![
                (ExprId(0), Ty { text: text("i64"), never: false }),
                (ExprId(1), Ty { text: text("i64"), never: false }),
            ],
        },
        env: Env { fns: Vec::new() },
        sources: Vec::new(),
    }
}

/// The use of `x`.
fn used() -> Option<Node> {
    Some(Node { id: ExprId(1), span: Span { start: 24, end: 25 } })
}

/// One document, open and checked.
fn open() -> Documents {
    let mut docs = Documents::new();
    docs.insert(A, Doc { index: LineIndex::new(SOURCE), checked: Some(checked()) });
    docs
}

fn ask(query: Query) -> Reply {
    let docs = open();
    let analyzer = Analyzer::syntax_only();
    assert!(can_answer(&docs, &analyzer, &query));
    try_handle_request(&docs, &analyzer, query).expect("it can be answered")
}

/// The same request about a document that is not open.
fn ask_closed(query: Query) -> Reply {
    handle_request(&Documents::new(), &Analyzer::syntax_only(), query)
}

fn changed(uri: &str, content: &str, now: u64) -> Input {
    Input::Changed { uri: text(uri), text: text(content), now }
}

fn request(method: &str, uri: &str) -> Input {
    Input::Request { method: text(method), uri: Some(text(uri)) }
}

fn checks(action: Action) -> Option<String> {
    match action {
        Action::Check(uri) => Some(uri),
        Action::Nothing => None,
        other => panic!("unexpected {other:?}"),
    }
}

fn answers_after(action: Action) -> Option<String> {
    match action {
        Action::Answer(first) => first,
        other => panic!("unexpected {other:?}"),
    }
}

fn analysis(diagnostics: Vec<Diagnostic>, checked: Option<Checked>) -> Analysis {
    Analysis { diagnostics, foreign: Vec::new(), checked }
}

fn diagnostic(start: usize, end: usize, message: &str) -> Diagnostic {
    Diagnostic::plain(Span { start, end }, text(message))
}

#[test]
fn the_methods_are_the_protocols() {
    let kinds = [
        (lsp_types::request::Formatting::METHOD, RequestKind::Formatting),
        (lsp_types::request::HoverRequest::METHOD, RequestKind::Hover),
        (lsp_types::request::GotoDefinition::METHOD, RequestKind::Definition),
        (lsp_types::request::References::METHOD, RequestKind::References),
        (lsp_types::request::Rename::METHOD, RequestKind::Rename),
        (lsp_types::request::Completion::METHOD, RequestKind::Completion),
        (lsp_types::request::SignatureHelpRequest::METHOD, RequestKind::SignatureHelp),
        (lsp_types::request::DocumentSymbolRequest::METHOD, RequestKind::DocumentSymbol),
        (lsp_types::request::InlayHintRequest::METHOD, RequestKind::InlayHint),
        (lsp_types::request::SemanticTokensFullRequest::METHOD, RequestKind::SemanticTokens),
        (lsp_types::request::FoldingRangeRequest::METHOD, RequestKind::FoldingRange),
        (lsp_types::request::SelectionRangeRequest::METHOD, RequestKind::SelectionRange),
        ("textDocument/codeLens", RequestKind::Unknown),
    ];
    for (method, kind) in kinds {
        assert_eq!(request_kind(method), kind);
        let reads = kind != RequestKind::Formatting && kind != RequestKind::Unknown;
        assert_eq!(needs_analysis(method), reads, "{method}");
    }
    let notes = [
        (lsp_types::notification::DidOpenTextDocument::METHOD, NoteKind::Opened),
        (lsp_types::notification::DidChangeTextDocument::METHOD, NoteKind::Changed),
        (lsp_types::notification::DidSaveTextDocument::METHOD, NoteKind::Saved),
        (lsp_types::notification::DidCloseTextDocument::METHOD, NoteKind::Closed),
        ("$/cancelRequest", NoteKind::Other),
    ];
    for (method, kind) in notes {
        assert_eq!(note_kind(method), kind);
    }
}

#[test]
fn the_error_codes_are_the_protocols() {
    assert_eq!(METHOD_NOT_FOUND, lsp_server::ErrorCode::MethodNotFound as i32);
    assert_eq!(INVALID_REQUEST, lsp_server::ErrorCode::InvalidRequest as i32);
    assert_eq!(INVALID_PARAMS, lsp_server::ErrorCode::InvalidParams as i32);
}

#[test]
fn a_request_that_cannot_be_read_is_an_error() {
    let mismatch = cast_error(Miscast::Method);
    assert_eq!((mismatch.code, mismatch.message.as_str()), (METHOD_NOT_FOUND, "method mismatch"));
    let bad = cast_error(Miscast::Params { method: text("m"), error: text("missing field") });
    assert_eq!(bad.code, INVALID_PARAMS);
    assert_eq!(bad.message, "bad params for m: missing field");
}

#[test]
fn documents_are_kept_by_uri() {
    let mut docs = Documents::new();
    assert!(docs.get(A).is_none());
    docs.change(A, "one");
    docs.change(B, "two");
    docs.record(A, checked());
    docs.change(A, "three");
    let doc = docs.get(A).expect("it is open");
    assert_eq!(doc.index.text(), "three");
    assert!(doc.checked.is_some(), "the last check stays");
    assert!(docs.get(B).expect("it is open").checked.is_none());
    assert_eq!(docs.remove(A).expect("it was open").index.text(), "three");
    assert!(docs.get(A).is_none() && docs.remove(A).is_none());
    assert_eq!(docs.get(B).expect("it is open").index.text(), "two");
    // A document that is not open has no check to keep.
    docs.record(A, checked());
    assert!(docs.get(A).is_none());
}

#[test]
fn the_other_documents_are_listed_with_their_texts() {
    let mut docs = Documents::new();
    docs.change(A, "one");
    docs.change(B, "two");
    assert_eq!(docs.others(A), vec![(text(B), text("two"))]);
    assert_eq!(docs.others("file:///c.neon").len(), 2);
}

#[test]
fn a_check_runs_when_typing_stops_or_after_the_longest_delay() {
    let ms = 1_000_000;
    assert_eq!((DEBOUNCE, MAX_DELAY), (150 * ms, 750 * ms));
    let pending = |first: u64, last: u64| Pending { uri: text(A), first, last };
    assert_eq!(pending(0, 0).deadline(), 150 * ms);
    assert_eq!(pending(0, 400 * ms).deadline(), 550 * ms);
    assert_eq!(pending(0, 600 * ms).deadline(), 750 * ms);
    assert_eq!(pending(0, 700 * ms).deadline(), 750 * ms);
    assert_eq!(pending(0, 0).wait(50 * ms), 100 * ms);
    assert_eq!(pending(0, 0).wait(150 * ms), 0);
    assert_eq!(pending(0, 0).wait(900 * ms), 0);
}

#[test]
fn a_burst_of_typing_costs_one_check() {
    let mut server = Server::new();
    assert_eq!(checks(server.step(changed(A, "a", 10))), None);
    assert_eq!(checks(server.step(changed(A, "ab", 20))), None);
    assert_eq!(checks(server.step(changed(A, "abc", 30))), None);
    let pending = server.pending.as_ref().expect("a check is pending");
    // The wait is renewed, but counted from the first edit.
    assert_eq!((pending.uri.as_str(), pending.first, pending.last), (A, 10, 30));
    assert_eq!(checks(server.step(Input::Timeout)).as_deref(), Some(A));
    assert!(server.pending.is_none());
    assert_eq!(server.docs.get(A).expect("it is open").index.text(), "abc");
    assert_eq!(checks(server.step(Input::Timeout)), None);
}

#[test]
fn typing_on_does_not_put_a_check_off() {
    let mut server = Server::new();
    for edit in 0..20 {
        server.step(changed(A, "a", 1 + edit * 100_000_000));
    }
    let pending = server.pending.as_ref().expect("a check is pending");
    assert_eq!(pending.deadline(), 1 + MAX_DELAY);
}

#[test]
fn another_document_does_not_postpone_a_check() {
    let mut server = Server::new();
    server.step(changed(A, "a", 10));
    assert_eq!(checks(server.step(changed(B, "b", 20))).as_deref(), Some(A));
    let pending = server.pending.as_ref().expect("a check is pending");
    assert_eq!((pending.uri.as_str(), pending.first, pending.last), (B, 20, 20));
}

#[test]
fn a_request_that_reads_a_check_forces_it() {
    let mut server = Server::new();
    server.step(changed(A, "a", 10));
    // Formatting is answered from the text, and another document's check does not matter.
    assert_eq!(answers_after(server.step(request("textDocument/formatting", A))), None);
    assert_eq!(answers_after(server.step(request("textDocument/hover", B))), None);
    let anonymous = Input::Request { method: text("textDocument/hover"), uri: None };
    assert_eq!(answers_after(server.step(anonymous)), None);
    assert!(server.pending.is_some());
    let forced = answers_after(server.step(request("textDocument/hover", A)));
    assert_eq!(forced.as_deref(), Some(A));
    assert!(server.pending.is_none());
    assert_eq!(answers_after(server.step(request("textDocument/hover", A))), None);
}

#[test]
fn closing_a_document_forgets_it() {
    let mut server = Server::new();
    server.step(changed(A, "a", 10));
    server.step(changed(B, "b", 20));
    match server.step(Input::Closed { uri: text(A) }) {
        Action::Clear(uri) => assert_eq!(uri, A),
        other => panic!("unexpected {other:?}"),
    }
    assert!(server.docs.get(A).is_none());
    assert!(server.pending.is_some(), "the other document still waits");
    server.step(Input::Closed { uri: text(B) });
    assert!(server.pending.is_none());
    assert_eq!(checks(server.step(Input::Timeout)), None);
}

#[test]
fn the_session_ends_when_the_editor_vanishes() {
    let mut server = Server::new();
    assert!(matches!(server.step(Input::Disconnected), Action::Stop));
    assert!(matches!(server.step(Input::Other), Action::Nothing));
}

#[test]
fn a_notification_is_a_change_or_a_closing() {
    let change = |note: Note| match document_event(note) {
        Some(Event::Changed(uri, content)) => {
            assert_eq!(uri, A);
            content
        }
        _ => panic!("expected a change"),
    };
    assert_eq!(change(Note::Opened { uri: text(A), text: text("x") }), "x");
    // Each change carries the whole document, so the last one counts.
    let changes = vec![text("x"), text("xy")];
    assert_eq!(change(Note::Changed { uri: text(A), changes }), "xy");
    assert_eq!(change(Note::Saved { uri: text(A), text: Some(text("z")) }), "z");
    assert!(document_event(Note::Changed { uri: text(A), changes: Vec::new() }).is_none());
    assert!(document_event(Note::Saved { uri: text(A), text: None }).is_none());
    assert!(document_event(Note::Other).is_none());
    match document_event(Note::Closed { uri: text(A) }) {
        Some(Event::Closed(uri)) => assert_eq!(uri, A),
        _ => panic!("expected a closing"),
    }
    match noted(Some(Event::Changed(text(A), text("x"))), 5) {
        Input::Changed { uri, text, now } => assert_eq!((uri.as_str(), text.as_str(), now), (A, "x", 5)),
        _ => panic!("expected a change"),
    }
    assert!(matches!(noted(Some(Event::Closed(text(A))), 5), Input::Closed { .. }));
    assert!(matches!(noted(None, 5), Input::Other));
}

#[test]
fn a_request_is_about_the_document_whose_uri_parses() {
    assert_eq!(uri_of(Some(A)).as_deref(), Some(A));
    assert_eq!(uri_of(Some("file:///a b")), None);
    assert_eq!(uri_of(Some("file:///%zz")), None);
    assert_eq!(uri_of(None), None);
}

#[test]
fn a_session_tells_what_it_started_with() {
    let std = || Stdlib { dir: text("/std"), sources: vec![(text("a.neon"), text(""))] };
    let modules = vec![StdModule { path: vec![text("a")], trivia: None }];
    let started = start_analyzer(Ok((std(), Ok((modules, 3)))));
    assert_eq!(
        started.log,
        "neon-lsp: loaded 1 stdlib file(s) from '/std'; type checking is on."
    );
    assert!(started.warn.is_none());
    assert_eq!(started.analyzer.sources().len(), 1);
    assert_eq!(started.analyzer.next_id(), 3);

    let started = start_analyzer(Ok((std(), Err(text("a.neon:1: oops")))));
    let message = "neon-lsp: the stdlib at '/std' did not parse, so only syntax errors will \
                   appear. a.neon:1: oops";
    assert_eq!(started.log, message);
    assert_eq!(started.warn.as_deref(), Some(message));
    assert!(started.analyzer.sources().is_empty());

    let failure = Failure::NotFound { looked: Vec::new() };
    let message = failure.message();
    let started = start_analyzer(Err(failure));
    assert_eq!(started.log, message);
    assert_eq!(started.warn, Some(message));
}

#[test]
fn a_diagnostic_is_shown_with_its_help_and_its_notes() {
    let index = LineIndex::new("ab\ncd\n");
    let mut d = diagnostic(3, 5, "unknown name");
    d.help = Some(text("did you mean `ab`?"));
    d.labels = vec![(Span { start: 0, end: 2 }, text("defined here"))];
    let out = render(A, &index, d);
    assert_eq!(out.message, "unknown name\n\nhelp: did you mean `ab`?");
    assert_eq!(out.range, Range { start: at(1, 0), end: at(1, 2) });
    assert_eq!(out.source, "neon");
    assert_eq!(out.severity, Severity::Error);
    assert_eq!(out.code, None);
    let related = out.related.expect("it has a note");
    assert_eq!(related.len(), 1);
    assert_eq!((related[0].uri.as_str(), related[0].message.as_str()), (A, "defined here"));
    assert_eq!(related[0].range, Range { start: at(0, 0), end: at(0, 2) });

    let mut d = diagnostic(0, 1, "unused");
    d.severity = Severity::Warning;
    d.code = Some(text("unused_name"));
    let out = render(A, &index, d);
    assert_eq!(out.message, "unused");
    assert_eq!(out.severity, Severity::Warning);
    assert_eq!(out.code.as_deref(), Some("unused_name"));
    assert!(out.related.is_none());
}

#[test]
fn a_diagnostic_is_shown_where_its_spans_fit() {
    let index = LineIndex::new("é");
    assert!(can_render(&index, &[diagnostic(0, 2, "x")]));
    assert!(!can_render(&index, &[diagnostic(0, 1, "x")]));
    let mut d = diagnostic(0, 2, "x");
    d.labels = vec![(Span { start: 1, end: 2 }, text("y"))];
    assert!(!can_render(&index, &[d]));
}

#[test]
fn publishing_keeps_the_check_that_succeeded() {
    let mut docs = Documents::new();
    docs.change(A, SOURCE);
    let (out, _) = publish(&mut docs, A, analysis(vec![diagnostic(0, 2, "x")], Some(checked())));
    assert_eq!(out.uri, A);
    assert_eq!(out.diagnostics.len(), 1);
    assert!(docs.get(A).expect("it is open").checked.is_some());
    // A failed parse leaves the previous check in place.
    let (out, foreign) = publish(&mut docs, A, analysis(Vec::new(), None));
    assert!(out.diagnostics.is_empty() && foreign.is_empty());
    assert!(docs.get(A).expect("it is open").checked.is_some());
}

#[test]
fn another_files_diagnostics_are_published_on_it() {
    let out = publish_file("/a b.neon", "x\ny\n", vec![diagnostic(2, 3, "wrong")])
        .expect("the file has a uri");
    assert_eq!(out.uri, "file:///a%20b.neon");
    assert_eq!(out.diagnostics[0].range.start, at(1, 0));
    // Nothing being wrong is published too.
    let out = publish_file("/x.neon", "", Vec::new()).expect("the file has a uri");
    assert!(out.diagnostics.is_empty());
    assert!(publish_file("x.neon", "", Vec::new()).is_none());
    assert!(try_publish_file("/x.neon", "é", vec![diagnostic(1, 2, "wrong")]).is_none());
    let out = try_publish_file("/x.neon", "é", vec![diagnostic(0, 2, "wrong")]);
    assert_eq!(out.flatten().expect("it fits").diagnostics.len(), 1);
    let cleared = empty_diagnostics(A);
    assert!(cleared.uri == A && cleared.diagnostics.is_empty());
}

#[test]
fn hover_is_answered_from_the_check() {
    let query = || Query::Hover { uri: text(A), pos: at(2, 2), innermost: used(), lexed: None };
    match ask(query()) {
        Reply::Hover { text, range } => {
            assert_eq!(text, "```neon\ni64\n```");
            assert_eq!(range, Range { start: at(2, 2), end: at(2, 3) });
        }
        other => panic!("unexpected {other:?}"),
    }
    assert!(matches!(ask_closed(query()), Reply::Null));
    let nothing = Query::Hover { uri: text(A), pos: at(3, 1), innermost: None, lexed: None };
    assert!(matches!(ask(nothing), Reply::Null));
}

#[test]
fn a_definition_is_answered_with_its_place() {
    let query = || Query::Definition { uri: text(A), innermost: used() };
    match ask(query()) {
        Reply::Definition(location) => {
            assert_eq!(location.uri, A);
            assert_eq!(location.range.start, at(1, 6));
        }
        other => panic!("unexpected {other:?}"),
    }
    assert!(matches!(ask_closed(query()), Reply::Null));
    assert!(matches!(ask(Query::Definition { uri: text(A), innermost: None }), Reply::Null));
}

#[test]
fn references_are_answered_with_places_in_the_document() {
    let query = || Query::References { uri: text(A), pos: at(2, 2), innermost: used() };
    match ask(query()) {
        Reply::References(found) => {
            assert_eq!(found.len(), 2);
            assert!(found.iter().all(|l| l.uri == A));
            assert_eq!((found[0].range.start, found[1].range.start), (at(1, 6), at(2, 2)));
        }
        other => panic!("unexpected {other:?}"),
    }
    assert!(matches!(ask_closed(query()), Reply::Null));
    // Nothing under the cursor is no references, not no answer.
    match ask(Query::References { uri: text(A), pos: at(0, 0), innermost: None }) {
        Reply::References(found) => assert!(found.is_empty()),
        other => panic!("unexpected {other:?}"),
    }
}

#[test]
fn a_rename_is_answered_with_edits_or_refused() {
    let query = || Query::Rename {
        uri: text(A),
        pos: at(2, 2),
        innermost: used(),
        new_name: text("total"),
    };
    match ask(query()) {
        Reply::Rename { uri, edits } => {
            assert_eq!(uri, A);
            assert_eq!(edits.len(), 2);
            assert!(edits.iter().all(|e| e.new_text == "total"));
            assert_eq!(edits[1].range, Range { start: at(2, 2), end: at(2, 3) });
        }
        other => panic!("unexpected {other:?}"),
    }
    match ask_closed(query()) {
        Reply::Failed(error) => {
            assert_eq!(error.code, INVALID_REQUEST);
            assert_eq!(
                error.message,
                "this name cannot be renamed from here: it is not defined in this file"
            );
        }
        other => panic!("unexpected {other:?}"),
    }
}

#[test]
fn lists_are_empty_for_a_document_that_is_not_open() {
    let uri = || text(A);
    assert!(matches!(ask_closed(Query::DocumentSymbol { uri: uri() }), Reply::Symbols(s) if s.is_empty()));
    assert!(matches!(ask_closed(Query::InlayHint { uri: uri() }), Reply::Hints(h) if h.is_empty()));
    assert!(matches!(ask_closed(Query::SemanticTokens { uri: uri() }), Reply::Tokens(t) if t.is_empty()));
    assert!(matches!(ask_closed(Query::FoldingRange { uri: uri() }), Reply::Folds(f) if f.is_empty()));
    let completion = Query::Completion { uri: uri(), pos: at(0, 0), lexed: None };
    assert!(matches!(ask_closed(completion), Reply::Null));
    assert!(matches!(ask_closed(Query::SignatureHelp { uri: uri(), pos: at(0, 0) }), Reply::Null));
    let positions = vec![at(0, 0)];
    assert!(matches!(ask_closed(Query::SelectionRange { uri: uri(), positions }), Reply::Null));
}

#[test]
fn lists_are_answered_from_the_check() {
    let uri = || text(A);
    match ask(Query::DocumentSymbol { uri: uri() }) {
        Reply::Symbols(symbols) => assert_eq!(symbols[0].name, "f"),
        other => panic!("unexpected {other:?}"),
    }
    match ask(Query::InlayHint { uri: uri() }) {
        Reply::Hints(hints) => assert_eq!(hints, vec![(at(1, 7), text(": i64"))]),
        other => panic!("unexpected {other:?}"),
    }
    match ask(Query::SemanticTokens { uri: uri() }) {
        Reply::Tokens(tokens) => {
            assert_eq!(tokens.len(), 1);
            assert_eq!((tokens[0].delta_line, tokens[0].delta_start), (2, 2));
        }
        other => panic!("unexpected {other:?}"),
    }
    match ask(Query::FoldingRange { uri: uri() }) {
        Reply::Folds(lines) => assert_eq!(lines, vec![(0, 3)]),
        other => panic!("unexpected {other:?}"),
    }
    match ask(Query::Completion { uri: uri(), pos: at(2, 2), lexed: None }) {
        Reply::Completions(items) => assert_eq!(items[0].label, "x"),
        other => panic!("unexpected {other:?}"),
    }
    assert!(matches!(ask(Query::SignatureHelp { uri: uri(), pos: at(2, 2) }), Reply::Null));
}

#[test]
fn a_completion_is_answered_from_a_stale_check() {
    let mut stale = checked();
    stale.env.fns.push(FnSig {
        name: text("main"),
        module: Vec::new(),
        span: Span { start: 40, end: 52 },
        generics: Vec::new(),
        params: Vec::new(),
        throws: Ty { text: text("never"), never: true },
        ret: Ty { text: text("()"), never: false },
        wheres: Vec::new(),
        has_body: true,
    });
    let mut docs = Documents::new();
    docs.insert(A, Doc { index: LineIndex::new("///\n("), checked: Some(stale) });
    let comment = Span { start: 0, end: 3 };
    let lexed = Some(vec![Trivia { kind: TriviaKind::Doc, span: comment, text: text("") }]);
    let query = Query::Completion { uri: text(A), pos: at(1, 1), lexed };
    let analyzer = Analyzer::syntax_only();
    assert!(can_answer(&docs, &analyzer, &query));
    match try_handle_request(&docs, &analyzer, query) {
        Some(Reply::Completions(items)) => {
            assert_eq!(items.len(), 1);
            assert_eq!(items[0].label, "main");
            assert_eq!(items[0].documentation, None);
        }
        other => panic!("unexpected {other:?}"),
    }
}

#[test]
fn selections_are_answered_per_position() {
    let positions = vec![at(2, 2), at(9, 9), at(0, 0)];
    match ask(Query::SelectionRange { uri: text(A), positions }) {
        Reply::Selections(found) => {
            assert_eq!(found.len(), 3);
            assert_eq!(found[0].range.start, at(2, 2));
            let block = found[0].parent.as_ref().expect("the block is around it");
            let function = block.parent.as_ref().expect("the function is around it");
            assert!(function.parent.is_none());
            assert_eq!(function.range.start, at(0, 0));
            // The position past the end has nothing around it.
            assert_eq!(found[1].range, Range { start: at(9, 9), end: at(9, 9) });
            assert!(found[1].parent.is_none());
            assert_eq!(found[2].range.start, at(0, 0));
        }
        other => panic!("unexpected {other:?}"),
    }
}

#[test]
fn a_chain_links_its_ranges_in_order() {
    let range = |n: u32| Range { start: at(0, n), end: at(1, n) };
    let ranges = [range(1), range(2), range(3)];
    let mut node = chain(&ranges).expect("there are ranges");
    for (i, want) in ranges.iter().enumerate() {
        assert_eq!(node.range, *want);
        match node.parent {
            Some(parent) => node = *parent,
            None => {
                assert_eq!(i, 2);
                break;
            }
        }
    }
    assert!(chain(&[]).is_none());
}

#[test]
fn formatting_replaces_everything_or_nothing() {
    let index = LineIndex::new("a\né");
    let edits = format_document(&index, Some(text("b\n")));
    assert_eq!(edits.len(), 1);
    assert_eq!(edits[0].range, Range { start: at(0, 0), end: at(1, 1) });
    assert_eq!(edits[0].new_text, "b\n");
    assert!(format_document(&index, Some(text("a\né"))).is_empty());
    assert!(format_document(&index, None).is_empty());
    let query = || Query::Formatting { uri: text(A), formatted: Some(text("x")) };
    assert!(matches!(ask(query()), Reply::Edits(e) if e.len() == 1));
    assert!(matches!(ask_closed(query()), Reply::Edits(e) if e.is_empty()));
}

#[test]
fn an_unknown_request_is_an_error() {
    match ask(Query::Unknown { method: text("textDocument/codeLens") }) {
        Reply::Failed(error) => {
            assert_eq!(error.code, METHOD_NOT_FOUND);
            assert_eq!(error.message, "unhandled request: textDocument/codeLens");
        }
        other => panic!("unexpected {other:?}"),
    }
}

#[test]
fn a_stale_check_is_not_read_inside_a_character() {
    let mut docs = open();
    docs.change(A, &"é".repeat(30));
    let analyzer = Analyzer::syntax_only();
    let positions = vec![at(0, 12)];
    let queries = vec![
        Query::Hover { uri: text(A), pos: at(0, 12), innermost: used(), lexed: None },
        Query::Definition { uri: text(A), innermost: used() },
        Query::References { uri: text(A), pos: at(0, 12), innermost: used() },
        Query::DocumentSymbol { uri: text(A) },
        Query::SemanticTokens { uri: text(A) },
        Query::FoldingRange { uri: text(A) },
        Query::SelectionRange { uri: text(A), positions },
    ];
    for query in queries {
        assert!(!can_answer(&docs, &analyzer, &query));
        assert!(try_handle_request(&docs, &analyzer, query).is_none());
    }
}
