use neon_lsp::analysis::{Analyzer, Checked, Source, StdModule};
use neon_lsp::completion::{completions, locals_in_scope, slice, CompletionItemKind};
use neon_lsp::docs::{doc_above, docs_fit};
use neon_lsp::folding::{can_fold, folding_ranges};
use neon_lsp::hints::{can_hint, inlay_hints};
use neon_lsp::jump::{
    can_parse_url, definition, file_uri, path_of, place, try_definition, Location, URI_LIMIT,
};
use neon_lsp::navigation::{
    can_hover, can_refer, can_rename, hover, references, rename, type_carrier,
};
use neon_lsp::outline::{can_outline, document_symbols, SymbolKind};
use neon_lsp::position::{LineIndex, Position, Range};
use neon_lsp::ranges::{all_fit, boundary, fits, range};
use neon_lsp::selection::{can_select, selection_range};
use neon_lsp::signatures::{fenced, signature, signature_help};
use neon_lsp::syntax::{
    Decl, DeclKind, DefKind, DefSite, Env, Expr, ExprId, ExprKind, FnSig, Let, Module, Node, Span,
    Trivia, TriviaKind, Ty, TypecheckResult,
};
use neon_lsp::tokens::{
    can_colour, semantic_tokens, TokenType, TOKEN_TYPES, TOK_FUNCTION, TOK_PARAMETER, TOK_VARIABLE,
};

const STD_IO: &str = "/// Print a line.\nfn println(s: str) {}\n";

const FIXTURE: &str = r##"use std::io::println;

/// Add two numbers.
/// The second line of the documentation.
fn add(a: i64, b: i64) -> i64 { a + b }

fn main() {
    let total = add(1, 2);
    println("#{total}");
}
"##;

fn names(parts: &[&str]) -> Vec<String> {
    parts.iter().map(|p| p.to_string()).collect()
}

/// The comments of a text, the way the lexer sets them aside.
fn comments(text: &str) -> Vec<Trivia> {
    let mut out = Vec::new();
    let mut start = 0;
    for line in text.split('\n') {
        let end = start + line.len();
        if let Some(at) = line.find("//") {
            let (kind, skip) = if line[at..].starts_with("///") {
                (TriviaKind::Doc, 3)
            } else {
                (TriviaKind::Other, 2)
            };
            let text = line[at + skip..].to_string();
            out.push(Trivia { kind, span: Span { start: start + at, end }, text });
        }
        start = end + 1;
    }
    out
}

/// The span of the `n`-th occurrence of a piece of text.
fn nth(src: &str, needle: &str, n: usize) -> Span {
    let (start, _) = src.match_indices(needle).nth(n).expect("it occurs");
    Span { start, end: start + needle.len() }
}

fn first(src: &str, needle: &str) -> Span {
    nth(src, needle, 0)
}

/// From the start of one piece of text to the end of another that follows it.
fn between(src: &str, from: &str, to: &str) -> Span {
    let start = src.find(from).expect("it occurs");
    let end = start + src[start..].find(to).expect("it occurs") + to.len();
    Span { start, end }
}

fn ty(text: &str) -> Ty {
    Ty { text: text.to_string(), never: text == "never" }
}

fn site(module: &[&str], span: Span, kind: DefKind) -> DefSite {
    DefSite { module: names(module), span, kind }
}

fn function(name: &str, module: &[&str], span: Span, params: &[(&str, &str)], ret: &str) -> FnSig {
    FnSig {
        name: name.to_string(),
        module: names(module),
        span,
        generics: Vec::new(),
        params: params.iter().map(|(n, t)| (n.to_string(), ty(t))).collect(),
        throws: ty("never"),
        ret: ty(ret),
        wheres: Vec::new(),
        has_body: true,
    }
}

/// A check under construction, numbering expressions as it goes.
struct Check {
    module: Module,
    result: TypecheckResult,
    fns: Vec<FnSig>,
}

impl Check {
    fn new() -> Check {
        Check {
            module: Module {
                decls: Vec::new(),
                exprs: Vec::new(),
                patterns: Vec::new(),
                blocks: Vec::new(),
                lets: Vec::new(),
            },
            result: TypecheckResult { defs: Vec::new(), types: Vec::new() },
            fns: Vec::new(),
        }
    }

    fn expr(&mut self, span: Span, kind: ExprKind, typed: &str) -> ExprId {
        let id = ExprId(self.module.exprs.len() as u32);
        self.module.exprs.push(Expr { id, span, kind });
        self.result.types.push((id, ty(typed)));
        id
    }

    fn name(&mut self, span: Span, def: DefSite, typed: &str) -> ExprId {
        let id = self.expr(span, ExprKind::Path, typed);
        self.result.defs.push((id, def));
        id
    }

    fn let_(&mut self, pattern: Span, annotated: bool, value: ExprId) {
        self.module.patterns.push(pattern);
        self.module.lets.push(Let { pattern, binds: true, annotated, value });
    }

    fn decl(&mut self, span: Span, kind: DeclKind) {
        self.module.decls.push(Decl { span, kind });
    }

    fn done(self) -> Checked {
        Checked {
            module: self.module,
            doc_module: Vec::new(),
            result: self.result,
            env: Env { fns: self.fns },
            sources: Vec::new(),
        }
    }
}

/// An analyzer over a stdlib with `println`.
fn analyzer() -> Analyzer {
    let sources = vec![("std/io.neon".to_string(), STD_IO.to_string())];
    let modules =
        vec![StdModule { path: names(&["std", "io"]), trivia: Some(comments(STD_IO)) }];
    Analyzer::new("/usr/lib/neon", &sources, Ok((modules, 0))).expect("the stdlib parses")
}

fn println_span() -> Span {
    between(STD_IO, "fn println", "}")
}

/// What the compiler makes of the fixture.
fn fixture() -> (Checked, LineIndex) {
    let src = FIXTURE;
    let mut c = Check::new();
    let add = between(src, "fn add", "}");
    let main = between(src, "fn main", "\n}");
    let a = nth(src, "a: i64", 0).start;
    let a = Span { start: a, end: a + 1 };
    let b = nth(src, "b: i64", 0).start;
    let b = Span { start: b, end: b + 1 };
    let total = first(src, "total");

    c.decl(first(src, "use std::io::println;"), DeclKind::Use);
    c.decl(add, DeclKind::Fn("add".to_string()));
    c.decl(main, DeclKind::Fn("main".to_string()));
    c.module.blocks.push(between(src, "{ a + b", "}"));
    c.module.blocks.push(Span { start: main.start + "fn main() ".len(), end: main.end });
    c.fns.push(function("add", &[], add, &[("a", "i64"), ("b", "i64")], "i64"));
    c.fns.push(function("main", &[], main, &[], "()"));
    c.fns.push(function("println", &["std", "io"], println_span(), &[("s", "str")], "()"));

    let sum = first(src, "a + b");
    c.expr(sum, ExprKind::Other, "i64");
    c.name(Span { start: sum.start, end: sum.start + 1 }, site(&[], a, DefKind::Param), "i64");
    c.name(Span { start: sum.end - 1, end: sum.end }, site(&[], b, DefKind::Param), "i64");

    let call = first(src, "add(1, 2)");
    let one = Span { start: call.start + 4, end: call.start + 5 };
    let two = Span { start: call.start + 7, end: call.start + 8 };
    let callee = ExprId(c.module.exprs.len() as u32 + 1);
    let value = c.expr(call, ExprKind::Call { callee, args: vec![one, two] }, "i64");
    let name = Span { start: call.start, end: call.start + 3 };
    c.name(name, site(&[], add, DefKind::Fn), "fn(i64, i64) -> i64");
    c.expr(one, ExprKind::Other, "i64");
    c.expr(two, ExprKind::Other, "i64");
    c.let_(total, false, value);

    let print = first(src, "println(\"#{total}\")");
    let text = first(src, "\"#{total}\"");
    let callee = ExprId(c.module.exprs.len() as u32 + 1);
    c.expr(print, ExprKind::Call { callee, args: vec![text] }, "()");
    let name = Span { start: print.start, end: print.start + "println".len() };
    c.name(name, site(&["std", "io"], println_span(), DefKind::Fn), "fn(str)");
    c.expr(text, ExprKind::Other, "str");
    c.name(nth(src, "total", 1), site(&[], total, DefKind::Local), "i64");
    (c.done(), LineIndex::new(src))
}

/// The innermost expression at a position, as the compiler's walk finds it.
fn innermost(checked: &Checked, index: &LineIndex, pos: Position) -> Option<Node> {
    let offset = index.offset(pos);
    checked
        .module
        .exprs
        .iter()
        .filter(|e| e.span.contains(offset))
        .min_by_key(|e| e.span.end - e.span.start)
        .map(|e| Node { id: e.id, span: e.span })
}

/// The position of a substring.
fn at(index: &LineIndex, src: &str, needle: &str) -> Position {
    index.position(src.find(needle).expect("it is in the fixture"))
}

fn hover_at(a: &Analyzer, c: &Checked, idx: &LineIndex, pos: Position) -> Option<(String, Range)> {
    let lexed = Some(comments(idx.text()));
    let under = innermost(c, idx, pos);
    assert!(can_hover(a, c, idx, &lexed, under, pos));
    hover(a, c, idx, &lexed, under, pos)
}

fn definition_at(a: &Analyzer, c: &Checked, idx: &LineIndex, pos: Position) -> Option<Location> {
    let under = innermost(c, idx, pos);
    let uri = "file:///fixture.neon";
    let found = try_definition(a, c, idx, uri, under).expect("the fixture fits");
    let again = definition(a, c, idx, uri, under);
    assert_eq!(found.as_ref().map(|l| &l.uri), again.as_ref().map(|l| &l.uri));
    found
}

fn references_at(a: &Analyzer, c: &Checked, idx: &LineIndex, pos: Position) -> Vec<Range> {
    let under = innermost(c, idx, pos);
    assert!(can_refer(a, c, idx, under, pos));
    references(a, c, idx, under, pos)
}

fn rename_at(a: &Analyzer, c: &Checked, idx: &LineIndex, pos: Position) -> Option<Vec<Range>> {
    let under = innermost(c, idx, pos);
    assert!(can_rename(a, c, idx, under, pos));
    rename(a, c, idx, under, pos)
}

#[test]
fn hover_on_a_call_shows_the_signature_and_its_documentation() {
    let a = analyzer();
    let (c, idx) = fixture();
    let (text, range) =
        hover_at(&a, &c, &idx, at(&idx, FIXTURE, "add(1")).expect("a call has a hover");
    assert!(text.contains("fn add(a: i64, b: i64) -> i64"), "{text}");
    // Both lines, and not the `use` line above them.
    assert!(text.contains("Add two numbers."), "{text}");
    assert!(text.contains("The second line"), "{text}");
    assert_eq!(
        text,
        "```neon\nfn add(a: i64, b: i64) -> i64\n```\n\n---\n\nAdd two numbers.\nThe second line \
         of the documentation."
    );
    assert_eq!(range.start, Position { line: 7, character: 16 });
    assert_eq!(range.end, Position { line: 7, character: 19 });
}

#[test]
fn hover_on_a_stdlib_name_shows_where_it_came_from() {
    let a = analyzer();
    let (c, idx) = fixture();
    let (text, _) = hover_at(&a, &c, &idx, at(&idx, FIXTURE, "println(\""))
        .expect("a stdlib call has a hover");
    assert!(text.contains("fn println(s: str)"), "{text}");
    assert!(text.contains("std::io"), "{text}");
    assert_eq!(
        text,
        "```neon\nfn println(s: str) -> ()\n```\n\n---\n\nPrint a line.\n\n---\n\n*in* `std::io`"
    );
}

#[test]
fn hover_on_a_binding_shows_its_inferred_type() {
    let a = analyzer();
    let (c, idx) = fixture();
    let (text, range) =
        hover_at(&a, &c, &idx, at(&idx, FIXTURE, "total =")).expect("a binding has a hover");
    assert!(text.contains("i64"), "{text}");
    assert_eq!(text, "```neon\ni64\n```");
    assert_eq!(range.start, at(&idx, FIXTURE, "total ="));
}

#[test]
fn hover_on_nothing_shows_nothing() {
    let a = analyzer();
    let (c, idx) = fixture();
    assert!(hover_at(&a, &c, &idx, at(&idx, FIXTURE, "\nfn main")).is_none());
}

#[test]
fn a_parameter_is_typed_by_its_first_use() {
    let (c, _) = fixture();
    let a = FIXTURE.find("a: i64").expect("it is there");
    let param = site(&[], Span { start: a, end: a + 1 }, DefKind::Param);
    assert_eq!(type_carrier(&c, &param), Some(ExprId(1)));
    // A `let` is typed by its initialiser.
    let total = site(&[], first(FIXTURE, "total"), DefKind::Local);
    assert_eq!(type_carrier(&c, &total), Some(ExprId(3)));
    // Nothing fixes the type of a binding that is never used.
    let unused = site(&[], Span { start: 0, end: 1 }, DefKind::Param);
    assert_eq!(type_carrier(&c, &unused), None);
}

#[test]
fn definition_of_a_stdlib_name_points_into_the_stdlib() {
    let a = analyzer();
    let (c, idx) = fixture();
    let loc = definition_at(&a, &c, &idx, at(&idx, FIXTURE, "println(\""))
        .expect("a stdlib name has a definition");
    assert!(loc.uri.ends_with("std/io.neon"), "landed at {:?}", loc.uri);
    assert_eq!(loc.uri, "file:///usr/lib/neon/std/io.neon");
    assert_eq!(loc.range.start, Position { line: 1, character: 0 });
}

#[test]
fn definition_of_a_local_name_stays_in_this_file() {
    let a = analyzer();
    let (c, idx) = fixture();
    let loc = definition_at(&a, &c, &idx, at(&idx, FIXTURE, "add(1"))
        .expect("a local fn has a definition");
    assert_eq!(loc.uri, "file:///fixture.neon");
    assert_eq!(loc.range.start.line, 4, "the `fn add` line");
}

#[test]
fn nothing_under_the_cursor_has_no_definition() {
    let a = analyzer();
    let (c, idx) = fixture();
    assert!(definition_at(&a, &c, &idx, Position { line: 1, character: 0 }).is_none());
}

#[test]
fn a_file_is_named_by_its_percent_encoded_url() {
    assert_eq!(file_uri("/a b/é.neon").as_deref(), Some("file:///a%20b/%C3%A9.neon"));
    assert_eq!(file_uri("relative.neon"), None);
    assert!(can_parse_url("/a b/é.neon"));
    assert_eq!(URI_LIMIT, i32::MAX as usize);
}

#[test]
fn a_file_url_names_a_path() {
    assert_eq!(path_of("file:///a%20b/%C3%A9.neon").as_deref(), Some("/a b/é.neon"));
    assert_eq!(path_of("file://localhost/x.neon").as_deref(), Some("/x.neon"));
    // On another machine, not text, or of another scheme.
    assert_eq!(path_of("file://elsewhere/x.neon"), None);
    assert_eq!(path_of("file:///%FF"), None);
    assert_eq!(path_of("git:/app/src/main.neon?old"), None);
    assert_eq!(path_of("untitled:Untitled-1"), None);
    assert_eq!(path_of(""), None);
    let uri = file_uri("/a b/é.neon").expect("it has a URL");
    assert_eq!(path_of(&uri).as_deref(), Some("/a b/é.neon"));
}

#[test]
fn a_definition_in_a_file_without_a_url_has_no_place() {
    let (mut c, idx) = fixture();
    c.sources.push(Source {
        module: names(&["std", "io"]),
        path: "relative.neon".to_string(),
        index: LineIndex::new(STD_IO),
        trivia: Vec::new(),
    });
    assert!(definition_at(&analyzer(), &c, &idx, at(&idx, FIXTURE, "println(\"")).is_none());
}

#[test]
fn a_span_inside_a_character_has_no_place() {
    let (mut c, idx) = fixture();
    c.sources.push(Source {
        module: names(&["std", "io"]),
        path: "/x.neon".to_string(),
        index: LineIndex::new(&"é".repeat(40)),
        trivia: Vec::new(),
    });
    // The span is bytes 18 to 39, and every odd offset is inside a character.
    let a = analyzer();
    let pos = at(&idx, FIXTURE, "println(\"");
    let under = innermost(&c, &idx, pos);
    assert!(try_definition(&a, &c, &idx, "file:///fixture.neon", under).is_none());
}

#[test]
fn a_place_is_a_span_of_a_file_that_has_a_uri() {
    let index = LineIndex::new("ab\ncd");
    let span = Span { start: 3, end: 5 };
    let location = place(Some("file:///x".to_string()), &index, span).expect("it has a uri");
    assert_eq!(location.uri, "file:///x");
    assert_eq!(location.range.start, Position { line: 1, character: 0 });
    assert_eq!(location.range.end, Position { line: 1, character: 2 });
    assert!(place(None, &index, span).is_none());
}

/// `let x` in a block that shadows another, and a use of each.
fn shadowing() -> (&'static str, Checked, LineIndex) {
    let src = "fn main() {\n    let x = 1;\n    { let x = 2; let y = x; }\n    let z = x;\n}\n";
    let mut c = Check::new();
    let start = src.find("x = 1").expect("there");
    let outer = Span { start, end: start + 1 };
    let start = src.find("x = 2").expect("there");
    let inner = Span { start, end: start + 1 };
    c.decl(between(src, "fn main", "\n}"), DeclKind::Fn("main".to_string()));
    let one = c.expr(first(src, "1"), ExprKind::Other, "i64");
    c.let_(outer, false, one);
    let two = c.expr(first(src, "2"), ExprKind::Other, "i64");
    c.let_(inner, false, two);
    let start = src.find("x; }").expect("there");
    let y = c.name(Span { start, end: start + 1 }, site(&[], inner, DefKind::Local), "i64");
    c.let_(first(src, "y"), false, y);
    let start = src.find("x;\n}").expect("there");
    let z = c.name(Span { start, end: start + 1 }, site(&[], outer, DefKind::Local), "i64");
    c.let_(first(src, "z"), false, z);
    (src, c.done(), LineIndex::new(src))
}

#[test]
fn references_respect_shadowing() {
    let a = analyzer();
    let (src, c, idx) = shadowing();

    let inner = references_at(&a, &c, &idx, at(&idx, src, "x = 2"));
    // The inner binding and the `x` in `let y = x`, and nothing on lines 1 or 3.
    assert_eq!(inner.len(), 2, "inner `x`: {inner:?}");
    assert!(inner.iter().all(|r| r.start.line == 2), "inner `x` escaped its block: {inner:?}");

    let outer = references_at(&a, &c, &idx, at(&idx, src, "x = 1"));
    assert_eq!(outer.len(), 2, "outer `x`: {outer:?}");
    assert!(outer.iter().any(|r| r.start.line == 3), "outer `x` missed `let z = x`");

    // They are the same from the binding and from the use.
    assert_eq!(references_at(&a, &c, &idx, at(&idx, src, "x; }")), inner);
    assert_eq!(references_at(&a, &c, &idx, at(&idx, src, "x;\n}")), outer);
}

#[test]
fn a_rename_edits_the_references() {
    let a = analyzer();
    let (src, c, idx) = shadowing();
    let pos = at(&idx, src, "x = 2");
    assert_eq!(rename_at(&a, &c, &idx, pos), Some(references_at(&a, &c, &idx, pos)));
    assert_eq!(rename_at(&a, &c, &idx, Position { line: 4, character: 0 }), None);
}

#[test]
fn a_stdlib_name_is_referenced_where_it_is_used() {
    let a = analyzer();
    let (c, idx) = fixture();
    let found = references_at(&a, &c, &idx, at(&idx, FIXTURE, "println(\""));
    assert_eq!(found.len(), 1);
    assert_eq!(found[0].start, at(&idx, FIXTURE, "println(\""));
    assert!(references_at(&a, &c, &idx, at(&idx, FIXTURE, "\nfn main")).is_empty());
}

#[test]
fn rename_is_refused_for_a_name_defined_in_the_stdlib() {
    let a = analyzer();
    let (c, idx) = fixture();
    assert!(
        rename_at(&a, &c, &idx, at(&idx, FIXTURE, "println(\"")).is_none(),
        "renaming into the stdlib would edit the user's toolchain"
    );
}

#[test]
fn rename_covers_the_binding_and_every_use() {
    let a = analyzer();
    let (c, idx) = fixture();
    let edits =
        rename_at(&a, &c, &idx, at(&idx, FIXTURE, "total =")).expect("a local can be renamed");
    assert_eq!(edits.len(), 2, "the binding and the one use: {edits:?}");
}

#[test]
fn completion_offers_locals_and_stdlib_functions() {
    let a = analyzer();
    let (c, idx) = fixture();
    let lexed = Some(comments(FIXTURE));
    let items = completions(&a, &c, &idx, &lexed, at(&idx, FIXTURE, "println(\""));
    let labels: Vec<&str> = items.iter().map(|i| i.label.as_str()).collect();
    assert!(labels.contains(&"total"), "the local in scope is missing");
    assert!(labels.contains(&"add"), "the file's own function is missing");
    // And the detail is the signature, which is the point of offering it.
    let add = items.iter().find(|i| i.label == "add").expect("`add` is offered");
    assert_eq!(add.detail.as_deref(), Some("fn add(a: i64, b: i64) -> i64"));

    assert_eq!(labels, vec!["total", "add", "main", "println"]);
    assert_eq!(items[0].kind, CompletionItemKind::Variable);
    assert_eq!(items[0].detail.as_deref(), Some("i64"));
    assert_eq!(items[0].sort_text, None);
    assert_eq!(add.kind, CompletionItemKind::Function);
    assert_eq!(add.sort_text.as_deref(), Some("0add"));
    assert_eq!(
        add.documentation.as_deref(),
        Some("Add two numbers.\nThe second line of the documentation.")
    );
    assert_eq!(items[2].documentation, None);
    assert_eq!(items[3].sort_text.as_deref(), Some("1println"));
    assert_eq!(items[3].documentation.as_deref(), Some("Print a line."));
}

#[test]
fn a_stale_check_is_still_completed_from() {
    let a = analyzer();
    let (c, _) = fixture();
    let offered = |text: &str, lexed: Vec<Trivia>| -> Vec<(String, Option<String>)> {
        let stale = LineIndex::new(text);
        let items = completions(&a, &c, &stale, &Some(lexed), Position { line: 1, character: 1 });
        items.into_iter().map(|i| (i.label, i.documentation)).collect()
    };
    let printed = ("println".to_string(), Some("Print a line.".to_string()));
    // What is left of the text ends before the functions do, and has a comment above them.
    let cut = "///\n(";
    let none = |name: &str| (name.to_string(), None);
    assert_eq!(offered(cut, comments(cut)), vec![none("add"), none("main"), printed.clone()]);

    // Every odd offset is inside a character, and a comment ends inside one.
    let span = Span { start: 0, end: 1 };
    let inside = vec![Trivia { kind: TriviaKind::Doc, span, text: "x".to_string() }];
    let wide = "é".repeat(200);
    assert_eq!(offered(&wide, inside), vec![none("add"), none("main"), printed]);

    // A text that still fits keeps its documentation.
    let longer = format!("{FIXTURE}\n(");
    let found = offered(&longer, comments(&longer));
    let add = "Add two numbers.\nThe second line of the documentation.";
    assert_eq!(found[0], ("add".to_string(), Some(add.to_string())));
}

#[test]
fn a_required_method_is_not_offered() {
    let (mut c, idx) = fixture();
    c.env.fns[0].has_body = false;
    let items = completions(&analyzer(), &c, &idx, &None, Position { line: 0, character: 0 });
    let labels: Vec<&str> = items.iter().map(|i| i.label.as_str()).collect();
    assert_eq!(labels, vec!["main", "println"]);
    // A document that does not lex documents nothing; another file still does.
    assert_eq!(items[0].documentation, None);
    assert_eq!(items[1].documentation.as_deref(), Some("Print a line."));
}

#[test]
fn a_local_is_in_scope_after_it_is_bound_and_inside_its_function() {
    let (c, _) = fixture();
    let scope = |offset: usize| -> Vec<String> {
        locals_in_scope(&c, FIXTURE, offset).into_iter().map(|l| l.name).collect()
    };
    let total = first(FIXTURE, "total").start;
    assert_eq!(scope(total), names(&["total"]));
    assert_eq!(scope(total - 1), names(&[]));
    assert_eq!(scope(FIXTURE.find("a + b").expect("there")), names(&["b", "a"]));
    assert_eq!(scope(FIXTURE.len()), names(&[]));
}

#[test]
fn a_local_is_offered_once_as_its_innermost_binding() {
    // let x = 1; let q = x; { let x = "s"; let y = x; <cursor> }
    let src = "fn f() { let x = 1; let q = x; { let x = \"s\"; let y = x; } }";
    let mut c = Check::new();
    c.decl(Span { start: 0, end: src.len() }, DeclKind::Fn("f".to_string()));
    let binding = |needle: &str| {
        let start = src.find(needle).expect("there");
        Span { start, end: start + 1 }
    };
    let (outer, inner) = (binding("x = 1"), binding("x = \"s\""));
    c.name(binding("x; {"), site(&[], outer, DefKind::Local), "i64");
    c.name(binding("x; }"), site(&[], inner, DefKind::Local), "str");
    // A use of the first binding, after the second.
    let late = Span { start: src.len() - 2, end: src.len() - 1 };
    c.name(late, site(&[], outer, DefKind::Local), "i64");
    let c = c.done();
    let locals = |offset: usize| -> Vec<(String, String, usize)> {
        let found = locals_in_scope(&c, src, offset);
        found.into_iter().map(|l| (l.name, l.ty, l.start)).collect()
    };
    let bound = |ty: &str, at: Span| ("x".to_string(), ty.to_string(), at.start);
    assert_eq!(locals(src.len() - 2), vec![bound("str", inner)]);
    assert_eq!(locals(inner.start - 1), vec![bound("i64", outer)]);
}

#[test]
fn locals_are_listed_innermost_first() {
    let src = "fn f(a: i64) { let b = 1; let c = 2; a + b + c; }";
    let mut check = Check::new();
    check.decl(Span { start: 0, end: src.len() }, DeclKind::Fn("f".to_string()));
    let binding = |needle: &str| {
        let start = src.find(needle).expect("there");
        Span { start, end: start + 1 }
    };
    // In whatever order the checker lists the names.
    check.name(binding("b + c"), site(&[], binding("b = 1"), DefKind::Local), "i64");
    check.name(binding("c; }"), site(&[], binding("c = 2"), DefKind::Local), "i64");
    check.name(binding("a + b"), site(&[], binding("a: i64"), DefKind::Param), "i64");
    let c = check.done();
    let listed: Vec<String> =
        locals_in_scope(&c, src, src.len() - 2).into_iter().map(|l| l.name).collect();
    assert_eq!(listed, names(&["c", "b", "a"]));
}

/// A document in `util::raw` that declares and calls a function, beside a project file `util`.
fn nested_document() -> (Checked, LineIndex) {
    let src = "fn helper() {}\nfn g() { helper() }\n";
    let helper = between(src, "fn helper", "}");
    let mut check = Check::new();
    check.decl(helper, DeclKind::Fn("helper".to_string()));
    check.decl(between(src, "fn g", "}"), DeclKind::Fn("g".to_string()));
    check.fns.push(function("helper", &["util", "raw"], helper, &[], "()"));
    check.name(nth(src, "helper", 1), site(&["util", "raw"], helper, DefKind::Fn), "fn()");
    let mut c = check.done();
    c.doc_module = names(&["util", "raw"]);
    c.sources.push(Source {
        module: names(&["util"]),
        path: "/app/src/util.neon".to_string(),
        index: LineIndex::new("fn other() {}\n"),
        trivia: Vec::new(),
    });
    (c, LineIndex::new(src))
}

#[test]
fn a_name_of_the_documents_own_module_is_here() {
    let a = analyzer();
    let (mut c, idx) = nested_document();
    let pos = at(&idx, idx.text(), "helper() }");
    let edits = rename_at(&a, &c, &idx, pos).expect("the document's own name can be renamed");
    assert_eq!(edits.len(), 2, "{edits:?}");
    let place = definition_at(&a, &c, &idx, pos).expect("it is defined");
    assert_eq!(place.uri, "file:///fixture.neon");
    let (text, _) = hover_at(&a, &c, &idx, pos).expect("a call has a hover");
    assert_eq!(text, "```neon\nfn helper() -> ()\n```");

    // The same name as its neighbour's is not here.
    c.doc_module = names(&["app"]);
    assert!(rename_at(&a, &c, &idx, pos).is_none());
    let (text, _) = hover_at(&a, &c, &idx, pos).expect("a call has a hover");
    assert_eq!(text, "```neon\nfn helper() -> ()\n```\n\n---\n\n*in* `util::raw`");
}

#[test]
fn a_slice_is_a_span_of_the_text() {
    assert_eq!(slice("aéb", Span { start: 1, end: 3 }), Some("é"));
    assert_eq!(slice("aéb", Span { start: 1, end: 2 }), None);
    assert_eq!(slice("aéb", Span { start: 3, end: 1 }), None);
    assert_eq!(slice("aéb", Span { start: 3, end: 5 }), None);
    assert_eq!(slice("aéb", Span { start: 4, end: 4 }), Some(""));
}

#[test]
fn semantic_tokens_tell_parameters_from_locals_from_functions() {
    let (c, idx) = fixture();
    assert!(can_colour(&c, &idx));
    let toks = semantic_tokens(&c, &idx);
    let kinds: Vec<u32> = toks.iter().map(|t| t.token_type).collect();
    assert!(kinds.contains(&TOK_PARAMETER), "no parameter token: {kinds:?}");
    assert!(kinds.contains(&TOK_FUNCTION), "no function token: {kinds:?}");
    assert!(kinds.contains(&TOK_VARIABLE), "no variable token: {kinds:?}");
    assert_eq!(TOKEN_TYPES[TOK_FUNCTION as usize], TokenType::Function);
    assert_eq!(TOKEN_TYPES[TOK_PARAMETER as usize], TokenType::Parameter);
    assert_eq!(TOKEN_TYPES[TOK_VARIABLE as usize], TokenType::Variable);
}

#[test]
fn semantic_tokens_are_emitted_in_position_order() {
    let (c, idx) = fixture();
    for t in semantic_tokens(&c, &idx) {
        if t.delta_line == 0 {
            // Within a line, a delta of zero would mean two tokens at one place.
            assert!(t.delta_start > 0 || t.length == 0, "non-advancing token: {t:?}");
        }
    }
}

#[test]
fn tokens_read_back_where_they_stand() {
    let (mut c, idx) = fixture();
    // The walk may meet names in any order.
    c.module.exprs.reverse();
    let mut line = 0;
    let mut character = 0;
    let mut found = Vec::new();
    for t in semantic_tokens(&c, &idx) {
        if t.delta_line > 0 {
            character = 0;
        }
        line += t.delta_line;
        character += t.delta_start;
        found.push((line, character, t.length, t.token_type));
        assert_eq!(t.token_modifiers_bitset, 0);
    }
    assert_eq!(
        found,
        vec![
            (4, 32, 1, TOK_PARAMETER),
            (4, 36, 1, TOK_PARAMETER),
            (7, 16, 3, TOK_FUNCTION),
            (8, 4, 7, TOK_FUNCTION),
            (8, 15, 5, TOK_VARIABLE),
        ]
    );
}

#[test]
fn a_constant_is_coloured_as_a_variable_and_a_broken_line_not_at_all() {
    let text = "ab\ncd";
    let mut c = Check::new();
    let def = || site(&[], Span { start: 0, end: 2 }, DefKind::Const);
    c.name(Span { start: 1, end: 4 }, def(), "i64");
    c.name(Span { start: 3, end: 5 }, def(), "i64");
    let tokens = semantic_tokens(&c.done(), &LineIndex::new(text));
    assert_eq!(tokens.len(), 1);
    assert_eq!((tokens[0].delta_line, tokens[0].delta_start, tokens[0].length), (1, 0, 2));
    assert_eq!(tokens[0].token_type, TOK_VARIABLE);
}

#[test]
fn a_name_that_ends_before_it_begins_cannot_be_placed() {
    let mut c = Check::new();
    let def = site(&[], Span { start: 0, end: 2 }, DefKind::Local);
    c.name(Span { start: 2, end: 1 }, def, "i64");
    assert!(!can_colour(&c.done(), &LineIndex::new("abc")));
}

#[test]
fn a_selection_range_widens_from_the_binding_outwards() {
    let (c, idx) = fixture();
    let pos = at(&idx, FIXTURE, "total =");
    assert!(can_select(&c, &idx, pos));
    let chain = selection_range(&c, &idx, pos);
    assert!(chain.len() >= 2, "expected to widen at least once: {chain:?}");
    let before = |a: Position, b: Position| (a.line, a.character) <= (b.line, b.character);
    for pair in chain.windows(2) {
        let (inner, outer) = (pair[0], pair[1]);
        assert!(
            before(outer.start, inner.start) && before(inner.end, outer.end),
            "{outer:?} does not contain {inner:?}"
        );
    }
    // The pattern, the block and the function.
    assert_eq!(chain.len(), 3);
    assert_eq!(chain[2].start, at(&idx, FIXTURE, "fn main"));
    assert!(selection_range(&c, &idx, Position { line: 1, character: 0 }).is_empty());
}

#[test]
fn inlay_hints_are_only_for_bindings_that_did_not_write_a_type() {
    let src = "fn main() {\n    let a = 1;\n    let b: i64 = 2;\n}\n";
    let mut c = Check::new();
    let one = c.expr(first(src, "1"), ExprKind::Other, "i64");
    let start = src.find("a = 1").expect("there");
    c.let_(Span { start, end: start + 1 }, false, one);
    let two = c.expr(first(src, "2"), ExprKind::Other, "i64");
    let start = src.find("b: i64").expect("there");
    c.let_(Span { start, end: start + 1 }, true, two);
    let idx = LineIndex::new(src);
    let c = c.done();
    assert!(can_hint(&c, &idx));
    let hints = inlay_hints(&c, &idx);
    assert_eq!(hints.len(), 1, "only the un-annotated `let`: {hints:?}");
    assert_eq!(hints[0].1, ": i64");
    assert_eq!(hints[0].0, Position { line: 1, character: 9 });
}

#[test]
fn a_pattern_or_an_untyped_value_gets_no_hint() {
    let mut c = Check::new();
    let one = c.expr(Span { start: 0, end: 1 }, ExprKind::Other, "i64");
    c.let_(Span { start: 0, end: 1 }, false, one);
    c.module.lets[0].binds = false;
    c.let_(Span { start: 0, end: 1 }, false, ExprId(9));
    assert!(inlay_hints(&c.done(), &LineIndex::new("x")).is_empty());
}

#[test]
fn navigation_works_inside_a_nested_module() {
    let src = "mod inner {\n    fn f() -> i64 {\n        let x = 1;\n        x\n    }\n}\n";
    let a = analyzer();
    let mut c = Check::new();
    let x = first(src, "x");
    let one = c.expr(first(src, "1"), ExprKind::Other, "i64");
    c.let_(x, false, one);
    let start = src.find("x\n    }").expect("there");
    c.name(Span { start, end: start + 1 }, site(&["inner"], x, DefKind::Local), "i64");
    let c = c.done();
    let idx = LineIndex::new(src);

    let loc = definition_at(&a, &c, &idx, at(&idx, src, "x\n    }"))
        .expect("a local inside a mod has a definition");
    assert_eq!(loc.uri, "file:///fixture.neon", "it must point back at this file, not the stdlib");

    assert!(
        rename_at(&a, &c, &idx, at(&idx, src, "x = 1")).is_some(),
        "a local inside a mod is defined in this file and must be renameable"
    );
}

#[test]
fn document_symbols_nest_a_module_inside_itself() {
    let src = "mod inner { fn f() {} }\nfn g() {}\n";
    let mut c = Check::new();
    let inner = vec![Decl { span: first(src, "fn f() {}"), kind: DeclKind::Fn("f".to_string()) }];
    c.decl(
        first(src, "mod inner { fn f() {} }"),
        DeclKind::Mod { name: "inner".to_string(), decls: inner },
    );
    c.decl(first(src, "fn g() {}"), DeclKind::Fn("g".to_string()));
    let (c, idx) = (c.done(), LineIndex::new(src));
    assert!(can_outline(&c.module.decls, &idx));
    let syms = document_symbols(&c, &idx);
    let m = syms.iter().find(|s| s.name == "inner").expect("the module is listed");
    assert_eq!(m.children.len(), 1, "the module's function is nested inside it");
    assert_eq!(m.children[0].name, "f");
    assert!(syms.iter().any(|s| s.name == "g"), "the top-level function is listed");
    assert_eq!(m.kind, SymbolKind::Module);
    assert_eq!(m.children[0].range.start, Position { line: 0, character: 12 });
}

#[test]
fn every_kind_of_declaration_has_its_symbol() {
    let named = |s: &str| s.to_string();
    let kinds = vec![
        (DeclKind::Fn(named("f")), Some(SymbolKind::Function)),
        (DeclKind::Record(named("r")), Some(SymbolKind::Struct)),
        (DeclKind::Protocol(named("p")), Some(SymbolKind::Interface)),
        (DeclKind::TypeAlias(named("t")), Some(SymbolKind::TypeParameter)),
        (DeclKind::MuType(named("m")), Some(SymbolKind::TypeParameter)),
        (DeclKind::Newtype(named("n")), Some(SymbolKind::TypeParameter)),
        (DeclKind::Const(named("c")), Some(SymbolKind::Constant)),
        (DeclKind::Use, None),
        (DeclKind::TestBlock, None),
        (DeclKind::Error, None),
    ];
    for (kind, want) in kinds {
        let mut c = Check::new();
        c.decl(Span { start: 0, end: 1 }, kind);
        let syms = document_symbols(&c.done(), &LineIndex::new("x"));
        assert_eq!(syms.first().map(|s| s.kind), want);
    }
}

#[test]
fn an_implementation_is_a_group_named_by_what_it_implements() {
    let mut c = Check::new();
    let span = Span { start: 0, end: 3 };
    c.decl(
        span,
        DeclKind::Impl { protocol: names(&["std", "Show"]), methods: names(&["show", "debug"]) },
    );
    let idx = LineIndex::new("a\nb");
    let syms = document_symbols(&c.done(), &idx);
    assert_eq!(syms[0].name, "impl std::Show");
    assert_eq!(syms[0].kind, SymbolKind::Class);
    let methods: Vec<&str> = syms[0].children.iter().map(|s| s.name.as_str()).collect();
    assert_eq!(methods, vec!["show", "debug"]);
    // The methods carry the range of the whole.
    assert_eq!(syms[0].children[1].range, range(&idx, span));
    assert_eq!(syms[0].children[1].kind, SymbolKind::Method);
}

#[test]
fn folds_are_of_more_than_one_line() {
    let (c, idx) = fixture();
    assert!(can_fold(&c, &idx));
    // `main` and its block fold to the same lines; `add` is on one line.
    assert_eq!(folding_ranges(&c, &idx), vec![(6, 9)]);
}

#[test]
fn help_is_for_the_call_the_cursor_is_in() {
    let (c, idx) = fixture();
    let second = at(&idx, FIXTURE, "2);");
    let help = signature_help(&c, &idx, second).expect("it is in a call");
    assert_eq!(help.label, "fn add(a: i64, b: i64) -> i64");
    assert_eq!(help.parameters, names(&["a: i64", "b: i64"]));
    assert_eq!(help.active_parameter, 1);
    // Between the arguments, the last one counts.
    let comma = at(&idx, FIXTURE, ", 2);");
    assert_eq!(signature_help(&c, &idx, comma).expect("it is in a call").active_parameter, 1);
    let first = at(&idx, FIXTURE, "1, 2);");
    assert_eq!(signature_help(&c, &idx, first).expect("it is in a call").active_parameter, 0);
    assert!(signature_help(&c, &idx, at(&idx, FIXTURE, "total =")).is_none());
}

#[test]
fn help_is_for_the_innermost_call() {
    // f(g(1)): the cursor on the 1 is in both.
    let src = "f(g(1))";
    let mut c = Check::new();
    let f = site(&[], Span { start: 100, end: 101 }, DefKind::Fn);
    let g = site(&[], Span { start: 200, end: 201 }, DefKind::Fn);
    c.fns.push(function("f", &[], f.span, &[("x", "i64")], "i64"));
    c.fns.push(function("g", &[], g.span, &[], "i64"));
    let args = vec![Span { start: 2, end: 6 }];
    c.expr(Span { start: 0, end: 7 }, ExprKind::Call { callee: ExprId(1), args }, "i64");
    c.name(Span { start: 0, end: 1 }, f, "fn");
    let args = vec![Span { start: 4, end: 5 }];
    c.expr(Span { start: 2, end: 6 }, ExprKind::Call { callee: ExprId(3), args }, "i64");
    c.name(Span { start: 2, end: 3 }, g, "fn");
    let (c, idx) = (c.done(), LineIndex::new(src));
    let label = |n: u32| {
        signature_help(&c, &idx, Position { line: 0, character: n }).map(|h| h.label)
    };
    assert_eq!(label(4).as_deref(), Some("fn g() -> i64"));
    assert_eq!(label(6).as_deref(), Some("fn f(x: i64) -> i64"));
    assert_eq!(label(7), None);
}

#[test]
fn a_signature_reads_like_its_declaration() {
    let mut sig = function("sort", &["std"], first(STD_IO, "fn"), &[("xs", "List[T]")], "List[T]");
    assert_eq!(signature(&sig), "fn sort(xs: List[T]) -> List[T]");
    sig.generics = names(&["T", "U"]);
    sig.throws = ty("str");
    sig.wheres = vec![
        ("T".to_string(), names(&["std", "Ord"])),
        ("U".to_string(), names(&["Show"])),
    ];
    assert_eq!(
        signature(&sig),
        "fn sort[T, U](xs: List[T]) throws str -> List[T] where T: std::Ord, U: Show"
    );
    assert_eq!(fenced("x"), "```neon\nx\n```");
}

fn docs_for(src: &str, needle: &str) -> Option<String> {
    let span = first(src, needle);
    let trivia = comments(src);
    assert!(docs_fit(src, &trivia, span));
    doc_above(src, &trivia, span)
}

#[test]
fn a_doc_run_is_joined_in_source_order() {
    let d = docs_for("/// one\n/// two\nfn f() {}", "fn f").expect("there is documentation");
    assert_eq!(d, "one\ntwo");
}

#[test]
fn a_blank_line_ends_the_run() {
    assert_eq!(docs_for("/// for the other one\n\nfn f() {}", "fn f"), None);
    assert_eq!(
        docs_for("/// far\n\n/// near\nfn f() {}", "fn f").as_deref(),
        Some("near")
    );
}

#[test]
fn an_ordinary_comment_is_not_documentation() {
    assert_eq!(docs_for("// just a note\nfn f() {}", "fn f"), None);
    assert_eq!(docs_for("/// above\n// a note\nfn f() {}", "fn f"), None);
}

#[test]
fn a_declaration_with_nothing_above_it_has_no_documentation() {
    assert_eq!(docs_for("fn f() {}", "fn f"), None);
    assert_eq!(docs_for("fn f() {}\n/// below", "fn f"), None);
}

#[test]
fn anything_but_white_space_in_between_ends_the_run() {
    assert_eq!(docs_for("/// one\npub fn f() {}", "fn f"), None);
}

#[test]
fn documentation_cannot_be_cut_inside_a_character() {
    let src = "/// é\nfn f() {}";
    let trivia = vec![Trivia {
        kind: TriviaKind::Doc,
        span: Span { start: 0, end: 5 },
        text: "é".to_string(),
    }];
    assert!(!docs_fit(src, &trivia, Span { start: 7, end: 9 }));
    assert!(!docs_fit(src, &comments(src), Span { start: 99, end: 100 }));
}

#[test]
fn a_span_fits_where_its_ends_begin_characters() {
    let idx = LineIndex::new("aé\nb");
    assert!(fits(&idx, Span { start: 1, end: 3 }));
    assert!(!fits(&idx, Span { start: 2, end: 3 }));
    assert!(!fits(&idx, Span { start: 1, end: 2 }));
    // Past the end is the end.
    assert!(fits(&idx, Span { start: 4, end: 99 }));
    assert!(all_fit(&idx, &[Span { start: 0, end: 1 }, Span { start: 3, end: 4 }]));
    assert!(!all_fit(&idx, &[Span { start: 0, end: 1 }, Span { start: 2, end: 4 }]));
    assert!(boundary("é", 0) && !boundary("é", 1) && boundary("é", 2) && !boundary("é", 3));
}

#[test]
fn a_stale_check_is_told_from_one_that_fits() {
    let a = analyzer();
    let (c, idx) = fixture();
    let pos = at(&idx, FIXTURE, "total =");
    // The document has changed under the check: every odd offset is inside a character.
    let stale = LineIndex::new(&"é".repeat(200));
    let lexed = Some(Vec::new());
    let under = innermost(&c, &idx, pos);
    let target = stale.position(first(FIXTURE, "total").start + 1);
    assert!(!can_hover(&a, &c, &stale, &lexed, under, target));
    assert!(!can_refer(&a, &c, &stale, under, target));
    assert!(!can_rename(&a, &c, &stale, under, target));
    assert!(!can_select(&c, &stale, target));
    let odd = |s: &Span| s.start % 2 == 1 || s.end % 2 == 1;
    let decls = c.module.decls.iter().filter(|d| !matches!(d.kind, DeclKind::Use));
    assert_eq!(can_outline(&c.module.decls, &stale), !decls.map(|d| d.span).any(|s| odd(&s)));
    let folded = c.module.decls.iter().map(|d| d.span).chain(c.module.blocks.iter().copied());
    assert_eq!(can_fold(&c, &stale), !folded.into_iter().any(|s| odd(&s)));
    let mut named = c.module.exprs.iter().filter(|e| matches!(e.kind, ExprKind::Path));
    assert_eq!(can_colour(&c, &stale), !named.any(|e| odd(&e.span)));
    assert_eq!(can_hint(&c, &stale), c.module.lets[0].pattern.end % 2 == 0);
}
