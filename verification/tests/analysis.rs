use neon_lsp::analysis::{
    destination, Analysis, Analyzer, Checked, Destination, Diagnostic, Fix, Outcome, Project,
    Severity, Source, Step, StdModule, Suggestion, SyntaxError, TypeError, TypeErrorKind, Warning,
};
use neon_lsp::position::LineIndex;
use neon_lsp::project::{
    discover, found, gather, in_file_order, is_neon, join_path, module_of, role, sibling_text,
    slashed, Found, Role,
};
use neon_lsp::syntax::{Env, Module, Span, Trivia, TriviaKind, TypecheckResult};

const ENTRY: &str =
    "use std::io;\nuse util;\n\nfn main() {\n    io::println(util::greet());\n}\n";
const UTIL: &str = "fn greet() -> str { \"hi\" }\n";

fn names(parts: &[&str]) -> Vec<String> {
    parts.iter().map(|p| p.to_string()).collect()
}

/// An analyzer over a stdlib of one file.
fn analyzer() -> Analyzer {
    let sources = vec![("std/io.neon".to_string(), "fn println(s: str) {}\n".to_string())];
    let modules = vec![StdModule { path: names(&["std", "io"]), trivia: Some(Vec::new()) }];
    Analyzer::new("/std", &sources, Ok((modules, 7))).expect("the stdlib parses")
}

/// What the compiler names a file's module.
fn named_by(rel: &str) -> Vec<String> {
    rel.trim_end_matches(".neon").split('/').map(|p| p.to_string()).collect()
}

/// A project of files in memory, as the analysis of `doc` sees it. `overlays` are the open
/// buffers.
fn project(files: &[(&str, &str)], doc: &str, overlays: &[(String, String)]) -> Project {
    let mut layout: Vec<(String, String)> = Vec::new();
    for (rel, _) in files {
        layout.push((rel.to_string(), join_path("/app/src", rel)));
    }
    let mut all = Vec::new();
    for (rel, path) in in_file_order(layout) {
        let module = module_of(&rel, named_by(&rel));
        let on_disk = files.iter().find(|(r, _)| *r == rel).map(|(_, text)| text.to_string());
        let role = role(&path, doc, overlays);
        let text = sibling_text(role, overlays, on_disk);
        all.push(found(role, module, path, text, Some(None)));
    }
    gather(all)
}

fn syntax() -> Module {
    Module {
        decls: Vec::new(),
        exprs: Vec::new(),
        patterns: Vec::new(),
        blocks: Vec::new(),
        lets: Vec::new(),
    }
}

fn error(module: &[&str], start: usize, message: &str) -> TypeError {
    TypeError {
        module: names(module),
        span: Span { start, end: start + 2 },
        message: message.to_string(),
        labels: Vec::new(),
        help: None,
        kind: TypeErrorKind::Other,
    }
}

fn warning(module: &[&str], message: &str) -> Warning {
    Warning {
        module: names(module),
        span: Span { start: 0, end: 1 },
        message: message.to_string(),
        lint: "unused".to_string(),
    }
}

/// Drive a run of the front end to its end: every stage before the checker is clean.
fn run(
    analyzer: &Analyzer,
    project: Project,
    errors: Vec<TypeError>,
    warnings: Vec<Warning>,
) -> Analysis {
    assert!(matches!(analyzer.analyze(Outcome::Lexed(Ok(()))), Step::Parse));
    let parsed = Outcome::Parsed { errors: Vec::new(), tree: true };
    assert!(matches!(analyzer.analyze(parsed), Step::Expand));
    assert!(matches!(analyzer.analyze(Outcome::Expanded { errors: Vec::new() }), Step::Build));
    let project = match analyzer.analyze(Outcome::Built { errors: Vec::new(), project }) {
        Step::Check(project) => project,
        _ => panic!("clean declarations are checked"),
    };
    let outcome = Outcome::Checked {
        errors,
        warnings,
        module: syntax(),
        result: TypecheckResult { defs: Vec::new(), types: Vec::new() },
        env: Env { fns: Vec::new() },
        project,
    };
    done(analyzer.analyze(outcome))
}

fn done(step: Step) -> Analysis {
    match step {
        Step::Done(analysis) => analysis,
        _ => panic!("expected the end of the run"),
    }
}

fn messages(diagnostics: &[Diagnostic]) -> Vec<&str> {
    diagnostics.iter().map(|d| d.message.as_str()).collect()
}

fn syntax_error(message: &str) -> SyntaxError {
    SyntaxError { span: Span { start: 3, end: 5 }, message: message.to_string() }
}

#[test]
fn a_module_resolves_its_siblings() {
    let a = analyzer();
    let files = [("main.neon", ENTRY), ("util.neon", UTIL)];

    // The entry sees the module...
    let entry = run(&a, project(&files, "/app/src/main.neon", &[]), Vec::new(), Vec::new());
    assert!(entry.diagnostics.is_empty());
    // ...and its check knows which file `util` is, so a jump can open it.
    let checked = entry.checked.expect("clean check");
    let src = checked.source_of(&a, &["util".to_string()]).expect("util has a file");
    assert!(src.path.ends_with("util.neon"));

    // The module, analyzed as the open document, sees the entry the same way.
    let around = project(&files, "/app/src/util.neon", &[]);
    assert_eq!(around.doc_module, names(&["util"]));
    assert_eq!(around.sources.len(), 1);
    assert!(around.sources[0].path.ends_with("main.neon"));
    let util = run(&a, around, Vec::new(), Vec::new());
    assert!(util.diagnostics.is_empty());
}

#[test]
fn a_siblings_error_is_routed_to_its_file_not_mine() {
    let broken = "fn greet() -> str { 41 }\n";
    let a = analyzer();
    let around = project(
        &[("main.neon", ENTRY), ("util.neon", broken)],
        "/app/src/main.neon",
        &[],
    );
    // The checker's one error is inside util's body.
    let errors = vec![error(&["util"], 20, "expected str, found i64")];
    let entry = run(&a, around, errors, Vec::new());
    assert!(entry.diagnostics.is_empty(), "the entry did nothing wrong");
    let (path, text, ds) = entry
        .foreign
        .iter()
        .find(|(p, _, _)| p.ends_with("util.neon"))
        .expect("util.neon has an entry");
    assert!(path.ends_with("util.neon"));
    assert_eq!(text, broken);
    assert_eq!(ds.len(), 1, "{ds:?}");
}

#[test]
fn an_open_buffer_overlays_its_disk_file() {
    let broken = "fn greet() -> str { 41 }\n";
    let a = analyzer();
    // util.neon is broken on disk, but the editor's buffer has fixed it: the analysis of main
    // must see the buffer, not the file.
    let overlays = vec![("/app/src/util.neon".to_string(), UTIL.to_string())];
    let around = project(
        &[("main.neon", ENTRY), ("util.neon", broken)],
        "/app/src/main.neon",
        &overlays,
    );
    assert_eq!(around.sources[0].index.text(), UTIL);
    let entry = run(&a, around, Vec::new(), Vec::new());
    assert!(entry.diagnostics.is_empty());
    let (_, text, ds) = entry
        .foreign
        .iter()
        .find(|(p, _, _)| p.ends_with("util.neon"))
        .expect("util.neon has an entry");
    assert_eq!(text, UTIL);
    assert!(ds.is_empty(), "the overlay fixed it: {ds:?}");
}

#[test]
fn only_the_file_in_error_shows_errors() {
    let files = [("main.neon", ENTRY), ("net.neon", UTIL), ("util.neon", UTIL)];
    let around = || project(&files, "/app/src/main.neon", &[]);
    let counts = |out: &Analysis| -> Vec<usize> { out.foreign.iter().map(|f| f.2.len()).collect() };
    let errors = vec![error(&["util"], 0, "one"), error(&["util"], 2, "two")];
    let out = run(&analyzer(), around(), errors, vec![warning(&["util"], "three")]);
    assert!(out.diagnostics.is_empty());
    assert_eq!(counts(&out), vec![0, 3]);
    let out = run(&analyzer(), around(), Vec::new(), Vec::new());
    assert!(out.diagnostics.is_empty());
    assert_eq!(counts(&out), vec![0, 0]);
}

#[test]
fn a_siblings_text_is_its_buffers_or_else_the_disks() {
    let overlays = [("/u".to_string(), "open".to_string())];
    let disk = || Some("disk".to_string());
    assert_eq!(sibling_text(Role::Buffer(0), &overlays, disk()).as_deref(), Some("open"));
    assert_eq!(sibling_text(Role::Buffer(0), &overlays, None).as_deref(), Some("open"));
    assert_eq!(sibling_text(Role::OnDisk, &overlays, disk()).as_deref(), Some("disk"));
    assert_eq!(sibling_text(Role::OnDisk, &overlays, None), None);
    assert_eq!(sibling_text(Role::Document, &overlays, disk()), None);

    let file = |role, text: Option<&str>, parsed| {
        found(role, names(&["u"]), "/u".to_string(), text.map(|t| t.to_string()), parsed)
    };
    assert!(matches!(file(Role::Document, None, None), Found::Document { .. }));
    assert!(matches!(file(Role::OnDisk, None, None), Found::Skipped));
    assert!(matches!(file(Role::OnDisk, Some("x"), None), Found::Skipped));
    match file(Role::Buffer(0), Some("x"), Some(None)) {
        Found::Parsed { module, path, text, trivia } => {
            assert_eq!((module, path.as_str(), text.as_str()), (names(&["u"]), "/u", "x"));
            assert!(trivia.is_none());
        }
        _ => panic!("it parses"),
    }
}

#[test]
fn a_lone_file_is_not_a_project() {
    let a = analyzer();
    let out = run(&a, gather(Vec::new()), Vec::new(), Vec::new());
    assert!(out.diagnostics.is_empty());
    assert!(out.foreign.is_empty());
    assert!(out.checked.expect("clean").sources.is_empty());
}

#[test]
fn the_first_stage_that_fails_ends_the_run() {
    let a = analyzer();
    let lexed = done(a.analyze(Outcome::Lexed(Err(vec![syntax_error("bad token")]))));
    assert_eq!(messages(&lexed.diagnostics), vec!["bad token"]);
    assert_eq!(lexed.diagnostics[0].span, Span { start: 3, end: 5 });
    assert_eq!(lexed.diagnostics[0].severity, Severity::Error);
    assert!(lexed.diagnostics[0].code.is_none() && lexed.diagnostics[0].help.is_none());
    assert!(lexed.checked.is_none() && lexed.foreign.is_empty());

    let errors = vec![syntax_error("one"), syntax_error("two")];
    let parsed = done(a.analyze(Outcome::Parsed { errors, tree: true }));
    assert_eq!(messages(&parsed.diagnostics), vec!["one", "two"]);

    let expanded =
        done(a.analyze(Outcome::Expanded { errors: vec![syntax_error("no such key")] }));
    assert_eq!(messages(&expanded.diagnostics), vec!["no such key"]);

    let project = gather(vec![Found::Parsed {
        module: names(&["util"]),
        path: "/app/src/util.neon".to_string(),
        text: UTIL.to_string(),
        trivia: None,
    }]);
    let errors = vec![error(&[], 0, "mine"), error(&["util"], 0, "theirs")];
    let built = done(a.analyze(Outcome::Built { errors, project }));
    assert_eq!(messages(&built.diagnostics), vec!["mine"]);
    assert_eq!(messages(&built.foreign[0].2), vec!["theirs"]);
    assert!(built.checked.is_none());
}

#[test]
fn a_lexer_that_fails_without_a_word_still_ends_the_run() {
    let out = done(analyzer().analyze(Outcome::Lexed(Err(Vec::new()))));
    assert!(out.diagnostics.is_empty() && out.checked.is_none());
}

#[test]
fn a_parse_without_a_tree_shows_nothing() {
    let out = done(analyzer().analyze(Outcome::Parsed { errors: Vec::new(), tree: false }));
    assert!(out.diagnostics.is_empty() && out.checked.is_none());
}

#[test]
fn without_a_stdlib_only_syntax_is_checked() {
    let a = Analyzer::syntax_only();
    assert!(a.sources().is_empty());
    assert_eq!(a.next_id(), 0);
    let out = done(a.analyze(Outcome::Expanded { errors: Vec::new() }));
    assert!(out.diagnostics.is_empty() && out.checked.is_none());
    let out = done(a.analyze(Outcome::Expanded { errors: vec![syntax_error("bad")] }));
    assert_eq!(messages(&out.diagnostics), vec!["bad"]);
}

#[test]
fn a_warning_comes_after_the_errors_and_withholds_nothing() {
    let errors = vec![error(&[], 4, "wrong type")];
    let warnings = vec![warning(&[], "unused name"), warning(&["std", "io"], "not yours")];
    let out = run(&analyzer(), gather(Vec::new()), errors, warnings);
    assert_eq!(messages(&out.diagnostics), vec!["wrong type", "unused name"]);
    assert_eq!(out.diagnostics[1].severity, Severity::Warning);
    assert_eq!(out.diagnostics[1].code.as_deref(), Some("unused"));
    assert!(out.checked.is_some());
}

#[test]
fn a_siblings_warning_follows_its_errors() {
    let around = project(&[("main.neon", ENTRY), ("util.neon", UTIL)], "/app/src/main.neon", &[]);
    let errors = vec![error(&["util", "raw"], 0, "nested")];
    let warnings = vec![warning(&["util"], "unused")];
    let out = run(&analyzer(), around, errors, warnings);
    assert!(out.diagnostics.is_empty());
    assert_eq!(messages(&out.foreign[0].2), vec!["nested", "unused"]);
}

#[test]
fn an_unparseable_stdlib_is_reported() {
    let message = Analyzer::new("/std", &[], Err("line 3: oops".to_string())).err();
    assert_eq!(message.as_deref(), Some("line 3: oops"));
}

#[test]
fn the_stdlib_knows_where_its_files_are() {
    let sources = vec![
        ("std/io.neon".to_string(), "fn println(s: str) {}\n".to_string()),
        ("std/list.neon".to_string(), "\n".to_string()),
    ];
    let modules = vec![
        StdModule { path: names(&["std", "io"]), trivia: None },
        StdModule {
            path: names(&["std", "list"]),
            trivia: Some(vec![Trivia {
                kind: TriviaKind::Other,
                span: Span { start: 0, end: 1 },
                text: "x".to_string(),
            }]),
        },
    ];
    let a = Analyzer::new("/std", &sources, Ok((modules, 99))).expect("it parses");
    assert_eq!(a.next_id(), 99);
    assert_eq!(a.sources().len(), 2);
    assert_eq!(a.sources()[0].path, "/std/std/io.neon");
    assert_eq!(a.sources()[0].module, names(&["std", "io"]));
    assert_eq!(a.sources()[0].index.text(), "fn println(s: str) {}\n");
    assert!(a.sources()[0].trivia.is_empty());
    assert_eq!(a.sources()[1].trivia.len(), 1);
}

#[test]
fn only_a_missing_import_has_a_fix() {
    let mut unknown_name = error(&[], 0, "unknown name");
    unknown_name.kind = TypeErrorKind::UnknownName {
        suggestion: Some(Suggestion::AddUse { path: "std::io".to_string() }),
    };
    unknown_name.help = Some("add `use std::io;`".to_string());
    unknown_name.labels = vec![(Span { start: 9, end: 10 }, "used here".to_string())];
    let mut unknown = error(&[], 0, "unknown");
    unknown.kind = TypeErrorKind::Unknown {
        suggestion: Some(Suggestion::AddUse { path: "util".to_string() }),
    };
    let mut mistyped = error(&[], 0, "did you mean");
    mistyped.kind = TypeErrorKind::UnknownName { suggestion: Some(Suggestion::Other) };
    let out =
        run(&analyzer(), gather(Vec::new()), vec![unknown_name, unknown, mistyped], Vec::new());
    match &out.diagnostics[0].fix {
        Some(Fix::InsertUse(path)) => assert_eq!(path, "std::io"),
        None => panic!("a missing import has a fix"),
    }
    assert_eq!(out.diagnostics[0].help.as_deref(), Some("add `use std::io;`"));
    assert_eq!(out.diagnostics[0].labels[0].1, "used here");
    match &out.diagnostics[1].fix {
        Some(Fix::InsertUse(path)) => assert_eq!(path, "util"),
        None => panic!("a missing import has a fix"),
    }
    assert!(out.diagnostics[2].fix.is_none());
}

fn file(module: &[&str], path: &str) -> Source {
    Source {
        module: names(module),
        path: path.to_string(),
        index: LineIndex::new(""),
        trivia: Vec::new(),
    }
}

#[test]
fn a_diagnostic_goes_to_the_file_that_holds_its_module() {
    let files =
        [file(&[], "main"), file(&["util"], "util"), file(&["util", "raw"], "raw")];
    let to = |module: &[&str], doc: &[&str]| destination(&names(module), &names(doc), &files);
    assert_eq!(to(&["app"], &["app"]), Destination::Own);
    assert_eq!(to(&["util"], &["app"]), Destination::File(1));
    assert_eq!(to(&["util", "inner"], &["app"]), Destination::File(1));
    assert_eq!(to(&["util", "raw", "deep"], &["app"]), Destination::File(2));
    // The document's own nested modules.
    assert_eq!(to(&["app", "inner"], &["app"]), Destination::Own);
    // The longer prefix wins over the document, and the document over a shorter or equal one.
    assert_eq!(to(&["util", "raw", "deep"], &["util"]), Destination::File(2));
    assert_eq!(to(&["util", "x", "y"], &["util", "x"]), Destination::Own);
    // The entry is found for the root module alone: it would claim everything.
    assert_eq!(to(&[], &["app"]), Destination::File(0));
    assert_eq!(to(&["std", "io"], &["app"]), Destination::Nowhere);
    assert_eq!(to(&["std", "io"], &[]), Destination::Nowhere);
}

/// A check of a document that declares `doc`, with other project files.
fn checked(doc: &[&str], sources: Vec<Source>) -> Checked {
    Checked {
        module: syntax(),
        doc_module: names(doc),
        result: TypecheckResult { defs: Vec::new(), types: Vec::new() },
        env: Env { fns: Vec::new() },
        sources,
    }
}

#[test]
fn the_file_of_a_module_is_the_longest_prefix() {
    let a = analyzer();
    let sources = vec![file(&[], "main"), file(&["util"], "util"), file(&["std"], "std")];
    let checked = checked(&["app"], sources);
    let path = |module: &[&str]| checked.source_of(&a, &names(module)).map(|s| s.path.as_str());
    assert_eq!(path(&["util"]), Some("util"));
    assert_eq!(path(&["util", "raw"]), Some("util"));
    assert_eq!(path(&["std", "io"]), Some("/std/std/io.neon"));
    assert_eq!(path(&["std", "io", "raw"]), Some("/std/std/io.neon"));
    assert_eq!(path(&["std", "list"]), Some("std"));
    assert_eq!(path(&[]), Some("main"));
    assert_eq!(path(&["inner"]), None);
}

#[test]
fn a_project_file_comes_before_the_stdlib() {
    let a = analyzer();
    let c = checked(&[], vec![file(&["std", "io"], "mine")]);
    // Both declare it, and both enclose what is nested in it by the same path.
    for module in [names(&["std", "io"]), names(&["std", "io", "raw"])] {
        assert_eq!(c.source_of(&a, &module).map(|s| s.path.as_str()), Some("mine"));
    }
    // A longer path is nearer, whoever has it.
    let c = checked(&[], vec![file(&["std"], "mine")]);
    let raw = names(&["std", "io", "raw"]);
    assert_eq!(c.source_of(&a, &raw).map(|s| s.path.as_str()), Some("/std/std/io.neon"));
}

#[test]
fn the_document_holds_its_own_module() {
    let a = analyzer();
    let c = checked(&["util", "raw"], vec![file(&[], "main"), file(&["util"], "util")]);
    let path = |module: &[&str]| c.source_of(&a, &names(module)).map(|s| s.path.as_str());
    assert_eq!(path(&["util", "raw"]), None);
    assert_eq!(path(&["util", "raw", "inner"]), None);
    assert_eq!(path(&["util", "other"]), Some("util"));
    assert_eq!(path(&[]), Some("main"));
    assert_eq!(path(&["std", "io"]), Some("/std/std/io.neon"));

    // Also where the stdlib has a module of that name, or a deeper one.
    let c = checked(&["std", "io"], Vec::new());
    assert!(c.source_of(&a, &names(&["std", "io"])).is_none());
    let c = checked(&["std"], Vec::new());
    assert!(c.source_of(&a, &names(&["std", "list"])).is_none());
    let io = names(&["std", "io"]);
    assert_eq!(c.source_of(&a, &io).map(|s| s.path.as_str()), Some("/std/std/io.neon"));
}

#[test]
fn a_check_keeps_the_documents_module() {
    let around = project(&[("main.neon", ENTRY), ("util.neon", UTIL)], "/app/src/util.neon", &[]);
    let out = run(&analyzer(), around, Vec::new(), Vec::new());
    assert_eq!(out.checked.expect("it was checked").doc_module, names(&["util"]));
}

#[test]
fn a_project_is_found_by_its_innermost_manifest() {
    let doc = names(&["home", "app", "src", "net", "http.neon"]);
    // Which of /, /home, /home/app, /home/app/src, /home/app/src/net has a manifest.
    assert_eq!(discover(&doc, &[false, false, true, false, false]), Some(2));
    assert_eq!(discover(&doc, &[true, false, true, false, false]), Some(2));
    // The innermost one counts, even where the document is not under its sources.
    assert_eq!(discover(&doc, &[false, false, true, true, false]), None);
    assert_eq!(discover(&doc, &[false, true, false, false, false]), None);
    assert_eq!(discover(&doc, &[false, false, false, false, false]), None);
    assert_eq!(discover(&[], &[]), None);
}

#[test]
fn only_neon_files_are_sources() {
    assert!(is_neon("main.neon"));
    assert!(is_neon("a.b.neon"));
    assert!(!is_neon(".neon"));
    assert!(!is_neon("neon"));
    assert!(!is_neon("main.neo"));
    assert!(!is_neon("main.neon.bak"));
    assert!(!is_neon("main.NEON"));
}

#[test]
fn names_below_a_directory_use_slashes() {
    assert_eq!(slashed("net\\http.neon"), "net/http.neon");
    assert_eq!(slashed("é/x"), "é/x");
    assert_eq!(join_path("/app", "src"), "/app/src");
    assert_eq!(join_path("/app/", "src"), "/app/src");
    assert_eq!(join_path("/app", "/etc"), "/etc");
    assert_eq!(join_path("", "src"), "src");
    assert_eq!(join_path("/app", ""), "/app/");
}

#[test]
fn the_entry_is_the_root_module() {
    assert_eq!(module_of("main.neon", names(&["main"])), names(&[]));
    assert_eq!(module_of("net/main.neon", names(&["net", "main"])), names(&["net", "main"]));
}

#[test]
fn project_files_are_listed_in_order() {
    let pair = |a: &str, b: &str| (a.to_string(), b.to_string());
    let files = vec![pair("util.neon", "/u"), pair("main.neon", "/m"), pair("a/b.neon", "/b")];
    let mut want = files.clone();
    want.sort();
    assert_eq!(in_file_order(files), want);
}

#[test]
fn a_sibling_that_does_not_parse_is_skipped() {
    let out = gather(vec![
        Found::Skipped,
        Found::Document { module: names(&["app"]) },
        Found::Parsed {
            module: names(&["util"]),
            path: "/u".to_string(),
            text: "é".to_string(),
            trivia: Some(vec![Trivia {
                kind: TriviaKind::Doc,
                span: Span { start: 0, end: 2 },
                text: "t".to_string(),
            }]),
        },
    ]);
    assert_eq!(out.doc_module, names(&["app"]));
    assert_eq!(out.sources.len(), 1);
    assert_eq!(out.sources[0].index.text(), "é");
    assert_eq!(out.sources[0].trivia[0].text, "t");
}
