use neon_lsp::ansi::{condense, strip_ansi};
use neon_lsp::toolchain::{
    candidate, exe_name, find_compiler, load, Choice, Failure, Load, Output, Probe,
};

fn texts(parts: &[&str]) -> Vec<String> {
    parts.iter().map(|p| p.to_string()).collect()
}

fn output(success: bool, stdout: &str, stderr: &str) -> Output {
    Output {
        success,
        status: "exit status: 1".to_string(),
        stdout: stdout.to_string(),
        stderr: stderr.to_string(),
    }
}

fn reason(next: Load) -> String {
    match next {
        Load::Done(Err(Failure::Unusable { program, reason })) => {
            assert_eq!(program, "/bin/neon");
            reason
        }
        _ => panic!("expected an unusable compiler"),
    }
}

fn ran(run: Result<Output, String>) -> Load {
    load(Probe::Ran { program: "/bin/neon".to_string(), run })
}

fn read(dir: &str, collected: Result<Vec<(String, String)>, String>) -> Load {
    load(Probe::Read { program: "/bin/neon".to_string(), dir: dir.to_string(), collected })
}

#[test]
fn a_missing_compiler_is_explained_in_one_line() {
    let failure = Failure::NotFound { looked: texts(&["/opt/neon", "PATH"]) };
    assert_eq!(
        failure.message(),
        "neon-lsp cannot find the `neon` compiler, so it can only report syntax errors — type \
         errors will not appear. Looked in: '/opt/neon', 'PATH'. Put `neon` on PATH, or set \
         NEON_LSP_COMPILER to its full path."
    );
}

#[test]
fn an_unusable_compiler_is_explained_in_one_line() {
    let failure = Failure::Unusable {
        program: "/bin/neon".to_string(),
        reason: "It said: no.".to_string(),
    };
    assert_eq!(
        failure.message(),
        "neon-lsp found `/bin/neon` but it reported no usable stdlib, so only syntax errors will \
         appear. It said: no. Set NEON_SYSROOT to a sysroot containing `stdlib/`."
    );
}

#[test]
fn the_override_is_taken_as_given() {
    let (choice, looked) =
        find_compiler(true, Some(("/opt/neon".to_string(), true)), Some(vec![true]));
    assert_eq!(choice, Some(Choice::Override));
    assert_eq!(looked, texts(&[]));
}

#[test]
fn side_by_side_beats_the_path() {
    let (choice, looked) =
        find_compiler(false, Some(("/opt/neon".to_string(), true)), Some(vec![true]));
    assert_eq!(choice, Some(Choice::Sibling));
    assert_eq!(looked, texts(&["/opt/neon"]));
}

#[test]
fn the_first_directory_of_the_path_that_has_it_wins() {
    let (choice, looked) = find_compiler(
        false,
        Some(("/opt/neon".to_string(), false)),
        Some(vec![false, true, true]),
    );
    assert_eq!(choice, Some(Choice::OnPath(1)));
    assert_eq!(looked, texts(&["/opt/neon"]));
}

#[test]
fn what_was_tried_in_vain_is_named() {
    let (choice, looked) =
        find_compiler(false, Some(("/opt/neon".to_string(), false)), Some(vec![false]));
    assert_eq!(choice, None);
    assert_eq!(looked, texts(&["/opt/neon", "PATH"]));
    assert_eq!(find_compiler(false, None, None), (None, texts(&[])));
    assert_eq!(find_compiler(false, None, Some(vec![])), (None, texts(&["PATH"])));
}

#[test]
fn the_executable_is_looked_for_in_a_directory() {
    assert_eq!(exe_name(false), "neon");
    assert_eq!(exe_name(true), "neon.exe");
    assert_eq!(candidate("/usr/bin", false), "/usr/bin/neon");
    assert_eq!(candidate("/", false), "/neon");
    assert_eq!(candidate("", false), "neon");
}

#[test]
fn without_a_compiler_there_is_no_stdlib() {
    match load(Probe::Found { program: None, looked: texts(&["PATH"]) }) {
        Load::Done(Err(Failure::NotFound { looked })) => assert_eq!(looked, texts(&["PATH"])),
        _ => panic!("expected that there is none"),
    }
    match load(Probe::Found { program: Some("/bin/neon".to_string()), looked: texts(&[]) }) {
        Load::Run { program } => assert_eq!(program, "/bin/neon"),
        _ => panic!("expected to run it"),
    }
}

#[test]
fn what_the_compiler_prints_is_the_directory() {
    match ran(Ok(output(true, " /usr/lib/neon/stdlib\n", "a warning"))) {
        Load::Read { program, dir } => {
            assert_eq!(program, "/bin/neon");
            assert_eq!(dir, "/usr/lib/neon/stdlib");
        }
        _ => panic!("expected to read the directory"),
    }
}

#[test]
fn a_compiler_that_refuses_is_quoted() {
    assert_eq!(reason(ran(Err("denied".to_string()))), "Running it failed: denied.");
    assert_eq!(reason(ran(Ok(output(false, "", " \n")))), "It exited with exit status: 1.");
    assert_eq!(
        reason(ran(Ok(output(false, "", "Error: \n   0: no sysroot\n")))),
        "It said: no sysroot"
    );
}

#[test]
fn a_directory_without_sources_is_of_no_use() {
    assert_eq!(
        reason(read("", Ok(Vec::new()))),
        "It printed nothing where a stdlib path was expected."
    );
    assert_eq!(
        reason(read("/std", Err("denied".to_string()))),
        "Reading the stdlib at '/std' failed: denied."
    );
    assert_eq!(
        reason(read("/std", Ok(Vec::new()))),
        "There are no `.neon` files under '/std'."
    );
}

#[test]
fn the_sources_are_put_in_order() {
    let sources = vec![
        ("std/string.neon".to_string(), "b".to_string()),
        ("std/io.neon".to_string(), "z".to_string()),
        ("std/io.neon".to_string(), "a".to_string()),
    ];
    let mut want = sources.clone();
    want.sort();
    match read("/std", Ok(sources)) {
        Load::Done(Ok(std)) => {
            assert_eq!(std.dir, "/std");
            assert_eq!(std.sources, want);
        }
        _ => panic!("expected a stdlib"),
    }
}

#[test]
fn a_report_is_condensed_to_its_causes() {
    let report = "Error: \n   0: \u{1b}[91mcannot find the sysroot\u{1b}[0m\n   1: No such file\n\n\
                  Location:\n   src/main.rs:12\n\nBacktrace omitted. Run with RUST_BACKTRACE=1.\n";
    assert_eq!(condense(report), "cannot find the sysroot No such file");
}

#[test]
fn a_header_with_a_message_keeps_the_message() {
    assert_eq!(condense("Error: it broke"), "it broke");
    assert_eq!(condense("12: twelfth"), "twelfth");
    assert_eq!(condense("a1: not a number"), "a1: not a number");
    assert_eq!(condense("1:no space"), "1:no space");
    assert_eq!(condense(": empty number"), ": empty number");
    assert_eq!(condense("Backtrace omitted\nlater"), "");
    assert_eq!(condense("a\r\nb"), "a b");
    assert_eq!(condense(""), "");
}

#[test]
fn a_long_report_is_cut() {
    let exact = "é".repeat(400);
    assert_eq!(condense(&exact), exact);
    let long = "é".repeat(401);
    assert_eq!(condense(&long), format!("{exact}…"));
}

#[test]
fn a_condensed_report_is_one_line_without_escapes() {
    let report = "a\u{1b}[1m\nb\u{1b}]c\n".repeat(300);
    let line = condense(&report);
    assert!(!line.contains('\n') && !line.contains('\u{1b}'));
    assert_eq!(line.chars().count(), 401);
}

#[test]
fn escape_sequences_are_removed() {
    assert_eq!(strip_ansi("\u{1b}[31mred\u{1b}[0m"), "red");
    // Anything but a bracket is dropped with the escape.
    assert_eq!(strip_ansi("a\u{1b}(b"), "ab");
    // A sequence that does not end takes the rest with it.
    assert_eq!(strip_ansi("a\u{1b}[12"), "a");
    assert_eq!(strip_ansi("a\u{1b}"), "a");
    assert_eq!(strip_ansi("plain é"), "plain é");
}
