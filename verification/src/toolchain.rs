//! Asking the compiler where its stdlib is, and reading it.
//!
//! The server does not discover the sysroot itself. It runs the `neon` it finds once at startup
//! and believes the answer: the editor's diagnostics and a build then agree by construction.
//!
//! Finding, running and reading are done outside; what to do next, and what each answer means,
//! is decided here.

use crate::ansi::{condense, condensed};
use crate::project::{below, join_path};
use crate::sort::{sort, sorted};
use crate::text::{join, joined, texts, trim, trimmed};
use vstd::prelude::*;

verus! {

/// Why the server has no stdlib.
///
/// The two cases are kept apart because they are different user actions: a missing binary is an
/// installation problem, and a binary that ran and refused is a broken or incomplete sysroot.
#[derive(Debug)]
pub enum Failure {
    /// No `neon` executable anywhere this looked.
    NotFound { looked: Vec<String> },
    /// `neon` ran but did not yield a usable stdlib path.
    Unusable { program: String, reason: String },
}

/// What a failure says.
#[verifier::ext_equal]
pub enum FailureView {
    NotFound { looked: Seq<Seq<char>> },
    Unusable { program: Seq<char>, reason: Seq<char> },
}

impl View for Failure {
    type V = FailureView;

    open spec fn view(&self) -> FailureView {
        match *self {
            Failure::NotFound { looked } => FailureView::NotFound { looked: texts(looked@) },
            Failure::Unusable { program, reason } => FailureView::Unusable {
                program: program@,
                reason: reason@,
            },
        }
    }
}

/// A text in single quotes.
pub open spec fn quoted(s: Seq<char>) -> Seq<char> {
    "'"@ + s + "'"@
}

/// Texts, each in single quotes.
pub open spec fn all_quoted(parts: Seq<Seq<char>>) -> Seq<Seq<char>> {
    Seq::new(parts.len(), |i: int| quoted(parts[i]))
}

/// One line naming the cause of a failure and what to do about it.
pub open spec fn message_for(failure: FailureView) -> Seq<char> {
    match failure {
        FailureView::NotFound { looked } => {
            "neon-lsp cannot find the `neon` compiler, so it can only report syntax errors \u{2014} type errors will not appear. Looked in: "@
                + joined(all_quoted(looked), ", "@)
                + ". Put `neon` on PATH, or set NEON_LSP_COMPILER to its full path."@
        },
        FailureView::Unusable { program, reason } => {
            "neon-lsp found `"@ + program
                + "` but it reported no usable stdlib, so only syntax errors will appear. "@ + reason
                + " Set NEON_SYSROOT to a sysroot containing `stdlib/`."@
        },
    }
}

/// A text in single quotes.
fn quote(s: &str) -> (out: String)
    ensures
        out@ == quoted(s@),
{
    let mut out: String = "'".to_owned();
    out.append(s);
    out.append("'");
    out
}

impl Failure {
    /// One line naming the cause and what to do about it. Shown to the user verbatim.
    pub fn message(&self) -> (text: String)
        ensures
            text@ == message_for(self@),
    {
        match self {
            Failure::NotFound { looked } => {
                let mut places: Vec<String> = Vec::new();
                let n: usize = looked.len();
                let mut i: usize = 0;
                while i < n
                    invariant
                        n == looked@.len(),
                        i <= n,
                        texts(places@) =~= all_quoted(texts(looked@)).take(i as int),
                    decreases n - i,
                {
                    let ghost before = places@;
                    let place: String = quote(looked[i].as_str());
                    places.push(place);
                    proof {
                        assert(texts(places@) =~= texts(before).push(place@));
                    }
                    i = i + 1;
                }
                proof {
                    assert(texts(places@) =~= all_quoted(texts(looked@)));
                }
                let mut out: String =
                    "neon-lsp cannot find the `neon` compiler, so it can only report syntax errors \u{2014} type errors will not appear. Looked in: ".to_owned();
                out.append(join(&places, ", ").as_str());
                out.append(". Put `neon` on PATH, or set NEON_LSP_COMPILER to its full path.");
                out
            },
            Failure::Unusable { program, reason } => {
                let mut out: String = "neon-lsp found `".to_owned();
                out.append(program.as_str());
                out.append(
                    "` but it reported no usable stdlib, so only syntax errors will appear. ",
                );
                out.append(reason.as_str());
                out.append(" Set NEON_SYSROOT to a sysroot containing `stdlib/`.");
                out
            },
        }
    }
}

/// The stdlib source as pairs of a relative path and a text, plus where it came from.
#[derive(Debug)]
pub struct Stdlib {
    pub dir: String,
    pub sources: Vec<(String, String)>,
}

/// The name of the compiler's executable.
pub open spec fn exe(windows: bool) -> Seq<char> {
    if windows {
        "neon.exe"@
    } else {
        "neon"@
    }
}

/// The name of the compiler's executable.
pub fn exe_name(windows: bool) -> (name: &'static str)
    ensures
        name@ == exe(windows),
{
    if windows {
        "neon.exe"
    } else {
        "neon"
    }
}

/// Where the compiler would be in a directory.
pub fn candidate(dir: &str, windows: bool) -> (path: String)
    ensures
        path@ == below(dir@, exe(windows)),
{
    join_path(dir, exe_name(windows))
}

/// Which compiler to ask.
#[derive(Debug, Clone, Copy, PartialEq, Eq, Structural)]
pub enum Choice {
    /// The one the user named.
    Override,
    /// The one next to this executable.
    Sibling,
    /// The one in this directory of PATH.
    OnPath(usize),
}

/// The first of some that is there.
pub open spec fn first_there(there: Seq<bool>) -> Option<int>
    decreases there.len(),
{
    if there.len() == 0 {
        None
    } else {
        match first_there(there.drop_last()) {
            Some(i) => Some(i),
            None => if there.last() {
                Some(there.len() - 1)
            } else {
                None
            },
        }
    }
}

/// Whether there is a file next to this executable.
pub open spec fn is_there(sibling: Option<(String, bool)>) -> bool {
    match sibling {
        Some((_, there)) => there,
        None => false,
    }
}

/// Which compiler to ask: the one the user named, without looking whether it is there; else the
/// one next to this executable; else the first one on PATH.
pub open spec fn choice_of(
    overridden: bool,
    sibling: Option<(String, bool)>,
    on_path: Option<Vec<bool>>,
) -> Option<Choice> {
    if overridden {
        Some(Choice::Override)
    } else if is_there(sibling) {
        Some(Choice::Sibling)
    } else {
        match on_path {
            Some(there) => match first_there(there@) {
                Some(i) => Some(Choice::OnPath(i as usize)),
                None => None,
            },
            None => None,
        }
    }
}

/// The places that were tried: the one next to this executable once it was tried, and PATH once
/// it was tried in vain.
pub open spec fn places_tried(
    overridden: bool,
    sibling: Option<(String, bool)>,
    on_path: Option<Vec<bool>>,
) -> Seq<Seq<char>> {
    if overridden {
        Seq::empty()
    } else {
        (match sibling {
            Some((path, _)) => seq![path@],
            None => Seq::empty(),
        }) + (if on_path is Some && choice_of(overridden, sibling, on_path) is None {
            seq!["PATH"@]
        } else {
            Seq::empty()
        })
    }
}

proof fn lemma_first_prefix(there: Seq<bool>, k: int)
    requires
        0 <= k <= there.len(),
        first_there(there.take(k)) is Some,
    ensures
        first_there(there) == first_there(there.take(k)),
    decreases there.len() - k,
{
    if k == there.len() {
        assert(there.take(k) =~= there);
    } else {
        assert(there.take(k + 1).drop_last() =~= there.take(k));
        lemma_first_prefix(there, k + 1);
    }
}

/// The `neon` to ask, and the places that were tried.
///
/// Order: an explicit override, then next to this executable, then PATH. Side-by-side beats PATH
/// because a toolchain ships both binaries in one directory, and an editor launched from a
/// desktop session often has a PATH that does not include it. The override is taken as given:
/// if it is wrong, the error of running it names it.
///
/// `sibling` is the path next to this executable and whether there is a file; `on_path` is, for
/// each directory of PATH, whether there is one.
pub fn find_compiler(
    overridden: bool,
    sibling: Option<(String, bool)>,
    on_path: Option<Vec<bool>>,
) -> (found: (Option<Choice>, Vec<String>))
    ensures
        found.0 == choice_of(overridden, sibling, on_path),
        texts(found.1@) == places_tried(overridden, sibling, on_path),
        found.0 matches Some(Choice::OnPath(i)) ==> on_path is Some && i < on_path->0@.len()
            && on_path->0@[i as int],
{
    let mut looked: Vec<String> = Vec::new();
    if overridden {
        proof {
            assert(texts(looked@) =~= Seq::<Seq<char>>::empty());
        }
        return (Some(Choice::Override), looked);
    }
    if let Some((path, there)) = &sibling {
        looked.push(path.clone());
        if *there {
            proof {
                assert(texts(looked@) =~= places_tried(overridden, sibling, on_path));
            }
            return (Some(Choice::Sibling), looked);
        }
    }
    proof {
        assert(texts(looked@) =~= (match sibling {
            Some((path, _)) => seq![path@],
            None => Seq::empty(),
        }));
    }
    if let Some(there) = &on_path {
        let n: usize = there.len();
        let mut i: usize = 0;
        while i < n
            invariant
                n == there@.len(),
                i <= n,
                !overridden,
                on_path == Some(*there),
                !is_there(sibling),
                first_there(there@.take(i as int)) is None,
                texts(looked@) =~= (match sibling {
                    Some((path, _)) => seq![path@],
                    None => Seq::empty(),
                }),
            decreases n - i,
        {
            proof {
                assert(there@.take(i + 1).drop_last() =~= there@.take(i as int));
            }
            if there[i] {
                proof {
                    lemma_first_prefix(there@, i + 1);
                    assert(texts(looked@) =~= places_tried(overridden, sibling, on_path));
                }
                return (Some(Choice::OnPath(i)), looked);
            }
            i = i + 1;
        }
        proof {
            assert(there@.take(n as int) =~= there@);
        }
        let ghost before = looked@;
        looked.push("PATH".to_owned());
        proof {
            assert(texts(looked@) =~= texts(before).push("PATH"@));
            assert(texts(looked@) =~= places_tried(overridden, sibling, on_path));
        }
        return (None, looked);
    }
    proof {
        assert(texts(looked@) =~= places_tried(overridden, sibling, on_path));
    }
    (None, looked)
}

/// What running the compiler gave.
#[derive(Debug)]
pub struct Output {
    pub success: bool,
    /// How it exited, in words.
    pub status: String,
    pub stdout: String,
    pub stderr: String,
}

/// What is known so far about the toolchain.
#[allow(inconsistent_fields)]
pub enum Probe {
    /// The compiler to ask, if there is one, and the places that were tried.
    Found { program: Option<String>, looked: Vec<String> },
    /// What asking it gave, or why it could not be run.
    Ran { program: String, run: Result<Output, String> },
    /// What is under the directory it named, or why it could not be read. Nothing has to be read
    /// where it named none.
    Read { program: String, dir: String, collected: Result<Vec<(String, String)>, String> },
}

/// What to do next about the toolchain.
pub enum Load {
    /// Ask this compiler.
    Run { program: String },
    /// Read every source file under this directory.
    Read { program: String, dir: String },
    /// This is what there is.
    Done(Result<Stdlib, Failure>),
}

/// Why a run was of no use.
pub open spec fn run_refused(run: Result<Output, String>) -> Option<Seq<char>> {
    match run {
        Err(e) => Some("Running it failed: "@ + e@ + "."@),
        Ok(output) => if output.success {
            None
        } else if condensed(output.stderr@).len() == 0 {
            Some("It exited with "@ + output.status@ + "."@)
        } else {
            Some("It said: "@ + condensed(output.stderr@))
        },
    }
}

/// Why a directory was of no use.
pub open spec fn dir_refused(
    dir: Seq<char>,
    collected: Result<Vec<(String, String)>, String>,
) -> Option<Seq<char>> {
    if dir.len() == 0 {
        Some("It printed nothing where a stdlib path was expected."@)
    } else {
        match collected {
            Err(e) => Some("Reading the stdlib at '"@ + dir + "' failed: "@ + e@ + "."@),
            Ok(sources) => if sources@.len() == 0 {
                Some("There are no `.neon` files under '"@ + dir + "'."@)
            } else {
                None
            },
        }
    }
}

/// Whether the answer is that the compiler is of no use.
pub open spec fn is_unusable(next: Load, program: Seq<char>, reason: Seq<char>) -> bool {
    next matches Load::Done(Err(failure)) && failure@ == (FailureView::Unusable {
        program,
        reason,
    })
}

/// Locate `neon`, ask it for the stdlib directory, and read every source file under it: what
/// follows from what is known so far.
///
/// The sources are put in order for a stable order of modules: the same sources in a different
/// order would number expressions differently for no reason.
pub fn load(probe: Probe) -> (next: Load)
    ensures
        match probe {
            Probe::Found { program: Some(program), looked } => next == (Load::Run { program }),
            Probe::Found { program: None, looked } => next == Load::Done(
                Err(Failure::NotFound { looked }),
            ),
            Probe::Ran { program, run } => match run_refused(run) {
                Some(reason) => is_unusable(next, program@, reason),
                None => next matches Load::Read { program: asked, dir } && asked == program && dir@
                    == trimmed(run->Ok_0.stdout@),
            },
            Probe::Read { program, dir, collected } => match dir_refused(dir@, collected) {
                Some(reason) => is_unusable(next, program@, reason),
                None => next matches Load::Done(Ok(std)) && std.dir == dir && std.sources@
                    == sorted(collected->Ok_0@),
            },
        },
{
    match probe {
        Probe::Found { program, looked } => match program {
            Some(program) => Load::Run { program },
            None => Load::Done(Err(Failure::NotFound { looked })),
        },
        Probe::Ran { program, run } => match run {
            Err(e) => {
                let mut reason: String = "Running it failed: ".to_owned();
                reason.append(e.as_str());
                reason.append(".");
                Load::Done(Err(Failure::Unusable { program, reason }))
            },
            Ok(output) => {
                if output.success {
                    return Load::Read { program, dir: trim(output.stdout.as_str()) };
                }
                let detail: String = condense(output.stderr.as_str());
                let mut reason: String = String::new();
                if is_blank(detail.as_str()) {
                    reason.append("It exited with ");
                    reason.append(output.status.as_str());
                    reason.append(".");
                    proof {
                        assert(reason@ =~= "It exited with "@ + output.status@ + "."@);
                    }
                } else {
                    reason.append("It said: ");
                    reason.append(detail.as_str());
                    proof {
                        assert(reason@ =~= "It said: "@ + detail@);
                    }
                }
                Load::Done(Err(Failure::Unusable { program, reason }))
            },
        },
        Probe::Read { program, dir, collected } => {
            if is_blank(dir.as_str()) {
                let reason: String =
                    "It printed nothing where a stdlib path was expected.".to_owned();
                return Load::Done(Err(Failure::Unusable { program, reason }));
            }
            match collected {
                Err(e) => {
                    let mut reason: String = "Reading the stdlib at '".to_owned();
                    reason.append(dir.as_str());
                    reason.append("' failed: ");
                    reason.append(e.as_str());
                    reason.append(".");
                    Load::Done(Err(Failure::Unusable { program, reason }))
                },
                Ok(sources) => {
                    if sources.len() == 0 {
                        let mut reason: String = "There are no `.neon` files under '".to_owned();
                        reason.append(dir.as_str());
                        reason.append("'.");
                        return Load::Done(Err(Failure::Unusable { program, reason }));
                    }
                    let mut sources: Vec<(String, String)> = sources;
                    sort(&mut sources);
                    Load::Done(Ok(Stdlib { dir, sources }))
                },
            }
        },
    }
}

/// Whether a text has no characters.
fn is_blank(s: &str) -> (yes: bool)
    ensures
        yes == (s@.len() == 0),
{
    let mut yes: bool = true;
    for _c in it: s.chars()
        invariant
            it.seq() == s@,
            yes == (it.index() == 0),
    {
        yes = false;
    }
    yes
}

proof fn lemma_first_there(there: Seq<bool>, i: int)
    ensures
        0 <= i < there.len() && there[i] && (forall|j: int| 0 <= j < i ==> !#[trigger] there[j])
            ==> first_there(there) == Some(i),
        (forall|j: int| 0 <= j < there.len() ==> !#[trigger] there[j]) ==> first_there(there)
            is None,
    decreases there.len(),
{
    if there.len() > 0 {
        let init = there.drop_last();
        lemma_first_there(init, i);
        assert forall|j: int| 0 <= j < init.len() implies #[trigger] there[j] == init[j] by {}
        assert(there[there.len() - 1] == there.last());
        if i == there.len() - 1 && (forall|j: int| 0 <= j < i ==> !#[trigger] there[j]) {
            assert forall|j: int| 0 <= j < init.len() implies !#[trigger] init[j] by {
                assert(!there[j]);
            }
        }
        if forall|j: int| 0 <= j < there.len() ==> !#[trigger] there[j] {
            assert(!there[there.len() - 1]);
            assert forall|j: int| 0 <= j < init.len() implies !#[trigger] init[j] by {
                assert(!there[j]);
            }
        }
    }
}

/// The compiler that was named outright is taken, else the one beside the server if it is there,
/// else the first on the path that is, and none where there is none. What was looked at is told:
/// nothing where one was named, otherwise the sibling, and the path where it was searched in vain.
pub proof fn law_the_nearest_compiler_is_taken(
    overridden: bool,
    sibling: Option<(String, bool)>,
    on_path: Option<Vec<bool>>,
    i: int,
)
    ensures
        overridden ==> choice_of(overridden, sibling, on_path) == Some(Choice::Override),
        !overridden && (sibling matches Some((_, there)) && there) ==> choice_of(
            overridden,
            sibling,
            on_path,
        ) == Some(Choice::Sibling),
        ({
            let elsewhere = !overridden && (sibling matches Some((_, there)) ==> !there);
            &&& elsewhere && on_path is None ==> choice_of(overridden, sibling, on_path) is None
            &&& elsewhere && on_path is Some && 0 <= i < on_path->0@.len() && on_path->0@[i] && (
            forall|j: int| 0 <= j < i ==> !#[trigger] on_path->0@[j]) ==> choice_of(
                overridden,
                sibling,
                on_path,
            ) == Some(Choice::OnPath(i as usize))
            &&& elsewhere && on_path is Some && (forall|j: int|
                0 <= j < on_path->0@.len() ==> !#[trigger] on_path->0@[j]) ==> choice_of(
                overridden,
                sibling,
                on_path,
            ) is None
        }),
        ({
            let looked = places_tried(overridden, sibling, on_path);
            let vain = choice_of(overridden, sibling, on_path) is None && on_path is Some;
            &&& overridden ==> looked.len() == 0
            &&& !overridden && sibling is None ==> looked == (if vain {
                seq!["PATH"@]
            } else {
                Seq::empty()
            })
            &&& !overridden ==> (sibling matches Some((path, _)) ==> looked == (if vain {
                seq![path@, "PATH"@]
            } else {
                seq![path@]
            }))
        }),
{
    if let Some(there) = on_path {
        lemma_first_there(there@, i);
    }
    let looked = places_tried(overridden, sibling, on_path);
    if !overridden {
        if let Some((path, _)) = sibling {
            assert(looked =~= seq![path@] || looked =~= seq![path@, "PATH"@]);
        } else {
            assert(looked =~= Seq::empty() || looked =~= seq!["PATH"@]);
        }
    }
}

/// A run of the compiler is good exactly when it succeeded. What is wrong with one that is not is
/// told: why it could not be run, else what it said, else how it exited.
pub proof fn law_a_failed_run_is_explained(run: Result<Output, String>)
    ensures
        run_refused(run) is None <==> (run matches Ok(output) && output.success),
        run matches Err(e) ==> run_refused(run) == Some("Running it failed: "@ + e@ + "."@),
        run matches Ok(output) ==> (!output.success && condensed(output.stderr@).len() > 0
            ==> run_refused(run) == Some("It said: "@ + condensed(output.stderr@))),
        run matches Ok(output) ==> (!output.success && condensed(output.stderr@).len() == 0
            ==> run_refused(run) == Some("It exited with "@ + output.status@ + "."@)),
{
}

/// A stdlib is good exactly when the compiler named a directory that can be read and has source
/// files. What is wrong with one that is not is told.
pub proof fn law_an_unusable_stdlib_is_explained(
    dir: Seq<char>,
    collected: Result<Vec<(String, String)>, String>,
)
    ensures
        dir_refused(dir, collected) is None <==> dir.len() > 0 && (collected matches Ok(sources)
            && sources@.len() > 0),
        dir.len() == 0 ==> dir_refused(dir, collected) == Some(
            "It printed nothing where a stdlib path was expected."@,
        ),
        dir.len() > 0 ==> (collected matches Err(e) ==> dir_refused(dir, collected) == Some(
            "Reading the stdlib at '"@ + dir + "' failed: "@ + e@ + "."@,
        )),
        dir.len() > 0 ==> (collected matches Ok(sources) ==> (sources@.len() == 0 ==> dir_refused(
            dir,
            collected,
        ) == Some("There are no `.neon` files under '"@ + dir + "'."@))),
{
}

/// The user is told every place that was looked in and what to do about it, or which compiler is
/// unusable and why.
pub proof fn law_a_failure_says_what_to_do(failure: Failure, quoted_places: Seq<Seq<char>>)
    requires
        failure matches Failure::NotFound { looked } ==> quoted_places.len() == looked@.len()
            && forall|i: int|
            0 <= i < looked@.len() ==> #[trigger] quoted_places[i] == "'"@ + looked@[i]@ + "'"@,
    ensures
        failure is NotFound ==> message_for(failure@)
            == "neon-lsp cannot find the `neon` compiler, so it can only report syntax errors \u{2014} type errors will not appear. Looked in: "@
            + joined(quoted_places, ", "@)
            + ". Put `neon` on PATH, or set NEON_LSP_COMPILER to its full path."@,
        failure matches Failure::Unusable { program, reason } ==> message_for(failure@)
            == "neon-lsp found `"@ + program@
            + "` but it reported no usable stdlib, so only syntax errors will appear. "@ + reason@
            + " Set NEON_SYSROOT to a sysroot containing `stdlib/`."@,
{
    if let Failure::NotFound { looked } = failure {
        assert(all_quoted(texts(looked@)) =~= quoted_places);
    }
}

/// A compiler that is unusable is said to be, with the reason.
pub proof fn law_an_unusable_compiler_is_reported(
    next: Load,
    program: Seq<char>,
    reason: Seq<char>,
)
    requires
        is_unusable(next, program, reason),
    ensures
        next matches Load::Done(Err(Failure::Unusable { program: p, reason: r })) && p@ == program
            && r@ == reason,
{
}

/// The compiler is called the same on every platform, but for the extension of an executable.
pub proof fn law_the_compiler_has_the_platforms_extension()
    ensures
        exe(false) == "neon"@,
        exe(true) == exe(false) + ".exe"@,
{
    reveal_strlit("neon");
    reveal_strlit(".exe");
    reveal_strlit("neon.exe");
    assert("neon"@.len() == 4);
    assert(".exe"@.len() == 4);
    assert("neon.exe"@.len() == 8);
    assert("neon.exe"@ =~= "neon"@ + ".exe"@);
}

} // verus!
