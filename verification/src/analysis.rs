//! Deciding what a run of the front end means to an editor.
//!
//! A build stops at the first error; an editor needs the errors as data, and needs them for a
//! file that does not compile. So the pipeline is walked one stage at a time, and the first
//! stage that produces errors ends it: parse errors make the tree a guess, and type errors
//! derived from a guess are noise.
//!
//! The stages themselves are the compiler's. `Analyzer::analyze` is told what each one came to
//! and says which one is next, or what to show.

use crate::position::LineIndex;
use crate::project::{below, join_path, trivia_or_none};
use crate::sort::{in_places, lemma_one_more_place};
use crate::syntax::{Env, Module, Span, Trivia, TypecheckResult};
use crate::text::{begins_with, same_names, starts_with, texts};
use vstd::prelude::*;

verus! {

/// One diagnostic, in byte offsets. Converting to lines and columns is the protocol layer's
/// job.
#[derive(Debug, Clone)]
pub struct Diagnostic {
    pub span: Span,
    pub message: String,
    /// Extra spans that explain the error, each with its own note. Rendered as related
    /// information so an editor can offer to jump to them.
    pub labels: Vec<(Span, String)>,
    pub help: Option<String>,
    pub severity: Severity,
    /// The lint name for a warning, so the editor can show a code and a client can key
    /// quick-fixes off it.
    pub code: Option<String>,
    /// A mechanical fix, when the checker computed one.
    pub fix: Option<Fix>,
}

/// What a quick-fix would do.
#[derive(Debug, Clone)]
pub enum Fix {
    /// Insert `use <path>;` with the document's other imports.
    InsertUse(String),
}

/// Error or warning, the only two severities the compiler produces.
#[derive(Debug, Clone, Copy, PartialEq, Eq, Structural)]
pub enum Severity {
    Error,
    Warning,
}

/// What a diagnostic says.
#[verifier::ext_equal]
pub struct DiagnosticView {
    pub span: Span,
    pub message: Seq<char>,
    pub labels: Seq<(Span, Seq<char>)>,
    pub help: Option<Seq<char>>,
    pub severity: Severity,
    pub code: Option<Seq<char>>,
    /// The path that the fix imports.
    pub fix: Option<Seq<char>>,
}

/// The text of a string that may be absent.
pub open spec fn text_in(s: Option<String>) -> Option<Seq<char>> {
    match s {
        Some(t) => Some(t@),
        None => None,
    }
}

/// The notes that go with a diagnostic.
pub open spec fn notes(labels: Seq<(Span, String)>) -> Seq<(Span, Seq<char>)> {
    Seq::new(labels.len(), |i: int| (labels[i].0, labels[i].1@))
}

impl View for Diagnostic {
    type V = DiagnosticView;

    open spec fn view(&self) -> DiagnosticView {
        DiagnosticView {
            span: self.span,
            message: self.message@,
            labels: notes(self.labels@),
            help: text_in(self.help),
            severity: self.severity,
            code: text_in(self.code),
            fix: match self.fix {
                Some(Fix::InsertUse(path)) => Some(path@),
                None => None,
            },
        }
    }
}

/// What several diagnostics say.
pub open spec fn said(diagnostics: Seq<Diagnostic>) -> Seq<DiagnosticView> {
    Seq::new(diagnostics.len(), |i: int| diagnostics[i]@)
}

/// An error with a place and a message and nothing else.
pub open spec fn plain_error(span: Span, message: Seq<char>) -> DiagnosticView {
    DiagnosticView {
        span,
        message,
        labels: Seq::empty(),
        help: None,
        severity: Severity::Error,
        code: None,
        fix: None,
    }
}

impl Diagnostic {
    /// An error with a place and a message and nothing else.
    pub fn plain(span: Span, message: String) -> (d: Diagnostic)
        ensures
            d@ == plain_error(span, message@),
    {
        Diagnostic {
            span,
            message,
            labels: Vec::new(),
            help: None,
            severity: Severity::Error,
            code: None,
            fix: None,
        }
    }
}

/// A file taking part in a compilation, with what an editor needs to point into it.
pub struct Source {
    pub module: Vec<String>,
    /// Where it lives on disk.
    pub path: String,
    /// Owns the file's text; `index.text()` is the source a span indexes into.
    pub index: LineIndex,
    /// The comments the lexer set aside, kept solely for documentation.
    pub trivia: Vec<Trivia>,
}

/// The module that each file declares.
pub open spec fn modules_of(sources: Seq<Source>) -> Seq<Seq<Seq<char>>> {
    Seq::new(sources.len(), |i: int| texts(sources[i].module@))
}

/// The first file that declares exactly this module.
pub open spec fn exact_match(
    module: Seq<Seq<char>>,
    files: Seq<Seq<Seq<char>>>,
) -> Option<int>
    decreases files.len(),
{
    if files.len() == 0 {
        None
    } else {
        match exact_match(module, files.drop_last()) {
            Some(i) => Some(i),
            None => if files.last() == module {
                Some(files.len() - 1)
            } else {
                None
            },
        }
    }
}

/// Whether a file's module encloses `module`. The entry's empty path encloses nothing: it
/// would claim every module in existence.
pub open spec fn encloses(file: Seq<Seq<char>>, module: Seq<Seq<char>>) -> bool {
    file.len() > 0 && starts_with(module, file)
}

/// The file with the longest module that encloses `module`; of several as long, the last.
pub open spec fn prefix_match(
    module: Seq<Seq<char>>,
    files: Seq<Seq<Seq<char>>>,
) -> Option<int>
    decreases files.len(),
{
    if files.len() == 0 {
        None
    } else {
        let best = prefix_match(module, files.drop_last());
        let this = files.last();
        if encloses(this, module) && (best is None || this.len() >= files[best->0].len()) {
            Some(files.len() - 1)
        } else {
            best
        }
    }
}

/// The file that holds a module: the one that declares it, or failing that the one with the
/// longest module around it.
pub open spec fn file_of(module: Seq<Seq<char>>, files: Seq<Seq<Seq<char>>>) -> Option<int> {
    match exact_match(module, files) {
        Some(i) => Some(i),
        None => prefix_match(module, files),
    }
}

proof fn lemma_exact_match(module: Seq<Seq<char>>, files: Seq<Seq<Seq<char>>>)
    ensures
        exact_match(module, files) matches Some(i) ==> 0 <= i < files.len() && files[i] == module
            && forall|j: int| 0 <= j < i ==> #[trigger] files[j] != module,
        exact_match(module, files) is None ==> forall|j: int|
            0 <= j < files.len() ==> #[trigger] files[j] != module,
    decreases files.len(),
{
    if files.len() > 0 {
        let init = files.drop_last();
        lemma_exact_match(module, init);
        assert forall|j: int| 0 <= j < init.len() implies #[trigger] files[j] == init[j] by {}
    }
}

proof fn lemma_prefix_match(module: Seq<Seq<char>>, files: Seq<Seq<Seq<char>>>)
    ensures
        prefix_match(module, files) matches Some(i) ==> {
            &&& 0 <= i < files.len()
            &&& encloses(files[i], module)
            &&& forall|j: int|
                0 <= j < files.len() && encloses(#[trigger] files[j], module) ==> files[j].len()
                    <= files[i].len()
        },
        prefix_match(module, files) is None ==> forall|j: int|
            0 <= j < files.len() ==> !encloses(#[trigger] files[j], module),
    decreases files.len(),
{
    if files.len() > 0 {
        let init = files.drop_last();
        lemma_prefix_match(module, init);
        assert forall|j: int| 0 <= j < init.len() implies #[trigger] files[j] == init[j] by {}
    }
}

/// A file is found for a module exactly when one declares it or encloses it. The one found
/// declares it if any does, and otherwise has the longest module that encloses it. The entry's
/// empty path is only ever found for the root module itself.
pub proof fn law_the_file_of_a_module(module: Seq<Seq<char>>, files: Seq<Seq<Seq<char>>>)
    ensures
        file_of(module, files) is Some <==> exists|i: int|
            0 <= i < files.len() && (files[i] == module || encloses(#[trigger] files[i], module)),
        file_of(module, files) matches Some(i) ==> {
            &&& 0 <= i < files.len()
            &&& (exists|j: int| 0 <= j < files.len() && #[trigger] files[j] == module)
                ==> files[i] == module
            &&& files[i] != module ==> encloses(files[i], module) && forall|j: int|
                0 <= j < files.len() && encloses(#[trigger] files[j], module) ==> files[j].len()
                    <= files[i].len()
            &&& files[i].len() == 0 ==> module.len() == 0
        },
{
    lemma_exact_match(module, files);
    lemma_prefix_match(module, files);
}

/// The first file that declares exactly this module.
pub fn find_exact(sources: &[Source], module: &[String]) -> (found: Option<usize>)
    ensures
        found is Some <==> exact_match(texts(module@), modules_of(sources@)) is Some,
        found matches Some(i) ==> i < sources@.len() && exact_match(
            texts(module@),
            modules_of(sources@),
        ) == Some(i as int),
{
    let ghost files = modules_of(sources@);
    let n: usize = sources.len();
    let mut i: usize = 0;
    while i < n
        invariant
            n == sources@.len(),
            i <= n,
            files == modules_of(sources@),
            exact_match(texts(module@), files.take(i as int)) is None,
        decreases n - i,
    {
        proof {
            assert(files.take(i + 1).drop_last() =~= files.take(i as int));
            assert(files.take(i + 1).last() == texts(sources@[i as int].module@));
        }
        if same_names(&sources[i].module, module) {
            proof {
                lemma_exact_prefix(texts(module@), files, i + 1);
            }
            return Some(i);
        }
        i = i + 1;
    }
    proof {
        assert(files.take(n as int) =~= files);
    }
    None
}

proof fn lemma_exact_prefix(module: Seq<Seq<char>>, files: Seq<Seq<Seq<char>>>, k: int)
    requires
        0 <= k <= files.len(),
        exact_match(module, files.take(k)) is Some,
    ensures
        exact_match(module, files) == exact_match(module, files.take(k)),
    decreases files.len() - k,
{
    if k == files.len() {
        assert(files.take(k) =~= files);
    } else {
        assert(files.take(k + 1).drop_last() =~= files.take(k));
        lemma_exact_prefix(module, files, k + 1);
    }
}

/// The file with the longest module that encloses `module`.
pub fn find_prefix(sources: &[Source], module: &[String]) -> (found: Option<usize>)
    ensures
        found is Some <==> prefix_match(texts(module@), modules_of(sources@)) is Some,
        found matches Some(i) ==> i < sources@.len() && prefix_match(
            texts(module@),
            modules_of(sources@),
        ) == Some(i as int),
{
    let ghost files = modules_of(sources@);
    let n: usize = sources.len();
    let mut best: Option<usize> = None;
    let mut i: usize = 0;
    while i < n
        invariant
            n == sources@.len(),
            i <= n,
            files == modules_of(sources@),
            best is Some <==> prefix_match(texts(module@), files.take(i as int)) is Some,
            best matches Some(b) ==> b < i && prefix_match(texts(module@), files.take(i as int))
                == Some(b as int),
        decreases n - i,
    {
        proof {
            assert(files.take(i + 1).drop_last() =~= files.take(i as int));
            assert(files.take(i + 1).last() == texts(sources@[i as int].module@));
            assert(texts(sources@[i as int].module@).len() == sources@[i as int].module@.len());
        }
        if sources[i].module.len() > 0 && begins_with(module, &sources[i].module) {
            let wins: bool = match best {
                Some(b) => {
                    proof {
                        assert(files.take(i + 1)[b as int] == texts(sources@[b as int].module@));
                        assert(texts(sources@[b as int].module@).len()
                            == sources@[b as int].module@.len());
                    }
                    sources[i].module.len() >= sources[b].module.len()
                },
                None => true,
            };
            if wins {
                best = Some(i);
            }
        }
        i = i + 1;
    }
    proof {
        assert(files.take(n as int) =~= files);
    }
    best
}

/// The file that holds a module.
pub fn find_file(sources: &[Source], module: &[String]) -> (found: Option<usize>)
    ensures
        found is Some <==> file_of(texts(module@), modules_of(sources@)) is Some,
        found matches Some(i) ==> i < sources@.len() && file_of(
            texts(module@),
            modules_of(sources@),
        ) == Some(i as int),
{
    match find_exact(sources, module) {
        Some(i) => Some(i),
        None => find_prefix(sources, module),
    }
}

proof fn lemma_encloses(file: Seq<Seq<char>>, module: Seq<Seq<char>>)
    requires
        encloses(file, module),
    ensures
        file.len() <= module.len(),
        file.len() == module.len() ==> file == module,
{
    if file.len() == module.len() {
        assert(module.take(file.len() as int) =~= module);
    }
}

/// The document holds its own module: a name declared there is in no other file, whatever its
/// neighbours are called.
pub proof fn law_the_document_holds_its_own_module(
    checked: Checked,
    analyzer: Analyzer,
    module: Seq<Seq<char>>,
)
    requires
        module == texts(checked.doc_module@),
    ensures
        checked.holder(analyzer, module) is None,
{
    law_the_file_of_a_module(module, modules_of(checked.sources@));
    law_the_file_of_a_module(module, modules_of(analyzer.stdlib()));
}

/// Where no file of the stdlib is nearer, a name is looked up in the file that shows its
/// diagnostics.
pub proof fn law_names_are_found_where_diagnostics_are_shown(
    checked: Checked,
    analyzer: Analyzer,
    module: Seq<Seq<char>>,
)
    ensures
        match destination_of(module, texts(checked.doc_module@), modules_of(checked.sources@)) {
            Destination::Own => module_reach(module, modules_of(analyzer.stdlib()))
                <= checked.doc_module@.len() ==> checked.holder(analyzer, module) is None,
            Destination::File(i) => module_reach(module, modules_of(analyzer.stdlib()))
                <= checked.sources@[i as int].module@.len() ==> checked.holder(analyzer, module)
                == Some(checked.sources@[i as int]),
            Destination::Nowhere => checked.holder(analyzer, module) == match file_of(
                module,
                modules_of(analyzer.stdlib()),
            ) {
                Some(i) => Some(analyzer.stdlib()[i]),
                None => None,
            },
        },
{
    let here = modules_of(checked.sources@);
    assert(checked.sources.len() == here.len());
    law_the_file_of_a_module(module, here);
    law_the_file_of_a_module(module, modules_of(analyzer.stdlib()));
    lemma_exact_match(module, here);
    lemma_prefix_match(module, here);
    if encloses(texts(checked.doc_module@), module) {
        lemma_encloses(texts(checked.doc_module@), module);
    }
}

/// The project comes first: a module that a project file declares, or encloses by a path at
/// least as long as the one that the stdlib's nearest file has, is held by a project file or by
/// the document. Where a project file declares it, the one that holds it declares it, unless it
/// is the document's own.
pub proof fn law_project_files_come_first(
    checked: Checked,
    analyzer: Analyzer,
    module: Seq<Seq<char>>,
    i: int,
)
    requires
        0 <= i < checked.sources@.len(),
        texts(checked.sources@[i].module@) == module || (encloses(
            texts(checked.sources@[i].module@),
            module,
        ) && module_reach(module, modules_of(analyzer.stdlib()))
            <= checked.sources@[i].module@.len()),
    ensures
        checked.holder(analyzer, module) matches Some(source) ==> {
            &&& checked.sources@.contains(source)
            &&& source.module@.len() >= checked.sources@[i].module@.len()
        },
        checked.holder(analyzer, module) is None ==> {
            &&& checked.doc_module@.len() >= checked.sources@[i].module@.len()
            &&& texts(checked.doc_module@) == module || encloses(
                texts(checked.doc_module@),
                module,
            )
        },
        texts(checked.sources@[i].module@) == module && texts(checked.doc_module@) != module ==> (
        checked.holder(analyzer, module) matches Some(source) && texts(source.module@) == module),
{
    let here = modules_of(checked.sources@);
    let there = modules_of(analyzer.stdlib());
    law_the_file_of_a_module(module, here);
    law_the_file_of_a_module(module, there);
    if file_of(module, there) is Some && there[file_of(module, there)->0] != module {
        lemma_encloses(there[file_of(module, there)->0], module);
    }
    assert(here[i] == texts(checked.sources@[i].module@));
    let j = file_of(module, here)->0;
    assert(here[j] == texts(checked.sources@[j].module@));
    assert(checked.sources@.contains(checked.sources@[j]));
    if encloses(texts(checked.doc_module@), module) {
        lemma_encloses(texts(checked.doc_module@), module);
    }
}

/// A module of the stdlib, as the compiler parsed it.
pub struct StdModule {
    pub path: Vec<String>,
    /// The comments its lexer set aside, unless it failed.
    pub trivia: Option<Vec<Trivia>>,
}

/// The stdlib of one session.
struct Cached {
    next_id: u32,
    sources: Vec<Source>,
}

/// The front end, bound to one session's stdlib.
pub struct Analyzer {
    /// `None` when the toolchain could not be found.
    cached: Option<Cached>,
}

/// A completed check, kept so the editor can ask questions about it.
pub struct Checked {
    /// The analyzed document's syntax.
    pub module: Module,
    /// The module that the document declares: the root for the entry, and outside a project.
    pub doc_module: Vec<String>,
    pub result: TypecheckResult,
    pub env: Env,
    /// The other project files of this run, never the analyzed document itself. Empty outside
    /// a project.
    pub sources: Vec<Source>,
}

/// How long the module is of the file that holds `module`; below nothing if no file does.
pub open spec fn module_reach(module: Seq<Seq<char>>, files: Seq<Seq<Seq<char>>>) -> int {
    match file_of(module, files) {
        Some(i) => files[i].len() as int,
        None => -1,
    }
}

impl Checked {
    /// The file that holds a module, if it is not the document itself. Of the document, the
    /// project files and the stdlib, the one whose module is the longest that declares or
    /// encloses it; of several as long, the one named first here.
    pub open spec fn holder(self, analyzer: Analyzer, module: Seq<Seq<char>>) -> Option<Source> {
        let doc = texts(self.doc_module@);
        let own: int = if module == doc || encloses(doc, module) {
            doc.len() as int
        } else {
            -1
        };
        let here: int = module_reach(module, modules_of(self.sources@));
        let there: int = module_reach(module, modules_of(analyzer.stdlib()));
        if there > own && there > here {
            Some(analyzer.stdlib()[file_of(module, modules_of(analyzer.stdlib()))->0])
        } else if here > own {
            Some(self.sources@[file_of(module, modules_of(self.sources@))->0])
        } else {
            None
        }
    }

    /// The file a module was declared in: this run's project files first, the session's stdlib
    /// second. One lookup for every feature, so none of them can know about only half the
    /// world.
    ///
    /// Exact match first; failing that, the longest non-empty prefix: a declaration inside a
    /// module nested in a file carries the nested path, and the file that holds it is the outer
    /// one's. "No file" means the document being edited, which is a project file like the
    /// others: its own module is never looked for elsewhere.
    pub fn source_of<'a>(&'a self, analyzer: &'a Analyzer, module: &[String]) -> (source: Option<
        &'a Source,
    >)
        ensures
            source is Some <==> self.holder(*analyzer, texts(module@)) is Some,
            source matches Some(s) ==> self.holder(*analyzer, texts(module@)) == Some(*s),
    {
        let std: &[Source] = analyzer.sources();
        let ghost name = texts(module@);
        let own: bool = same_names(module, &self.doc_module) || (self.doc_module.len() > 0
            && begins_with(module, &self.doc_module));
        proof {
            law_the_file_of_a_module(name, modules_of(self.sources@));
            law_the_file_of_a_module(name, modules_of(std@));
        }
        let here: Option<usize> = find_file(&self.sources, module);
        let in_project: Option<&'a Source> = match here {
            Some(i) => {
                assert(modules_of(self.sources@)[i as int].len()
                    == self.sources@[i as int].module@.len());
                if own && self.sources[i].module.len() <= self.doc_module.len() {
                    None
                } else {
                    Some(&self.sources[i])
                }
            },
            None => None,
        };
        match find_file(std, module) {
            Some(j) => {
                assert(modules_of(std@)[j as int].len() == std@[j as int].module@.len());
                let nearer: bool = match in_project {
                    Some(file) => std[j].module.len() > file.module.len(),
                    None => !own || std[j].module.len() > self.doc_module.len(),
                };
                if nearer {
                    Some(&std[j])
                } else {
                    in_project
                }
            },
            None => in_project,
        }
    }
}

impl Analyzer {
    /// The stdlib's files; none when there is no usable toolchain.
    pub closed spec fn stdlib(self) -> Seq<Source> {
        match self.cached {
            Some(c) => c.sources@,
            None => Seq::empty(),
        }
    }

    /// Whether there is a stdlib to check against.
    pub closed spec fn checks(self) -> bool {
        self.cached is Some
    }

    /// The first expression number that the stdlib leaves free.
    pub closed spec fn first_id(self) -> u32 {
        match self.cached {
            Some(c) => c.next_id,
            None => 0,
        }
    }

    /// Whether this checks against a stdlib: its files are those that were parsed, each with the
    /// module it declares.
    pub open spec fn holds(
        self,
        dir: Seq<char>,
        std_sources: Seq<(String, String)>,
        modules: Seq<StdModule>,
        next_id: u32,
    ) -> bool {
        &&& self.checks()
        &&& self.first_id() == next_id
        &&& self.stdlib().len() == (if modules.len() <= std_sources.len() {
            modules.len()
        } else {
            std_sources.len()
        })
        &&& forall|i: int|
            0 <= i < self.stdlib().len() ==> {
                &&& (#[trigger] self.stdlib()[i]).module == modules[i].path
                &&& self.stdlib()[i].path@ == below(dir, std_sources[i].0@)
                &&& self.stdlib()[i].index@ == std_sources[i].1@
                &&& self.stdlib()[i].trivia@ == trivia_or_none(modules[i].trivia)
            }
    }

    /// Take the stdlib that the compiler parsed. An unparseable stdlib is a broken toolchain
    /// rather than a user error, so it is reported as such and the server continues
    /// syntax-only.
    ///
    /// The compiler keeps the order of the files it is handed, so pairing by position recovers
    /// each module's file.
    pub fn new(
        dir: &str,
        std_sources: &[(String, String)],
        parsed: Result<(Vec<StdModule>, u32), String>,
    ) -> (analyzer: Result<Analyzer, String>)
        ensures
            match (parsed, analyzer) {
                (Err(broken), Err(message)) => message == broken,
                (Ok((modules, next_id)), Ok(a)) => a.holds(
                    dir@,
                    std_sources@,
                    modules@,
                    next_id,
                ),
                _ => false,
            },
    {
        let (modules, next_id): (Vec<StdModule>, u32) = match parsed {
            Ok(p) => p,
            Err(broken) => {
                return Err(broken);
            },
        };
        let mut sources: Vec<Source> = Vec::new();
        let n: usize = std_sources.len();
        let mut i: usize = 0;
        for m in it: modules
            invariant
                it.seq() == modules@,
                n == std_sources@.len(),
                i == (if it.index() <= n {
                    it.index() as int
                } else {
                    n as int
                }),
                sources@.len() == i,
                forall|j: int|
                    0 <= j < i ==> {
                        &&& (#[trigger] sources@[j]).module == modules@[j].path
                        &&& sources@[j].path@ == below(dir@, std_sources@[j].0@)
                        &&& sources@[j].index@ == std_sources@[j].1@
                        &&& sources@[j].trivia@ == trivia_or_none(modules@[j].trivia)
                    },
        {
            if i < n {
                let trivia: Vec<Trivia> = match m.trivia {
                    Some(t) => t,
                    None => Vec::new(),
                };
                sources.push(
                    Source {
                        module: m.path,
                        path: join_path(dir, std_sources[i].0.as_str()),
                        index: LineIndex::new(std_sources[i].1.as_str()),
                        trivia,
                    },
                );
                i = i + 1;
            }
        }
        Ok(Analyzer { cached: Some(Cached { next_id, sources }) })
    }

    /// The first expression number that the stdlib leaves free: the document and its siblings
    /// are numbered from here, so that every number in a compilation is unique.
    pub fn next_id(&self) -> (id: u32)
        ensures
            id == self.first_id(),
    {
        match &self.cached {
            Some(c) => c.next_id,
            None => 0,
        }
    }

    /// Lexer and parser diagnostics only, for a session with no usable toolchain.
    ///
    /// The checker is skipped rather than run against an empty stdlib on purpose: with no
    /// `std` in scope every name in a normal file is undefined, and the resulting wall of red
    /// says nothing true about the user's code.
    pub fn syntax_only() -> (analyzer: Analyzer)
        ensures
            !analyzer.checks(),
            analyzer.stdlib() == Seq::<Source>::empty(),
            analyzer.first_id() == 0,
    {
        Analyzer { cached: None }
    }

    /// The stdlib files, for turning a definition into a location.
    pub fn sources(&self) -> (sources: &[Source])
        ensures
            sources@ == self.stdlib(),
    {
        match &self.cached {
            Some(c) => c.sources.as_slice(),
            None => &[],
        }
    }
}

/// Where a diagnostic is shown.
#[derive(Debug, Clone, Copy, PartialEq, Eq, Structural)]
pub enum Destination {
    /// On the analyzed document.
    Own,
    /// On one of the other project files.
    File(usize),
    /// Nowhere: it belongs to the stdlib.
    Nowhere,
}

/// Where a diagnostic raised in `module` is shown, when `doc` is the analyzed document's module
/// and `files` are the other project files'.
pub open spec fn destination_of(
    module: Seq<Seq<char>>,
    doc: Seq<Seq<char>>,
    files: Seq<Seq<Seq<char>>>,
) -> Destination {
    if module == doc {
        Destination::Own
    } else {
        match exact_match(module, files) {
            Some(i) => Destination::File(i as usize),
            None => match prefix_match(module, files) {
                Some(i) => if encloses(doc, module) && files[i].len() <= doc.len() {
                    Destination::Own
                } else {
                    Destination::File(i as usize)
                },
                None => if encloses(doc, module) {
                    Destination::Own
                } else {
                    Destination::Nowhere
                },
            },
        }
    }
}

/// Where a diagnostic raised in `module` is shown.
///
/// Exact file first; then the longest non-empty prefix, because an error inside a nested module
/// carries the nested path and the file that holds it is the outer one's.
pub fn destination(module: &[String], doc_module: &[String], sources: &[Source]) -> (to:
    Destination)
    ensures
        to == destination_of(texts(module@), texts(doc_module@), modules_of(sources@)),
        to matches Destination::File(i) ==> i < sources@.len(),
{
    if same_names(module, doc_module) {
        return Destination::Own;
    }
    if let Some(i) = find_exact(sources, module) {
        return Destination::File(i);
    }
    let enclosed: bool = doc_module.len() > 0 && begins_with(module, doc_module);
    match find_prefix(sources, module) {
        Some(i) => {
            proof {
                assert(modules_of(sources@)[i as int].len() == sources@[i as int].module@.len());
            }
            if enclosed && sources[i].module.len() <= doc_module.len() {
                Destination::Own
            } else {
                Destination::File(i)
            }
        },
        None => if enclosed {
            Destination::Own
        } else {
            Destination::Nowhere
        },
    }
}

/// What diagnostics say, each with the module it was raised in.
pub open spec fn raised(items: Seq<(Vec<String>, Diagnostic)>) -> Seq<
    (Seq<Seq<char>>, DiagnosticView),
> {
    Seq::new(items.len(), |i: int| (texts(items[i].0@), items[i].1@))
}

/// The diagnostics among `items` that are shown at `to`, in the order they came in.
pub open spec fn routed(
    items: Seq<(Seq<Seq<char>>, DiagnosticView)>,
    doc: Seq<Seq<char>>,
    files: Seq<Seq<Seq<char>>>,
    to: Destination,
) -> Seq<DiagnosticView>
    decreases items.len(),
{
    if items.len() == 0 {
        Seq::empty()
    } else {
        let rest = routed(items.drop_last(), doc, files, to);
        let (module, d) = items.last();
        if destination_of(module, doc, files) == to {
            rest.push(d)
        } else {
            rest
        }
    }
}

/// Split diagnostics between the analyzed document and the project files they belong to.
///
/// Every project file gets an entry, empty when it is clean: publishing nothing is how a fixed
/// error leaves the problems panel. A stdlib module's match no file and are dropped: anchored
/// to any buffer they would underline an unrelated token.
pub fn route(
    items: Vec<(Vec<String>, Diagnostic)>,
    doc_module: &[String],
    sources: &[Source],
) -> (split: (Vec<Diagnostic>, Vec<(String, Vec<Diagnostic>)>))
    ensures
        said(split.0@) == routed(
            raised(items@),
            texts(doc_module@),
            modules_of(sources@),
            Destination::Own,
        ),
        split.1@.len() == sources@.len(),
        forall|i: int|
            0 <= i < sources@.len() ==> (#[trigger] split.1@[i]).0 == sources@[i].path
                && said(split.1@[i].1@) == routed(
                raised(items@),
                texts(doc_module@),
                modules_of(sources@),
                Destination::File(i as usize),
            ),
{
    let ghost doc = texts(doc_module@);
    let ghost files = modules_of(sources@);
    let ghost given = raised(items@);
    let mut own: Vec<Diagnostic> = Vec::new();
    let mut foreign: Vec<(String, Vec<Diagnostic>)> = Vec::new();
    let n: usize = sources.len();
    let mut i: usize = 0;
    while i < n
        invariant
            n == sources@.len(),
            i <= n,
            foreign@.len() == i,
            forall|j: int|
                0 <= j < i ==> (#[trigger] foreign@[j]).0 == sources@[j].path
                    && foreign@[j].1@ == Seq::<Diagnostic>::empty(),
        decreases n - i,
    {
        foreign.push((sources[i].path.clone(), Vec::new()));
        i = i + 1;
    }
    proof {
        assert(given.take(0) =~= Seq::<(Seq<Seq<char>>, DiagnosticView)>::empty());
        assert(said(own@) =~= Seq::<DiagnosticView>::empty());
        assert forall|j: int| 0 <= j < n implies said((#[trigger] foreign@[j]).1@) =~= Seq::<
            DiagnosticView,
        >::empty() by {}
    }
    for item in it: items
        invariant
            it.seq() == items@,
            given == raised(items@),
            n == sources@.len(),
            doc == texts(doc_module@),
            files == modules_of(sources@),
            foreign@.len() == n,
            said(own@) == routed(given.take(it.index() as int), doc, files, Destination::Own),
            forall|j: int|
                0 <= j < n ==> (#[trigger] foreign@[j]).0 == sources@[j].path && said(
                    foreign@[j].1@,
                ) == routed(
                    given.take(it.index() as int),
                    doc,
                    files,
                    Destination::File(j as usize),
                ),
    {
        proof {
            let k = it.index() as int;
            assert(given.take(k + 1).drop_last() =~= given.take(k));
            assert(given.take(k + 1).last() == (texts(item.0@), item.1@));
        }
        let (module, d) = item;
        let ghost own_before = own@;
        let ghost foreign_before = foreign@;
        match destination(&module, doc_module, sources) {
            Destination::Own => {
                own.push(d);
                proof {
                    assert(said(own@) =~= said(own_before).push(d@));
                }
            },
            Destination::File(f) => {
                foreign[f].1.push(d);
                proof {
                    assert(said(foreign@[f as int].1@) =~= said(
                        foreign_before[f as int].1@,
                    ).push(d@));
                }
            },
            Destination::Nowhere => {},
        }
    }
    proof {
        assert(given.take(items@.len() as int) =~= given);
    }
    (own, foreign)
}

/// Attach each foreign file's text to its diagnostics.
pub fn with_text(foreign: Vec<(String, Vec<Diagnostic>)>, sources: &[Source]) -> (out: Vec<
    (String, String, Vec<Diagnostic>),
>)
    ensures
        out@.len() == (if foreign@.len() <= sources@.len() {
            foreign@.len()
        } else {
            sources@.len()
        }),
        forall|i: int|
            0 <= i < out@.len() ==> (#[trigger] out@[i]).0 == foreign@[i].0 && out@[i].1@
                == sources@[i].index@ && out@[i].2 == foreign@[i].1,
{
    let mut out: Vec<(String, String, Vec<Diagnostic>)> = Vec::new();
    let n: usize = sources.len();
    let mut i: usize = 0;
    for entry in it: foreign
        invariant
            it.seq() == foreign@,
            n == sources@.len(),
            i == (if it.index() <= n {
                it.index() as int
            } else {
                n as int
            }),
            out@.len() == i,
            forall|j: int|
                0 <= j < i ==> (#[trigger] out@[j]).0 == foreign@[j].0 && out@[j].1@
                    == sources@[j].index@ && out@[j].2 == foreign@[j].1,
    {
        if i < n {
            let (path, ds) = entry;
            out.push((path, sources[i].index.text().to_owned(), ds));
            i = i + 1;
        }
    }
    out
}

/// How many diagnostics are shown on the first `n` project files together.
pub open spec fn shown_on_files(
    items: Seq<(Seq<Seq<char>>, DiagnosticView)>,
    doc: Seq<Seq<char>>,
    files: Seq<Seq<Seq<char>>>,
    n: nat,
) -> nat
    decreases n,
{
    if n == 0 {
        0
    } else {
        shown_on_files(items, doc, files, (n - 1) as nat) + routed(
            items,
            doc,
            files,
            Destination::File((n - 1) as usize),
        ).len()
    }
}

/// Every diagnostic goes to exactly one place: none is shown twice, and none is lost but those
/// that belong to no file.
pub proof fn law_every_diagnostic_has_one_destination(
    items: Seq<(Seq<Seq<char>>, DiagnosticView)>,
    doc: Seq<Seq<char>>,
    files: Seq<Seq<Seq<char>>>,
)
    requires
        files.len() <= usize::MAX,
    ensures
        routed(items, doc, files, Destination::Own).len() + shown_on_files(
            items,
            doc,
            files,
            files.len(),
        ) + routed(items, doc, files, Destination::Nowhere).len() == items.len(),
    decreases items.len(),
{
    if items.len() == 0 {
        lemma_nothing_on_files(items, doc, files, files.len());
    } else {
        let init = items.drop_last();
        law_every_diagnostic_has_one_destination(init, doc, files);
        let module = items.last().0;
        lemma_exact_match(module, files);
        lemma_prefix_match(module, files);
        lemma_one_more_on_files(items, doc, files, files.len());
    }
}

proof fn lemma_nothing_on_files(
    items: Seq<(Seq<Seq<char>>, DiagnosticView)>,
    doc: Seq<Seq<char>>,
    files: Seq<Seq<Seq<char>>>,
    n: nat,
)
    requires
        items.len() == 0,
    ensures
        shown_on_files(items, doc, files, n) == 0,
    decreases n,
{
    if n > 0 {
        lemma_nothing_on_files(items, doc, files, (n - 1) as nat);
    }
}

proof fn lemma_one_more_on_files(
    items: Seq<(Seq<Seq<char>>, DiagnosticView)>,
    doc: Seq<Seq<char>>,
    files: Seq<Seq<Seq<char>>>,
    n: nat,
)
    requires
        items.len() > 0,
        n <= files.len() <= usize::MAX,
    ensures
        shown_on_files(items, doc, files, n) == shown_on_files(items.drop_last(), doc, files, n)
            + (match destination_of(items.last().0, doc, files) {
            Destination::File(i) => if i < n {
                1nat
            } else {
                0
            },
            _ => 0,
        }),
    decreases n,
{
    if n > 0 {
        lemma_one_more_on_files(items, doc, files, (n - 1) as nat);
    }
}

/// The document's own diagnostics stay on it; those of a project file that declares another
/// module go to a file that declares it; and only what no file and no document encloses is
/// dropped.
pub proof fn law_a_siblings_error_is_routed_to_its_file(
    module: Seq<Seq<char>>,
    doc: Seq<Seq<char>>,
    files: Seq<Seq<Seq<char>>>,
)
    requires
        files.len() <= usize::MAX,
    ensures
        module == doc ==> destination_of(module, doc, files) == Destination::Own,
        module != doc && files.contains(module) ==> (destination_of(
            module,
            doc,
            files,
        ) matches Destination::File(i) && i < files.len() && files[i as int] == module),
        destination_of(module, doc, files) == Destination::Nowhere <==> {
            &&& module != doc
            &&& !encloses(doc, module)
            &&& forall|i: int|
                0 <= i < files.len() ==> #[trigger] files[i] != module && !encloses(
                    files[i],
                    module,
                )
        },
{
    lemma_exact_match(module, files);
    lemma_prefix_match(module, files);
}

/// What the checker suggests.
#[derive(Debug)]
pub enum Suggestion {
    /// Import this path.
    AddUse { path: String },
    Other,
}

/// What a checker error is about, as far as a fix depends on it.
#[derive(Debug)]
pub enum TypeErrorKind {
    UnknownName { suggestion: Option<Suggestion> },
    Unknown { suggestion: Option<Suggestion> },
    Other,
}

/// An error of the checker.
#[derive(Debug)]
pub struct TypeError {
    pub module: Vec<String>,
    pub span: Span,
    pub message: String,
    pub labels: Vec<(Span, String)>,
    pub help: Option<String>,
    pub kind: TypeErrorKind,
}

/// A warning of the checker, with the name of its lint.
#[derive(Debug)]
pub struct Warning {
    pub module: Vec<String>,
    pub span: Span,
    pub message: String,
    pub lint: String,
}

/// The one mechanical fix the checker computes: the missing import behind an unknown name.
/// Replacing what the user typed is a judgement, adding an import is not.
pub open spec fn fix_of(kind: TypeErrorKind) -> Option<Seq<char>> {
    match kind {
        TypeErrorKind::UnknownName { suggestion: Some(Suggestion::AddUse { path }) } => Some(
            path@,
        ),
        TypeErrorKind::Unknown { suggestion: Some(Suggestion::AddUse { path }) } => Some(path@),
        _ => None,
    }
}

/// What a checker error says.
pub open spec fn type_error(e: TypeError) -> DiagnosticView {
    DiagnosticView {
        span: e.span,
        message: e.message@,
        labels: notes(e.labels@),
        help: text_in(e.help),
        severity: Severity::Error,
        code: None,
        fix: fix_of(e.kind),
    }
}

/// A checker error, with the labels and help it carries.
pub fn convert(e: TypeError) -> (item: (Vec<String>, Diagnostic))
    ensures
        item.0 == e.module,
        item.1@ == type_error(e),
{
    let fix: Option<Fix> = match e.kind {
        TypeErrorKind::UnknownName { suggestion: Some(Suggestion::AddUse { path }) } => Some(
            Fix::InsertUse(path),
        ),
        TypeErrorKind::Unknown { suggestion: Some(Suggestion::AddUse { path }) } => Some(
            Fix::InsertUse(path),
        ),
        _ => None,
    };
    (
        e.module,
        Diagnostic {
            span: e.span,
            message: e.message,
            labels: e.labels,
            help: e.help,
            severity: Severity::Error,
            code: None,
            fix,
        },
    )
}

/// What a warning says.
pub open spec fn warning(w: Warning) -> DiagnosticView {
    DiagnosticView {
        span: w.span,
        message: w.message@,
        labels: Seq::empty(),
        help: None,
        severity: Severity::Warning,
        code: Some(w.lint@),
        fix: None,
    }
}

/// A warning as a diagnostic.
pub fn convert_warning(w: Warning) -> (item: (Vec<String>, Diagnostic))
    ensures
        item.0 == w.module,
        item.1@ == warning(w),
{
    (
        w.module,
        Diagnostic {
            span: w.span,
            message: w.message,
            labels: Vec::new(),
            help: None,
            severity: Severity::Warning,
            code: Some(w.lint),
            fix: None,
        },
    )
}

/// An error of the lexer, the parser or the expander.
#[derive(Debug)]
pub struct SyntaxError {
    pub span: Span,
    pub message: String,
}

/// What such errors say: where, and what.
pub open spec fn syntax_errors(errors: Seq<SyntaxError>) -> Seq<DiagnosticView> {
    Seq::new(errors.len(), |i: int| plain_error(errors[i].span, errors[i].message@))
}

/// What the checker's errors say, each with the module it was raised in.
pub open spec fn type_errors(errors: Seq<TypeError>) -> Seq<(Seq<Seq<char>>, DiagnosticView)> {
    Seq::new(errors.len(), |i: int| (texts(errors[i].module@), type_error(errors[i])))
}

/// What the checker's warnings say, each with the module it was raised in.
pub open spec fn warnings_of(warnings: Seq<Warning>) -> Seq<(Seq<Seq<char>>, DiagnosticView)> {
    Seq::new(warnings.len(), |i: int| (texts(warnings[i].module@), warning(warnings[i])))
}

fn plain_all(errors: Vec<SyntaxError>) -> (out: Vec<Diagnostic>)
    ensures
        said(out@) == syntax_errors(errors@),
{
    let mut out: Vec<Diagnostic> = Vec::new();
    for e in it: errors
        invariant
            it.seq() == errors@,
            said(out@) =~= syntax_errors(errors@).take(it.index() as int),
    {
        let ghost before = out@;
        out.push(Diagnostic::plain(e.span, e.message));
        proof {
            assert(said(out@) =~= said(before).push(out@.last()@));
        }
    }
    out
}

fn convert_all(errors: Vec<TypeError>) -> (out: Vec<(Vec<String>, Diagnostic)>)
    ensures
        raised(out@) == type_errors(errors@),
{
    let mut out: Vec<(Vec<String>, Diagnostic)> = Vec::new();
    for e in it: errors
        invariant
            it.seq() == errors@,
            raised(out@) =~= type_errors(errors@).take(it.index() as int),
    {
        let ghost before = out@;
        out.push(convert(e));
        proof {
            assert(raised(out@) =~= raised(before).push((texts(e.module@), type_error(e))));
        }
    }
    out
}

fn convert_warnings(warnings: Vec<Warning>) -> (out: Vec<(Vec<String>, Diagnostic)>)
    ensures
        raised(out@) == warnings_of(warnings@),
{
    let mut out: Vec<(Vec<String>, Diagnostic)> = Vec::new();
    for w in it: warnings
        invariant
            it.seq() == warnings@,
            raised(out@) =~= warnings_of(warnings@).take(it.index() as int),
    {
        let ghost before = out@;
        out.push(convert_warning(w));
        proof {
            assert(raised(out@) =~= raised(before).push((texts(w.module@), warning(w))));
        }
    }
    out
}

/// The project around the analyzed document. Outside a project there are no other files, and
/// the document is the root module.
pub struct Project {
    /// The module that the document declares.
    pub doc_module: Vec<String>,
    /// The other files, never the document itself.
    pub sources: Vec<Source>,
}

/// Everything one run of the front end produced.
///
/// `checked` is `None` whenever the file did not reach the checker, which is the ordinary state
/// of a file mid-keystroke.
pub struct Analysis {
    /// The analyzed document's own diagnostics.
    pub diagnostics: Vec<Diagnostic>,
    /// Diagnostics belonging to other project files, one entry per file whether it has any or
    /// not: publishing an empty list is how a fixed error leaves the editor's problems panel.
    /// Each has the file's path and the text that the spans index. Empty outside a project.
    pub foreign: Vec<(String, String, Vec<Diagnostic>)>,
    pub checked: Option<Checked>,
}

impl Analysis {
    /// Whether this shows certain diagnostics on the document and nothing else.
    pub open spec fn shows_only(self, diagnostics: Seq<DiagnosticView>) -> bool {
        &&& said(self.diagnostics@) == diagnostics
        &&& self.foreign@.len() == 0
        &&& self.checked is None
    }

    /// Whether this shows each error, and after the errors each warning, in the place it
    /// belongs to.
    pub open spec fn shows(
        self,
        errors: Seq<(Seq<Seq<char>>, DiagnosticView)>,
        warnings: Seq<(Seq<Seq<char>>, DiagnosticView)>,
        project: Project,
    ) -> bool {
        let doc = texts(project.doc_module@);
        let files = modules_of(project.sources@);
        &&& said(self.diagnostics@) == routed(errors, doc, files, Destination::Own) + routed(
            warnings,
            doc,
            files,
            Destination::Own,
        )
        &&& self.foreign@.len() == project.sources@.len()
        &&& forall|i: int|
            0 <= i < project.sources@.len() ==> {
                let to = Destination::File(i as usize);
                &&& (#[trigger] self.foreign@[i]).0 == project.sources@[i].path
                &&& self.foreign@[i].1@ == project.sources@[i].index@
                &&& said(self.foreign@[i].2@) == routed(errors, doc, files, to) + routed(
                    warnings,
                    doc,
                    files,
                    to,
                )
            }
    }
}

proof fn lemma_all_of_one_module(
    items: Seq<(Seq<Seq<char>>, DiagnosticView)>,
    module: Seq<Seq<char>>,
    doc: Seq<Seq<char>>,
    files: Seq<Seq<Seq<char>>>,
    to: Destination,
)
    requires
        forall|i: int| 0 <= i < items.len() ==> (#[trigger] items[i]).0 == module,
    ensures
        routed(items, doc, files, to).len() == if destination_of(module, doc, files) == to {
            items.len()
        } else {
            0
        },
    decreases items.len(),
{
    if items.len() > 0 {
        assert(items[items.len() - 1].0 == module);
        lemma_all_of_one_module(items.drop_last(), module, doc, files, to);
    }
}

/// What is wrong in one sibling alone is shown on that file alone: the document shows nothing,
/// the file's entry has as many diagnostics as the compiler reported, and every other file's is
/// empty. A sibling with nothing wrong in it has an entry all the same.
pub proof fn law_only_the_file_in_error_shows_errors(
    errors: Seq<(Seq<Seq<char>>, DiagnosticView)>,
    warnings: Seq<(Seq<Seq<char>>, DiagnosticView)>,
    project: Project,
    analysis: Analysis,
    j: int,
)
    requires
        analysis.shows(errors, warnings, project),
        0 <= j < project.sources@.len(),
        texts(project.sources@[j].module@) != texts(project.doc_module@),
        forall|k: int|
            0 <= k < j ==> texts((#[trigger] project.sources@[k]).module@) != texts(
                project.sources@[j].module@,
            ),
        forall|i: int|
            0 <= i < errors.len() ==> (#[trigger] errors[i]).0 == texts(
                project.sources@[j].module@,
            ),
        forall|i: int|
            0 <= i < warnings.len() ==> (#[trigger] warnings[i]).0 == texts(
                project.sources@[j].module@,
            ),
    ensures
        analysis.diagnostics@.len() == 0,
        analysis.foreign@.len() == project.sources@.len(),
        analysis.foreign@[j].2@.len() == errors.len() + warnings.len(),
        forall|k: int|
            0 <= k < analysis.foreign@.len() && k != j ==> (
            #[trigger] analysis.foreign@[k]).2@.len() == 0,
{
    let doc = texts(project.doc_module@);
    let files = modules_of(project.sources@);
    let module = files[j];
    assert(project.sources.len() == files.len());
    lemma_exact_match(module, files);
    let first = exact_match(module, files)->0;
    assert(files[first] == texts(project.sources@[first].module@));
    assert(first == j);
    lemma_all_of_one_module(errors, module, doc, files, Destination::Own);
    lemma_all_of_one_module(warnings, module, doc, files, Destination::Own);
    assert(said(analysis.diagnostics@).len() == 0);
    assert forall|k: int| 0 <= k < analysis.foreign@.len() implies (
    #[trigger] analysis.foreign@[k]).2@.len() == (if k == j {
        errors.len() + warnings.len()
    } else {
        0
    }) by {
        let to = Destination::File(k as usize);
        lemma_all_of_one_module(errors, module, doc, files, to);
        lemma_all_of_one_module(warnings, module, doc, files, to);
        assert(said(analysis.foreign@[k].2@).len() == analysis.foreign@[k].2@.len());
    }
}

/// What a stage of the front end came to.
#[allow(inconsistent_fields)]
pub enum Outcome {
    /// The lexer's.
    Lexed(Result<(), Vec<SyntaxError>>),
    /// The parser's: its errors, and whether there is a tree.
    Parsed { errors: Vec<SyntaxError>, tree: bool },
    /// The expander's.
    Expanded { errors: Vec<SyntaxError> },
    /// Resolving the declarations of the document, its project and the stdlib.
    Built { errors: Vec<TypeError>, project: Project },
    /// Checking the bodies.
    Checked {
        errors: Vec<TypeError>,
        warnings: Vec<Warning>,
        module: Module,
        result: TypecheckResult,
        env: Env,
        project: Project,
    },
}

/// What to do next.
pub enum Step {
    /// Parse the tokens.
    Parse,
    /// Expand the tree.
    Expand,
    /// Gather the project and resolve the declarations.
    Build,
    /// Check the bodies.
    Check(Project),
    /// Show this.
    Done(Analysis),
}

impl Analyzer {
    /// Whether a step is what follows from what a stage came to.
    pub open spec fn follows(self, outcome: Outcome, step: Step) -> bool {
        match outcome {
            Outcome::Lexed(Ok(_)) => step is Parse,
            Outcome::Lexed(Err(errors)) => step matches Step::Done(a) && a.shows_only(
                syntax_errors(errors@),
            ),
            Outcome::Parsed { errors, tree } => if errors@.len() == 0 && tree {
                step is Expand
            } else {
                step matches Step::Done(a) && a.shows_only(syntax_errors(errors@))
            },
            Outcome::Expanded { errors } => if errors@.len() == 0 && self.checks() {
                step is Build
            } else {
                step matches Step::Done(a) && a.shows_only(syntax_errors(errors@))
            },
            Outcome::Built { errors, project } => if errors@.len() == 0 {
                step == Step::Check(project)
            } else {
                step matches Step::Done(a) && a.shows(
                    type_errors(errors@),
                    Seq::empty(),
                    project,
                ) && a.checked is None
            },
            Outcome::Checked { errors, warnings, module, result, env, project } => {
                step matches Step::Done(a) && a.shows(
                    type_errors(errors@),
                    warnings_of(warnings@),
                    project,
                ) && a.checked == Some(
                    Checked {
                        module,
                        doc_module: project.doc_module,
                        result,
                        env,
                        sources: project.sources,
                    },
                )
            },
        }
    }

    /// What follows from what a stage came to, in pipeline order.
    ///
    /// The first stage that fails ends the run. A session with no stdlib ends it before the
    /// declarations. A warning never withholds the check: hover and navigation come from a
    /// warned-but-clean check too, and from one with errors in its bodies.
    pub fn analyze(&self, outcome: Outcome) -> (step: Step)
        ensures
            self.follows(outcome, step),
    {
        match outcome {
            Outcome::Lexed(Ok(_)) => Step::Parse,
            Outcome::Lexed(Err(errors)) => Step::Done(bail(errors)),
            Outcome::Parsed { errors, tree } => if errors.len() == 0 && tree {
                Step::Expand
            } else {
                Step::Done(bail(errors))
            },
            Outcome::Expanded { errors } => if errors.len() == 0 && self.cached.is_some() {
                Step::Build
            } else {
                Step::Done(bail(errors))
            },
            Outcome::Built { errors, project } => if errors.len() == 0 {
                Step::Check(project)
            } else {
                Step::Done(show(errors, Vec::new(), &project))
            },
            Outcome::Checked { errors, warnings, module, result, env, project } => {
                let shown: Analysis = show(errors, warnings, &project);
                Step::Done(
                    Analysis {
                        diagnostics: shown.diagnostics,
                        foreign: shown.foreign,
                        checked: Some(
                            Checked {
                                module,
                                doc_module: project.doc_module,
                                result,
                                env,
                                sources: project.sources,
                            },
                        ),
                    },
                )
            },
        }
    }
}

/// A run that ends keeps a check exactly when it reached the bodies, whatever was wrong in them;
/// and one that ended before the declarations shows nothing on any other file.
pub proof fn law_a_check_is_kept_once_bodies_are_checked(
    analyzer: Analyzer,
    outcome: Outcome,
    analysis: Analysis,
)
    requires
        analyzer.follows(outcome, Step::Done(analysis)),
    ensures
        analysis.checked is Some <==> outcome is Checked,
        !(outcome is Built) && !(outcome is Checked) ==> analysis.foreign@.len() == 0,
{
}

/// An analysis that ends with these errors.
fn bail(errors: Vec<SyntaxError>) -> (analysis: Analysis)
    ensures
        analysis.shows_only(syntax_errors(errors@)),
{
    Analysis { diagnostics: plain_all(errors), foreign: Vec::new(), checked: None }
}

/// Each error, and after the errors each warning, in the place it belongs to.
fn show(errors: Vec<TypeError>, warnings: Vec<Warning>, project: &Project) -> (analysis: Analysis)
    ensures
        analysis.shows(type_errors(errors@), warnings_of(warnings@), *project),
        analysis.checked is None,
{
    let ghost raised_errors = type_errors(errors@);
    let ghost raised_warnings = warnings_of(warnings@);
    let ghost doc = texts(project.doc_module@);
    let ghost files = modules_of(project.sources@);
    let (own, mut foreign) = route(convert_all(errors), &project.doc_module, &project.sources);
    let (own_warnings, foreign_warnings) = route(
        convert_warnings(warnings),
        &project.doc_module,
        &project.sources,
    );
    let mut diagnostics: Vec<Diagnostic> = own;
    extend(&mut diagnostics, own_warnings);
    let ghost split = foreign@;
    let n: usize = foreign.len();
    let mut i: usize = 0;
    for entry in it: foreign_warnings
        invariant
            it.seq() == foreign_warnings@,
            n == project.sources@.len(),
            n == foreign_warnings@.len(),
            n == foreign@.len(),
            n == split.len(),
            i == it.index(),
            forall|j: int|
                0 <= j < n ==> (#[trigger] foreign@[j]).0 == split[j].0 && said(foreign@[j].1@)
                    == (if j < i {
                    said(split[j].1@) + said(foreign_warnings@[j].1@)
                } else {
                    said(split[j].1@)
                }),
    {
        let (_path, extra) = entry;
        extend(&mut foreign[i].1, extra);
        i = i + 1;
    }
    Analysis { diagnostics, foreign: with_text(foreign, &project.sources), checked: None }
}

/// Append diagnostics to others.
fn extend(diagnostics: &mut Vec<Diagnostic>, more: Vec<Diagnostic>)
    ensures
        said(final(diagnostics)@) == said(old(diagnostics)@) + said(more@),
{
    let ghost given = more@;
    let mut more: Vec<Diagnostic> = more;
    diagnostics.append(&mut more);
    proof {
        assert(said(diagnostics@) =~= said(old(diagnostics)@) + said(given));
    }
}

/// Whether two strings that may be absent say the same.
pub open spec fn same_option(a: Option<String>, b: Option<String>) -> bool {
    &&& a is Some <==> b is Some
    &&& a matches Some(x) ==> x@ == b->0@
}

/// Whether two lists of notes say the same in the same places.
pub open spec fn same_notes(a: Seq<(Span, String)>, b: Seq<(Span, String)>) -> bool {
    &&& a.len() == b.len()
    &&& forall|i: int| 0 <= i < a.len() ==> (#[trigger] a[i]).0 == b[i].0 && a[i].1@ == b[i].1@
}

/// Whether a diagnostic tells what the checker's error says.
pub open spec fn tells_error(d: Diagnostic, e: TypeError) -> bool {
    &&& d.span == e.span
    &&& d.message@ == e.message@
    &&& same_notes(d.labels@, e.labels@)
    &&& same_option(d.help, e.help)
    &&& d.severity == Severity::Error
    &&& d.code is None
    &&& match e.kind {
        TypeErrorKind::UnknownName { suggestion: Some(Suggestion::AddUse { path }) } => d.fix
            matches Some(Fix::InsertUse(p)) && p@ == path@,
        TypeErrorKind::Unknown { suggestion: Some(Suggestion::AddUse { path }) } => d.fix
            matches Some(Fix::InsertUse(p)) && p@ == path@,
        _ => d.fix is None,
    }
}

/// Whether a diagnostic tells what the checker's warning says.
pub open spec fn tells_warning(d: Diagnostic, w: Warning) -> bool {
    &&& d.span == w.span
    &&& d.message@ == w.message@
    &&& d.labels@.len() == 0
    &&& d.help is None
    &&& d.severity == Severity::Warning
    &&& d.code matches Some(lint) && lint@ == w.lint@
    &&& d.fix is None
}

/// Whether a diagnostic tells what an error of the lexer, the parser or the expander says.
pub open spec fn tells_syntax(d: Diagnostic, e: SyntaxError) -> bool {
    &&& d.span == e.span
    &&& d.message@ == e.message@
    &&& d.labels@.len() == 0
    &&& d.help is None
    &&& d.severity == Severity::Error
    &&& d.code is None
    &&& d.fix is None
}

/// Whether a run that ended shows these errors on the document, all of them in order, and
/// nothing anywhere else.
pub open spec fn ends_with(analysis: Analysis, errors: Seq<SyntaxError>) -> bool {
    &&& analysis.diagnostics@.len() == errors.len()
    &&& forall|i: int|
        0 <= i < errors.len() ==> tells_syntax(#[trigger] analysis.diagnostics@[i], errors[i])
    &&& analysis.foreign@.len() == 0
    &&& analysis.checked is None
}

/// The first stage that fails ends the run, with every error it had shown on the document; a
/// stage that does not fail is followed by the next; and without a stdlib nothing is resolved.
pub proof fn law_the_first_stage_that_fails_ends_the_run(
    analyzer: Analyzer,
    outcome: Outcome,
    step: Step,
)
    requires
        analyzer.follows(outcome, step),
    ensures
        outcome matches Outcome::Lexed(Ok(_)) ==> step is Parse,
        outcome matches Outcome::Lexed(Err(errors)) ==> (step matches Step::Done(a) && ends_with(
            a,
            errors@,
        )),
        outcome matches Outcome::Parsed { errors, tree } ==> (if errors@.len() == 0 && tree {
            step is Expand
        } else {
            step matches Step::Done(a) && ends_with(a, errors@)
        }),
        outcome matches Outcome::Expanded { errors } ==> (if errors@.len() == 0
            && analyzer.checks() {
            step is Build
        } else {
            step matches Step::Done(a) && ends_with(a, errors@)
        }),
        outcome matches Outcome::Built { errors, project } ==> (if errors@.len() == 0 {
            step matches Step::Check(p) && p == project
        } else {
            step matches Step::Done(a) && a.checked is None
        }),
        outcome matches Outcome::Checked { errors, warnings, module, result, env, project } ==> (
        step matches Step::Done(a) && (a.checked matches Some(c) && c.module == module && c.result
            == result && c.env == env && c.sources == project.sources && c.doc_module
            == project.doc_module)),
{
    if let Step::Done(a) = step {
        assert forall|errors: Seq<SyntaxError>| #[trigger]
            a.shows_only(syntax_errors(errors)) implies ends_with(a, errors) by {
            let shown = said(a.diagnostics@);
            assert(shown.len() == errors.len());
            assert forall|i: int| 0 <= i < errors.len() implies tells_syntax(
                #[trigger] a.diagnostics@[i],
                errors[i],
            ) by {
                assert(shown[i] == plain_error(errors[i].span, errors[i].message@));
                assert(notes(a.diagnostics@[i].labels@).len() == a.diagnostics@[i].labels@.len());
            }
        }
    }
}

proof fn lemma_routed_places(
    items: Seq<(Seq<Seq<char>>, DiagnosticView)>,
    doc: Seq<Seq<char>>,
    files: Seq<Seq<Seq<char>>>,
    to: Destination,
    n: int,
) -> (at: Seq<int>)
    requires
        0 <= n <= items.len(),
    ensures
        in_places(at, n),
        routed(items.take(n), doc, files, to).len() == at.len(),
        forall|k: int|
            0 <= k < at.len() ==> routed(items.take(n), doc, files, to)[k]
                == items[#[trigger] at[k]].1,
        forall|i: int|
            0 <= i < n ==> (#[trigger] at.contains(i) <==> destination_of(items[i].0, doc, files)
                == to),
    decreases n,
{
    if n == 0 {
        Seq::empty()
    } else {
        let before = lemma_routed_places(items, doc, files, to, n - 1);
        assert(items.take(n).drop_last() =~= items.take(n - 1));
        assert(items.take(n).last() == items[n - 1]);
        lemma_one_more_place(before, n - 1);
        if destination_of(items[n - 1].0, doc, files) == to {
            let at = before.push(n - 1);
            let list = routed(items.take(n), doc, files, to);
            assert forall|k: int| 0 <= k < at.len() implies list[k] == items[
                #[trigger] at[k]
            ].1 by {
                if k < before.len() {
                    assert(at[k] == before[k]);
                }
            }
            at
        } else {
            before
        }
    }
}

proof fn lemma_tells_error(d: Diagnostic, e: TypeError)
    requires
        d@ == type_error(e),
    ensures
        tells_error(d, e),
{
    let (a, b) = (notes(d.labels@), notes(e.labels@));
    assert(a == b);
    assert forall|i: int| 0 <= i < d.labels@.len() implies (#[trigger] d.labels@[i]).0
        == e.labels@[i].0 && d.labels@[i].1@ == e.labels@[i].1@ by {
        assert(a[i] == b[i]);
    }
    assert(a.len() == d.labels@.len() && b.len() == e.labels@.len());
}

proof fn lemma_tells_warning(d: Diagnostic, w: Warning)
    requires
        d@ == warning(w),
    ensures
        tells_warning(d, w),
{
    assert(notes(d.labels@).len() == d.labels@.len());
}

/// The diagnostics that a checked run shows in one place: the document, or one of its files.
pub open spec fn shown_at(analysis: Analysis, to: Destination) -> Seq<Diagnostic> {
    match to {
        Destination::File(j) => analysis.foreign@[j as int].2@,
        _ => analysis.diagnostics@,
    }
}

/// Every error and every warning of a check is shown in the place it belongs to, with all that
/// it says, and no place shows anything else: `at` lists which of them, counting the errors first
/// and then the warnings, one place shows, in the order reported. Every file has its entry, with
/// its path and its text.
pub proof fn law_every_report_is_shown_where_it_belongs(
    analyzer: Analyzer,
    errors: Vec<TypeError>,
    warnings: Vec<Warning>,
    module: Module,
    result: TypecheckResult,
    env: Env,
    project: Project,
    analysis: Analysis,
    to: Destination,
) -> (at: Seq<int>)
    requires
        analyzer.follows(
            Outcome::Checked { errors, warnings, module, result, env, project },
            Step::Done(analysis),
        ) || (warnings@.len() == 0 && errors@.len() > 0 && analyzer.follows(
            Outcome::Built { errors, project },
            Step::Done(analysis),
        )),
        to is Own || (to matches Destination::File(j) && j < project.sources@.len()),
    ensures
        analysis.foreign@.len() == project.sources@.len(),
        forall|j: int|
            0 <= j < project.sources@.len() ==> (#[trigger] analysis.foreign@[j]).0
                == project.sources@[j].path && analysis.foreign@[j].1@
                == project.sources@[j].index@,
        in_places(at, (errors@.len() + warnings@.len()) as int),
        shown_at(analysis, to).len() == at.len(),
        forall|k: int|
            0 <= k < at.len() ==> (if #[trigger] at[k] < errors@.len() {
                tells_error(shown_at(analysis, to)[k], errors@[at[k]])
            } else {
                tells_warning(shown_at(analysis, to)[k], warnings@[at[k] - errors@.len()])
            }),
        forall|i: int|
            0 <= i < errors@.len() ==> (at.contains(i) <==> destination_of(
                texts((#[trigger] errors@[i]).module@),
                texts(project.doc_module@),
                modules_of(project.sources@),
            ) == to),
        forall|i: int|
            0 <= i < warnings@.len() ==> (at.contains(errors@.len() + i) <==> destination_of(
                texts((#[trigger] warnings@[i]).module@),
                texts(project.doc_module@),
                modules_of(project.sources@),
            ) == to),
{
    let doc = texts(project.doc_module@);
    let files = modules_of(project.sources@);
    let es = type_errors(errors@);
    let ws = warnings_of(warnings@);
    assert(warnings@.len() == 0 ==> ws =~= Seq::empty());
    assert(analysis.shows(es, ws, project));
    let ne = errors@.len() as int;
    let nw = warnings@.len() as int;
    let a = lemma_routed_places(es, doc, files, to, ne);
    let b = lemma_routed_places(ws, doc, files, to, nw);
    assert(es.take(ne) =~= es);
    assert(ws.take(nw) =~= ws);
    let c = Seq::new(b.len(), |k: int| b[k] + ne);
    let at = a + c;
    let list = shown_at(analysis, to);
    let re = routed(es, doc, files, to);
    let rw = routed(ws, doc, files, to);
    if let Destination::File(j) = to {
        assert(analysis.foreign@[j as int].0 == project.sources@[j as int].path);
    }
    assert(said(list) == re + rw);
    assert(said(list).len() == list.len());
    assert forall|k: int| 0 <= k < at.len() implies (if #[trigger] at[k] < ne {
        tells_error(list[k], errors@[at[k]])
    } else {
        tells_warning(list[k], warnings@[at[k] - ne])
    }) by {
        assert(said(list)[k] == list[k]@);
        if k < a.len() {
            assert(at[k] == a[k]);
            assert(re[k] == es[a[k]].1);
            lemma_tells_error(list[k], errors@[a[k]]);
        } else {
            assert(at[k] == b[k - a.len()] + ne);
            assert(rw[k - a.len()] == ws[b[k - a.len()]].1);
            lemma_tells_warning(list[k], warnings@[b[k - a.len()]]);
        }
    }
    assert forall|i: int| 0 <= i < errors@.len() implies (at.contains(i) <==> destination_of(
        texts((#[trigger] errors@[i]).module@),
        doc,
        files,
    ) == to) by {
        assert(a.contains(i) <==> destination_of(es[i].0, doc, files) == to);
        if a.contains(i) {
            let k = choose|k: int| 0 <= k < a.len() && a[k] == i;
            assert(at[k] == i);
        }
        if at.contains(i) {
            let k = choose|k: int| 0 <= k < at.len() && at[k] == i;
            if k >= a.len() {
                assert(at[k] == b[k - a.len()] + ne);
            } else {
                assert(a[k] == i);
            }
        }
    }
    assert forall|i: int| 0 <= i < warnings@.len() implies (at.contains(ne + i) <==> destination_of(
        texts((#[trigger] warnings@[i]).module@),
        doc,
        files,
    ) == to) by {
        assert(b.contains(i) <==> destination_of(ws[i].0, doc, files) == to);
        if b.contains(i) {
            let k = choose|k: int| 0 <= k < b.len() && b[k] == i;
            assert(at[a.len() + k] == ne + i);
        }
        if at.contains(ne + i) {
            let k = choose|k: int| 0 <= k < at.len() && at[k] == ne + i;
            if k < a.len() {
                assert(at[k] == a[k]);
            } else {
                assert(b[k - a.len()] == i);
            }
        }
    }
    assert forall|j: int, k: int| 0 <= j < k < at.len() implies #[trigger] at[j]
        < #[trigger] at[k] by {
        if k < a.len() {
            assert(a[j] < a[k]);
        } else if j >= a.len() {
            assert(b[j - a.len()] < b[k - a.len()]);
        } else {
            assert(at[j] == a[j] && at[k] == b[k - a.len()] + ne);
        }
    }
    assert forall|k: int| 0 <= k < at.len() implies 0 <= #[trigger] at[k] < ne + nw by {
        if k < a.len() {
            assert(at[k] == a[k]);
        } else {
            assert(at[k] == b[k - a.len()] + ne);
        }
    }
    at
}

/// What is raised in a module that no file declares goes to the file, or to the document, with
/// the longest module around it; the document is preferred to a file whose module is as long.
pub proof fn law_a_nested_modules_report_goes_to_the_nearest_file(
    module: Seq<Seq<char>>,
    doc: Seq<Seq<char>>,
    files: Seq<Seq<Seq<char>>>,
)
    requires
        files.len() <= usize::MAX,
        module != doc,
        !files.contains(module),
    ensures
        match destination_of(module, doc, files) {
            Destination::Own => doc.len() > 0 && doc.len() <= module.len() && module.take(
                doc.len() as int,
            ) == doc && forall|i: int|
                0 <= i < files.len() && 0 < (#[trigger] files[i]).len() <= module.len()
                    && module.take(files[i].len() as int) == files[i] ==> files[i].len()
                    <= doc.len(),
            Destination::File(j) => j < files.len() && 0 < files[j as int].len() <= module.len()
                && module.take(files[j as int].len() as int) == files[j as int] && (doc.len()
                <= module.len() && module.take(doc.len() as int) == doc ==> doc.len()
                < files[j as int].len()) && forall|i: int|
                0 <= i < files.len() && 0 < (#[trigger] files[i]).len() <= module.len()
                    && module.take(files[i].len() as int) == files[i] ==> files[i].len()
                    <= files[j as int].len(),
            Destination::Nowhere => true,
        },
{
    lemma_exact_match(module, files);
    lemma_prefix_match(module, files);
}

/// The file that holds a module is the nearest: its module is the longest, of the document's, the
/// project files' and the stdlib's, that is the module itself or a non-empty beginning of it. The
/// document is preferred to a project file whose module is as long, and that to one of the
/// stdlib. A module that only the document is near, or nothing is, is held by no other file.
pub proof fn law_the_nearest_file_holds_a_module(
    checked: Checked,
    analyzer: Analyzer,
    module: Seq<Seq<char>>,
    i: int,
)
    ensures
        checked.holder(analyzer, module) matches Some(src) ==> {
            &&& near(texts(src.module@), module)
            &&& checked.sources@.contains(src) || analyzer.stdlib().contains(src)
            &&& near(texts(checked.doc_module@), module) ==> checked.doc_module@.len()
                < src.module@.len()
            &&& 0 <= i < checked.sources@.len() && near(texts(checked.sources@[i].module@), module)
                ==> checked.sources@[i].module@.len() <= src.module@.len()
            &&& 0 <= i < analyzer.stdlib().len() && near(
                texts(analyzer.stdlib()[i].module@),
                module,
            ) ==> analyzer.stdlib()[i].module@.len() <= src.module@.len()
        },
        checked.holder(analyzer, module) is None ==> {
            &&& 0 <= i < checked.sources@.len() && near(texts(checked.sources@[i].module@), module)
                ==> near(texts(checked.doc_module@), module) && checked.sources@[i].module@.len()
                <= checked.doc_module@.len()
            &&& 0 <= i < analyzer.stdlib().len() && near(
                texts(analyzer.stdlib()[i].module@),
                module,
            ) ==> near(texts(checked.doc_module@), module) && analyzer.stdlib()[i].module@.len()
                <= checked.doc_module@.len()
        },
{
    let here = modules_of(checked.sources@);
    let there = modules_of(analyzer.stdlib());
    law_the_file_of_a_module(module, here);
    law_the_file_of_a_module(module, there);
    if 0 <= i < here.len() {
        assert(here[i] == texts(checked.sources@[i].module@));
        if encloses(here[i], module) {
            lemma_encloses(here[i], module);
        }
    }
    if 0 <= i < there.len() {
        assert(there[i] == texts(analyzer.stdlib()[i].module@));
        if encloses(there[i], module) {
            lemma_encloses(there[i], module);
        }
    }
    if let Some(j) = file_of(module, here) {
        assert(here[j] == texts(checked.sources@[j].module@));
        assert(checked.sources@.contains(checked.sources@[j]));
    }
    if let Some(j) = file_of(module, there) {
        assert(there[j] == texts(analyzer.stdlib()[j].module@));
        assert(analyzer.stdlib().contains(analyzer.stdlib()[j]));
    }
}

/// Whether one module path is another, or a non-empty beginning of it.
pub open spec fn near(file: Seq<Seq<char>>, module: Seq<Seq<char>>) -> bool {
    file == module || (0 < file.len() <= module.len() && module.take(file.len() as int) == file)
}

/// A stdlib that was taken in is all there: a source for each module the compiler parsed, in its
/// order, with the module it declares, its path below the directory, its text and its comments.
pub proof fn law_the_stdlib_is_all_there(
    analyzer: Analyzer,
    dir: Seq<char>,
    std_sources: Seq<(String, String)>,
    modules: Seq<StdModule>,
    next_id: u32,
)
    requires
        analyzer.holds(dir, std_sources, modules, next_id),
        modules.len() == std_sources.len(),
    ensures
        analyzer.checks(),
        analyzer.first_id() == next_id,
        analyzer.stdlib().len() == modules.len(),
        forall|i: int|
            0 <= i < modules.len() ==> {
                let source = #[trigger] analyzer.stdlib()[i];
                &&& source.module == modules[i].path
                &&& source.path@ == below(dir, std_sources[i].0@)
                &&& source.index@ == std_sources[i].1@
                &&& source.trivia@ == (match modules[i].trivia {
                    Some(t) => t@,
                    None => Seq::<Trivia>::empty(),
                })
            },
{
}

} // verus!
