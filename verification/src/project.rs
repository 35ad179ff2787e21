//! Finding the project around a document, and its other files.
//!
//! A path is a text whose components stand between slashes. What is on disk is asked outside;
//! here is decided what the answers mean.

use crate::analysis::{
    modules_of, routed, said, text_in, Analysis, Destination, DiagnosticView, Project, Source,
};
use crate::position::LineIndex;
use crate::sort::{
    in_places, law_sorting_orders_and_keeps, lemma_one_more_place, sort, sorted, Ranked,
};
use crate::syntax::Trivia;
use crate::text::{chars_of, lemma_lists_first, lists_before, lists_first, same_text, texts};
use vstd::prelude::*;
use vstd::utf8::{encode_utf8, encode_utf8_decode_utf8};

verus! {

/// A relative path below a directory. An absolute path is not below it and stays what it is.
pub open spec fn below(dir: Seq<char>, rel: Seq<char>) -> Seq<char> {
    if dir.len() == 0 || (rel.len() > 0 && rel[0] == '/') {
        rel
    } else if dir.last() == '/' {
        dir + rel
    } else {
        dir.push('/') + rel
    }
}

/// A relative path below a directory.
pub fn join_path(dir: &str, rel: &str) -> (path: String)
    ensures
        path@ == below(dir@, rel@),
{
    let d: Vec<char> = chars_of(dir);
    let r: Vec<char> = chars_of(rel);
    if d.len() == 0 || (r.len() > 0 && r[0] == '/') {
        return rel.to_owned();
    }
    let mut path: String = dir.to_owned();
    if d[d.len() - 1] != '/' {
        path.push('/');
    }
    path.append(rel);
    path
}

/// Where a document's project lies: its root is the directory made of the first components, as
/// many as the result says.
///
/// `manifest[k]` is whether the directory of the first `k` components holds a manifest. The
/// innermost one counts, and the document has to lie in the `src` beside it.
pub open spec fn root_of(doc: Seq<Seq<char>>, manifest: Seq<bool>) -> Option<int>
    decreases manifest.len(),
{
    if manifest.len() == 0 {
        None
    } else if manifest.last() {
        if doc[manifest.len() - 1] == "src"@ {
            Some(manifest.len() - 1)
        } else {
            None
        }
    } else {
        root_of(doc, manifest.drop_last())
    }
}

/// The project containing `doc`: walk up to a manifest, take `src` beneath it. `None`, for no
/// manifest or a document that is not under that project's `src`, means single-file analysis,
/// which is what a scratch buffer wants.
///
/// `manifest[k]` is whether the directory of the document's first `k` components holds a
/// manifest.
pub fn discover(doc: &[String], manifest: &[bool]) -> (root: Option<usize>)
    requires
        manifest@.len() == doc@.len(),
    ensures
        root is Some <==> root_of(texts(doc@), manifest@) is Some,
        root matches Some(k) ==> root_of(texts(doc@), manifest@) == Some(k as int),
{
    let mut k: usize = manifest.len();
    proof {
        assert(manifest@.take(k as int) =~= manifest@);
    }
    while k > 0
        invariant
            k <= manifest@.len(),
            manifest@.len() == doc@.len(),
            root_of(texts(doc@), manifest@.take(k as int)) == root_of(texts(doc@), manifest@),
        decreases k,
    {
        proof {
            assert(manifest@.take(k as int).drop_last() =~= manifest@.take(k - 1));
            assert(texts(doc@)[k - 1] == doc@[k - 1]@);
        }
        k = k - 1;
        if manifest[k] {
            if same_text(doc[k].as_str(), "src") {
                return Some(k);
            }
            return None;
        }
    }
    None
}

/// The root found is the innermost directory with a manifest, and the document lies in its
/// `src`; where none is found there is no manifest above the document, or the innermost one's
/// `src` does not hold it.
pub proof fn law_the_innermost_manifest_decides(doc: Seq<Seq<char>>, manifest: Seq<bool>)
    requires
        manifest.len() == doc.len(),
    ensures
        root_of(doc, manifest) matches Some(k) ==> {
            &&& 0 <= k < doc.len()
            &&& manifest[k]
            &&& doc[k] == "src"@
            &&& forall|j: int| k < j < manifest.len() ==> !#[trigger] manifest[j]
        },
        root_of(doc, manifest) is None ==> forall|k: int|
            0 <= k < manifest.len() && #[trigger] manifest[k] && (forall|j: int|
                k < j < manifest.len() ==> !#[trigger] manifest[j]) ==> doc[k] != "src"@,
{
    lemma_root(doc, manifest);
}

proof fn lemma_root(doc: Seq<Seq<char>>, manifest: Seq<bool>)
    requires
        manifest.len() <= doc.len(),
    ensures
        root_of(doc, manifest) matches Some(k) ==> {
            &&& 0 <= k < manifest.len()
            &&& manifest[k]
            &&& doc[k] == "src"@
            &&& forall|j: int| k < j < manifest.len() ==> !#[trigger] manifest[j]
        },
        root_of(doc, manifest) is None ==> forall|k: int|
            0 <= k < manifest.len() && #[trigger] manifest[k] && (forall|j: int|
                k < j < manifest.len() ==> !#[trigger] manifest[j]) ==> doc[k] != "src"@,
    decreases manifest.len(),
{
    if manifest.len() > 0 {
        let last = manifest.len() - 1;
        if !manifest.last() {
            let init = manifest.drop_last();
            lemma_root(doc, init);
            assert forall|j: int| 0 <= j < last implies #[trigger] manifest[j] == init[j] by {}
            if root_of(doc, manifest) is None {
                assert forall|k: int|
                    0 <= k < manifest.len() && #[trigger] manifest[k] && (forall|j: int|
                        k < j < manifest.len() ==> !#[trigger] manifest[j]) implies doc[k]
                    != "src"@ by {
                    assert(init[k]);
                    assert forall|j: int| k < j < init.len() implies !#[trigger] init[j] by {
                        assert(!manifest[j]);
                    }
                }
            }
        } else if root_of(doc, manifest) is None {
            assert forall|k: int|
                0 <= k < manifest.len() && #[trigger] manifest[k] && (forall|j: int|
                    k < j < manifest.len() ==> !#[trigger] manifest[j]) implies doc[k]
                != "src"@ by {
                if k < last {
                    assert(!manifest[last]);
                }
            }
        }
    }
}

/// Whether a file name is a Neon source file's: it has the extension, and something before it.
pub open spec fn names_neon_file(name: Seq<char>) -> bool {
    name.len() > 5 && name.skip(name.len() - 5) == seq!['.', 'n', 'e', 'o', 'n']
}

/// Whether a file name is a Neon source file's. A file called just `.neon` has no extension.
pub fn is_neon(name: &str) -> (yes: bool)
    ensures
        yes == names_neon_file(name@),
{
    let c: Vec<char> = chars_of(name);
    let n: usize = c.len();
    if n <= 5 {
        return false;
    }
    let yes: bool = c[n - 5] == '.' && c[n - 4] == 'n' && c[n - 3] == 'e' && c[n - 2] == 'o' && c[n
        - 1] == 'n';
    let ghost tail = name@.skip(n - 5);
    proof {
        let want = seq!['.', 'n', 'e', 'o', 'n'];
        assert(forall|i: int| 0 <= i < 5 ==> tail[i] == #[trigger] c@[n - 5 + i]);
        if yes {
            assert(tail =~= want);
        } else if tail == want {
            assert(tail[0] == '.' && tail[1] == 'n' && tail[2] == 'e' && tail[3] == 'o' && tail[4]
                == 'n');
        }
    }
    yes
}

/// A path with slashes where it had backslashes.
pub open spec fn with_slashes(path: Seq<char>) -> Seq<char> {
    path.map_values(
        |c: char|
            if c == '\\' {
                '/'
            } else {
                c
            },
    )
}

/// A path with slashes where it had backslashes, so that a file is called the same on every
/// system.
pub fn slashed(path: &str) -> (out: String)
    ensures
        out@ == with_slashes(path@),
{
    let mut out: String = String::new();
    for c in it: path.chars()
        invariant
            it.seq() == path@,
            out@ =~= with_slashes(path@.take(it.index() as int)),
    {
        proof {
            let k = it.index() as int;
            assert(path@.take(k + 1) =~= path@.take(k).push(c));
        }
        if c == '\\' {
            out.push('/');
        } else {
            out.push(c);
        }
    }
    proof {
        assert(path@.take(path@.len() as int) =~= path@);
    }
    out
}

impl Ranked for (String, String) {
    /// Pairs of texts are listed by the first, then by the second.
    open spec fn at_most(self, other: Self) -> bool {
        if self.0@ != other.0@ {
            lists_first(encode_utf8(self.0@), encode_utf8(other.0@))
        } else {
            lists_first(encode_utf8(self.1@), encode_utf8(other.1@))
        }
    }

    fn ranks_at_most(&self, other: &Self) -> (yes: bool) {
        if !same_text(self.0.as_str(), other.0.as_str()) {
            lists_before(self.0.as_str(), other.0.as_str())
        } else {
            lists_before(self.1.as_str(), other.1.as_str())
        }
    }

    proof fn order_laws(a: Self, b: Self, c: Self) {
        lemma_lists_first(encode_utf8(a.0@), encode_utf8(b.0@), encode_utf8(c.0@));
        lemma_lists_first(encode_utf8(a.1@), encode_utf8(b.1@), encode_utf8(c.1@));
        encode_utf8_decode_utf8(a.0@);
        encode_utf8_decode_utf8(b.0@);
        encode_utf8_decode_utf8(c.0@);
    }
}

/// The files of a project in order: each a path relative to `src`, and where it lies.
pub fn in_file_order(files: Vec<(String, String)>) -> (out: Vec<(String, String)>)
    ensures
        out@ == sorted(files@),
{
    let mut files: Vec<(String, String)> = files;
    sort(&mut files);
    files
}

/// The module a project file declares: the entry is the root module, every other file is named
/// by its path. `named` is the compiler's name for the path.
pub fn module_of(rel: &str, named: Vec<String>) -> (module: Vec<String>)
    ensures
        rel@ == "main.neon"@ ==> module@.len() == 0,
        rel@ != "main.neon"@ ==> module == named,
{
    if same_text(rel, "main.neon") {
        Vec::new()
    } else {
        named
    }
}

/// Where the text of a project file comes from.
#[derive(Debug, Clone, Copy, PartialEq, Eq, Structural)]
pub enum Role {
    /// It is the analyzed document.
    Document,
    /// It is open in the editor: the text is that of this buffer.
    Buffer(usize),
    /// It is on disk.
    OnDisk,
}

/// The first buffer for a path.
pub open spec fn buffer_of(path: Seq<char>, buffers: Seq<(String, String)>) -> Option<int>
    decreases buffers.len(),
{
    if buffers.len() == 0 {
        None
    } else {
        match buffer_of(path, buffers.drop_last()) {
            Some(i) => Some(i),
            None => if buffers.last().0@ == path {
                Some(buffers.len() - 1)
            } else {
                None
            },
        }
    }
}

/// Where the text of the file at `path` comes from.
pub open spec fn role_of(
    path: Seq<char>,
    doc: Seq<char>,
    buffers: Seq<(String, String)>,
) -> Role {
    if path == doc {
        Role::Document
    } else {
        match buffer_of(path, buffers) {
            Some(i) => Role::Buffer(i as usize),
            None => Role::OnDisk,
        }
    }
}

proof fn lemma_buffer_of(path: Seq<char>, buffers: Seq<(String, String)>)
    ensures
        buffer_of(path, buffers) matches Some(i) ==> 0 <= i < buffers.len() && buffers[i].0@
            == path,
        buffer_of(path, buffers) is None ==> forall|i: int|
            0 <= i < buffers.len() ==> (#[trigger] buffers[i]).0@ != path,
    decreases buffers.len(),
{
    if buffers.len() > 0 {
        let init = buffers.drop_last();
        lemma_buffer_of(path, init);
        assert forall|j: int| 0 <= j < init.len() implies #[trigger] buffers[j] == init[j] by {}
    }
}

proof fn lemma_buffer_prefix(path: Seq<char>, buffers: Seq<(String, String)>, k: int)
    requires
        0 <= k <= buffers.len(),
        buffer_of(path, buffers.take(k)) is Some,
    ensures
        buffer_of(path, buffers) == buffer_of(path, buffers.take(k)),
    decreases buffers.len() - k,
{
    if k == buffers.len() {
        assert(buffers.take(k) =~= buffers);
    } else {
        assert(buffers.take(k + 1).drop_last() =~= buffers.take(k));
        lemma_buffer_prefix(path, buffers, k + 1);
    }
}

/// Where the text of the file at `path` comes from. The editor's copy is authoritative: a file
/// open in the next split may be several keystrokes ahead of the one on disk.
///
/// All paths are canonical.
pub fn role(path: &str, doc: &str, overlays: &[(String, String)]) -> (role: Role)
    ensures
        role == role_of(path@, doc@, overlays@),
        role matches Role::Buffer(i) ==> i < overlays@.len() && overlays@[i as int].0@ == path@,
{
    if same_text(path, doc) {
        return Role::Document;
    }
    let n: usize = overlays.len();
    let mut i: usize = 0;
    while i < n
        invariant
            n == overlays@.len(),
            i <= n,
            path@ != doc@,
            buffer_of(path@, overlays@.take(i as int)) is None,
        decreases n - i,
    {
        proof {
            assert(overlays@.take(i + 1).drop_last() =~= overlays@.take(i as int));
        }
        if same_text(overlays[i].0.as_str(), path) {
            proof {
                lemma_buffer_prefix(path@, overlays@, i + 1);
            }
            return Role::Buffer(i);
        }
        i = i + 1;
    }
    proof {
        assert(overlays@.take(n as int) =~= overlays@);
    }
    Role::OnDisk
}

/// The text a project file is analyzed with: its buffer's where it is open in the editor, and
/// otherwise what is on disk, if that can be read. The document's own is not among the siblings'.
pub open spec fn sibling_text_of(
    role: Role,
    buffers: Seq<(String, String)>,
    on_disk: Option<Seq<char>>,
) -> Option<Seq<char>> {
    match role {
        Role::Document => None,
        Role::Buffer(i) => Some(buffers[i as int].1@),
        Role::OnDisk => on_disk,
    }
}

/// The text a project file is analyzed with. `on_disk` is what its file holds, if that can be
/// read; it counts for nothing where the file is open in the editor.
pub fn sibling_text(role: Role, overlays: &[(String, String)], on_disk: Option<String>) -> (text:
    Option<String>)
    requires
        role matches Role::Buffer(i) ==> i < overlays@.len(),
    ensures
        text_in(text) == sibling_text_of(role, overlays@, text_in(on_disk)),
{
    match role {
        Role::Document => None,
        Role::Buffer(i) => Some(overlays[i].1.clone()),
        Role::OnDisk => on_disk,
    }
}

/// What became of a project file.
pub enum Found {
    /// It is the analyzed document.
    Document { module: Vec<String> },
    /// It was read and parsed.
    Parsed { module: Vec<String>, path: String, text: String, trivia: Option<Vec<Trivia>> },
    /// It could not be read, or does not parse. Its own window is already showing its errors,
    /// and this document's analysis is worth more degraded than absent.
    Skipped,
}

/// The comments the lexer set aside, or none where it failed.
pub open spec fn trivia_or_none(trivia: Option<Vec<Trivia>>) -> Seq<Trivia> {
    match trivia {
        Some(t) => t@,
        None => Seq::empty(),
    }
}

impl Found {
    /// Whether a file of the project is this one.
    pub open spec fn becomes(self, source: Source) -> bool {
        self matches Found::Parsed { module, path, text, trivia } && source.module == module
            && source.path == path && source.index@ == text@ && source.trivia@
            == trivia_or_none(trivia)
    }
}

/// What becomes of a project file, from the text it is analyzed with and the comments set aside
/// where that parses.
pub open spec fn found_as(
    role: Role,
    module: Vec<String>,
    path: String,
    text: Option<String>,
    parsed: Option<Option<Vec<Trivia>>>,
) -> Found {
    match (role, text, parsed) {
        (Role::Document, _, _) => Found::Document { module },
        (_, Some(text), Some(trivia)) => Found::Parsed { module, path, text, trivia },
        _ => Found::Skipped,
    }
}

/// What becomes of a project file, from the text it is analyzed with. `parsed` is there if that
/// text parses, with the comments its lexer set aside, unless it failed.
pub fn found(
    role: Role,
    module: Vec<String>,
    path: String,
    text: Option<String>,
    parsed: Option<Option<Vec<Trivia>>>,
) -> (file: Found)
    ensures
        file == found_as(role, module, path, text, parsed),
{
    match (role, text, parsed) {
        (Role::Document, _, _) => Found::Document { module },
        (_, Some(text), Some(trivia)) => Found::Parsed { module, path, text, trivia },
        _ => Found::Skipped,
    }
}

/// The files that were parsed, in order.
pub open spec fn siblings(found: Seq<Found>) -> Seq<Found> {
    found.filter(|f: Found| f is Parsed)
}

/// The module of the document: what the last file that is the document declares. A document
/// that is none of the files is the root module.
pub open spec fn doc_module_of(found: Seq<Found>) -> Seq<Seq<char>>
    decreases found.len(),
{
    if found.len() == 0 {
        Seq::empty()
    } else {
        match found.last() {
            Found::Document { module } => texts(module@),
            _ => doc_module_of(found.drop_last()),
        }
    }
}

/// Whether a project is what the files found make up.
pub open spec fn gathers(found: Seq<Found>, project: Project) -> bool {
    &&& texts(project.doc_module@) == doc_module_of(found)
    &&& project.sources@.len() == siblings(found).len()
    &&& forall|i: int|
        0 <= i < project.sources@.len() ==> (#[trigger] siblings(found)[i]).becomes(
            project.sources@[i],
        )
}

/// Gather the project: the document's module, and a source for each sibling that was parsed.
pub fn gather(found: Vec<Found>) -> (project: Project)
    ensures
        gathers(found@, project),
{
    let ghost given = found@;
    let ghost parsed = |f: Found| f is Parsed;
    let mut doc_module: Vec<String> = Vec::new();
    let mut sources: Vec<Source> = Vec::new();
    proof {
        assert(given.take(0) =~= Seq::<Found>::empty());
        assert(texts(doc_module@) =~= Seq::<Seq<char>>::empty());
        reveal(Seq::filter);
    }
    for f in it: found
        invariant
            it.seq() == given,
            parsed == (|f: Found| f is Parsed),
            texts(doc_module@) == doc_module_of(given.take(it.index() as int)),
            sources@.len() == given.take(it.index() as int).filter(parsed).len(),
            forall|i: int|
                0 <= i < sources@.len() ==> (#[trigger] given.take(it.index() as int).filter(
                    parsed,
                )[i]).becomes(sources@[i]),
    {
        let ghost k = it.index() as int;
        proof {
            assert(given.take(k + 1) =~= given.take(k).push(f));
            assert(given.take(k + 1).drop_last() =~= given.take(k));
            lemma_filter_push(given.take(k), f, parsed);
        }
        match f {
            Found::Document { module } => {
                doc_module = module;
            },
            Found::Parsed { module, path, text, trivia } => {
                let index: LineIndex = LineIndex::new(text.as_str());
                let trivia: Vec<Trivia> = match trivia {
                    Some(t) => t,
                    None => Vec::new(),
                };
                sources.push(Source { module, path, index, trivia });
            },
            Found::Skipped => {},
        }
    }
    proof {
        assert(given.take(given.len() as int) =~= given);
    }
    Project { doc_module, sources }
}

proof fn lemma_filter_push<T>(s: Seq<T>, x: T, keep: spec_fn(T) -> bool)
    ensures
        s.push(x).filter(keep) == if keep(x) {
            s.filter(keep).push(x)
        } else {
            s.filter(keep)
        },
{
    reveal(Seq::filter);
    assert(s.push(x).drop_last() =~= s);
}

/// Where an item that is kept of a list ends up.
proof fn lemma_filter_keeps<T>(s: Seq<T>, keep: spec_fn(T) -> bool, k: int) -> (j: int)
    requires
        0 <= k < s.len(),
        keep(s[k]),
    ensures
        0 <= j < s.filter(keep).len(),
        s.filter(keep)[j] == s[k],
    decreases s.len(),
{
    let init = s.drop_last();
    assert(s =~= init.push(s.last()));
    lemma_filter_push(init, s.last(), keep);
    if k == init.len() {
        init.filter(keep).len() as int
    } else {
        lemma_filter_keeps(init, keep, k)
    }
}

/// The editor's copy wins over the disk: a sibling that is open and whose buffer parses is
/// analyzed with the buffer's text, whatever is on disk, and what is shown on it is shown on that
/// text. It has an entry even where nothing is wrong in it, so that what was shown before is
/// cleared.
///
/// `path` is the sibling's canonical path, and `found[k]` what became of it.
pub proof fn law_an_open_buffer_overlays_its_disk_file(
    path: Seq<char>,
    doc: Seq<char>,
    buffers: Seq<(String, String)>,
    on_disk: Option<Seq<char>>,
    module: Vec<String>,
    file: String,
    text: Option<String>,
    trivia: Option<Vec<Trivia>>,
    found: Seq<Found>,
    k: int,
    project: Project,
    errors: Seq<(Seq<Seq<char>>, DiagnosticView)>,
    warnings: Seq<(Seq<Seq<char>>, DiagnosticView)>,
    analysis: Analysis,
)
    requires
        path != doc,
        buffers.len() <= usize::MAX,
        exists|i: int| 0 <= i < buffers.len() && (#[trigger] buffers[i]).0@ == path,
        text_in(text) == sibling_text_of(role_of(path, doc, buffers), buffers, on_disk),
        0 <= k < found.len(),
        found[k] == found_as(role_of(path, doc, buffers), module, file, text, Some(trivia)),
        gathers(found, project),
        analysis.shows(errors, warnings, project),
    ensures
        exists|i: int, j: int|
            #![trigger buffers[i], project.sources@[j]]
            {
                let docs = texts(project.doc_module@);
                let files = modules_of(project.sources@);
                let to = Destination::File(j as usize);
                &&& 0 <= i < buffers.len() && buffers[i].0@ == path
                &&& 0 <= j < project.sources@.len() && found[k].becomes(project.sources@[j])
                &&& project.sources@[j].path == file
                &&& project.sources@[j].index@ == buffers[i].1@
                &&& analysis.foreign@.len() == project.sources@.len()
                &&& analysis.foreign@[j].0 == file
                &&& analysis.foreign@[j].1@ == buffers[i].1@
                &&& said(analysis.foreign@[j].2@) == routed(errors, docs, files, to) + routed(
                    warnings,
                    docs,
                    files,
                    to,
                )
            },
{
    lemma_buffer_of(path, buffers);
    let i = buffer_of(path, buffers)->0;
    let j = lemma_filter_keeps(found, |f: Found| f is Parsed, k);
    assert(siblings(found)[j] == found[k]);
    assert(found[k].becomes(project.sources@[j]));
    assert(analysis.foreign@[j].0 == project.sources@[j].path);
    assert(buffers[i].0@ == path);
}

/// A sibling that is not open is analyzed with what is on disk, and is passed over where that
/// cannot be read.
pub proof fn law_a_closed_sibling_is_read_from_disk(
    path: Seq<char>,
    doc: Seq<char>,
    buffers: Seq<(String, String)>,
    on_disk: Option<Seq<char>>,
)
    requires
        path != doc,
        forall|i: int| 0 <= i < buffers.len() ==> (#[trigger] buffers[i]).0@ != path,
    ensures
        role_of(path, doc, buffers) is OnDisk,
        sibling_text_of(role_of(path, doc, buffers), buffers, on_disk) == on_disk,
{
    lemma_buffer_of(path, buffers);
}

/// Files are listed by their names, as a dictionary lists the bytes, and where two names are the
/// same by where they lie; none is lost and none invented.
pub proof fn law_files_are_listed_by_name(files: Seq<(String, String)>)
    ensures
        sorted(files).to_multiset() == files.to_multiset(),
        forall|x: (String, String)| #[trigger] sorted(files).contains(x) <==> files.contains(x),
        forall|i: int, j: int|
            0 <= i < j < files.len() ==> ({
                let (a, b) = (#[trigger] sorted(files)[i], #[trigger] sorted(files)[j]);
                if a.0@ == b.0@ {
                    lists_first(encode_utf8(a.1@), encode_utf8(b.1@))
                } else {
                    lists_first(encode_utf8(a.0@), encode_utf8(b.0@))
                }
            }),
{
    law_sorting_orders_and_keeps(files);
    assert(sorted(files).len() == files.len()) by {
        broadcast use vstd::seq_lib::group_to_multiset_ensures;

        assert(sorted(files).to_multiset().len() == files.to_multiset().len());
    }
    assert forall|i: int, j: int| 0 <= i < j < files.len() implies ({
        let (a, b) = (#[trigger] sorted(files)[i], #[trigger] sorted(files)[j]);
        if a.0@ == b.0@ {
            lists_first(encode_utf8(a.1@), encode_utf8(b.1@))
        } else {
            lists_first(encode_utf8(a.0@), encode_utf8(b.0@))
        }
    }) by {
        let list = sorted(files);
        assert(list[i].at_most(list[j]));
    }
}

/// A source file is one whose name has something before the extension.
pub proof fn law_a_source_file_has_the_extension(name: Seq<char>, stem: Seq<char>)
    ensures
        names_neon_file(stem + seq!['.', 'n', 'e', 'o', 'n']) <==> stem.len() > 0,
        names_neon_file(name) ==> name == name.take(name.len() - 5) + seq!['.', 'n', 'e', 'o', 'n'],
{
    let whole = stem + seq!['.', 'n', 'e', 'o', 'n'];
    assert(whole.skip(whole.len() - 5) =~= seq!['.', 'n', 'e', 'o', 'n']);
    if names_neon_file(name) {
        assert(name =~= name.take(name.len() - 5) + name.skip(name.len() - 5));
    }
}

/// Backslashes become slashes and everything else stays, character by character.
pub proof fn law_only_backslashes_are_replaced(path: Seq<char>)
    ensures
        with_slashes(path).len() == path.len(),
        forall|i: int|
            0 <= i < path.len() ==> #[trigger] with_slashes(path)[i] == (if path[i] == '\\' {
                '/'
            } else {
                path[i]
            }),
{
}

/// A relative path below a directory is the directory and the path with exactly one slash between
/// them; an absolute one stays what it is.
pub proof fn law_a_path_below_a_directory(dir: Seq<char>, rel: Seq<char>)
    requires
        rel.len() > 0,
    ensures
        rel[0] == '/' ==> below(dir, rel) == rel,
        rel[0] != '/' && dir.len() > 0 && dir.last() != '/' ==> below(dir, rel) == dir + seq!['/']
            + rel,
        rel[0] != '/' && dir.len() > 0 && dir.last() == '/' ==> below(dir, rel) == dir + rel,
        dir.len() == 0 ==> below(dir, rel) == rel,
{
    assert(dir.push('/') =~= dir + seq!['/']);
}

/// The buffer of a file is the first that is open under its path.
pub proof fn law_the_first_buffer_counts(
    path: Seq<char>,
    doc: Seq<char>,
    buffers: Seq<(String, String)>,
    i: int,
)
    requires
        buffers.len() <= usize::MAX,
    ensures
        path == doc ==> role_of(path, doc, buffers) is Document,
        path != doc && 0 <= i < buffers.len() && buffers[i].0@ == path && (forall|j: int|
            0 <= j < i ==> (#[trigger] buffers[j]).0@ != path) ==> role_of(path, doc, buffers)
            == Role::Buffer(i as usize),
    decreases buffers.len(),
{
    if path != doc && 0 <= i < buffers.len() && buffers[i].0@ == path && (forall|j: int|
        0 <= j < i ==> (#[trigger] buffers[j]).0@ != path) {
        lemma_buffer_of(path, buffers.take(i));
        if buffer_of(path, buffers.take(i)) is Some {
            let j = buffer_of(path, buffers.take(i))->0;
            assert(buffers.take(i)[j] == buffers[j]);
        }
        assert(buffers.take(i + 1).drop_last() =~= buffers.take(i));
        assert(buffers.take(i + 1).last() == buffers[i]);
        lemma_buffer_prefix(path, buffers, i + 1);
    }
}

/// What becomes of a file: the document is the document whatever was read; any other file is a
/// sibling if it was read and parses, with its module, its path, its text and its comments, and is
/// passed over otherwise.
pub proof fn law_a_file_that_parses_is_a_sibling(
    role: Role,
    module: Vec<String>,
    path: String,
    text: Option<String>,
    parsed: Option<Option<Vec<Trivia>>>,
)
    ensures
        role is Document ==> (found_as(role, module, path, text, parsed) matches Found::Document {
            module: m,
        } && m == module),
        !(role is Document) && text is Some && parsed is Some ==> (found_as(
            role,
            module,
            path,
            text,
            parsed,
        ) matches Found::Parsed { module: m, path: p, text: t, trivia } && m == module && p == path
            && t == text->0 && trivia == parsed->0),
        !(role is Document) && (text is None || parsed is None) ==> found_as(
            role,
            module,
            path,
            text,
            parsed,
        ) is Skipped,
{
}

proof fn lemma_sibling_places(found: Seq<Found>, n: int) -> (at: Seq<int>)
    requires
        0 <= n <= found.len(),
    ensures
        in_places(at, n),
        siblings(found.take(n)).len() == at.len(),
        forall|k: int|
            0 <= k < at.len() ==> siblings(found.take(n))[k] == found[#[trigger] at[k]],
        forall|i: int| 0 <= i < n ==> (#[trigger] at.contains(i) <==> found[i] is Parsed),
    decreases n,
{
    let keep = |f: Found| f is Parsed;
    if n == 0 {
        reveal(Seq::filter);
        Seq::empty()
    } else {
        let before = lemma_sibling_places(found, n - 1);
        assert(found.take(n) =~= found.take(n - 1).push(found[n - 1]));
        lemma_filter_push(found.take(n - 1), found[n - 1], keep);
        lemma_one_more_place(before, n - 1);
        if found[n - 1] is Parsed {
            let at = before.push(n - 1);
            assert forall|k: int| 0 <= k < at.len() implies siblings(found.take(n))[k]
                == found[#[trigger] at[k]] by {
                if k < before.len() {
                    assert(at[k] == before[k]);
                }
            }
            at
        } else {
            before
        }
    }
}

/// Every file that was parsed is a source of the project, in the order of the files, with its
/// module, its path, its text and its comments, and nothing else is: `at` lists which. The
/// document's module is what the last file that is the document declares, and the root where none
/// is.
pub proof fn law_every_sibling_is_gathered(found: Seq<Found>, project: Project, d: int) -> (at: Seq<
    int,
>)
    requires
        gathers(found, project),
    ensures
        in_places(at, found.len() as int),
        forall|i: int| 0 <= i < found.len() ==> (#[trigger] at.contains(i) <==> found[i] is Parsed),
        project.sources@.len() == at.len(),
        forall|k: int|
            0 <= k < at.len() ==> {
                let file = found[#[trigger] at[k]];
                let source = project.sources@[k];
                &&& source.module == file->Parsed_module
                &&& source.path == file->path
                &&& source.index@ == file->text@
                &&& source.trivia@ == (match file->trivia {
                    Some(t) => t@,
                    None => Seq::<Trivia>::empty(),
                })
            },
        (forall|i: int| 0 <= i < found.len() ==> !(#[trigger] found[i] is Document))
            ==> project.doc_module@.len() == 0,
        0 <= d < found.len() && found[d] is Document && (forall|i: int|
            d < i < found.len() ==> !(#[trigger] found[i] is Document)) ==> texts(
            project.doc_module@,
        ) == texts(found[d]->Document_module@),
{
    let at = lemma_sibling_places(found, found.len() as int);
    assert(found.take(found.len() as int) =~= found);
    lemma_doc_module(found, d);
    assert(texts(project.doc_module@).len() == project.doc_module@.len());
    assert forall|k: int| 0 <= k < at.len() implies {
        let file = found[#[trigger] at[k]];
        let source = project.sources@[k];
        &&& source.module == file->Parsed_module
        &&& source.path == file->path
        &&& source.index@ == file->text@
        &&& source.trivia@ == (match file->trivia {
            Some(t) => t@,
            None => Seq::<Trivia>::empty(),
        })
    } by {
        assert(siblings(found)[k] == found[at[k]]);
        assert(siblings(found)[k].becomes(project.sources@[k]));
    }
    at
}

proof fn lemma_doc_module(found: Seq<Found>, d: int)
    ensures
        (forall|i: int| 0 <= i < found.len() ==> !(#[trigger] found[i] is Document))
            ==> doc_module_of(found).len() == 0,
        0 <= d < found.len() && found[d] is Document && (forall|i: int|
            d < i < found.len() ==> !(#[trigger] found[i] is Document)) ==> doc_module_of(found)
            == texts(found[d]->Document_module@),
    decreases found.len(),
{
    if found.len() > 0 {
        let init = found.drop_last();
        lemma_doc_module(init, d);
        assert forall|i: int| 0 <= i < init.len() implies #[trigger] found[i] == init[i] by {}
        let last = found.len() - 1;
        assert(found[last] == found.last());
        if d < last && 0 <= d && found[d] is Document && (forall|i: int|
            d < i < found.len() ==> !(#[trigger] found[i] is Document)) {
            assert(!(found[last] is Document));
            assert forall|i: int| d < i < init.len() implies !(#[trigger] init[i] is Document) by {
                assert(!(found[i] is Document));
            }
        }
        if forall|i: int| 0 <= i < found.len() ==> !(#[trigger] found[i] is Document) {
            assert(!(found[last] is Document));
            assert forall|i: int| 0 <= i < init.len() implies !(#[trigger] init[i] is Document) by {
                assert(!(found[i] is Document));
            }
        }
    }
}

} // verus!
