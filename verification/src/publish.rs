//! Diagnostics as an editor shows them.

use crate::analysis::{
    notes, said, same_option, text_in, Analysis, Diagnostic, DiagnosticView, Severity,
};
use crate::documents::{Doc, Documents};
use crate::jump::{can_parse_url, file_uri, file_uri_of, file_url_text, is_uri, url_fits, URI_LIMIT};
use crate::position::{has_position, position_of, LineIndex, Range};
use crate::ranges::{fits, range, range_of, span_fits};
use crate::syntax::Span;
use crate::utf::byte_len;
use vstd::prelude::*;

verus! {

/// A place that explains a diagnostic, which an editor can offer to jump to.
#[derive(Debug)]
pub struct Related {
    pub uri: String,
    pub range: Range,
    pub message: String,
}

/// A diagnostic as an editor shows it.
#[derive(Debug)]
pub struct Published {
    pub range: Range,
    pub severity: Severity,
    pub code: Option<String>,
    pub source: String,
    pub message: String,
    pub related: Option<Vec<Related>>,
}

/// What such a place says.
pub struct RelatedView {
    pub uri: Seq<char>,
    pub range: Range,
    pub message: Seq<char>,
}

/// What a diagnostic as an editor shows it says.
#[verifier::ext_equal]
pub struct PublishedView {
    pub range: Range,
    pub severity: Severity,
    pub code: Option<Seq<char>>,
    pub source: Seq<char>,
    pub message: Seq<char>,
    pub related: Option<Seq<RelatedView>>,
}

impl View for Related {
    type V = RelatedView;

    open spec fn view(&self) -> RelatedView {
        RelatedView { uri: self.uri@, range: self.range, message: self.message@ }
    }
}

/// What several such places say.
pub open spec fn related_views(related: Seq<Related>) -> Seq<RelatedView> {
    Seq::new(related.len(), |i: int| related[i]@)
}

impl View for Published {
    type V = PublishedView;

    open spec fn view(&self) -> PublishedView {
        PublishedView {
            range: self.range,
            severity: self.severity,
            code: text_in(self.code),
            source: self.source@,
            message: self.message@,
            related: match self.related {
                Some(r) => Some(related_views(r@)),
                None => None,
            },
        }
    }
}

/// What several diagnostics as an editor shows them say.
pub open spec fn shown(diagnostics: Seq<Published>) -> Seq<PublishedView> {
    Seq::new(diagnostics.len(), |i: int| diagnostics[i]@)
}

/// The diagnostics of one file, all that there are.
#[derive(Debug)]
pub struct Publication {
    pub uri: String,
    pub diagnostics: Vec<Published>,
}

/// A message with the help that goes with it. The help is the actionable half of most messages,
/// and an editor shows one string.
pub open spec fn with_help(message: Seq<char>, help: Option<Seq<char>>) -> Seq<char> {
    match help {
        Some(h) => message + "\n\nhelp: "@ + h,
        None => message,
    }
}

/// The notes of a diagnostic as places in the file.
pub open spec fn places(
    uri: Seq<char>,
    text: Seq<char>,
    labels: Seq<(Span, Seq<char>)>,
) -> Seq<RelatedView> {
    Seq::new(
        labels.len(),
        |i: int| RelatedView { uri, range: range_of(text, labels[i].0), message: labels[i].1 },
    )
}

/// A diagnostic as an editor shows it on a file.
pub open spec fn rendered(uri: Seq<char>, text: Seq<char>, d: DiagnosticView) -> PublishedView {
    PublishedView {
        range: range_of(text, d.span),
        severity: d.severity,
        code: d.code,
        source: "neon"@,
        message: with_help(d.message, d.help),
        related: if d.labels.len() == 0 {
            None
        } else {
            Some(places(uri, text, d.labels))
        },
    }
}

/// Diagnostics as an editor shows them on a file.
pub open spec fn all_rendered(
    uri: Seq<char>,
    text: Seq<char>,
    diagnostics: Seq<DiagnosticView>,
) -> Seq<PublishedView> {
    Seq::new(diagnostics.len(), |i: int| rendered(uri, text, diagnostics[i]))
}

/// Whether a diagnostic can be shown on a text: its span and those of its notes are spans of it.
pub open spec fn diagnostic_fits(text: Seq<char>, d: DiagnosticView) -> bool {
    &&& span_fits(text, d.span)
    &&& forall|i: int| 0 <= i < d.labels.len() ==> span_fits(text, (#[trigger] d.labels[i]).0)
}

/// Whether diagnostics can be shown on a text.
pub open spec fn diagnostics_fit(text: Seq<char>, diagnostics: Seq<DiagnosticView>) -> bool {
    forall|i: int|
        0 <= i < diagnostics.len() ==> diagnostic_fits(text, #[trigger] diagnostics[i])
}

/// One diagnostic as an editor shows it on a file.
pub fn render(uri: &str, index: &LineIndex, d: Diagnostic) -> (out: Published)
    requires
        diagnostic_fits(index@, d@),
    ensures
        out@ == rendered(uri@, index@, d@),
{
    let ghost view = d@;
    let at: Range = range(index, d.span);
    let message: String = match d.help {
        Some(help) => {
            let mut text: String = d.message;
            text.append("\n\nhelp: ");
            text.append(help.as_str());
            text
        },
        None => d.message,
    };
    let related: Option<Vec<Related>> = if d.labels.len() == 0 {
        None
    } else {
        let ghost labels = d.labels@;
        let mut related: Vec<Related> = Vec::new();
        for label in it: d.labels
            invariant
                it.seq() == labels,
                view.labels == notes(labels),
                diagnostic_fits(index@, view),
                related_views(related@) =~= places(uri@, index@, view.labels).take(
                    it.index() as int,
                ),
        {
            let (span, note) = label;
            let ghost before = related@;
            proof {
                assert(view.labels[it.index() as int] == (span, note@));
            }
            related.push(Related { uri: uri.to_owned(), range: range(index, span), message: note });
            proof {
                assert(related_views(related@) =~= related_views(before).push(related@.last()@));
            }
        }
        Some(related)
    };
    Published {
        range: at,
        severity: d.severity,
        code: d.code,
        source: "neon".to_owned(),
        message,
        related,
    }
}

/// Diagnostics as an editor shows them on a file.
pub fn render_all(uri: &str, index: &LineIndex, diagnostics: Vec<Diagnostic>) -> (out: Vec<
    Published,
>)
    requires
        diagnostics_fit(index@, said(diagnostics@)),
    ensures
        shown(out@) == all_rendered(uri@, index@, said(diagnostics@)),
{
    let ghost given = diagnostics@;
    let mut out: Vec<Published> = Vec::new();
    for d in it: diagnostics
        invariant
            it.seq() == given,
            diagnostics_fit(index@, said(given)),
            shown(out@) =~= all_rendered(uri@, index@, said(given)).take(it.index() as int),
    {
        proof {
            assert(said(given)[it.index() as int] == d@);
        }
        let ghost before = out@;
        out.push(render(uri, index, d));
        proof {
            assert(shown(out@) =~= shown(before).push(out@.last()@));
        }
    }
    out
}

/// Whether diagnostics can be shown on a text.
pub fn can_render(index: &LineIndex, diagnostics: &[Diagnostic]) -> (yes: bool)
    ensures
        yes == diagnostics_fit(index@, said(diagnostics@)),
{
    let n: usize = diagnostics.len();
    let mut i: usize = 0;
    while i < n
        invariant
            n == diagnostics@.len(),
            i <= n,
            forall|j: int|
                0 <= j < i ==> diagnostic_fits(index@, #[trigger] said(diagnostics@)[j]),
        decreases n - i,
    {
        let d: &Diagnostic = &diagnostics[i];
        if !can_render_one(index, d) {
            proof {
                assert(!diagnostic_fits(index@, said(diagnostics@)[i as int]));
            }
            return false;
        }
        i = i + 1;
    }
    true
}

fn can_render_one(index: &LineIndex, d: &Diagnostic) -> (yes: bool)
    ensures
        yes == diagnostic_fits(index@, d@),
{
    if !fits(index, d.span) {
        return false;
    }
    let n: usize = d.labels.len();
    let mut i: usize = 0;
    while i < n
        invariant
            n == d.labels@.len(),
            i <= n,
            forall|j: int| 0 <= j < i ==> span_fits(index@, (#[trigger] d@.labels[j]).0),
        decreases n - i,
    {
        if !fits(index, d.labels[i].0) {
            proof {
                assert(!span_fits(index@, d@.labels[i as int].0));
            }
            return false;
        }
        i = i + 1;
    }
    true
}

/// That there is nothing wrong with a file.
pub fn empty_diagnostics(uri: &str) -> (out: Publication)
    ensures
        out.uri@ == uri@,
        out.diagnostics@.len() == 0,
{
    Publication { uri: uri.to_owned(), diagnostics: Vec::new() }
}

/// Keep what a check of an open document gave, and build the publication carrying its
/// diagnostics.
///
/// A check produces two things: the diagnostics, which go out at once, and the check itself,
/// which stays behind to answer hover and navigation. Only a check that succeeded replaces the
/// previous one. The other files' diagnostics are handed on.
pub fn publish(docs: &mut Documents, uri: &str, analysis: Analysis) -> (out: (
    Publication,
    Vec<(String, String, Vec<Diagnostic>)>,
))
    requires
        old(docs)@.contains_key(uri@),
        diagnostics_fit(old(docs)@[uri@].index@, said(analysis.diagnostics@)),
    ensures
        out.0.uri@ == uri@,
        shown(out.0.diagnostics@) == all_rendered(
            uri@,
            old(docs)@[uri@].index@,
            said(analysis.diagnostics@),
        ),
        out.1 == analysis.foreign,
        final(docs)@ == (match analysis.checked {
            Some(checked) => old(docs)@.insert(
                uri@,
                Doc { index: old(docs)@[uri@].index, checked: Some(checked) },
            ),
            None => old(docs)@,
        }),
{
    let diagnostics: Vec<Published> = match docs.get(uri) {
        Some(doc) => render_all(uri, &doc.index, analysis.diagnostics),
        None => Vec::new(),
    };
    if let Some(checked) = analysis.checked {
        docs.record(uri, checked);
        proof {
            let want = old(docs)@.insert(
                uri@,
                Doc { index: old(docs)@[uri@].index, checked: Some(checked) },
            );
            assert(docs@.remove(uri@) =~= want.remove(uri@));
            assert forall|k: Seq<char>| docs@.contains_key(k) implies #[trigger] docs@[k]
                == want[k] by {
                if k != uri@ {
                    assert(docs@.remove(uri@)[k] == want.remove(uri@)[k]);
                }
            }
            assert(docs@ =~= want);
        }
    }
    (Publication { uri: uri.to_owned(), diagnostics }, analysis.foreign)
}

/// Whether the diagnostics of a project file can be published.
pub open spec fn file_fits(
    path: Seq<char>,
    text: Seq<char>,
    diagnostics: Seq<DiagnosticView>,
) -> bool {
    url_fits(path) && (file_uri_of(path) is Some ==> diagnostics_fit(text, diagnostics))
}

/// Whether a publication is that of a project file: none for a file that has no URI.
pub open spec fn publishes(
    out: Option<Publication>,
    path: Seq<char>,
    text: Seq<char>,
    diagnostics: Seq<DiagnosticView>,
) -> bool {
    match (out, file_uri_of(path)) {
        (Some(p), Some(uri)) => p.uri@ == uri && shown(p.diagnostics@) == all_rendered(
            uri,
            text,
            diagnostics,
        ),
        (None, None) => true,
        _ => false,
    }
}

/// The publication carrying the diagnostics of a project file that is not the document: none
/// for a file that has no URI. Nothing being wrong with it is published too, which is how a
/// fixed error leaves the editor's problems panel.
pub fn publish_file(path: &str, text: &str, diagnostics: Vec<Diagnostic>) -> (out: Option<
    Publication,
>)
    requires
        file_fits(path@, text@, said(diagnostics@)),
    ensures
        publishes(out, path@, text@, said(diagnostics@)),
{
    match file_uri(path) {
        Some(uri) => {
            let index: LineIndex = LineIndex::new(text);
            let diagnostics: Vec<Published> = render_all(uri.as_str(), &index, diagnostics);
            Some(Publication { uri, diagnostics })
        },
        None => None,
    }
}

/// The publication carrying the diagnostics of a project file; `None` where it cannot be built,
/// because a span falls inside a character of the text or the file's URL is too long to parse.
pub fn try_publish_file(path: &str, text: &str, diagnostics: Vec<Diagnostic>) -> (out: Option<
    Option<Publication>,
>)
    ensures
        out is Some <==> file_fits(path@, text@, said(diagnostics@)),
        out matches Some(publication) ==> publishes(
            publication,
            path@,
            text@,
            said(diagnostics@),
        ),
{
    if !can_parse_url(path) {
        return None;
    }
    let index: LineIndex = LineIndex::new(text);
    if file_uri(path).is_some() && !can_render(&index, &diagnostics) {
        return None;
    }
    Some(publish_file(path, text, diagnostics))
}

/// Whether a published diagnostic reports one that was found, in the file it is published on.
pub open spec fn reports(p: Published, d: Diagnostic, uri: Seq<char>, text: Seq<char>) -> bool {
    &&& p.range.start == position_of(text, d.span.start as int)
    &&& p.range.end == position_of(text, d.span.end as int)
    &&& p.severity == d.severity
    &&& same_option(p.code, d.code)
    &&& p.source@ == "neon"@
    &&& d.help is None ==> p.message@ == d.message@
    &&& d.help matches Some(help) ==> p.message@ == d.message@ + "\n\nhelp: "@ + help@
    &&& p.related is None <==> d.labels@.len() == 0
    &&& p.related matches Some(related) ==> {
        &&& related@.len() == d.labels@.len()
        &&& forall|j: int|
            0 <= j < related@.len() ==> {
                let note = #[trigger] related@[j];
                &&& note.uri@ == uri
                &&& note.range.start == position_of(text, d.labels@[j].0.start as int)
                &&& note.range.end == position_of(text, d.labels@[j].0.end as int)
                &&& note.message@ == d.labels@[j].1@
            }
    }
}

/// Every diagnostic is published, in the order it was found: as many as there are, each with the
/// range, the severity, the code, the message and the notes of the one it reports.
pub proof fn law_every_diagnostic_is_published(
    uri: Seq<char>,
    text: Seq<char>,
    found: Seq<Diagnostic>,
    out: Seq<Published>,
)
    requires
        shown(out) == all_rendered(uri, text, said(found)),
    ensures
        out.len() == found.len(),
        forall|i: int| 0 <= i < found.len() ==> reports(#[trigger] out[i], found[i], uri, text),
{
    let views = shown(out);
    assert(views.len() == out.len());
    assert(said(found).len() == found.len());
    assert(all_rendered(uri, text, said(found)).len() == found.len());
    assert forall|i: int| 0 <= i < found.len() implies reports(
        #[trigger] out[i],
        found[i],
        uri,
        text,
    ) by {
        let (p, d) = (out[i], found[i]);
        assert(views[i] == p@);
        assert(said(found)[i] == d@);
        assert(p@ == rendered(uri, text, d@));
        assert(notes(d.labels@).len() == d.labels@.len());
        if let Some(related) = p.related {
            let told = related_views(related@);
            let want = places(uri, text, notes(d.labels@));
            assert(told == want);
            assert(told.len() == related@.len());
            assert forall|j: int| 0 <= j < related@.len() implies {
                let note = #[trigger] related@[j];
                &&& note.uri@ == uri
                &&& note.range.start == position_of(text, d.labels@[j].0.start as int)
                &&& note.range.end == position_of(text, d.labels@[j].0.end as int)
                &&& note.message@ == d.labels@[j].1@
            } by {
                assert(told[j] == want[j]);
                assert(notes(d.labels@)[j] == (d.labels@[j].0, d.labels@[j].1@));
            }
        }
    }
}

/// What is found in another file is published on it, all of it: under the file's URL where it has
/// one that is a URI, and not at all where it has none.
pub proof fn law_every_diagnostic_of_a_file_is_published_on_it(
    path: Seq<char>,
    text: Seq<char>,
    found: Seq<Diagnostic>,
    out: Option<Publication>,
)
    requires
        publishes(out, path, text, said(found)),
    ensures
        out is Some <==> (file_url_text(path) matches Some(url) && is_uri(url)),
        out matches Some(p) ==> {
            &&& file_url_text(path) == Some(p.uri@)
            &&& p.diagnostics@.len() == found.len()
            &&& forall|i: int|
                0 <= i < found.len() ==> reports(
                    #[trigger] p.diagnostics@[i],
                    found[i],
                    p.uri@,
                    text,
                )
        },
{
    if let Some(p) = out {
        law_every_diagnostic_is_published(p.uri@, text, found, p.diagnostics@);
    }
}

/// Diagnostics can be published exactly where every span of theirs, and of their notes, begins
/// and ends between characters or past the end.
pub proof fn law_what_can_be_published(text: Seq<char>, found: Seq<Diagnostic>)
    ensures
        diagnostics_fit(text, said(found)) <==> forall|i: int|
            0 <= i < found.len() ==> {
                let d = #[trigger] found[i];
                &&& has_position(text, d.span.start as int)
                &&& has_position(text, d.span.end as int)
                &&& forall|j: int|
                    0 <= j < d.labels@.len() ==> has_position(
                        text,
                        (#[trigger] d.labels@[j]).0.start as int,
                    ) && has_position(text, d.labels@[j].0.end as int)
            },
{
    let views = said(found);
    assert(views.len() == found.len());
    assert forall|i: int| 0 <= i < found.len() implies (diagnostic_fits(text, #[trigger] views[i])
        <==> {
        let d = found[i];
        &&& has_position(text, d.span.start as int)
        &&& has_position(text, d.span.end as int)
        &&& forall|j: int|
            0 <= j < d.labels@.len() ==> has_position(
                text,
                (#[trigger] d.labels@[j]).0.start as int,
            ) && has_position(text, d.labels@[j].0.end as int)
    }) by {
        let d = found[i];
        let labels = views[i].labels;
        assert(views[i] == d@);
        assert(labels.len() == d.labels@.len());
        assert forall|j: int| 0 <= j < d.labels@.len() implies (#[trigger] labels[j]).0
            == d.labels@[j].0 by {}
        if diagnostic_fits(text, views[i]) {
            assert forall|j: int| 0 <= j < d.labels@.len() implies has_position(
                text,
                (#[trigger] d.labels@[j]).0.start as int,
            ) && has_position(text, d.labels@[j].0.end as int) by {
                assert(span_fits(text, labels[j].0));
            }
        }
    }
    if diagnostics_fit(text, views) {
        assert forall|i: int| 0 <= i < found.len() implies {
            let d = #[trigger] found[i];
            &&& has_position(text, d.span.start as int)
            &&& has_position(text, d.span.end as int)
            &&& forall|j: int|
                0 <= j < d.labels@.len() ==> has_position(
                    text,
                    (#[trigger] d.labels@[j]).0.start as int,
                ) && has_position(text, d.labels@[j].0.end as int)
        } by {
            assert(diagnostic_fits(text, views[i]));
        }
    }
}

/// What is found in another file can be published wherever the file's URL is short enough to
/// parse and its diagnostics can be; and a file without a URI is passed over whatever they are.
pub proof fn law_what_can_be_published_on_a_file(
    path: Seq<char>,
    text: Seq<char>,
    found: Seq<Diagnostic>,
)
    requires
        file_url_text(path) matches Some(url) ==> byte_len(url) <= URI_LIMIT,
    ensures
        diagnostics_fit(text, said(found)) ==> file_fits(path, text, said(found)),
        file_url_text(path) is None ==> file_fits(path, text, said(found)),
{
}

} // verus!
