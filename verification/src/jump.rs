//! Go to definition.

use crate::analysis::{text_in, Analyzer, Checked, Source};
use crate::position::{LineIndex, Range};
use crate::ranges::{fits, range, range_of, span_fits};
use crate::syntax::{DefSite, Node, Span};
use crate::text::{chars_of, texts};
use crate::utf::byte_len;
use vstd::prelude::*;

verus! {

/// The longest URI that can be parsed, in bytes.
pub const URI_LIMIT: usize = 0x7fff_ffff;

/// The text of the `file` URL of a path, for paths of the system this is built for; none where
/// the path has no such URL.
pub uninterp spec fn file_url_text(path: Seq<char>) -> Option<Seq<char>>;

/// The path that a URL stands for, for paths of the system this is built for; none where it is
/// no URL, or stands for no path that is text.
pub uninterp spec fn url_path_text(url: Seq<char>) -> Option<Seq<char>>;

/// Whether a text is a URI reference.
pub uninterp spec fn is_uri(text: Seq<char>) -> bool;

/// `url::Url::from_file_path`, and the text of the URL it makes: it depends on the path alone,
/// and where there is one it has the scheme `file` and an authority. How the path's components
/// are encoded is not stated.
#[verifier::external_body]
fn file_url(path: &str) -> (url: Option<String>)
    ensures
        text_in(url) == file_url_text(path@),
        url matches Some(u) ==> u@.len() >= 7 && u@.take(7) == "file://"@,
{
    match url::Url::from_file_path(path) {
        Ok(url) => Some(url.as_str().to_owned()),
        Err(()) => None,
    }
}

/// `url::Url::parse`, and `Url::to_file_path` of what it parsed: the path depends on the text
/// alone. It does not take a text longer than the limit. How a URL is split and decoded is not
/// stated.
#[verifier::external_body]
fn url_path(url: &str) -> (path: Option<String>)
    requires
        byte_len(url@) <= URI_LIMIT,
    ensures
        text_in(path) == url_path_text(url@),
{
    let path = url::Url::parse(url).ok()?.to_file_path().ok()?;
    path.into_os_string().into_string().ok()
}

/// `lsp_types::Uri::from_str`, and the text of what it parsed: whether a text parses depends on
/// the text alone, and a URI that was parsed keeps its text. It does not take a text longer
/// than the limit. The grammar is not stated.
#[verifier::external_body]
pub(crate) fn parse_uri(text: &str) -> (uri: Option<String>)
    requires
        byte_len(text@) <= URI_LIMIT,
    ensures
        uri is Some <==> is_uri(text@),
        uri matches Some(u) ==> u@ == text@,
{
    match text.parse::<lsp_types::Uri>() {
        Ok(uri) => Some(uri.as_str().to_owned()),
        Err(_) => None,
    }
}

/// A place that an editor can open.
#[derive(Debug)]
pub struct Location {
    pub uri: String,
    pub range: Range,
}

/// What a location says.
pub struct LocationView {
    pub uri: Seq<char>,
    pub range: Range,
}

impl View for Location {
    type V = LocationView;

    open spec fn view(&self) -> LocationView {
        LocationView { uri: self.uri@, range: self.range }
    }
}

/// A span of a file that has a URI, as a place; none where it has no URI.
pub fn place(uri: Option<String>, index: &LineIndex, span: Span) -> (location: Option<Location>)
    requires
        uri is Some ==> span_fits(index@, span),
    ensures
        location is Some <==> uri is Some,
        location matches Some(l) ==> l.uri == uri->0 && l.range == range_of(index@, span),
{
    match uri {
        Some(uri) => Some(Location { uri, range: range(index, span) }),
        None => None,
    }
}

/// The URI of a file: its URL, where it has one that parses.
pub open spec fn file_uri_of(path: Seq<char>) -> Option<Seq<char>> {
    match file_url_text(path) {
        Some(url) => if is_uri(url) {
            Some(url)
        } else {
            None
        },
        None => None,
    }
}

/// Whether a file's URL is short enough to parse.
pub open spec fn url_fits(path: Seq<char>) -> bool {
    file_url_text(path) matches Some(url) ==> byte_len(url) <= URI_LIMIT
}

/// The URI of a file.
///
/// Through a URL and back out as a string: it knows how to percent-encode a path, and the
/// protocol takes only the other kind.
pub fn file_uri(path: &str) -> (uri: Option<String>)
    requires
        url_fits(path@),
    ensures
        text_in(uri) == file_uri_of(path@),
        uri matches Some(u) ==> u@.len() >= 7 && u@.take(7) == "file://"@,
{
    match file_url(path) {
        Some(url) => parse_uri(url.as_str()),
        None => None,
    }
}

/// Whether a file's URL is short enough to parse.
pub fn can_parse_url(path: &str) -> (yes: bool)
    ensures
        yes == url_fits(path@),
{
    match file_url(path) {
        Some(url) => url.as_str().as_bytes().len() <= URI_LIMIT,
        None => true,
    }
}

/// Whether a URI is one of a file on this machine or another.
pub open spec fn names_file(uri: Seq<char>) -> bool {
    uri.len() >= 7 && uri.take(7) == seq!['f', 'i', 'l', 'e', ':', '/', '/']
}

/// The path of the file that a URI names.
pub open spec fn path_in(uri: Seq<char>) -> Option<Seq<char>> {
    if names_file(uri) && byte_len(uri) <= URI_LIMIT {
        url_path_text(uri)
    } else {
        None
    }
}

/// The path of the file that a URI names. A document with any other scheme is on no disk, even
/// where its URI has a path that looks like one: an editor's view of an old version has.
pub fn path_of(uri: &str) -> (path: Option<String>)
    ensures
        text_in(path) == path_in(uri@),
{
    let c: Vec<char> = chars_of(uri);
    if c.len() < 7 || uri.as_bytes().len() > URI_LIMIT {
        return None;
    }
    let yes: bool = c[0] == 'f' && c[1] == 'i' && c[2] == 'l' && c[3] == 'e' && c[4] == ':' && c[5]
        == '/' && c[6] == '/';
    proof {
        let head = uri@.take(7);
        let want = seq!['f', 'i', 'l', 'e', ':', '/', '/'];
        assert(forall|i: int| 0 <= i < 7 ==> head[i] == #[trigger] c@[i]);
        if yes {
            assert(head =~= want);
        } else if head == want {
            assert(want[0] == 'f' && want[1] == 'i' && want[2] == 'l' && want[3] == 'e' && want[4]
                == ':' && want[5] == '/' && want[6] == '/');
        }
    }
    if yes {
        url_path(uri)
    } else {
        None
    }
}

/// The place of a definition.
pub open spec fn place_of(
    checked: Checked,
    analyzer: Analyzer,
    current: Seq<char>,
    uri: Seq<char>,
    site: DefSite,
) -> Option<LocationView> {
    match checked.holder(analyzer, texts(site.module@)) {
        None => Some(LocationView { uri, range: range_of(current, site.span) }),
        Some(src) => match file_uri_of(src.path@) {
            Some(target) => Some(
                LocationView { uri: target, range: range_of(src.index@, site.span) },
            ),
            None => None,
        },
    }
}

/// Whether the place of a definition can be worked out: its span is one of the text it is in,
/// and its file's URL can be parsed.
pub open spec fn place_fits(
    checked: Checked,
    analyzer: Analyzer,
    current: Seq<char>,
    site: DefSite,
) -> bool {
    match checked.holder(analyzer, texts(site.module@)) {
        None => span_fits(current, site.span),
        Some(src) => url_fits(src.path@) && (file_uri_of(src.path@) is Some ==> span_fits(
            src.index@,
            site.span,
        )),
    }
}

/// A definition as a location an editor can open.
///
/// The module decides which file, and the test is whether a file holds it rather than whether
/// the module path is empty. The empty path belongs to the document's root module, but a
/// declaration inside a nested module is recorded against the nested path: the checker names
/// the module the code was written in, not the file it came from.
pub fn locate(
    analyzer: &Analyzer,
    checked: &Checked,
    index: &LineIndex,
    uri: &str,
    site: &DefSite,
) -> (location: Option<Location>)
    requires
        place_fits(*checked, *analyzer, index@, *site),
    ensures
        match (location, place_of(*checked, *analyzer, index@, uri@, *site)) {
            (Some(l), Some(want)) => l@ == want,
            (None, None) => true,
            _ => false,
        },
{
    match checked.source_of(analyzer, &site.module) {
        None => place(Some(uri.to_owned()), index, site.span),
        Some(src) => place(file_uri(src.path.as_str()), &src.index, site.span),
    }
}

/// The definition of the name that the innermost expression at the cursor is.
pub open spec fn named_at(checked: Checked, innermost: Option<Node>) -> Option<DefSite> {
    match innermost {
        Some(node) => checked.result.def_of(node.id),
        None => None,
    }
}

/// Where the name under the cursor was defined.
pub open spec fn definition_of(
    checked: Checked,
    analyzer: Analyzer,
    current: Seq<char>,
    uri: Seq<char>,
    innermost: Option<Node>,
) -> Option<LocationView> {
    match named_at(checked, innermost) {
        Some(site) => place_of(checked, analyzer, current, uri, site),
        None => None,
    }
}

/// Whether the place where the name under the cursor was defined can be worked out.
pub open spec fn definition_fits(
    checked: Checked,
    analyzer: Analyzer,
    current: Seq<char>,
    innermost: Option<Node>,
) -> bool {
    named_at(checked, innermost) matches Some(site) ==> place_fits(
        checked,
        analyzer,
        current,
        site,
    )
}

/// Where the name under the cursor was defined.
pub fn definition(
    analyzer: &Analyzer,
    checked: &Checked,
    index: &LineIndex,
    uri: &str,
    innermost: Option<Node>,
) -> (location: Option<Location>)
    requires
        definition_fits(*checked, *analyzer, index@, innermost),
    ensures
        match (location, definition_of(*checked, *analyzer, index@, uri@, innermost)) {
            (Some(l), Some(want)) => l@ == want,
            (None, None) => true,
            _ => false,
        },
{
    match innermost {
        Some(node) => match checked.result.def(node.id) {
            Some(site) => locate(analyzer, checked, index, uri, site),
            None => None,
        },
        None => None,
    }
}

/// Where the name under the cursor was defined; `None` where the place cannot be worked out,
/// because a span falls inside a character of the text or a file's URL is too long to parse.
pub fn try_definition(
    analyzer: &Analyzer,
    checked: &Checked,
    index: &LineIndex,
    uri: &str,
    innermost: Option<Node>,
) -> (answer: Option<Option<Location>>)
    ensures
        answer is Some <==> definition_fits(*checked, *analyzer, index@, innermost),
        answer matches Some(location) ==> match (
            location,
            definition_of(*checked, *analyzer, index@, uri@, innermost),
        ) {
            (Some(l), Some(want)) => l@ == want,
            (None, None) => true,
            _ => false,
        },
{
    if can_define(analyzer, checked, index, innermost) {
        Some(definition(analyzer, checked, index, uri, innermost))
    } else {
        None
    }
}

/// Whether the place where the name under the cursor was defined can be worked out.
pub fn can_define(
    analyzer: &Analyzer,
    checked: &Checked,
    index: &LineIndex,
    innermost: Option<Node>,
) -> (yes: bool)
    ensures
        yes == definition_fits(*checked, *analyzer, index@, innermost),
{
    match innermost {
        Some(node) => match checked.result.def(node.id) {
            Some(site) => can_locate(analyzer, checked, index, site),
            None => true,
        },
        None => true,
    }
}

/// Whether the place of a definition can be worked out.
fn can_locate(analyzer: &Analyzer, checked: &Checked, index: &LineIndex, site: &DefSite) -> (yes:
    bool)
    ensures
        yes == place_fits(*checked, *analyzer, index@, *site),
{
    match checked.source_of(analyzer, &site.module) {
        None => fits(index, site.span),
        Some(src) => {
            let src: &Source = src;
            can_parse_url(src.path.as_str()) && match file_uri(src.path.as_str()) {
                Some(_) => fits(&src.index, site.span),
                None => true,
            }
        },
    }
}

/// A name defined in this document is found in this document, under its own URI, whether its
/// module is the root or a nested one; and a name that another file holds is never said to be
/// here.
pub proof fn law_a_definition_is_placed_in_the_file_that_holds_it(
    checked: Checked,
    analyzer: Analyzer,
    current: Seq<char>,
    uri: Seq<char>,
    site: DefSite,
)
    ensures
        checked.holder(analyzer, texts(site.module@)) is None ==> place_of(
            checked,
            analyzer,
            current,
            uri,
            site,
        ) == Some(LocationView { uri, range: range_of(current, site.span) }),
        checked.holder(analyzer, texts(site.module@)) matches Some(src) ==> (place_of(
            checked,
            analyzer,
            current,
            uri,
            site,
        ) matches Some(l) ==> Some(l.uri) == file_uri_of(src.path@) && l.range == range_of(
            src.index@,
            site.span,
        )),
{
}

/// Only a `file` URI names a path, and then it is the path of its URL, unless it is too long to
/// parse.
pub proof fn law_only_a_file_uri_names_a_path(uri: Seq<char>, rest: Seq<char>)
    ensures
        !(uri.len() >= 7 && uri.take(7) == "file://"@) ==> path_in(uri) is None,
        byte_len("file://"@ + rest) <= URI_LIMIT ==> path_in("file://"@ + rest) == url_path_text(
            "file://"@ + rest,
        ),
{
    reveal_strlit("file://");
    assert("file://"@ =~= seq!['f', 'i', 'l', 'e', ':', '/', '/']);
    assert(("file://"@ + rest).take(7) =~= "file://"@);
}

/// A file has a URI exactly when it has a URL that is one, and it is that URL.
pub proof fn law_a_files_uri_is_its_url(path: Seq<char>)
    ensures
        file_uri_of(path) is Some <==> (file_url_text(path) matches Some(url) && is_uri(url)),
        file_uri_of(path) is Some ==> file_uri_of(path) == file_url_text(path),
{
}

} // verus!
