//! The server's loop: when to check, and when to answer.
//!
//! One message is handled at a time. A check is a blocking pass over the user's module, and a
//! keystroke invalidates the one in flight anyway, so checks are put off until typing stops:
//! a burst of typing costs one check rather than one per character. Requests that read a check
//! force a pending one first, because otherwise the answer to the first hover after an edit is
//! "nothing here".

use crate::analysis::{Analyzer, Source, StdModule};
use crate::documents::{Doc, Documents};
use crate::jump::{is_uri, parse_uri, URI_LIMIT};
use crate::methods::{needs_analysis, reads_check, request_kind_of};
use crate::text::{decimal, decimal_of, same_text};
use crate::toolchain::{message_for, Failure, Stdlib};
use crate::utf::byte_len;
use vstd::prelude::*;

verus! {

/// How long the server waits for typing to stop before checking, in nanoseconds.
pub const DEBOUNCE: u64 = 150_000_000;

/// The longest a document may go unchecked while still being edited, in nanoseconds. Without
/// this, continuous typing renews the wait forever and diagnostics never appear at all.
pub const MAX_DELAY: u64 = 750_000_000;

/// A document that has changed and not yet been checked. Times are in nanoseconds since the
/// server started.
#[derive(Debug)]
pub struct Pending {
    pub uri: String,
    /// When it first went dirty.
    pub first: u64,
    /// When it last changed.
    pub last: u64,
}

/// The moment a check should run: when typing has stopped for long enough, or the document has
/// been dirty for too long, whichever comes first.
pub open spec fn deadline_of(first: int, last: int) -> int {
    if last + DEBOUNCE <= first + MAX_DELAY {
        last + DEBOUNCE
    } else {
        first + MAX_DELAY
    }
}

impl Pending {
    /// The moment the check should run: whichever of the two limits comes first.
    pub fn deadline(&self) -> (at: u64)
        requires
            self.last + DEBOUNCE <= u64::MAX,
            self.first + MAX_DELAY <= u64::MAX,
        ensures
            at == deadline_of(self.first as int, self.last as int),
    {
        let settled: u64 = self.last + DEBOUNCE;
        let overdue: u64 = self.first + MAX_DELAY;
        if settled <= overdue {
            settled
        } else {
            overdue
        }
    }

    /// How long to wait for the next message: until the deadline, or not at all when it has
    /// passed.
    pub fn wait(&self, now: u64) -> (nanoseconds: u64)
        requires
            self.last + DEBOUNCE <= u64::MAX,
            self.first + MAX_DELAY <= u64::MAX,
        ensures
            nanoseconds == (if now >= deadline_of(self.first as int, self.last as int) {
                0
            } else {
                deadline_of(self.first as int, self.last as int) - now
            }),
    {
        let at: u64 = self.deadline();
        if now >= at {
            0
        } else {
            at - now
        }
    }
}

/// However often a document is edited, its check is due no later than the longest delay after
/// the first edit and never before typing has stopped or that delay has run out; an edit never
/// brings it forward.
pub proof fn law_a_check_is_due_in_time(first: int, last: int, later: int)
    requires
        first <= last <= later,
    ensures
        deadline_of(first, last) <= first + MAX_DELAY,
        deadline_of(first, last) <= last + DEBOUNCE,
        deadline_of(first, last) == last + DEBOUNCE || deadline_of(first, last) == first
            + MAX_DELAY,
        deadline_of(first, last) <= deadline_of(first, later),
        deadline_of(first, last) > first,
{
}

/// What the server knows: the open documents, and which one waits for a check.
pub struct Server {
    pub docs: Documents,
    pub pending: Option<Pending>,
}

/// Something that happened.
#[allow(inconsistent_fields)]
pub enum Input {
    /// The deadline of the pending check has passed with no message.
    Timeout,
    /// The editor vanished.
    Disconnected,
    /// The editor asked something. The URI is that of the document it asked about.
    Request { method: String, uri: Option<String> },
    /// A document has a new text.
    Changed { uri: String, text: String, now: u64 },
    /// A document was closed.
    Closed { uri: String },
    /// Something that is no concern of this server.
    Other,
}

/// What to do about it.
#[derive(Debug)]
pub enum Action {
    /// Nothing.
    Nothing,
    /// End the session.
    Stop,
    /// Check this document and publish what comes of it.
    Check(String),
    /// Check and publish a document first, if one is named; then answer the request.
    Answer(Option<String>),
    /// Publish that there is nothing wrong with this document. An editor keeps showing the last
    /// diagnostics it was told about, so a closed file would otherwise leave stale errors in
    /// its problems panel forever.
    Clear(String),
}

impl Server {
    /// Whether the document that waits for a check is open.
    pub open spec fn settled(self) -> bool {
        self.pending matches Some(p) ==> self.docs@.contains_key(p.uri@)
    }

    /// The document to check when the pending check runs: none if it was closed since.
    pub open spec fn due(self) -> Option<Seq<char>> {
        match self.pending {
            Some(p) => if self.docs@.contains_key(p.uri@) {
                Some(p.uri@)
            } else {
                None
            },
            None => None,
        }
    }

    /// Whether the pending check is of a document.
    pub open spec fn awaits(self, uri: Seq<char>) -> bool {
        self.pending matches Some(p) && p.uri@ == uri
    }

    /// No documents, and nothing pending.
    pub fn new() -> (server: Server)
        ensures
            server.docs@ == Map::<Seq<char>, Doc>::empty(),
            server.pending is None,
            server.settled(),
    {
        Server { docs: Documents::new(), pending: None }
    }

    /// Take the pending check: the document to check, unless it was closed since.
    fn flush(&mut self) -> (uri: Option<String>)
        ensures
            final(self).docs == old(self).docs,
            final(self).pending is None,
            uri is Some <==> old(self).due() is Some,
            uri matches Some(u) ==> old(self).due() == Some(u@),
    {
        let mut pending: Option<Pending> = None;
        std::mem::swap(&mut pending, &mut self.pending);
        match pending {
            Some(p) => if self.docs.get(p.uri.as_str()).is_some() {
                Some(p.uri)
            } else {
                None
            },
            None => None,
        }
    }

    /// Whether the pending check is of a document.
    fn waits_for(&self, uri: &str) -> (yes: bool)
        ensures
            yes == self.awaits(uri@),
    {
        match &self.pending {
            Some(p) => same_text(p.uri.as_str(), uri),
            None => false,
        }
    }
}

/// Whether an action is to check a certain document, or to do nothing where there is none.
pub open spec fn checks(action: Action, uri: Option<Seq<char>>) -> bool {
    match uri {
        Some(u) => action matches Action::Check(c) && c@ == u,
        None => action is Nothing,
    }
}

/// Whether an action is to answer, after checking a certain document where there is one.
pub open spec fn answers_after(action: Action, uri: Option<Seq<char>>) -> bool {
    action matches Action::Answer(first) && match uri {
        Some(u) => first matches Some(c) && c@ == u,
        None => first is None,
    }
}

/// Whether a request has to wait for the pending check: it reads a check, of the document that
/// is pending.
pub open spec fn must_flush(server: Server, method: Seq<char>, uri: Option<String>) -> bool {
    reads_check(request_kind_of(method)) && (uri matches Some(u) && server.awaits(u@))
}

/// What is pending after a change: the same document still settling keeps the moment it first
/// went dirty; another one starts afresh.
pub open spec fn pends(before: Server, after: Option<Pending>, uri: Seq<char>, now: u64) -> bool {
    after matches Some(p) && p.uri@ == uri && p.last == now && p.first == (if before.awaits(uri) {
        before.pending->0.first
    } else {
        now
    })
}

/// Typing on in the document that is pending does not put its check off beyond the longest delay
/// after the edit that made it dirty.
pub proof fn law_typing_on_does_not_put_a_check_off(
    before: Server,
    after: Option<Pending>,
    uri: Seq<char>,
    now: u64,
)
    requires
        before.awaits(uri),
        pends(before, after, uri, now),
    ensures
        after is Some,
        after->0.first == before.pending->0.first,
        deadline_of(after->0.first as int, after->0.last as int) <= before.pending->0.first
            + MAX_DELAY,
{
}

impl Server {
    /// What to do about something that happened, and what the server knows afterwards.
    pub fn step(&mut self, input: Input) -> (action: Action)
        ensures
            old(self).settled() ==> final(self).settled(),
            input is Timeout ==> (old(self).pending matches Some(p) ==> (
            old(self).docs@.contains_key(p.uri@) ==> (action matches Action::Check(uri) && uri@
                == p.uri@))),
            input is Timeout && old(self).pending is None ==> action is Nothing,
            input is Disconnected <==> action is Stop,
            input is Request <==> action is Answer,
            input matches Input::Closed { uri } ==> (action matches Action::Clear(cleared)
                && cleared@ == uri@ && !final(self).docs@.contains_key(uri@)),
            input matches Input::Changed { uri, text, now } ==> {
                &&& final(self).docs@.contains_key(uri@)
                &&& final(self).docs@[uri@].index@ == text@
                &&& final(self).pending matches Some(p) && p.uri@ == uri@ && p.last == now
                &&& old(self).pending matches Some(p) ==> (p.uri@ != uri@
                    && old(self).docs@.contains_key(p.uri@) ==> (action matches Action::Check(c)
                    && c@ == p.uri@))
                &&& old(self).pending matches Some(p) ==> (p.uri@ == uri@ ==> action is Nothing
                    && final(self).pending->0.first == p.first)
                &&& old(self).pending is None ==> action is Nothing && final(self).pending->0.first
                    == now
            },
            input matches Input::Request { method, uri: Some(uri) } ==> (reads_check(
                request_kind_of(method@),
            ) ==> !final(self).awaits(uri@)),
            match input {
                Input::Timeout => {
                    &&& final(self).docs == old(self).docs
                    &&& final(self).pending is None
                    &&& checks(action, old(self).due())
                },
                Input::Disconnected => *final(self) == *old(self) && action is Stop,
                Input::Request { method, uri } => if must_flush(*old(self), method@, uri) {
                    &&& final(self).docs == old(self).docs
                    &&& final(self).pending is None
                    &&& answers_after(action, old(self).due())
                } else {
                    *final(self) == *old(self) && answers_after(action, None)
                },
                Input::Changed { uri, text, now } => {
                    &&& final(self).docs@.dom() == old(self).docs@.dom().insert(uri@)
                    &&& final(self).docs@[uri@].index@ == text@
                    &&& final(self).docs@[uri@].checked == (if old(self).docs@.contains_key(uri@) {
                        old(self).docs@[uri@].checked
                    } else {
                        None
                    })
                    &&& final(self).docs@.remove(uri@) == old(self).docs@.remove(uri@)
                    &&& pends(*old(self), final(self).pending, uri@, now)
                    &&& checks(
                        action,
                        if old(self).awaits(uri@) {
                            None
                        } else {
                            old(self).due()
                        },
                    )
                },
                Input::Closed { uri } => {
                    &&& final(self).docs@ == old(self).docs@.remove(uri@)
                    &&& final(self).pending == (if old(self).awaits(uri@) {
                        None
                    } else {
                        old(self).pending
                    })
                    &&& action == Action::Clear(uri)
                },
                Input::Other => *final(self) == *old(self) && action is Nothing,
            },
    {
        match input {
            Input::Timeout => match self.flush() {
                Some(uri) => Action::Check(uri),
                None => Action::Nothing,
            },
            Input::Disconnected => Action::Stop,
            Input::Request { method, uri } => {
                let waits: bool = match &uri {
                    Some(u) => self.waits_for(u.as_str()),
                    None => false,
                };
                if needs_analysis(method.as_str()) && waits {
                    Action::Answer(self.flush())
                } else {
                    Action::Answer(None)
                }
            },
            Input::Changed { uri, text, now } => {
                self.docs.change(uri.as_str(), text.as_str());
                let same: bool = self.waits_for(uri.as_str());
                if same {
                    let mut pending: Option<Pending> = None;
                    std::mem::swap(&mut pending, &mut self.pending);
                    if let Some(p) = pending {
                        self.pending = Some(Pending { uri: p.uri, first: p.first, last: now });
                    }
                    Action::Nothing
                } else {
                    let ghost old_docs = old(self).docs@;
                    let ghost new_docs = self.docs@;
                    proof {
                        if self.pending is Some {
                            let other = self.pending->0.uri@;
                            assert(new_docs.remove(uri@).contains_key(other) == old_docs.remove(
                                uri@,
                            ).contains_key(other));
                        }
                    }
                    let other: Option<String> = self.flush();
                    self.pending = Some(Pending { uri, first: now, last: now });
                    match other {
                        Some(u) => Action::Check(u),
                        None => Action::Nothing,
                    }
                }
            },
            Input::Closed { uri } => {
                let _doc: Option<Doc> = self.docs.remove(uri.as_str());
                if self.waits_for(uri.as_str()) {
                    self.pending = None;
                }
                Action::Clear(uri)
            },
            Input::Other => Action::Nothing,
        }
    }
}

/// What a notification about a document says.
#[allow(inconsistent_fields)]
pub enum Note {
    Opened { uri: String, text: String },
    /// Each change carries the whole document.
    Changed { uri: String, changes: Vec<String> },
    /// The text is there if the editor was asked for it.
    Saved { uri: String, text: Option<String> },
    Closed { uri: String },
    Other,
}

/// What a notification about a document means to this server.
#[derive(Debug)]
pub enum Event {
    Changed(String, String),
    Closed(String),
}

/// What a notification about a document means to this server: nothing, if it says nothing about
/// a text or a closing. Of several changes the last one counts.
pub fn document_event(note: Note) -> (event: Option<Event>)
    ensures
        match note {
            Note::Opened { uri, text } => event == Some(Event::Changed(uri, text)),
            Note::Changed { uri, changes } => if changes@.len() == 0 {
                event is None
            } else {
                event == Some(Event::Changed(uri, changes@.last()))
            },
            Note::Saved { uri, text } => match text {
                Some(t) => event == Some(Event::Changed(uri, t)),
                None => event is None,
            },
            Note::Closed { uri } => event == Some(Event::Closed(uri)),
            Note::Other => event is None,
        },
{
    match note {
        Note::Opened { uri, text } => Some(Event::Changed(uri, text)),
        Note::Changed { uri, changes } => {
            let mut changes: Vec<String> = changes;
            match changes.pop() {
                Some(text) => Some(Event::Changed(uri, text)),
                None => None,
            }
        },
        Note::Saved { uri, text } => match text {
            Some(t) => Some(Event::Changed(uri, t)),
            None => None,
        },
        Note::Closed { uri } => Some(Event::Closed(uri)),
        Note::Other => None,
    }
}

/// What happened, when a notification came in.
pub fn noted(event: Option<Event>, now: u64) -> (input: Input)
    ensures
        match event {
            Some(Event::Changed(uri, text)) => input == (Input::Changed { uri, text, now }),
            Some(Event::Closed(uri)) => input == (Input::Closed { uri }),
            None => input is Other,
        },
{
    match event {
        Some(Event::Changed(uri, text)) => Input::Changed { uri, text, now },
        Some(Event::Closed(uri)) => Input::Closed { uri },
        None => Input::Other,
    }
}

/// The document a request is about, as written in it.
///
/// This only has to decide whether a pending check is for the same document, so a miss is a
/// missed optimisation, not a wrong answer.
pub fn uri_of(written: Option<&str>) -> (uri: Option<String>)
    requires
        written matches Some(text) ==> byte_len(text@) <= URI_LIMIT,
    ensures
        uri is Some <==> (written matches Some(text) && is_uri(text@)),
        uri matches Some(u) ==> written matches Some(text) && u@ == text@,
{
    match written {
        Some(text) => parse_uri(text),
        None => None,
    }
}

/// The front end to start with, and what to tell the user.
pub struct Started {
    pub analyzer: Analyzer,
    /// For the editor's log.
    pub log: String,
    /// To interrupt the user with, once, where something is wrong.
    pub warn: Option<String>,
}

/// What is logged about a stdlib that was loaded.
pub open spec fn loaded_text(count: nat, dir: Seq<char>) -> Seq<char> {
    "neon-lsp: loaded "@ + decimal_of(count) + " stdlib file(s) from '"@ + dir
        + "'; type checking is on."@
}

/// What the user is told about a stdlib that does not parse.
pub open spec fn unparsed_text(dir: Seq<char>, error: Seq<char>) -> Seq<char> {
    "neon-lsp: the stdlib at '"@ + dir
        + "' did not parse, so only syntax errors will appear. "@ + error
}

/// Whether a session starts without a stdlib, telling the user why in the log and outright.
pub open spec fn starts_without(started: Started, why: Seq<char>) -> bool {
    &&& !started.analyzer.checks()
    &&& started.analyzer.stdlib() == Seq::<Source>::empty()
    &&& started.log@ == why
    &&& started.warn matches Some(w) && w@ == why
}

/// Start with the toolchain's stdlib, telling the user whatever happened.
///
/// A server with no stdlib can still lex and parse, which is worth having, so this degrades
/// rather than refusing to start, but not quietly: a clean file is an assertion, and the server
/// would be making one it could not support. What was loaded is logged on success too, so that
/// which stdlib is checked against has an answer without reproducing a failure.
///
/// `loaded` is what loading came to, with what parsing the stdlib came to.
pub fn start_analyzer(
    loaded: Result<(Stdlib, Result<(Vec<StdModule>, u32), String>), Failure>,
) -> (started: Started)
    ensures
        match loaded {
            Ok((std, Ok((modules, next_id)))) => {
                &&& started.analyzer.holds(std.dir@, std.sources@, modules@, next_id)
                &&& started.log@ == loaded_text(std.sources@.len(), std.dir@)
                &&& started.warn is None
            },
            Ok((std, Err(error))) => starts_without(started, unparsed_text(std.dir@, error@)),
            Err(failure) => starts_without(started, message_for(failure@)),
        },
{
    let message: String = match loaded {
        Ok((std, parsed)) => match Analyzer::new(std.dir.as_str(), &std.sources, parsed) {
            Ok(analyzer) => {
                let mut log: String = "neon-lsp: loaded ".to_owned();
                log.append(decimal(std.sources.len()).as_str());
                log.append(" stdlib file(s) from '");
                log.append(std.dir.as_str());
                log.append("'; type checking is on.");
                return Started { analyzer, log, warn: None };
            },
            Err(error) => {
                let mut text: String = "neon-lsp: the stdlib at '".to_owned();
                text.append(std.dir.as_str());
                text.append("' did not parse, so only syntax errors will appear. ");
                text.append(error.as_str());
                text
            },
        },
        Err(failure) => failure.message(),
    };
    Started { analyzer: Analyzer::syntax_only(), log: message.clone(), warn: Some(message) }
}

/// A check is due while its document is open, and none is where nothing is pending.
pub proof fn law_a_pending_check_is_due_while_its_document_is_open(server: Server)
    ensures
        server.pending is None ==> server.due() is None,
        server.pending matches Some(p) ==> server.due() == (if server.docs@.contains_key(p.uri@) {
            Some(p.uri@)
        } else {
            None
        }),
{
}

/// A request waits for a pending check exactly when it is answered from one and it is about the
/// document that is pending.
pub proof fn law_a_request_waits_for_the_check_of_its_document(
    server: Server,
    method: Seq<char>,
    uri: Option<String>,
)
    ensures
        must_flush(server, method, uri) <==> reads_check(request_kind_of(method)) && (uri
            matches Some(u) && (server.pending matches Some(p) && p.uri@ == u@)),
{
}

/// After a change its document is pending as of now, since the first change that is still
/// waiting: the one before where the same document was pending, and this one otherwise.
pub proof fn law_a_change_is_pending(
    before: Server,
    after: Option<Pending>,
    uri: Seq<char>,
    now: u64,
)
    requires
        pends(before, after, uri, now),
    ensures
        after matches Some(p) && p.uri@ == uri && p.last == now,
        before.pending is None ==> after->0.first == now,
        before.pending matches Some(p) ==> after->0.first == (if p.uri@ == uri {
            p.first
        } else {
            now
        }),
{
}

/// The debounce is shorter than the longest delay, and both are what they are called.
pub proof fn law_the_delays()
    ensures
        DEBOUNCE == 150 * 1_000_000,
        MAX_DELAY == 750 * 1_000_000,
{
}

/// The user is told how many files were loaded and from where, or what is wrong with which
/// stdlib.
pub proof fn law_the_user_is_told_which_stdlib(count: nat, dir: Seq<char>, error: Seq<char>)
    ensures
        loaded_text(count, dir) == "neon-lsp: loaded "@ + decimal_of(count)
            + " stdlib file(s) from '"@ + dir + "'; type checking is on."@,
        unparsed_text(dir, error) == "neon-lsp: the stdlib at '"@ + dir
            + "' did not parse, so only syntax errors will appear. "@ + error,
{
}

/// A session without a stdlib checks nothing, and says why both in the log and to the user.
pub proof fn law_a_session_without_a_stdlib_says_why(started: Started, why: Seq<char>)
    requires
        starts_without(started, why),
    ensures
        !started.analyzer.checks(),
        started.analyzer.stdlib().len() == 0,
        started.log@ == why,
        started.warn matches Some(w) && w@ == why,
{
}

/// What is due is checked: alone, or before a request is answered; and nothing is where nothing
/// is due.
pub proof fn law_what_is_due_is_checked(action: Action, due: Option<Seq<char>>)
    ensures
        checks(action, due) ==> {
            &&& due is None <==> action is Nothing
            &&& due matches Some(uri) ==> (action matches Action::Check(checked) && checked@ == uri)
        },
        answers_after(action, due) ==> (action matches Action::Answer(first) && (due is None
            <==> first is None) && (first matches Some(checked) ==> Some(checked@) == due)),
{
}

/// In a settled server whatever is pending is due: its document is open.
pub proof fn law_whatever_is_pending_in_a_settled_server_is_due(server: Server)
    ensures
        server.settled() <==> (server.pending matches Some(p) ==> server.due() == Some(p.uri@)),
        server.pending is None ==> server.settled() && server.due() is None,
{
}

} // verus!
