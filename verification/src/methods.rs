//! What the messages of the protocol are called, and what they ask for.

use crate::text::same_text;
use vstd::prelude::*;

verus! {

/// What a request asks for.
#[derive(Debug, Clone, Copy, PartialEq, Eq, Structural)]
pub enum RequestKind {
    Formatting,
    Hover,
    Definition,
    References,
    Rename,
    Completion,
    SignatureHelp,
    DocumentSymbol,
    InlayHint,
    SemanticTokens,
    FoldingRange,
    SelectionRange,
    /// Something this server does not answer.
    Unknown,
}

/// What a request asks for.
pub open spec fn request_kind_of(method: Seq<char>) -> RequestKind {
    if method == "textDocument/formatting"@ {
        RequestKind::Formatting
    } else if method == "textDocument/hover"@ {
        RequestKind::Hover
    } else if method == "textDocument/definition"@ {
        RequestKind::Definition
    } else if method == "textDocument/references"@ {
        RequestKind::References
    } else if method == "textDocument/rename"@ {
        RequestKind::Rename
    } else if method == "textDocument/completion"@ {
        RequestKind::Completion
    } else if method == "textDocument/signatureHelp"@ {
        RequestKind::SignatureHelp
    } else if method == "textDocument/documentSymbol"@ {
        RequestKind::DocumentSymbol
    } else if method == "textDocument/inlayHint"@ {
        RequestKind::InlayHint
    } else if method == "textDocument/semanticTokens/full"@ {
        RequestKind::SemanticTokens
    } else if method == "textDocument/foldingRange"@ {
        RequestKind::FoldingRange
    } else if method == "textDocument/selectionRange"@ {
        RequestKind::SelectionRange
    } else {
        RequestKind::Unknown
    }
}

/// What a request asks for.
pub fn request_kind(method: &str) -> (kind: RequestKind)
    ensures
        kind == request_kind_of(method@),
{
    if same_text(method, "textDocument/formatting") {
        RequestKind::Formatting
    } else if same_text(method, "textDocument/hover") {
        RequestKind::Hover
    } else if same_text(method, "textDocument/definition") {
        RequestKind::Definition
    } else if same_text(method, "textDocument/references") {
        RequestKind::References
    } else if same_text(method, "textDocument/rename") {
        RequestKind::Rename
    } else if same_text(method, "textDocument/completion") {
        RequestKind::Completion
    } else if same_text(method, "textDocument/signatureHelp") {
        RequestKind::SignatureHelp
    } else if same_text(method, "textDocument/documentSymbol") {
        RequestKind::DocumentSymbol
    } else if same_text(method, "textDocument/inlayHint") {
        RequestKind::InlayHint
    } else if same_text(method, "textDocument/semanticTokens/full") {
        RequestKind::SemanticTokens
    } else if same_text(method, "textDocument/foldingRange") {
        RequestKind::FoldingRange
    } else if same_text(method, "textDocument/selectionRange") {
        RequestKind::SelectionRange
    } else {
        RequestKind::Unknown
    }
}

/// Whether answering a request means reading a check. Formatting is the one request that is
/// answered and does not: it reprints from the document's text, which every change updates at
/// once.
pub open spec fn reads_check(kind: RequestKind) -> bool {
    kind != RequestKind::Formatting && kind != RequestKind::Unknown
}

/// Whether answering a request means reading a check.
pub fn needs_analysis(method: &str) -> (yes: bool)
    ensures
        yes == reads_check(request_kind_of(method@)),
{
    match request_kind(method) {
        RequestKind::Formatting => false,
        RequestKind::Unknown => false,
        _ => true,
    }
}

/// What a notification about a document tells.
#[derive(Debug, Clone, Copy, PartialEq, Eq, Structural)]
pub enum NoteKind {
    Opened,
    Changed,
    Saved,
    Closed,
    /// Something that is no concern of this server.
    Other,
}

/// What a notification tells.
pub open spec fn note_kind_of(method: Seq<char>) -> NoteKind {
    if method == "textDocument/didOpen"@ {
        NoteKind::Opened
    } else if method == "textDocument/didChange"@ {
        NoteKind::Changed
    } else if method == "textDocument/didSave"@ {
        NoteKind::Saved
    } else if method == "textDocument/didClose"@ {
        NoteKind::Closed
    } else {
        NoteKind::Other
    }
}

/// What a notification tells.
pub fn note_kind(method: &str) -> (kind: NoteKind)
    ensures
        kind == note_kind_of(method@),
{
    if same_text(method, "textDocument/didOpen") {
        NoteKind::Opened
    } else if same_text(method, "textDocument/didChange") {
        NoteKind::Changed
    } else if same_text(method, "textDocument/didSave") {
        NoteKind::Saved
    } else if same_text(method, "textDocument/didClose") {
        NoteKind::Closed
    } else {
        NoteKind::Other
    }
}

/// A request is of a kind exactly when it has that kind's method.
pub proof fn law_a_request_is_known_by_its_method(method: Seq<char>)
    ensures
        method == "textDocument/formatting"@ <==> request_kind_of(method) is Formatting,
        method == "textDocument/hover"@ <==> request_kind_of(method) is Hover,
        method == "textDocument/definition"@ <==> request_kind_of(method) is Definition,
        method == "textDocument/references"@ <==> request_kind_of(method) is References,
        method == "textDocument/rename"@ <==> request_kind_of(method) is Rename,
        method == "textDocument/completion"@ <==> request_kind_of(method) is Completion,
        method == "textDocument/signatureHelp"@ <==> request_kind_of(method) is SignatureHelp,
        method == "textDocument/documentSymbol"@ <==> request_kind_of(method) is DocumentSymbol,
        method == "textDocument/inlayHint"@ <==> request_kind_of(method) is InlayHint,
        method == "textDocument/semanticTokens/full"@ <==> request_kind_of(
            method,
        ) is SemanticTokens,
        method == "textDocument/foldingRange"@ <==> request_kind_of(method) is FoldingRange,
        method == "textDocument/selectionRange"@ <==> request_kind_of(method) is SelectionRange,
{
    reveal_strlit("textDocument/formatting");
    assert("textDocument/formatting"@.len() == 23);
    reveal_strlit("textDocument/hover");
    assert("textDocument/hover"@.len() == 18);
    reveal_strlit("textDocument/definition");
    assert("textDocument/definition"@.len() == 23);
    reveal_strlit("textDocument/references");
    assert("textDocument/references"@.len() == 23);
    reveal_strlit("textDocument/rename");
    assert("textDocument/rename"@.len() == 19);
    reveal_strlit("textDocument/completion");
    assert("textDocument/completion"@.len() == 23);
    reveal_strlit("textDocument/signatureHelp");
    assert("textDocument/signatureHelp"@.len() == 26);
    reveal_strlit("textDocument/documentSymbol");
    assert("textDocument/documentSymbol"@.len() == 27);
    reveal_strlit("textDocument/inlayHint");
    assert("textDocument/inlayHint"@.len() == 22);
    reveal_strlit("textDocument/semanticTokens/full");
    assert("textDocument/semanticTokens/full"@.len() == 32);
    reveal_strlit("textDocument/foldingRange");
    assert("textDocument/foldingRange"@.len() == 25);
    reveal_strlit("textDocument/selectionRange");
    assert("textDocument/selectionRange"@.len() == 27);
    assert("textDocument/formatting"@[13] != "textDocument/definition"@[13]);
    assert("textDocument/formatting"@[13] != "textDocument/references"@[13]);
    assert("textDocument/formatting"@[13] != "textDocument/completion"@[13]);
    assert("textDocument/definition"@[13] != "textDocument/references"@[13]);
    assert("textDocument/definition"@[13] != "textDocument/completion"@[13]);
    assert("textDocument/references"@[13] != "textDocument/completion"@[13]);
    assert("textDocument/documentSymbol"@[13] != "textDocument/selectionRange"@[13]);
}

/// Every request that is answered from a check waits for it: all that the server knows but
/// formatting, which reprints from the text.
pub proof fn law_requests_answered_from_a_check_read_it(method: Seq<char>)
    ensures
        reads_check(request_kind_of(method)) <==> ({
            ||| method == "textDocument/hover"@
            ||| method == "textDocument/definition"@
            ||| method == "textDocument/references"@
            ||| method == "textDocument/rename"@
            ||| method == "textDocument/completion"@
            ||| method == "textDocument/signatureHelp"@
            ||| method == "textDocument/documentSymbol"@
            ||| method == "textDocument/inlayHint"@
            ||| method == "textDocument/semanticTokens/full"@
            ||| method == "textDocument/foldingRange"@
            ||| method == "textDocument/selectionRange"@
        }),
{
    reveal_strlit("textDocument/formatting");
    assert("textDocument/formatting"@.len() == 23);
    reveal_strlit("textDocument/hover");
    assert("textDocument/hover"@.len() == 18);
    reveal_strlit("textDocument/definition");
    assert("textDocument/definition"@.len() == 23);
    reveal_strlit("textDocument/references");
    assert("textDocument/references"@.len() == 23);
    reveal_strlit("textDocument/rename");
    assert("textDocument/rename"@.len() == 19);
    reveal_strlit("textDocument/completion");
    assert("textDocument/completion"@.len() == 23);
    reveal_strlit("textDocument/signatureHelp");
    assert("textDocument/signatureHelp"@.len() == 26);
    reveal_strlit("textDocument/documentSymbol");
    assert("textDocument/documentSymbol"@.len() == 27);
    reveal_strlit("textDocument/inlayHint");
    assert("textDocument/inlayHint"@.len() == 22);
    reveal_strlit("textDocument/semanticTokens/full");
    assert("textDocument/semanticTokens/full"@.len() == 32);
    reveal_strlit("textDocument/foldingRange");
    assert("textDocument/foldingRange"@.len() == 25);
    reveal_strlit("textDocument/selectionRange");
    assert("textDocument/selectionRange"@.len() == 27);
    assert("textDocument/formatting"@[13] != "textDocument/definition"@[13]);
    assert("textDocument/formatting"@[13] != "textDocument/references"@[13]);
    assert("textDocument/formatting"@[13] != "textDocument/completion"@[13]);
    assert("textDocument/definition"@[13] != "textDocument/references"@[13]);
    assert("textDocument/definition"@[13] != "textDocument/completion"@[13]);
    assert("textDocument/references"@[13] != "textDocument/completion"@[13]);
    assert("textDocument/documentSymbol"@[13] != "textDocument/selectionRange"@[13]);
}

/// A notification is of a kind exactly when it has that kind's method.
pub proof fn law_a_notification_is_known_by_its_method(method: Seq<char>)
    ensures
        method == "textDocument/didOpen"@ <==> note_kind_of(method) is Opened,
        method == "textDocument/didChange"@ <==> note_kind_of(method) is Changed,
        method == "textDocument/didSave"@ <==> note_kind_of(method) is Saved,
        method == "textDocument/didClose"@ <==> note_kind_of(method) is Closed,
{
    reveal_strlit("textDocument/didOpen");
    assert("textDocument/didOpen"@.len() == 20);
    reveal_strlit("textDocument/didChange");
    assert("textDocument/didChange"@.len() == 22);
    reveal_strlit("textDocument/didSave");
    assert("textDocument/didSave"@.len() == 20);
    reveal_strlit("textDocument/didClose");
    assert("textDocument/didClose"@.len() == 21);
    assert("textDocument/didOpen"@[16] != "textDocument/didSave"@[16]);
}

} // verus!
