//! What could go where the cursor is.

use crate::analysis::{text_in, Analyzer, Checked};
use crate::docs::{can_find_doc, comments, doc_at, doc_at_fits, doc_fits, docs_above, find_doc};
use crate::position::{offset_of, LineIndex, Position};
use crate::ranges::boundary;
use crate::signatures::{signature, signature_text};
use crate::sort::{
    in_order, in_places, law_sorting_orders_and_keeps, lemma_one_more_place, sort, sorted, Ranked,
};
use crate::syntax::{
    first_type, law_a_listed_type_is_found, no_type, Decl, DefKind, DefSite, ExprId, FnSig, Span,
    Trivia,
};
use crate::text::{cut, cut_of, law_a_cut_is_a_run_of_the_text, same_text, texts};
use crate::utf::{byte_len, is_boundary, lemma_byte_len_monotone, lemma_chars_before};
use vstd::prelude::*;

verus! {

/// What a completion inserts.
#[derive(Debug, Clone, Copy, PartialEq, Eq, Structural)]
pub enum CompletionItemKind {
    Variable,
    Function,
}

/// One thing that could go where the cursor is.
#[derive(Debug)]
pub struct CompletionItem {
    pub label: String,
    pub kind: CompletionItemKind,
    pub detail: Option<String>,
    pub documentation: Option<String>,
    /// What the editor sorts by, where that is not the label.
    pub sort_text: Option<String>,
}

/// What a completion says.
#[verifier::ext_equal]
pub struct CompletionItemView {
    pub label: Seq<char>,
    pub kind: CompletionItemKind,
    pub detail: Option<Seq<char>>,
    pub documentation: Option<Seq<char>>,
    pub sort_text: Option<Seq<char>>,
}

impl View for CompletionItem {
    type V = CompletionItemView;

    open spec fn view(&self) -> CompletionItemView {
        CompletionItemView {
            label: self.label@,
            kind: self.kind,
            detail: text_in(self.detail),
            documentation: text_in(self.documentation),
            sort_text: text_in(self.sort_text),
        }
    }
}

/// What completions say.
pub open spec fn offered(items: Seq<CompletionItem>) -> Seq<CompletionItemView> {
    Seq::new(items.len(), |i: int| items[i]@)
}

/// The text of a span, if it is one of the text.
pub open spec fn slice_of(text: Seq<char>, span: Span) -> Option<Seq<char>> {
    if span.start <= span.end && is_boundary(text, span.start as int) && is_boundary(
        text,
        span.end as int,
    ) {
        Some(cut_of(text, span.start as int, span.end as int))
    } else {
        None
    }
}

/// The text of a span, if it is one of the text.
pub fn slice(text: &str, span: Span) -> (part: Option<&str>)
    ensures
        part is Some <==> slice_of(text@, span) is Some,
        part matches Some(p) ==> slice_of(text@, span) == Some(p@),
{
    if span.start <= span.end && boundary(text, span.start) && boundary(text, span.end) {
        Some(cut(text, span.start, span.end))
    } else {
        None
    }
}

/// A binding that is in scope.
#[derive(Debug)]
pub struct Local {
    pub name: String,
    /// Its type, spelled out.
    pub ty: String,
    pub kind: DefKind,
    /// Where it was bound.
    pub start: usize,
}

/// What a binding says: its name, its type, what it is and where it was bound.
pub struct LocalView {
    pub name: Seq<char>,
    pub ty: Seq<char>,
    pub kind: DefKind,
    pub start: usize,
}

impl View for Local {
    type V = LocalView;

    open spec fn view(&self) -> LocalView {
        LocalView { name: self.name@, ty: self.ty@, kind: self.kind, start: self.start }
    }
}

/// What bindings say.
pub open spec fn bound(locals: Seq<Local>) -> Seq<LocalView> {
    Seq::new(locals.len(), |i: int| locals[i]@)
}

/// The first declaration around an offset.
pub open spec fn enclosing(decls: Seq<Decl>, offset: int) -> Option<Span>
    decreases decls.len(),
{
    if decls.len() == 0 {
        None
    } else if decls[0].span.holds(offset) {
        Some(decls[0].span)
    } else {
        enclosing(decls.drop_first(), offset)
    }
}

/// The binding that a resolved name stands for, if it is in scope: bound inside `around`, and
/// before the offset. A binding's span is exactly its name, so the text is where the name is.
pub open spec fn local_of(
    checked: Checked,
    text: Seq<char>,
    around: Span,
    offset: int,
    def: (ExprId, DefSite),
) -> Option<LocalView> {
    let (id, site) = def;
    if site.kind == DefKind::Fn || !around.holds(site.span.start as int) || site.span.start
        > offset {
        None
    } else {
        match (checked.result.type_of(id), slice_of(text, site.span)) {
            (Some(ty), Some(name)) => Some(
                LocalView { name, ty: ty.text@, kind: site.kind, start: site.span.start },
            ),
            _ => None,
        }
    }
}

/// Whether a name is among some bindings.
pub open spec fn is_named(locals: Seq<LocalView>, name: Seq<char>) -> bool {
    exists|i: int| 0 <= i < locals.len() && (#[trigger] locals[i]).name == name
}

/// A resolved name whose binding is in scope: where it was bound, and which of the resolved names
/// it is.
#[derive(Debug, Clone, Copy, PartialEq, Eq, Structural)]
pub struct Candidate {
    pub start: usize,
    pub def: usize,
}

impl Ranked for Candidate {
    /// The innermost binding is the one bound last before the cursor.
    open spec fn at_most(self, other: Self) -> bool {
        self.start >= other.start
    }

    fn ranks_at_most(&self, other: &Self) -> (yes: bool) {
        self.start >= other.start
    }

    proof fn order_laws(a: Self, b: Self, c: Self) {
    }
}

/// The resolved names whose bindings are in scope.
pub open spec fn candidates(
    checked: Checked,
    text: Seq<char>,
    around: Span,
    offset: int,
    defs: Seq<(ExprId, DefSite)>,
) -> Seq<Candidate>
    decreases defs.len(),
{
    if defs.len() == 0 {
        Seq::empty()
    } else {
        let found = candidates(checked, text, around, offset, defs.drop_last());
        match local_of(checked, text, around, offset, defs.last()) {
            Some(local) => found.push(
                Candidate { start: local.start, def: (defs.len() - 1) as usize },
            ),
            None => found,
        }
    }
}

/// The binding of a candidate.
pub open spec fn candidate_local(
    checked: Checked,
    text: Seq<char>,
    around: Span,
    offset: int,
    candidate: Candidate,
) -> Option<LocalView> {
    local_of(checked, text, around, offset, checked.result.defs@[candidate.def as int])
}

/// The bindings of some candidates, each name once: of several that share a name, the first.
pub open spec fn locals_of(
    checked: Checked,
    text: Seq<char>,
    around: Span,
    offset: int,
    listed: Seq<Candidate>,
) -> Seq<LocalView>
    decreases listed.len(),
{
    if listed.len() == 0 {
        Seq::empty()
    } else {
        let found = locals_of(checked, text, around, offset, listed.drop_last());
        match candidate_local(checked, text, around, offset, listed.last()) {
            Some(local) => if is_named(found, local.name) {
                found
            } else {
                found.push(local)
            },
            None => found,
        }
    }
}

/// The bindings in scope at an offset, the innermost first.
pub open spec fn scope(checked: Checked, text: Seq<char>, offset: int) -> Seq<LocalView> {
    match enclosing(checked.module.decls@, offset) {
        Some(around) => locals_of(
            checked,
            text,
            around,
            offset,
            sorted(candidates(checked, text, around, offset, checked.result.defs@)),
        ),
        None => Seq::empty(),
    }
}

fn enclosing_decl(decls: &[Decl], offset: usize) -> (around: Option<Span>)
    ensures
        around == enclosing(decls@, offset as int),
{
    let n: usize = decls.len();
    let mut i: usize = 0;
    proof {
        assert(decls@.skip(0) =~= decls@);
    }
    while i < n
        invariant
            n == decls@.len(),
            i <= n,
            enclosing(decls@, offset as int) == enclosing(decls@.skip(i as int), offset as int),
        decreases n - i,
    {
        proof {
            assert(decls@.skip(i as int).drop_first() =~= decls@.skip(i + 1));
        }
        if decls[i].span.contains(offset) {
            return Some(decls[i].span);
        }
        i = i + 1;
    }
    None
}

fn already(locals: &[Local], name: &str) -> (yes: bool)
    ensures
        yes == is_named(bound(locals@), name@),
{
    let n: usize = locals.len();
    let mut i: usize = 0;
    while i < n
        invariant
            n == locals@.len(),
            i <= n,
            forall|j: int| 0 <= j < i ==> (#[trigger] bound(locals@)[j]).name != name@,
        decreases n - i,
    {
        if same_text(locals[i].name.as_str(), name) {
            proof {
                assert(bound(locals@)[i as int].name == name@);
            }
            return true;
        }
        i = i + 1;
    }
    false
}

/// The binding that a resolved name stands for, if it is in scope.
fn local(checked: &Checked, text: &str, around: Span, offset: usize, def: usize) -> (local: Option<
    Local,
>)
    requires
        def < checked.result.defs@.len(),
    ensures
        ({
            let want = local_of(
                *checked,
                text@,
                around,
                offset as int,
                checked.result.defs@[def as int],
            );
            &&& local is Some <==> want is Some
            &&& local matches Some(l) ==> want == Some(l@)
        }),
{
    let id: ExprId = checked.result.defs[def].0;
    let site: &DefSite = &checked.result.defs[def].1;
    if site.kind == DefKind::Fn || !around.contains(site.span.start) || site.span.start > offset {
        return None;
    }
    match (checked.result.ty(id), slice(text, site.span)) {
        (Some(ty), Some(name)) => Some(
            Local {
                name: name.to_owned(),
                ty: ty.text.clone(),
                kind: site.kind,
                start: site.span.start,
            },
        ),
        _ => None,
    }
}

/// The resolved names whose bindings are in scope.
fn in_scope(checked: &Checked, text: &str, around: Span, offset: usize) -> (found: Vec<Candidate>)
    ensures
        found@ == candidates(*checked, text@, around, offset as int, checked.result.defs@),
{
    let ghost defs = checked.result.defs@;
    let mut found: Vec<Candidate> = Vec::new();
    let n: usize = checked.result.defs.len();
    let mut i: usize = 0;
    while i < n
        invariant
            defs == checked.result.defs@,
            n == defs.len(),
            i <= n,
            found@ == candidates(*checked, text@, around, offset as int, defs.take(i as int)),
        decreases n - i,
    {
        proof {
            assert(defs.take(i + 1).drop_last() =~= defs.take(i as int));
        }
        if let Some(l) = local(checked, text, around, offset, i) {
            found.push(Candidate { start: l.start, def: i });
        }
        i = i + 1;
    }
    proof {
        assert(defs.take(n as int) =~= defs);
    }
    found
}

/// The locals visible at `offset`, innermost binding first.
///
/// Scope is approximated by span containment: a binding is in scope at a point if the
/// declaration that binds it contains that point and the binding comes before it. It does not
/// model a block ending, so it can offer a name from a sibling block that has closed. Erring
/// this way is deliberate: an extra candidate costs a keystroke, and a missing one costs the
/// feature.
pub fn locals_in_scope(checked: &Checked, text: &str, offset: usize) -> (locals: Vec<Local>)
    ensures
        bound(locals@) == scope(*checked, text@, offset as int),
{
    let mut locals: Vec<Local> = Vec::new();
    proof {
        assert(bound(locals@) =~= Seq::<LocalView>::empty());
    }
    let around: Span = match enclosing_decl(&checked.module.decls, offset) {
        Some(span) => span,
        None => {
            return locals;
        },
    };
    let mut listed: Vec<Candidate> = in_scope(checked, text, around, offset);
    sort(&mut listed);
    let ghost all = listed@;
    proof {
        lemma_listed(*checked, text@, around, offset as int);
    }
    let n: usize = listed.len();
    let mut i: usize = 0;
    while i < n
        invariant
            all == listed@,
            n == all.len(),
            i <= n,
            forall|k: int|
                0 <= k < all.len() ==> (#[trigger] all[k]).def < checked.result.defs@.len(),
            bound(locals@) == locals_of(
                *checked,
                text@,
                around,
                offset as int,
                all.take(i as int),
            ),
        decreases n - i,
    {
        proof {
            assert(all.take(i + 1).drop_last() =~= all.take(i as int));
            assert(all.take(i + 1).last() == all[i as int]);
        }
        if let Some(l) = local(checked, text, around, offset, listed[i].def) {
            if !already(&locals, l.name.as_str()) {
                let ghost before = locals@;
                locals.push(l);
                proof {
                    assert(bound(locals@) =~= bound(before).push(locals@.last()@));
                }
            }
        }
        i = i + 1;
    }
    proof {
        assert(all.take(n as int) =~= all);
    }
    locals
}

/// A binding as a completion.
pub open spec fn local_item(local: LocalView) -> CompletionItemView {
    CompletionItemView {
        label: local.name,
        kind: CompletionItemKind::Variable,
        detail: Some(local.ty),
        documentation: None,
        sort_text: None,
    }
}

/// A function's documentation, where it can be looked for. A check outlives the text it was made
/// of, and its spans may no longer be ones of the text as it is now: an item without its
/// documentation is worth more than no list.
pub open spec fn fn_doc(
    checked: Checked,
    analyzer: Analyzer,
    text: Seq<char>,
    lexed: Option<Seq<Trivia>>,
    sig: FnSig,
) -> Option<Seq<char>> {
    if doc_at_fits(checked, analyzer, text, lexed, texts(sig.module@), sig.span) {
        doc_at(checked, analyzer, text, lexed, texts(sig.module@), sig.span)
    } else {
        None
    }
}

/// A function as a completion. Qualified names sort after bare ones, so that the prelude, which
/// is what people mean most of the time, is not buried.
pub open spec fn fn_item(
    checked: Checked,
    analyzer: Analyzer,
    text: Seq<char>,
    lexed: Option<Seq<Trivia>>,
    sig: FnSig,
) -> CompletionItemView {
    CompletionItemView {
        label: sig.name@,
        kind: CompletionItemKind::Function,
        detail: Some(signature_text(sig)),
        documentation: fn_doc(checked, analyzer, text, lexed, sig),
        sort_text: Some(
            (if sig.module@.len() == 0 {
                "0"@
            } else {
                "1"@
            }) + sig.name@,
        ),
    }
}

/// Functions as completions. A protocol's required method has no body and is not callable by
/// that name.
pub open spec fn fn_items(
    checked: Checked,
    analyzer: Analyzer,
    text: Seq<char>,
    lexed: Option<Seq<Trivia>>,
    fns: Seq<FnSig>,
) -> Seq<CompletionItemView>
    decreases fns.len(),
{
    if fns.len() == 0 {
        Seq::empty()
    } else if fns.last().has_body {
        fn_items(checked, analyzer, text, lexed, fns.drop_last()).push(
            fn_item(checked, analyzer, text, lexed, fns.last()),
        )
    } else {
        fn_items(checked, analyzer, text, lexed, fns.drop_last())
    }
}

/// Everything that could go at an offset: the bindings in scope, then the functions. An editor
/// keeps the order it is given for items of equal score.
pub open spec fn completions_of(
    checked: Checked,
    analyzer: Analyzer,
    text: Seq<char>,
    lexed: Option<Seq<Trivia>>,
    offset: int,
) -> Seq<CompletionItemView> {
    let locals = scope(checked, text, offset);
    Seq::new(locals.len(), |i: int| local_item(locals[i])) + fn_items(
        checked,
        analyzer,
        text,
        lexed,
        checked.env.fns@,
    )
}

/// What could go where the cursor is.
///
/// The functions of the compiler's own table, with the signature as the detail and the
/// documentation where it is to be had; and before them the bindings whose scope the cursor is
/// inside. The table is offered as it is: which names resolve is for the compiler to say. `lexed`
/// is the document's comments, if it lexes.
pub fn completions(
    analyzer: &Analyzer,
    checked: &Checked,
    index: &LineIndex,
    lexed: &Option<Vec<Trivia>>,
    pos: Position,
) -> (items: Vec<CompletionItem>)
    ensures
        offered(items@) == completions_of(
            *checked,
            *analyzer,
            index@,
            comments(*lexed),
            offset_of(index@, pos) as int,
        ),
{
    let offset: usize = index.offset(pos);
    let ghost found = scope(*checked, index@, offset as int);
    let ghost first = Seq::new(found.len(), |i: int| local_item(found[i]));
    let mut items: Vec<CompletionItem> = Vec::new();
    let locals: Vec<Local> = locals_in_scope(checked, index.text(), offset);
    let ghost given = locals@;
    for local in it: locals
        invariant
            it.seq() == given,
            bound(given) == found,
            first == Seq::new(found.len(), |i: int| local_item(found[i])),
            offered(items@) =~= first.take(it.index() as int),
    {
        let ghost before = items@;
        let ghost view = local@;
        proof {
            assert(bound(given)[it.index() as int] == view);
        }
        items.push(
            CompletionItem {
                label: local.name,
                kind: CompletionItemKind::Variable,
                detail: Some(local.ty),
                documentation: None,
                sort_text: None,
            },
        );
        proof {
            assert(items@.last()@ =~= local_item(view));
            assert(offered(items@) =~= offered(before).push(items@.last()@));
        }
    }
    let ghost fns = checked.env.fns@;
    let ghost set_aside = comments(*lexed);
    let n: usize = checked.env.fns.len();
    let mut i: usize = 0;
    proof {
        assert(first.take(first.len() as int) =~= first);
        assert(first + fn_items(*checked, *analyzer, index@, set_aside, fns.take(0)) =~= first);
    }
    while i < n
        invariant
            fns == checked.env.fns@,
            n == fns.len(),
            i <= n,
            set_aside == comments(*lexed),
            offered(items@) == first + fn_items(
                *checked,
                *analyzer,
                index@,
                set_aside,
                fns.take(i as int),
            ),
        decreases n - i,
    {
        proof {
            assert(fns.take(i + 1).drop_last() =~= fns.take(i as int));
        }
        let sig: &FnSig = &checked.env.fns[i];
        if sig.has_body {
            let ghost before = items@;
            let item: CompletionItem = function_item(analyzer, checked, index, lexed, sig);
            items.push(item);
            proof {
                assert(offered(items@) =~= offered(before).push(item@));
                assert(offered(items@) =~= first + fn_items(
                    *checked,
                    *analyzer,
                    index@,
                    set_aside,
                    fns.take(i + 1),
                ));
            }
        }
        i = i + 1;
    }
    proof {
        assert(fns.take(n as int) =~= fns);
    }
    items
}

/// A function as a completion.
fn function_item(
    analyzer: &Analyzer,
    checked: &Checked,
    index: &LineIndex,
    lexed: &Option<Vec<Trivia>>,
    sig: &FnSig,
) -> (item: CompletionItem)
    ensures
        item@ == fn_item(*checked, *analyzer, index@, comments(*lexed), *sig),
{
    let documentation: Option<String> = if can_find_doc(
        analyzer,
        checked,
        index,
        lexed,
        &sig.module,
        sig.span,
    ) {
        find_doc(analyzer, checked, index, lexed, &sig.module, sig.span)
    } else {
        None
    };
    let mut sort_text: String = if sig.module.len() == 0 {
        "0".to_owned()
    } else {
        "1".to_owned()
    };
    sort_text.append(sig.name.as_str());
    CompletionItem {
        label: sig.name.clone(),
        kind: CompletionItemKind::Function,
        detail: Some(signature(sig)),
        documentation,
        sort_text: Some(sort_text),
    }
}

/// What the candidates are.
proof fn lemma_candidates(
    checked: Checked,
    text: Seq<char>,
    around: Span,
    offset: int,
    defs: Seq<(ExprId, DefSite)>,
)
    requires
        defs.len() <= usize::MAX,
    ensures
        ({
            let found = candidates(checked, text, around, offset, defs);
            &&& forall|k: int|
                0 <= k < found.len() ==> {
                    let c = #[trigger] found[k];
                    &&& c.def < defs.len()
                    &&& local_of(checked, text, around, offset, defs[c.def as int]) matches Some(
                        local,
                    ) && local.start == c.start
                }
            &&& forall|d: int|
                0 <= d < defs.len() && local_of(
                    checked,
                    text,
                    around,
                    offset,
                    #[trigger] defs[d],
                ) is Some ==> found.contains(
                    Candidate { start: defs[d].1.span.start, def: d as usize },
                )
        }),
    decreases defs.len(),
{
    if defs.len() > 0 {
        let init = defs.drop_last();
        let before = candidates(checked, text, around, offset, init);
        let found = candidates(checked, text, around, offset, defs);
        lemma_candidates(checked, text, around, offset, init);
        assert forall|k: int| 0 <= k < found.len() implies {
            let c = #[trigger] found[k];
            &&& c.def < defs.len()
            &&& local_of(checked, text, around, offset, defs[c.def as int]) matches Some(local)
                && local.start == c.start
        } by {
            if k < before.len() {
                assert(found[k] == before[k]);
                assert(init[before[k].def as int] == defs[before[k].def as int]);
            }
        }
        assert forall|d: int|
            0 <= d < defs.len() && local_of(checked, text, around, offset, #[trigger] defs[d])
                is Some implies found.contains(
            Candidate { start: defs[d].1.span.start, def: d as usize },
        ) by {
            let c = Candidate { start: defs[d].1.span.start, def: d as usize };
            if d < init.len() {
                assert(init[d] == defs[d]);
                let k = choose|k: int| 0 <= k < before.len() && before[k] == c;
                assert(found[k] == c);
            } else {
                assert(found[found.len() - 1] == c);
            }
        }
    }
}

/// What the candidates are, once in order.
proof fn lemma_listed(checked: Checked, text: Seq<char>, around: Span, offset: int)
    ensures
        ({
            let defs = checked.result.defs@;
            let listed = sorted(candidates(checked, text, around, offset, defs));
            &&& in_order(listed)
            &&& forall|k: int|
                0 <= k < listed.len() ==> {
                    let c = #[trigger] listed[k];
                    &&& c.def < defs.len()
                    &&& local_of(checked, text, around, offset, defs[c.def as int]) matches Some(
                        local,
                    ) && local.start == c.start
                }
            &&& forall|d: int|
                0 <= d < defs.len() && local_of(
                    checked,
                    text,
                    around,
                    offset,
                    #[trigger] defs[d],
                ) is Some ==> listed.contains(
                    Candidate { start: defs[d].1.span.start, def: d as usize },
                )
        }),
{
    let defs = checked.result.defs@;
    assert(checked.result.defs.len() == defs.len());
    let found = candidates(checked, text, around, offset, defs);
    let listed = sorted(found);
    lemma_candidates(checked, text, around, offset, defs);
    law_sorting_orders_and_keeps(found);
    assert forall|k: int| 0 <= k < listed.len() implies {
        let c = #[trigger] listed[k];
        &&& c.def < defs.len()
        &&& local_of(checked, text, around, offset, defs[c.def as int]) matches Some(local)
            && local.start == c.start
    } by {
        assert(listed.contains(listed[k]));
        assert(found.contains(listed[k]));
        let j = choose|j: int| 0 <= j < found.len() && found[j] == listed[k];
        assert(found[j] == listed[k]);
    }
    assert forall|d: int|
        0 <= d < defs.len() && local_of(checked, text, around, offset, #[trigger] defs[d])
            is Some implies listed.contains(
        Candidate { start: defs[d].1.span.start, def: d as usize },
    ) by {
        assert(found.contains(Candidate { start: defs[d].1.span.start, def: d as usize }));
    }
}

/// Whether a name is among some bindings, bound no earlier than `start`.
pub open spec fn is_bound_after(locals: Seq<LocalView>, name: Seq<char>, start: usize) -> bool {
    exists|i: int|
        0 <= i < locals.len() && (#[trigger] locals[i]).name == name && locals[i].start >= start
}

/// Whether every candidate is in scope and says where it was bound.
spec fn all_bound(
    checked: Checked,
    text: Seq<char>,
    around: Span,
    offset: int,
    listed: Seq<Candidate>,
) -> bool {
    forall|k: int|
        0 <= k < listed.len() ==> (candidate_local(
            checked,
            text,
            around,
            offset,
            #[trigger] listed[k],
        ) matches Some(local) && local.start == listed[k].start)
}

/// The bindings of some candidates are bindings of theirs.
proof fn lemma_locals_are_listed(
    checked: Checked,
    text: Seq<char>,
    around: Span,
    offset: int,
    listed: Seq<Candidate>,
)
    ensures
        forall|i: int|
            0 <= i < locals_of(checked, text, around, offset, listed).len() ==> exists|k: int|
                0 <= k < listed.len() && candidate_local(
                    checked,
                    text,
                    around,
                    offset,
                    #[trigger] listed[k],
                ) == Some(#[trigger] locals_of(checked, text, around, offset, listed)[i]),
    decreases listed.len(),
{
    if listed.len() > 0 {
        let init = listed.drop_last();
        let before = locals_of(checked, text, around, offset, init);
        let locals = locals_of(checked, text, around, offset, listed);
        lemma_locals_are_listed(checked, text, around, offset, init);
        assert forall|i: int| 0 <= i < locals.len() implies exists|k: int|
            0 <= k < listed.len() && candidate_local(
                checked,
                text,
                around,
                offset,
                #[trigger] listed[k],
            ) == Some(#[trigger] locals[i]) by {
            if i < before.len() {
                assert(locals[i] == before[i]);
                let k = choose|k: int|
                    0 <= k < init.len() && candidate_local(
                        checked,
                        text,
                        around,
                        offset,
                        #[trigger] init[k],
                    ) == Some(before[i]);
                assert(init[k] == listed[k]);
            } else {
                assert(listed[listed.len() - 1] == listed.last());
            }
        }
    }
}

/// The bindings of candidates that are in order, without the last of them: all of them were
/// bound no earlier than it.
proof fn lemma_locals_before(
    checked: Checked,
    text: Seq<char>,
    around: Span,
    offset: int,
    listed: Seq<Candidate>,
)
    requires
        listed.len() > 0,
        in_order(listed),
        all_bound(checked, text, around, offset, listed),
    ensures
        ({
            let init = listed.drop_last();
            let before = locals_of(checked, text, around, offset, init);
            let locals = locals_of(checked, text, around, offset, listed);
            let added = candidate_local(checked, text, around, offset, listed.last())->0;
            &&& in_order(init)
            &&& all_bound(checked, text, around, offset, init)
            &&& candidate_local(checked, text, around, offset, listed.last()) == Some(added)
            &&& locals == (if is_named(before, added.name) {
                before
            } else {
                before.push(added)
            })
            &&& forall|i: int| 0 <= i < before.len() ==> (#[trigger] before[i]).start >= added.start
        }),
{
    let init = listed.drop_last();
    let before = locals_of(checked, text, around, offset, init);
    let added = candidate_local(checked, text, around, offset, listed.last())->0;
    assert(listed[listed.len() - 1] == listed.last());
    assert forall|k: int| 0 <= k < init.len() implies #[trigger] init[k] == listed[k] by {}
    lemma_locals_are_listed(checked, text, around, offset, init);
    assert forall|i: int| 0 <= i < before.len() implies (#[trigger] before[i]).start
        >= added.start by {
        let k = choose|k: int|
            0 <= k < init.len() && candidate_local(
                checked,
                text,
                around,
                offset,
                #[trigger] init[k],
            ) == Some(before[i]);
        assert(init[k] == listed[k]);
        assert(listed[k].at_most(listed[listed.len() - 1]));
    }
}

/// The bindings of candidates that are in order are in order too, no name twice.
proof fn lemma_locals_in_order(
    checked: Checked,
    text: Seq<char>,
    around: Span,
    offset: int,
    listed: Seq<Candidate>,
)
    requires
        in_order(listed),
        all_bound(checked, text, around, offset, listed),
    ensures
        ({
            let locals = locals_of(checked, text, around, offset, listed);
            forall|i: int, j: int|
                0 <= i < j < locals.len() ==> (#[trigger] locals[i]).name != (
                #[trigger] locals[j]).name && locals[i].start >= locals[j].start
        }),
    decreases listed.len(),
{
    if listed.len() > 0 {
        lemma_locals_before(checked, text, around, offset, listed);
        lemma_locals_in_order(checked, text, around, offset, listed.drop_last());
    }
}

/// Every candidate's name is among the bindings of candidates that are in order, bound no
/// earlier than the candidate was.
proof fn lemma_locals_cover(
    checked: Checked,
    text: Seq<char>,
    around: Span,
    offset: int,
    listed: Seq<Candidate>,
    k: int,
)
    requires
        in_order(listed),
        all_bound(checked, text, around, offset, listed),
        0 <= k < listed.len(),
    ensures
        candidate_local(checked, text, around, offset, listed[k]) matches Some(local)
            && is_bound_after(
            locals_of(checked, text, around, offset, listed),
            local.name,
            local.start,
        ),
    decreases listed.len(),
{
    let init = listed.drop_last();
    let before = locals_of(checked, text, around, offset, init);
    let locals = locals_of(checked, text, around, offset, listed);
    let local = candidate_local(checked, text, around, offset, listed[k])->0;
    lemma_locals_before(checked, text, around, offset, listed);
    if k < init.len() {
        assert(init[k] == listed[k]);
        lemma_locals_cover(checked, text, around, offset, init, k);
        let i = choose|i: int|
            0 <= i < before.len() && (#[trigger] before[i]).name == local.name
                && before[i].start >= local.start;
        assert(locals[i] == before[i]);
    } else if is_named(before, local.name) {
        let i = choose|i: int| 0 <= i < before.len() && (#[trigger] before[i]).name == local.name;
        assert(locals[i] == before[i]);
    } else {
        assert(locals[before.len() as int] == local);
    }
}

/// The bindings are listed innermost first, by where they were bound, and no name twice. Each
/// one listed is bound inside the declaration around the cursor and before it. Every such
/// binding that the checker typed is listed by name, and of several that share a name the one
/// listed is the one bound last.
pub proof fn law_locals_are_listed_innermost_first(
    checked: Checked,
    text: Seq<char>,
    around: Span,
    offset: int,
)
    requires
        enclosing(checked.module.decls@, offset) == Some(around),
    ensures
        ({
            let locals = scope(checked, text, offset);
            let defs = checked.result.defs@;
            &&& forall|i: int, j: int|
                0 <= i < j < locals.len() ==> (#[trigger] locals[i]).name != (
                #[trigger] locals[j]).name && locals[i].start >= locals[j].start
            &&& forall|i: int|
                0 <= i < locals.len() ==> exists|d: int|
                    0 <= d < defs.len() && local_of(
                        checked,
                        text,
                        around,
                        offset,
                        #[trigger] defs[d],
                    ) == Some(#[trigger] locals[i]) && around.holds(
                        defs[d].1.span.start as int,
                    ) && defs[d].1.span.start <= offset
            &&& forall|d: int|
                0 <= d < defs.len() ==> (local_of(
                    checked,
                    text,
                    around,
                    offset,
                    #[trigger] defs[d],
                ) matches Some(local) ==> is_bound_after(locals, local.name, local.start))
        }),
{
    let locals = scope(checked, text, offset);
    let defs = checked.result.defs@;
    let listed = sorted(candidates(checked, text, around, offset, defs));
    lemma_listed(checked, text, around, offset);
    assert(all_bound(checked, text, around, offset, listed));
    lemma_locals_in_order(checked, text, around, offset, listed);
    lemma_locals_are_listed(checked, text, around, offset, listed);
    assert forall|i: int| 0 <= i < locals.len() implies exists|d: int|
        0 <= d < defs.len() && local_of(checked, text, around, offset, #[trigger] defs[d]) == Some(
            #[trigger] locals[i],
        ) && around.holds(defs[d].1.span.start as int) && defs[d].1.span.start <= offset by {
        let k = choose|k: int|
            0 <= k < listed.len() && candidate_local(
                checked,
                text,
                around,
                offset,
                #[trigger] listed[k],
            ) == Some(locals[i]);
        let d = listed[k].def as int;
        assert(around.holds(defs[d].1.span.start as int));
    }
    assert forall|d: int| 0 <= d < defs.len() implies (local_of(
        checked,
        text,
        around,
        offset,
        #[trigger] defs[d],
    ) matches Some(local) ==> is_bound_after(locals, local.name, local.start)) by {
        if local_of(checked, text, around, offset, defs[d]) is Some {
            let c = Candidate { start: defs[d].1.span.start, def: d as usize };
            assert(listed.contains(c));
            let k = choose|k: int| 0 <= k < listed.len() && listed[k] == c;
            assert(checked.result.defs.len() == defs.len());
            assert(listed[k].def as int == d);
            lemma_locals_cover(checked, text, around, offset, listed, k);
        }
    }
}

/// The declaration around a place is the first whose span holds it, whatever it declares.
pub proof fn law_the_first_declaration_around_a_place(decls: Seq<Decl>, offset: int, i: int)
    ensures
        0 <= i < decls.len() && decls[i].span.start <= offset && offset < decls[i].span.end && (
        forall|j: int|
            0 <= j < i ==> !((#[trigger] decls[j]).span.start <= offset && offset
                < decls[j].span.end)) ==> enclosing(decls, offset) == Some(decls[i].span),
        (forall|j: int|
            0 <= j < decls.len() ==> !((#[trigger] decls[j]).span.start <= offset && offset
                < decls[j].span.end)) ==> enclosing(decls, offset) is None,
    decreases decls.len(),
{
    if decls.len() > 0 {
        let rest = decls.drop_first();
        law_the_first_declaration_around_a_place(rest, offset, i - 1);
        assert forall|j: int| 0 <= j < rest.len() implies #[trigger] rest[j] == decls[j + 1] by {}
        if 0 < i < decls.len() && forall|j: int|
            0 <= j < i ==> !((#[trigger] decls[j]).span.start <= offset && offset
                < decls[j].span.end) {
            assert(!(decls[0].span.start <= offset && offset < decls[0].span.end));
            assert forall|j: int| 0 <= j < i - 1 implies !((#[trigger] rest[j]).span.start
                <= offset && offset < rest[j].span.end) by {
                assert(rest[j] == decls[j + 1]);
            }
        }
        if forall|j: int|
            0 <= j < decls.len() ==> !((#[trigger] decls[j]).span.start <= offset && offset
                < decls[j].span.end) {
            assert(!(decls[0].span.start <= offset && offset < decls[0].span.end));
            assert forall|j: int| 0 <= j < rest.len() implies !((#[trigger] rest[j]).span.start
                <= offset && offset < rest[j].span.end) by {
                assert(rest[j] == decls[j + 1]);
            }
        }
    }
}

/// A binding is in scope exactly when it is no function, it starts inside the declaration around
/// the cursor and not after the cursor, the name that was resolved to it was given a type, and
/// its span is one of the text. It is then called what the text says there, from the `j`-th
/// character to the `k`-th, and has that type.
pub proof fn law_what_is_in_scope(
    checked: Checked,
    text: Seq<char>,
    around: Span,
    offset: int,
    def: (ExprId, DefSite),
    t: int,
    j: int,
    k: int,
)
    ensures
        ({
            let span = def.1.span;
            let bound = local_of(checked, text, around, offset, def);
            let reachable = def.1.kind != DefKind::Fn && around.start <= span.start && span.start
                < around.end && span.start <= offset;
            &&& !reachable || no_type(checked.result.types@, def.0) ==> bound is None
            &&& span.start > span.end || !is_boundary(text, span.start as int) || !is_boundary(
                text,
                span.end as int,
            ) ==> bound is None
            &&& reachable && first_type(checked.result.types@, def.0, t) && 0 <= j <= k
                <= text.len() && span.start == byte_len(text.take(j)) && span.end == byte_len(
                text.take(k),
            ) ==> bound == Some(
                LocalView {
                    name: text.subrange(j, k),
                    ty: checked.result.types@[t].1.text@,
                    kind: def.1.kind,
                    start: span.start,
                },
            )
        }),
{
    law_a_listed_type_is_found(checked.result, def.0);
    if 0 <= j <= k <= text.len() {
        law_a_cut_is_a_run_of_the_text(text, j, k);
        lemma_chars_before(text, j);
        lemma_chars_before(text, k);
        lemma_byte_len_monotone(text, j, k);
    }
}

proof fn lemma_fn_places(
    checked: Checked,
    analyzer: Analyzer,
    text: Seq<char>,
    lexed: Option<Seq<Trivia>>,
    fns: Seq<FnSig>,
    n: int,
) -> (at: Seq<int>)
    requires
        0 <= n <= fns.len(),
    ensures
        in_places(at, n),
        fn_items(checked, analyzer, text, lexed, fns.take(n)).len() == at.len(),
        forall|k: int|
            0 <= k < at.len() ==> fn_items(checked, analyzer, text, lexed, fns.take(n))[k]
                == fn_item(checked, analyzer, text, lexed, fns[#[trigger] at[k]]),
        forall|i: int| 0 <= i < n ==> (#[trigger] at.contains(i) <==> fns[i].has_body),
    decreases n,
{
    if n == 0 {
        Seq::empty()
    } else {
        let before = lemma_fn_places(checked, analyzer, text, lexed, fns, n - 1);
        assert(fns.take(n).drop_last() =~= fns.take(n - 1));
        assert(fns.take(n).last() == fns[n - 1]);
        lemma_one_more_place(before, n - 1);
        if fns[n - 1].has_body {
            let at = before.push(n - 1);
            let list = fn_items(checked, analyzer, text, lexed, fns.take(n));
            assert forall|k: int| 0 <= k < at.len() implies list[k] == fn_item(
                checked,
                analyzer,
                text,
                lexed,
                fns[#[trigger] at[k]],
            ) by {
                if k < before.len() {
                    assert(at[k] == before[k]);
                }
            }
            at
        } else {
            before
        }
    }
}

/// Whether a completion offers a binding.
pub open spec fn offers_local(item: CompletionItem, local: LocalView) -> bool {
    &&& item.label@ == local.name
    &&& item.kind == CompletionItemKind::Variable
    &&& item.detail matches Some(ty) && ty@ == local.ty
    &&& item.documentation is None
    &&& item.sort_text is None
}

/// Whether a completion offers a function: under its name, with its whole signature, and sorted
/// after the bare names where it is in a module.
pub open spec fn offers_fn(item: CompletionItem, sig: FnSig) -> bool {
    &&& item.label@ == sig.name@
    &&& item.kind == CompletionItemKind::Function
    &&& item.detail matches Some(detail) && detail@ == signature_text(sig)
    &&& item.sort_text matches Some(key) && key@ == (if sig.module@.len() == 0 {
        "0"@
    } else {
        "1"@
    }) + sig.name@
}

/// Every binding in scope is offered, in the order of the scope; after them every function of the
/// compilation that has a body is, generic or not and in whichever module, once for each entry of
/// the table and in its order; and nothing else is. `at` lists which functions. Each has its
/// documentation where that can be looked for.
pub proof fn law_every_function_with_a_body_is_offered(
    checked: Checked,
    analyzer: Analyzer,
    text: Seq<char>,
    lexed: Option<Vec<Trivia>>,
    offset: int,
    items: Seq<CompletionItem>,
) -> (at: Seq<int>)
    requires
        offered(items) == completions_of(checked, analyzer, text, comments(lexed), offset),
    ensures
        ({
            let n = scope(checked, text, offset).len() as int;
            let fns = checked.env.fns@;
            &&& in_places(at, fns.len() as int)
            &&& forall|i: int|
                0 <= i < fns.len() ==> (#[trigger] at.contains(i) <==> fns[i].has_body)
            &&& items.len() == n + at.len()
            &&& forall|i: int|
                0 <= i < n ==> offers_local(#[trigger] items[i], scope(checked, text, offset)[i])
            &&& forall|k: int|
                0 <= k < at.len() ==> offers_fn(items[n + k], fns[#[trigger] at[k]])
            &&& forall|k: int|
                0 <= k < at.len() ==> {
                    let sig = fns[#[trigger] at[k]];
                    let module = texts(sig.module@);
                    text_in(items[n + k].documentation) == (match checked.holder(analyzer, module) {
                        Some(src) => if doc_fits(src.index@, src.trivia@, sig.span.start as int) {
                            docs_above(src.index@, src.trivia@, sig.span.start as int)
                        } else {
                            None
                        },
                        None => match lexed {
                            Some(trivia) => if doc_fits(text, trivia@, sig.span.start as int) {
                                docs_above(text, trivia@, sig.span.start as int)
                            } else {
                                None
                            },
                            None => None,
                        },
                    })
                }
        }),
{
    let fns = checked.env.fns@;
    let locals = scope(checked, text, offset);
    let n = locals.len() as int;
    let at = lemma_fn_places(checked, analyzer, text, comments(lexed), fns, fns.len() as int);
    assert(fns.take(fns.len() as int) =~= fns);
    let views = offered(items);
    assert(views.len() == items.len());
    assert forall|i: int| 0 <= i < n implies offers_local(#[trigger] items[i], locals[i]) by {
        assert(views[i] == items[i]@);
        assert(views[i] == local_item(locals[i]));
    }
    let listed = fn_items(checked, analyzer, text, comments(lexed), fns);
    assert forall|k: int| 0 <= k < at.len() implies views[n + k] == #[trigger] listed[k]
        && views[n + k] == items[n + k]@ by {}
    assert forall|k: int| 0 <= k < at.len() implies offers_fn(items[n + k], fns[#[trigger] at[k]])
        && text_in(items[n + k].documentation) == fn_doc(
        checked,
        analyzer,
        text,
        comments(lexed),
        fns[at[k]],
    ) by {
        assert(views[n + k] == listed[k]);
        assert(listed[k] == fn_item(checked, analyzer, text, comments(lexed), fns[at[k]]));
    }
    at
}

/// Outside every declaration nothing is in scope.
pub proof fn law_nothing_is_in_scope_outside_the_declarations(
    checked: Checked,
    text: Seq<char>,
    offset: int,
)
    requires
        forall|j: int|
            0 <= j < checked.module.decls@.len() ==> !((
            #[trigger] checked.module.decls@[j]).span.start <= offset && offset
                < checked.module.decls@[j].span.end),
    ensures
        scope(checked, text, offset).len() == 0,
{
    law_the_first_declaration_around_a_place(checked.module.decls@, offset, 0);
}

/// A list of bindings is what its bindings are: as many, in the same order, each with its own
/// name, type, kind and place.
pub proof fn law_bindings_are_what_the_list_says(locals: Seq<Local>)
    ensures
        bound(locals).len() == locals.len(),
        forall|i: int|
            0 <= i < locals.len() ==> {
                let said = #[trigger] bound(locals)[i];
                &&& said.name == locals[i].name@
                &&& said.ty == locals[i].ty@
                &&& said.kind == locals[i].kind
                &&& said.start == locals[i].start
            },
{
}

} // verus!
