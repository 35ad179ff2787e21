//! What is under the cursor: hover, references and rename.
//!
//! Everything here is a query over a completed check. None of it re-derives anything the
//! checker already decided: a hover that recomputed a type would be a second type checker, and
//! the two would disagree.
//!
//! The innermost expression at the cursor comes from the compiler's own walk of its tree and is
//! handed in.

use crate::analysis::{law_the_document_holds_its_own_module, Analyzer, Checked};
use crate::docs::{comments, doc_for, doc_for_fits, doc_of, doc_of_fits, docs_above};
use crate::position::{offset_of, LineIndex, Position, Range};
use crate::ranges::{all_fit, fits, range, range_of, ranges, ranges_of, span_fits, spans_fit};
use crate::signatures::{
    fenced, fenced_text, first_fn, fn_at, law_a_function_is_known_by_where_it_was_declared, no_fn,
    sig_at, signature, signature_text,
};
use crate::sort::{ascending, law_a_listing_is_in_order_and_complete, listing, sort_dedup, Ranked};
use crate::syntax::{
    first_def, first_type, law_a_listed_definition_is_found, law_a_listed_type_is_found, no_def,
    no_type, DefKind, DefSite, Expr, ExprId, FnSig, Let, Node, Span, Trivia,
};
use crate::text::{join, joined, texts};
use vstd::prelude::*;

verus! {

/// Where in a list the first definition stands whose own span an offset lies in.
pub open spec fn binding_index(defs: Seq<(ExprId, DefSite)>, offset: int) -> Option<int>
    decreases defs.len(),
{
    if defs.len() == 0 {
        None
    } else {
        match binding_index(defs.drop_last(), offset) {
            Some(i) => Some(i),
            None => if defs.last().1.span.holds(offset) {
                Some(defs.len() - 1)
            } else {
                None
            },
        }
    }
}

/// The binding whose own span an offset lies in.
pub open spec fn binding_of(checked: Checked, offset: int) -> Option<DefSite> {
    match binding_index(checked.result.defs@, offset) {
        Some(i) => Some(checked.result.defs@[i].1),
        None => None,
    }
}

proof fn lemma_binding_prefix(defs: Seq<(ExprId, DefSite)>, k: int, offset: int)
    requires
        0 <= k <= defs.len(),
        binding_index(defs.take(k), offset) is Some,
    ensures
        binding_index(defs, offset) == binding_index(defs.take(k), offset),
    decreases defs.len() - k,
{
    if k == defs.len() {
        assert(defs.take(k) =~= defs);
    } else {
        assert(defs.take(k + 1).drop_last() =~= defs.take(k));
        lemma_binding_prefix(defs, k + 1, offset);
    }
}

/// The binding whose own span contains `offset`: the cursor on a declaration rather than a use.
pub fn binding_at(checked: &Checked, offset: usize) -> (site: Option<&DefSite>)
    ensures
        site is Some <==> binding_of(*checked, offset as int) is Some,
        site matches Some(s) ==> binding_of(*checked, offset as int) == Some(*s),
{
    let ghost defs = checked.result.defs@;
    let n: usize = checked.result.defs.len();
    let mut i: usize = 0;
    while i < n
        invariant
            defs == checked.result.defs@,
            n == defs.len(),
            i <= n,
            binding_index(defs.take(i as int), offset as int) is None,
        decreases n - i,
    {
        proof {
            assert(defs.take(i + 1).drop_last() =~= defs.take(i as int));
        }
        if checked.result.defs[i].1.span.contains(offset) {
            proof {
                lemma_binding_prefix(defs, i + 1, offset as int);
            }
            return Some(&checked.result.defs[i].1);
        }
        i = i + 1;
    }
    proof {
        assert(defs.take(n as int) =~= defs);
    }
    None
}

/// The initialiser of the last `let` whose pattern is a given span.
pub open spec fn initialiser(lets: Seq<Let>, pattern: Span) -> Option<ExprId>
    decreases lets.len(),
{
    if lets.len() == 0 {
        None
    } else if lets.last().pattern == pattern {
        Some(lets.last().value)
    } else {
        initialiser(lets.drop_last(), pattern)
    }
}

/// The first expression in a list that was resolved to a definition.
pub open spec fn first_use(defs: Seq<(ExprId, DefSite)>, site: DefSite) -> Option<ExprId>
    decreases defs.len(),
{
    if defs.len() == 0 {
        None
    } else if defs[0].1.is(site) {
        Some(defs[0].0)
    } else {
        first_use(defs.drop_first(), site)
    }
}

/// An expression whose type is the type of a binding.
pub open spec fn carrier(checked: Checked, site: DefSite) -> Option<ExprId> {
    match initialiser(checked.module.lets@, site.span) {
        Some(id) => Some(id),
        None => first_use(checked.result.defs@, site),
    }
}

/// An expression whose type is the type of `site`.
///
/// A binding has no type of its own recorded, so its type is read off something that does have
/// one. A `let`'s initialiser is the exact answer and is tried first. Failing that, any use of
/// the binding will do. A binding that is never used and is not a `let` has no answer: there is
/// nothing in the program that fixes its type.
pub fn type_carrier(checked: &Checked, site: &DefSite) -> (id: Option<ExprId>)
    ensures
        id == carrier(*checked, *site),
{
    let ghost lets = checked.module.lets@;
    let ghost defs = checked.result.defs@;
    let mut i: usize = checked.module.lets.len();
    proof {
        assert(lets.take(i as int) =~= lets);
    }
    while i > 0
        invariant
            lets == checked.module.lets@,
            i <= lets.len(),
            initialiser(lets, site.span) == initialiser(lets.take(i as int), site.span),
        decreases i,
    {
        proof {
            assert(lets.take(i as int).drop_last() =~= lets.take(i - 1));
        }
        i = i - 1;
        if checked.module.lets[i].pattern == site.span {
            return Some(checked.module.lets[i].value);
        }
    }
    let n: usize = checked.result.defs.len();
    let mut j: usize = 0;
    proof {
        assert(defs.skip(0) =~= defs);
    }
    while j < n
        invariant
            defs == checked.result.defs@,
            n == defs.len(),
            j <= n,
            initialiser(checked.module.lets@, site.span) is None,
            first_use(defs, *site) == first_use(defs.skip(j as int), *site),
        decreases n - j,
    {
        proof {
            assert(defs.skip(j as int).drop_first() =~= defs.skip(j + 1));
        }
        if checked.result.defs[j].1.same_site(site) {
            return Some(checked.result.defs[j].0);
        }
        j = j + 1;
    }
    None
}

/// What a hover is about: the expression whose type it shows, the span it is on, and the
/// definition it names.
pub struct Target {
    pub id: Option<ExprId>,
    pub span: Span,
    pub site: Option<DefSite>,
}

/// What is under the cursor. A use of a name is an expression; a binding is not, and is found
/// by its own span.
pub open spec fn target_of(checked: Checked, innermost: Option<Node>, offset: int) -> Option<
    Target,
> {
    match innermost {
        Some(node) => Some(
            Target { id: Some(node.id), span: node.span, site: checked.result.def_of(node.id) },
        ),
        None => match binding_of(checked, offset) {
            Some(site) => Some(
                Target { id: carrier(checked, site), span: site.span, site: Some(site) },
            ),
            None => None,
        },
    }
}

/// The first part of a hover. A name that resolved to a function shows its signature; anything
/// else shows the type the checker gave the expression.
pub open spec fn headline(checked: Checked, target: Target) -> Option<Seq<char>> {
    let sig = match target.site {
        Some(site) => if site.kind == DefKind::Fn {
            sig_at(checked.env, site)
        } else {
            None
        },
        None => None,
    };
    match sig {
        Some(f) => Some(fenced_text(signature_text(f))),
        None => match target.id {
            Some(id) => match checked.result.type_of(id) {
                Some(ty) => Some(fenced_text(ty.text@)),
                None => None,
            },
            None => None,
        },
    }
}

/// Where a definition came from, unless that is right here. The root module has no name to show.
pub open spec fn origin(checked: Checked, analyzer: Analyzer, site: DefSite) -> Seq<Seq<char>> {
    if is_here(checked, analyzer, site) || site.module@.len() == 0 {
        Seq::empty()
    } else {
        seq!["*in* `"@ + joined(texts(site.module@), "::"@) + "`"@]
    }
}

/// The parts of a hover: the type or signature, the documentation, where it came from. A part
/// with no content is omitted.
pub open spec fn hover_parts(
    checked: Checked,
    analyzer: Analyzer,
    head: Seq<char>,
    site: Option<DefSite>,
    doc: Option<Seq<char>>,
) -> Seq<Seq<char>> {
    match site {
        Some(s) => seq![head] + (match doc {
            Some(d) => seq![d],
            None => Seq::empty(),
        }) + origin(checked, analyzer, s),
        None => seq![head],
    }
}

/// The documentation of what a hover is about.
pub open spec fn target_doc(
    checked: Checked,
    analyzer: Analyzer,
    current: Seq<char>,
    lexed: Option<Seq<Trivia>>,
    target: Target,
) -> Option<Seq<char>> {
    match target.site {
        Some(site) => doc_of(checked, analyzer, current, lexed, site),
        None => None,
    }
}

/// What a hover shows, and the span it is on.
pub open spec fn hover_of(
    checked: Checked,
    analyzer: Analyzer,
    current: Seq<char>,
    lexed: Option<Seq<Trivia>>,
    innermost: Option<Node>,
    offset: int,
) -> Option<(Seq<char>, Span)> {
    match target_of(checked, innermost, offset) {
        Some(target) => match headline(checked, target) {
            Some(head) => Some(
                (
                    joined(
                        hover_parts(
                            checked,
                            analyzer,
                            head,
                            target.site,
                            target_doc(checked, analyzer, current, lexed, target),
                        ),
                        "\n\n---\n\n"@,
                    ),
                    target.span,
                ),
            ),
            None => None,
        },
        None => None,
    }
}

/// Whether a hover can be shown: its span is one of the text, and its documentation can be
/// looked for.
pub open spec fn hover_fits(
    checked: Checked,
    analyzer: Analyzer,
    current: Seq<char>,
    lexed: Option<Seq<Trivia>>,
    innermost: Option<Node>,
    offset: int,
) -> bool {
    match target_of(checked, innermost, offset) {
        Some(target) => headline(checked, target) is Some ==> {
            &&& span_fits(current, target.span)
            &&& target.site matches Some(site) ==> doc_of_fits(
                checked,
                analyzer,
                current,
                lexed,
                site,
            )
        },
        None => true,
    }
}

/// The first part of a hover.
fn headline_text(checked: &Checked, id: Option<ExprId>, site: Option<&DefSite>) -> (head: Option<
    String,
>)
    ensures
        forall|target: Target|
            target.id == id && (target.site is Some <==> site is Some) && (site matches Some(s)
                ==> target.site == Some(*s)) ==> {
                &&& head is Some <==> #[trigger] headline(*checked, target) is Some
                &&& head matches Some(h) ==> headline(*checked, target) == Some(h@)
            },
{
    let sig: Option<&FnSig> = match site {
        Some(s) => if s.kind == DefKind::Fn {
            fn_at(&checked.env, s)
        } else {
            None
        },
        None => None,
    };
    match sig {
        Some(f) => Some(fenced(signature(f).as_str())),
        None => match id {
            Some(e) => match checked.result.ty(e) {
                Some(ty) => Some(fenced(ty.text.as_str())),
                None => None,
            },
            None => None,
        },
    }
}

/// What is under the cursor.
fn under<'a>(checked: &'a Checked, innermost: Option<Node>, offset: usize) -> (found: Option<
    (Option<ExprId>, Span, Option<&'a DefSite>),
>)
    ensures
        found is Some <==> target_of(*checked, innermost, offset as int) is Some,
        found matches Some((id, span, site)) ==> {
            let target = target_of(*checked, innermost, offset as int)->0;
            &&& target.id == id
            &&& target.span == span
            &&& target.site is Some <==> site is Some
            &&& site matches Some(s) ==> target.site == Some(*s)
        },
{
    match innermost {
        Some(node) => Some((Some(node.id), node.span, checked.result.def(node.id))),
        None => match binding_at(checked, offset) {
            Some(site) => Some((type_carrier(checked, site), site.span, Some(site))),
            None => None,
        },
    }
}

/// What to show for the thing under the cursor, and where.
///
/// The answer is always the same parts in the same order, because a hover that varies its
/// layout by what it found is one the eye cannot skim: the thing's type or signature, then its
/// documentation, then where it came from. `lexed` is the document's comments, if it lexes.
pub fn hover(
    analyzer: &Analyzer,
    checked: &Checked,
    index: &LineIndex,
    lexed: &Option<Vec<Trivia>>,
    innermost: Option<Node>,
    pos: Position,
) -> (shown: Option<(String, Range)>)
    requires
        hover_fits(
            *checked,
            *analyzer,
            index@,
            comments(*lexed),
            innermost,
            offset_of(index@, pos) as int,
        ),
    ensures
        match (
            shown,
            hover_of(
                *checked,
                *analyzer,
                index@,
                comments(*lexed),
                innermost,
                offset_of(index@, pos) as int,
            ),
        ) {
            (Some((text, at)), Some((want, span))) => text@ == want && at == range_of(index@, span),
            (None, None) => true,
            _ => false,
        },
{
    let offset: usize = index.offset(pos);
    let ghost target = target_of(*checked, innermost, offset as int)->0;
    let (id, span, site) = match under(checked, innermost, offset) {
        Some(t) => t,
        None => {
            return None;
        },
    };
    let head: String = match headline_text(checked, id, site) {
        Some(h) => h,
        None => {
            return None;
        },
    };
    let ghost want = hover_parts(
        *checked,
        *analyzer,
        head@,
        target.site,
        target_doc(*checked, *analyzer, index@, comments(*lexed), target),
    );
    let mut parts: Vec<String> = Vec::new();
    parts.push(head);
    if let Some(s) = site {
        if let Some(doc) = doc_for(analyzer, checked, index, lexed, s) {
            parts.push(doc);
        }
        if s.module.len() > 0 && !analyzer_has_no_source(analyzer, checked, s) {
            let mut from: String = "*in* `".to_owned();
            from.append(join(&s.module, "::").as_str());
            from.append("`");
            parts.push(from);
        }
    }
    proof {
        assert(texts(parts@) =~= want);
    }
    Some((join(&parts, "\n\n---\n\n"), range(index, span)))
}

/// Whether a hover can be shown.
pub fn can_hover(
    analyzer: &Analyzer,
    checked: &Checked,
    index: &LineIndex,
    lexed: &Option<Vec<Trivia>>,
    innermost: Option<Node>,
    pos: Position,
) -> (yes: bool)
    ensures
        yes == hover_fits(
            *checked,
            *analyzer,
            index@,
            comments(*lexed),
            innermost,
            offset_of(index@, pos) as int,
        ),
{
    let offset: usize = index.offset(pos);
    match under(checked, innermost, offset) {
        Some((id, span, site)) => match headline_text(checked, id, site) {
            Some(_) => fits(index, span) && match site {
                Some(s) => doc_for_fits(analyzer, checked, index, lexed, s),
                None => true,
            },
            None => true,
        },
        None => true,
    }
}

/// The definition the cursor is on, whether it sits on a use of the name or on the binding
/// itself.
pub open spec fn site_of(checked: Checked, innermost: Option<Node>, offset: int) -> Option<
    DefSite,
> {
    match innermost {
        Some(node) => match checked.result.def_of(node.id) {
            Some(site) => Some(site),
            None => binding_of(checked, offset),
        },
        None => binding_of(checked, offset),
    }
}

/// The definition the cursor is on, whether it sits on a use of the name or on the binding
/// itself.
///
/// Both have to work: a user renames by putting the cursor on the declaration at least as often
/// as on a use.
pub fn site_under<'a>(
    checked: &'a Checked,
    index: &LineIndex,
    innermost: Option<Node>,
    pos: Position,
) -> (site: Option<&'a DefSite>)
    ensures
        site is Some <==> site_of(*checked, innermost, offset_of(index@, pos) as int) is Some,
        site matches Some(s) ==> site_of(*checked, innermost, offset_of(index@, pos) as int)
            == Some(*s),
{
    let offset: usize = index.offset(pos);
    if let Some(node) = innermost {
        if let Some(site) = checked.result.def(node.id) {
            return Some(site);
        }
    }
    binding_at(checked, offset)
}

/// Whether an expression was resolved to a definition.
pub open spec fn resolves(defs: Seq<(ExprId, DefSite)>, id: ExprId, target: DefSite) -> bool {
    exists|i: int| 0 <= i < defs.len() && (#[trigger] defs[i]).0 == id && defs[i].1.is(target)
}

/// Where the expressions of a list stand that were resolved to a definition.
pub open spec fn uses(
    exprs: Seq<Expr>,
    defs: Seq<(ExprId, DefSite)>,
    target: DefSite,
) -> Seq<Span>
    decreases exprs.len(),
{
    if exprs.len() == 0 {
        Seq::empty()
    } else if resolves(defs, exprs.last().id, target) {
        uses(exprs.drop_last(), defs, target).push(exprs.last().span)
    } else {
        uses(exprs.drop_last(), defs, target)
    }
}

/// Whether an expression was resolved to a definition.
fn refers(defs: &[(ExprId, DefSite)], id: ExprId, target: &DefSite) -> (yes: bool)
    ensures
        yes == resolves(defs@, id, *target),
{
    let n: usize = defs.len();
    let mut i: usize = 0;
    while i < n
        invariant
            n == defs@.len(),
            i <= n,
            forall|j: int|
                0 <= j < i ==> !((#[trigger] defs@[j]).0 == id && defs@[j].1.is(*target)),
        decreases n - i,
    {
        if defs[i].0 == id && defs[i].1.same_site(target) {
            proof {
                assert(defs@[i as int].0 == id);
            }
            return true;
        }
        i = i + 1;
    }
    false
}

/// The spans in this document of every name resolving to `target`.
pub fn spans_of(checked: &Checked, target: &DefSite) -> (spans: Vec<Span>)
    ensures
        spans@ == uses(checked.module.exprs@, checked.result.defs@, *target),
{
    let ghost exprs = checked.module.exprs@;
    let mut spans: Vec<Span> = Vec::new();
    let n: usize = checked.module.exprs.len();
    let mut i: usize = 0;
    while i < n
        invariant
            exprs == checked.module.exprs@,
            n == exprs.len(),
            i <= n,
            spans@ == uses(exprs.take(i as int), checked.result.defs@, *target),
        decreases n - i,
    {
        proof {
            assert(exprs.take(i + 1).drop_last() =~= exprs.take(i as int));
        }
        let e: &Expr = &checked.module.exprs[i];
        if refers(&checked.result.defs, e.id, target) {
            spans.push(e.span);
        }
        i = i + 1;
    }
    proof {
        assert(exprs.take(n as int) =~= exprs);
    }
    spans
}

/// Whether a definition lives in the document being edited.
pub open spec fn is_here(checked: Checked, analyzer: Analyzer, site: DefSite) -> bool {
    checked.holder(analyzer, texts(site.module@)) is None
}

/// Whether a definition lives in the document being edited rather than in another file.
///
/// Phrased as there being no other file for its module, because that is the only thing that
/// reliably tells the two apart: root or nested, every module that no other file holds is the
/// document's.
pub fn analyzer_has_no_source(analyzer: &Analyzer, checked: &Checked, site: &DefSite) -> (yes:
    bool)
    ensures
        yes == is_here(*checked, *analyzer, *site),
{
    checked.source_of(analyzer, &site.module).is_none()
}

/// Every occurrence in this document of what a definition defines: its uses, and the definition
/// itself when it is in this file.
pub open spec fn occurrences(checked: Checked, analyzer: Analyzer, target: DefSite) -> Seq<Span> {
    let found = uses(checked.module.exprs@, checked.result.defs@, target);
    if is_here(checked, analyzer, target) {
        listing(found.push(target.span))
    } else {
        listing(found)
    }
}

/// Every occurrence in this document of whatever the cursor is on.
pub open spec fn reference_spans(
    checked: Checked,
    analyzer: Analyzer,
    innermost: Option<Node>,
    offset: int,
) -> Seq<Span> {
    match site_of(checked, innermost, offset) {
        Some(target) => occurrences(checked, analyzer, target),
        None => Seq::empty(),
    }
}

/// What a rename of whatever the cursor is on edits, where one is possible.
pub open spec fn rename_spans(
    checked: Checked,
    analyzer: Analyzer,
    innermost: Option<Node>,
    offset: int,
) -> Option<Seq<Span>> {
    match site_of(checked, innermost, offset) {
        Some(target) => if is_here(checked, analyzer, target) {
            Some(
                listing(
                    uses(checked.module.exprs@, checked.result.defs@, target).push(target.span),
                ),
            )
        } else {
            None
        },
        None => None,
    }
}

/// Every occurrence in this document of whatever the cursor is on, in bytes.
pub fn occurrences_under(
    analyzer: &Analyzer,
    checked: &Checked,
    index: &LineIndex,
    innermost: Option<Node>,
    pos: Position,
) -> (spans: Vec<Span>)
    ensures
        spans@ == reference_spans(
            *checked,
            *analyzer,
            innermost,
            offset_of(index@, pos) as int,
        ),
{
    let target: &DefSite = match site_under(checked, index, innermost, pos) {
        Some(s) => s,
        None => {
            return Vec::new();
        },
    };
    let mut spans: Vec<Span> = spans_of(checked, target);
    if analyzer_has_no_source(analyzer, checked, target) {
        spans.push(target.span);
    }
    sort_dedup(spans)
}

/// Every occurrence in this document of whatever the cursor is on.
///
/// Two names refer to the same thing exactly when the checker recorded the same definition for
/// both. That is why it gets shadowing right: the inner `x` and the outer `x` have different
/// definitions, and no amount of matching on the text could have told them apart.
///
/// The definition itself is included when it is in this file, since an editor listing
/// references is expected to show it.
pub fn references(
    analyzer: &Analyzer,
    checked: &Checked,
    index: &LineIndex,
    innermost: Option<Node>,
    pos: Position,
) -> (found: Vec<Range>)
    requires
        spans_fit(
            index@,
            reference_spans(*checked, *analyzer, innermost, offset_of(index@, pos) as int),
        ),
    ensures
        found@ == ranges_of(
            index@,
            reference_spans(*checked, *analyzer, innermost, offset_of(index@, pos) as int),
        ),
{
    ranges(index, &occurrences_under(analyzer, checked, index, innermost, pos))
}

/// The edits that rename whatever the cursor is on.
///
/// Refuses anything defined outside this document. Renaming into another file would mean
/// editing files the user did not open and, in the toolchain, probably cannot write; and a
/// rename that silently skipped those would leave the project not compiling. Declining is the
/// only safe answer.
pub fn rename(
    analyzer: &Analyzer,
    checked: &Checked,
    index: &LineIndex,
    innermost: Option<Node>,
    pos: Position,
) -> (edits: Option<Vec<Range>>)
    requires
        rename_spans(*checked, *analyzer, innermost, offset_of(index@, pos) as int) matches Some(
            spans,
        ) ==> spans_fit(index@, spans),
    ensures
        match (
            edits,
            rename_spans(*checked, *analyzer, innermost, offset_of(index@, pos) as int),
        ) {
            (Some(found), Some(spans)) => found@ == ranges_of(index@, spans),
            (None, None) => true,
            _ => false,
        },
{
    let target: &DefSite = match site_under(checked, index, innermost, pos) {
        Some(s) => s,
        None => {
            return None;
        },
    };
    if !analyzer_has_no_source(analyzer, checked, target) {
        return None;
    }
    let mut spans: Vec<Span> = spans_of(checked, target);
    spans.push(target.span);
    Some(ranges(index, &sort_dedup(spans)))
}

/// Whether the references of whatever the cursor is on can all be shown.
pub fn can_refer(
    analyzer: &Analyzer,
    checked: &Checked,
    index: &LineIndex,
    innermost: Option<Node>,
    pos: Position,
) -> (yes: bool)
    ensures
        yes == spans_fit(
            index@,
            reference_spans(*checked, *analyzer, innermost, offset_of(index@, pos) as int),
        ),
{
    all_fit(index, &occurrences_under(analyzer, checked, index, innermost, pos))
}

/// Whether the edits of a rename can all be shown, where one is possible.
pub fn can_rename(
    analyzer: &Analyzer,
    checked: &Checked,
    index: &LineIndex,
    innermost: Option<Node>,
    pos: Position,
) -> (yes: bool)
    ensures
        yes == (rename_spans(
            *checked,
            *analyzer,
            innermost,
            offset_of(index@, pos) as int,
        ) matches Some(spans) ==> spans_fit(index@, spans)),
{
    match site_under(checked, index, innermost, pos) {
        Some(target) => !analyzer_has_no_source(analyzer, checked, target) || can_refer(
            analyzer,
            checked,
            index,
            innermost,
            pos,
        ),
        None => true,
    }
}

/// A rename is possible exactly when the cursor is on something defined in this document, and
/// then it edits exactly the references.
pub proof fn law_a_rename_edits_the_references(
    checked: Checked,
    analyzer: Analyzer,
    innermost: Option<Node>,
    offset: int,
)
    ensures
        rename_spans(checked, analyzer, innermost, offset) is Some <==> (site_of(
            checked,
            innermost,
            offset,
        ) matches Some(target) && is_here(checked, analyzer, target)),
        rename_spans(checked, analyzer, innermost, offset) matches Some(spans) ==> spans
            == reference_spans(checked, analyzer, innermost, offset),
{
}

/// A definition in the document's own module is here, so a cursor on it can rename it, and its
/// hover does not say where it came from.
pub proof fn law_a_definition_in_the_documents_module_is_here(
    checked: Checked,
    analyzer: Analyzer,
    site: DefSite,
    innermost: Option<Node>,
    offset: int,
)
    requires
        texts(site.module@) == texts(checked.doc_module@),
    ensures
        is_here(checked, analyzer, site),
        site_of(checked, innermost, offset) == Some(site) ==> rename_spans(
            checked,
            analyzer,
            innermost,
            offset,
        ) is Some,
        origin(checked, analyzer, site).len() == 0,
{
    law_the_document_holds_its_own_module(checked, analyzer, texts(site.module@));
}

proof fn lemma_uses(
    exprs: Seq<Expr>,
    defs: Seq<(ExprId, DefSite)>,
    target: DefSite,
    span: Span,
)
    ensures
        uses(exprs, defs, target).contains(span) <==> exists|i: int|
            0 <= i < exprs.len() && (#[trigger] exprs[i]).span == span && resolves(
                defs,
                exprs[i].id,
                target,
            ),
    decreases exprs.len(),
{
    if exprs.len() > 0 {
        let init = exprs.drop_last();
        let before = uses(init, defs, target);
        let found = uses(exprs, defs, target);
        lemma_uses(init, defs, target, span);
        if found.contains(span) {
            let k = choose|k: int| 0 <= k < found.len() && found[k] == span;
            if k < before.len() {
                assert(before[k] == span);
                let i = choose|i: int|
                    0 <= i < init.len() && (#[trigger] init[i]).span == span && resolves(
                        defs,
                        init[i].id,
                        target,
                    );
                assert(exprs[i].span == span);
            } else {
                assert(exprs[exprs.len() - 1].span == span);
            }
        }
        if exists|i: int|
            0 <= i < exprs.len() && (#[trigger] exprs[i]).span == span && resolves(
                defs,
                exprs[i].id,
                target,
            ) {
            let i = choose|i: int|
                0 <= i < exprs.len() && (#[trigger] exprs[i]).span == span && resolves(
                    defs,
                    exprs[i].id,
                    target,
                );
            if i < init.len() {
                assert(init[i].span == span);
                let k = choose|k: int| 0 <= k < before.len() && before[k] == span;
                assert(found[k] == span);
            } else {
                assert(found[found.len() - 1] == span);
            }
        }
    }
}

/// The references of a definition are in order and each is listed once; they are where the
/// names stand that were resolved to it and, when it is in this document, the definition
/// itself, and nothing else.
pub proof fn law_references_are_the_occurrences(
    checked: Checked,
    analyzer: Analyzer,
    target: DefSite,
)
    ensures
        ascending(occurrences(checked, analyzer, target)),
        forall|span: Span| #[trigger]
            occurrences(checked, analyzer, target).contains(span) <==> {
                ||| is_here(checked, analyzer, target) && span == target.span
                ||| exists|i: int|
                    0 <= i < checked.module.exprs@.len() && (
                    #[trigger] checked.module.exprs@[i]).span == span && resolves(
                        checked.result.defs@,
                        checked.module.exprs@[i].id,
                        target,
                    )
            },
{
    let exprs = checked.module.exprs@;
    let defs = checked.result.defs@;
    let found = uses(exprs, defs, target);
    let all = if is_here(checked, analyzer, target) {
        found.push(target.span)
    } else {
        found
    };
    law_a_listing_is_in_order_and_complete(all);
    assert forall|span: Span| #[trigger]
        occurrences(checked, analyzer, target).contains(span) <==> {
            ||| is_here(checked, analyzer, target) && span == target.span
            ||| exists|i: int|
                0 <= i < exprs.len() && (#[trigger] exprs[i]).span == span && resolves(
                    defs,
                    exprs[i].id,
                    target,
                )
        } by {
        lemma_uses(exprs, defs, target, span);
        assert(listing(all).contains(span) <==> all.contains(span));
        if is_here(checked, analyzer, target) {
            if found.contains(span) {
                let k = choose|k: int| 0 <= k < found.len() && found[k] == span;
                assert(all[k] == span);
            }
            if span == target.span {
                assert(all[found.len() as int] == span);
            }
            if all.contains(span) && span != target.span {
                let k = choose|k: int| 0 <= k < all.len() && all[k] == span;
                assert(found[k] == span);
            }
        }
    }
}

proof fn lemma_same_uses(
    exprs: Seq<Expr>,
    defs: Seq<(ExprId, DefSite)>,
    a: DefSite,
    b: DefSite,
)
    requires
        a.is(b),
    ensures
        uses(exprs, defs, a) == uses(exprs, defs, b),
    decreases exprs.len(),
{
    if exprs.len() > 0 {
        lemma_same_uses(exprs.drop_last(), defs, a, b);
        let id = exprs.last().id;
        if resolves(defs, id, a) {
            let i = choose|i: int|
                0 <= i < defs.len() && (#[trigger] defs[i]).0 == id && defs[i].1.is(a);
            assert(defs[i].0 == id && defs[i].1.is(b));
        }
        if resolves(defs, id, b) {
            let i = choose|i: int|
                0 <= i < defs.len() && (#[trigger] defs[i]).0 == id && defs[i].1.is(b);
            assert(defs[i].0 == id && defs[i].1.is(a));
        }
    }
}

/// The references are the same from every place that names the same definition.
pub proof fn law_references_agree_from_every_use(
    checked: Checked,
    analyzer: Analyzer,
    innermost: Option<Node>,
    offset: int,
    other_innermost: Option<Node>,
    other_offset: int,
)
    requires
        site_of(checked, innermost, offset) is Some,
        site_of(checked, other_innermost, other_offset) is Some,
        site_of(checked, innermost, offset)->0.is(
            site_of(checked, other_innermost, other_offset)->0,
        ),
    ensures
        reference_spans(checked, analyzer, innermost, offset) == reference_spans(
            checked,
            analyzer,
            other_innermost,
            other_offset,
        ),
{
    lemma_same_uses(
        checked.module.exprs@,
        checked.result.defs@,
        site_of(checked, innermost, offset)->0,
        site_of(checked, other_innermost, other_offset)->0,
    );
}

/// Where each expression was resolved to at most one definition, a name that was resolved to
/// one definition is no use of another, whatever the two are called.
pub proof fn law_references_respect_shadowing(
    defs: Seq<(ExprId, DefSite)>,
    id: ExprId,
    inner: DefSite,
    outer: DefSite,
)
    requires
        forall|i: int, j: int|
            0 <= i < j < defs.len() ==> (#[trigger] defs[i]).0 != (#[trigger] defs[j]).0,
        !inner.is(outer),
        resolves(defs, id, inner),
    ensures
        !resolves(defs, id, outer),
{
    let i = choose|i: int|
        0 <= i < defs.len() && (#[trigger] defs[i]).0 == id && defs[i].1.is(inner);
    if resolves(defs, id, outer) {
        let j = choose|j: int|
            0 <= j < defs.len() && (#[trigger] defs[j]).0 == id && defs[j].1.is(outer);
        assert(i == j);
    }
}

/// Whether the `k`-th definition that the checker lists is the first whose own span holds an
/// offset.
pub open spec fn is_first_binding(defs: Seq<(ExprId, DefSite)>, offset: int, k: int) -> bool {
    &&& 0 <= k < defs.len()
    &&& defs[k].1.span.start <= offset && offset < defs[k].1.span.end
    &&& forall|j: int|
        0 <= j < k ==> !((#[trigger] defs[j]).1.span.start <= offset && offset
            < defs[j].1.span.end)
}

/// Whether no definition's own span holds an offset.
pub open spec fn no_binding(defs: Seq<(ExprId, DefSite)>, offset: int) -> bool {
    forall|j: int|
        0 <= j < defs.len() ==> !((#[trigger] defs[j]).1.span.start <= offset && offset
            < defs[j].1.span.end)
}

proof fn lemma_first_binding(defs: Seq<(ExprId, DefSite)>, offset: int)
    ensures
        binding_index(defs, offset) matches Some(k) ==> is_first_binding(defs, offset, k),
        binding_index(defs, offset) is None ==> no_binding(defs, offset),
    decreases defs.len(),
{
    if defs.len() > 0 {
        let init = defs.drop_last();
        lemma_first_binding(init, offset);
        assert forall|j: int| 0 <= j < init.len() implies #[trigger] defs[j] == init[j] by {}
    }
}

proof fn lemma_binding_of(checked: Checked, offset: int)
    ensures
        forall|k: int| #[trigger]
            is_first_binding(checked.result.defs@, offset, k) ==> binding_of(checked, offset)
                == Some(checked.result.defs@[k].1),
        no_binding(checked.result.defs@, offset) <==> binding_of(checked, offset) is None,
{
    let defs = checked.result.defs@;
    lemma_first_binding(defs, offset);
    assert forall|k: int| #[trigger] is_first_binding(defs, offset, k) implies binding_of(
        checked,
        offset,
    ) == Some(defs[k].1) by {
        let i = binding_index(defs, offset)->0;
        assert(defs[k].1.span.start <= offset && offset < defs[k].1.span.end);
        assert(i < k ==> !(defs[i].1.span.start <= offset && offset < defs[i].1.span.end));
        assert(k < i ==> !(defs[k].1.span.start <= offset && offset < defs[k].1.span.end));
    }
    if let Some(k) = binding_index(defs, offset) {
        assert(defs[k].1.span.start <= offset && offset < defs[k].1.span.end);
    }
}

/// Whether the cursor is on the `k`-th definition that the checker lists: the expression under it
/// was resolved to that one, or it was not resolved and the cursor is inside the definition
/// itself.
pub open spec fn is_under_cursor(
    checked: Checked,
    innermost: Option<Node>,
    offset: int,
    k: int,
) -> bool {
    ||| innermost matches Some(node) && first_def(checked.result.defs@, node.id, k)
    ||| (innermost matches Some(node) ==> no_def(checked.result.defs@, node.id))
        && is_first_binding(checked.result.defs@, offset, k)
}

/// Whether nothing under the cursor leads to a definition.
pub open spec fn nothing_under_cursor(
    checked: Checked,
    innermost: Option<Node>,
    offset: int,
) -> bool {
    &&& innermost matches Some(node) ==> no_def(checked.result.defs@, node.id)
    &&& no_binding(checked.result.defs@, offset)
}

/// A cursor on a name is on what the name was resolved to, of whatever kind; one on no resolved
/// name is on the first definition that it is inside; and only where there is neither is it on
/// nothing.
pub proof fn law_the_cursor_is_on_what_the_name_stands_for(
    checked: Checked,
    innermost: Option<Node>,
    offset: int,
)
    ensures
        forall|k: int| #[trigger]
            is_under_cursor(checked, innermost, offset, k) ==> site_of(checked, innermost, offset)
                == Some(checked.result.defs@[k].1),
        nothing_under_cursor(checked, innermost, offset) <==> site_of(checked, innermost, offset)
            is None,
{
    lemma_binding_of(checked, offset);
    if let Some(node) = innermost {
        law_a_listed_definition_is_found(checked.result, node.id);
    }
}

/// Whether a span is where a definition is named: by a name that was resolved to it, or by the
/// definition itself where no other file holds it.
pub open spec fn names(checked: Checked, analyzer: Analyzer, target: DefSite, span: Span) -> bool {
    ||| checked.holder(analyzer, texts(target.module@)) is None && span == target.span
    ||| exists|i: int, d: int|
        0 <= i < checked.module.exprs@.len() && 0 <= d < checked.result.defs@.len() && (
        #[trigger] checked.module.exprs@[i]).span == span && (
        #[trigger] checked.result.defs@[d]).0 == checked.module.exprs@[i].id
            && checked.result.defs@[d].1.is(target)
}

/// Whether spans are in order, by where they start and then by where they end, and none is listed
/// twice.
pub open spec fn strictly_in_order(spans: Seq<Span>) -> bool {
    forall|i: int, j: int|
        0 <= i < j < spans.len() ==> ({
            let (a, b) = (#[trigger] spans[i], #[trigger] spans[j]);
            a.start < b.start || (a.start == b.start && a.end < b.end)
        })
}

/// The references of what the cursor is on are every place that names it, in order and each once,
/// and a rename edits exactly those; one is refused only where the definition is in another file,
/// or the cursor is on nothing, where there are no references either.
pub proof fn law_every_occurrence_is_found_and_renamed(
    checked: Checked,
    analyzer: Analyzer,
    innermost: Option<Node>,
    offset: int,
    k: int,
)
    ensures
        is_under_cursor(checked, innermost, offset, k) ==> {
            let target = checked.result.defs@[k].1;
            let found = reference_spans(checked, analyzer, innermost, offset);
            &&& strictly_in_order(found)
            &&& forall|span: Span| #[trigger]
                found.contains(span) <==> names(checked, analyzer, target, span)
            &&& rename_spans(checked, analyzer, innermost, offset) == (if checked.holder(
                analyzer,
                texts(target.module@),
            ) is None {
                Some(found)
            } else {
                None
            })
        },
        nothing_under_cursor(checked, innermost, offset) ==> {
            &&& reference_spans(checked, analyzer, innermost, offset).len() == 0
            &&& rename_spans(checked, analyzer, innermost, offset) is None
        },
{
    law_the_cursor_is_on_what_the_name_stands_for(checked, innermost, offset);
    if is_under_cursor(checked, innermost, offset, k) {
        let target = checked.result.defs@[k].1;
        let found = reference_spans(checked, analyzer, innermost, offset);
        law_references_are_the_occurrences(checked, analyzer, target);
        law_a_rename_edits_the_references(checked, analyzer, innermost, offset);
        assert(found == occurrences(checked, analyzer, target));
        assert(ascending(found));
        assert forall|span: Span| #[trigger] found.contains(span) <==> names(
            checked,
            analyzer,
            target,
            span,
        ) by {
            let exprs = checked.module.exprs@;
            let defs = checked.result.defs@;
            if exists|i: int|
                0 <= i < exprs.len() && (#[trigger] exprs[i]).span == span && resolves(
                    defs,
                    exprs[i].id,
                    target,
                ) {
                let i = choose|i: int|
                    0 <= i < exprs.len() && (#[trigger] exprs[i]).span == span && resolves(
                        defs,
                        exprs[i].id,
                        target,
                    );
                let d = choose|d: int|
                    0 <= d < defs.len() && (#[trigger] defs[d]).0 == exprs[i].id
                        && defs[d].1.is(target);
                assert(exprs[i].span == span && defs[d].0 == exprs[i].id);
            }
            if exists|i: int, d: int|
                0 <= i < exprs.len() && 0 <= d < defs.len() && (#[trigger] exprs[i]).span == span
                    && (#[trigger] defs[d]).0 == exprs[i].id && defs[d].1.is(target) {
                let (i, d) = choose|i: int, d: int|
                    0 <= i < exprs.len() && 0 <= d < defs.len() && (#[trigger] exprs[i]).span
                        == span && (#[trigger] defs[d]).0 == exprs[i].id && defs[d].1.is(target);
                assert(resolves(defs, exprs[i].id, target));
            }
        }
        assert forall|i: int, j: int| 0 <= i < j < found.len() implies ({
            let (a, b) = (#[trigger] found[i], #[trigger] found[j]);
            a.start < b.start || (a.start == b.start && a.end < b.end)
        }) by {
            assert(found[i].at_most(found[j]));
            assert(found[i] != found[j]);
        }
    }
}

/// What follows the first part of a hover about a definition: its documentation, from the file
/// that holds it or from the document, and where it came from, if that is another file whose
/// module has a name.
pub open spec fn hover_tail(
    checked: Checked,
    analyzer: Analyzer,
    current: Seq<char>,
    lexed: Option<Vec<Trivia>>,
    site: DefSite,
) -> Seq<char> {
    let held = checked.holder(analyzer, texts(site.module@));
    let doc = match held {
        Some(src) => docs_above(src.index@, src.trivia@, site.span.start as int),
        None => match lexed {
            Some(trivia) => docs_above(current, trivia@, site.span.start as int),
            None => None,
        },
    };
    (match doc {
        Some(d) => "\n\n---\n\n"@ + d,
        None => Seq::empty(),
    }) + (if held is Some && site.module@.len() > 0 {
        "\n\n---\n\n"@ + ("*in* `"@ + joined(texts(site.module@), "::"@) + "`"@)
    } else {
        Seq::empty()
    })
}

proof fn lemma_hover_text(
    checked: Checked,
    analyzer: Analyzer,
    current: Seq<char>,
    lexed: Option<Vec<Trivia>>,
    head: Seq<char>,
    site: DefSite,
)
    ensures
        joined(
            hover_parts(
                checked,
                analyzer,
                head,
                Some(site),
                doc_of(checked, analyzer, current, comments(lexed), site),
            ),
            "\n\n---\n\n"@,
        ) == head + hover_tail(checked, analyzer, current, lexed, site),
{
    let sep = "\n\n---\n\n"@;
    let doc = doc_of(checked, analyzer, current, comments(lexed), site);
    let parts = hover_parts(checked, analyzer, head, Some(site), doc);
    let from = origin(checked, analyzer, site);
    let tail = hover_tail(checked, analyzer, current, lexed, site);
    reveal_with_fuel(joined, 4);
    if doc is Some {
        let first = seq![head] + seq![doc->0];
        assert(first.drop_last() =~= seq![head]);
        if from.len() == 0 {
            assert(parts =~= first);
        } else {
            assert(parts.drop_last() =~= first);
        }
    } else {
        if from.len() == 0 {
            assert(parts =~= seq![head]);
        } else {
            assert(parts.drop_last() =~= seq![head]);
        }
    }
    assert(joined(parts, sep) =~= head + tail);
}

/// A hover on an expression. A name that was resolved to a function that the compilation knows
/// shows its signature; any other expression that was given a type shows that type, whether or
/// not it was resolved to anything; and there is none for an expression that is neither. What the
/// name was resolved to, if it was, adds its documentation and where it came from. The hover is
/// on the expression.
pub proof fn law_a_hover_shows_the_signature_or_the_type(
    checked: Checked,
    analyzer: Analyzer,
    current: Seq<char>,
    lexed: Option<Vec<Trivia>>,
    node: Node,
    offset: int,
    k: int,
    f: int,
    t: int,
)
    ensures
        ({
            let defs = checked.result.defs@;
            let types = checked.result.types@;
            let fns = checked.env.fns@;
            let site = defs[k].1;
            let shown = hover_of(checked, analyzer, current, comments(lexed), Some(node), offset);
            let tail = hover_tail(checked, analyzer, current, lexed, site);
            let typed = "```neon\n"@ + types[t].1.text@ + "\n```"@;
            let known = site.kind == DefKind::Fn && !no_fn(fns, site);
            &&& first_def(defs, node.id, k) && site.kind == DefKind::Fn && first_fn(fns, site, f)
                ==> shown == Some(
                ("```neon\n"@ + signature_text(fns[f]) + "\n```"@ + tail, node.span),
            )
            &&& first_def(defs, node.id, k) && !known && first_type(types, node.id, t) ==> shown
                == Some((typed + tail, node.span))
            &&& first_def(defs, node.id, k) && !known && no_type(types, node.id) ==> shown is None
            &&& no_def(defs, node.id) && first_type(types, node.id, t) ==> shown == Some(
                (typed, node.span),
            )
            &&& no_def(defs, node.id) && no_type(types, node.id) ==> shown is None
        }),
{
    let defs = checked.result.defs@;
    let types = checked.result.types@;
    let fns = checked.env.fns@;
    let site = defs[k].1;
    law_a_listed_definition_is_found(checked.result, node.id);
    law_a_listed_type_is_found(checked.result, node.id);
    law_a_function_is_known_by_where_it_was_declared(checked.env, site);
    let typed = "```neon\n"@ + types[t].1.text@ + "\n```"@;
    lemma_hover_text(checked, analyzer, current, lexed, typed, site);
    lemma_hover_text(
        checked,
        analyzer,
        current,
        lexed,
        "```neon\n"@ + signature_text(fns[f]) + "\n```"@,
        site,
    );
    reveal_with_fuel(joined, 2);
}

/// Whether the type of a binding is that of an expression: the initialiser of the last `let` that
/// binds it, or where there is none the first name that was resolved to it.
pub open spec fn carries_type(checked: Checked, site: DefSite, id: ExprId) -> bool {
    let lets = checked.module.lets@;
    let defs = checked.result.defs@;
    ||| exists|i: int|
        0 <= i < lets.len() && (#[trigger] lets[i]).pattern == site.span && lets[i].value == id
            && forall|j: int| i < j < lets.len() ==> (#[trigger] lets[j]).pattern != site.span
    ||| (forall|j: int| 0 <= j < lets.len() ==> (#[trigger] lets[j]).pattern != site.span)
        && exists|i: int|
        0 <= i < defs.len() && (#[trigger] defs[i]).1.is(site) && defs[i].0 == id && forall|j: int|
            0 <= j < i ==> !(#[trigger] defs[j]).1.is(site)
}

proof fn lemma_initialiser(lets: Seq<Let>, pattern: Span, i: int)
    ensures
        0 <= i < lets.len() && lets[i].pattern == pattern && (forall|j: int|
            i < j < lets.len() ==> (#[trigger] lets[j]).pattern != pattern) ==> initialiser(
            lets,
            pattern,
        ) == Some(lets[i].value),
        (forall|j: int| 0 <= j < lets.len() ==> (#[trigger] lets[j]).pattern != pattern)
            ==> initialiser(lets, pattern) is None,
    decreases lets.len(),
{
    if lets.len() > 0 {
        let init = lets.drop_last();
        lemma_initialiser(init, pattern, i);
        assert forall|j: int| 0 <= j < init.len() implies #[trigger] lets[j] == init[j] by {}
        assert(lets[lets.len() - 1] == lets.last());
    }
}

proof fn lemma_first_use(defs: Seq<(ExprId, DefSite)>, site: DefSite, i: int)
    requires
        0 <= i < defs.len(),
        defs[i].1.is(site),
        forall|j: int| 0 <= j < i ==> !(#[trigger] defs[j]).1.is(site),
    ensures
        first_use(defs, site) == Some(defs[i].0),
    decreases defs.len(),
{
    if i > 0 {
        let rest = defs.drop_first();
        assert(!defs[0].1.is(site));
        assert forall|j: int| 0 <= j < i - 1 implies !(#[trigger] rest[j]).1.is(site) by {
            assert(rest[j] == defs[j + 1]);
        }
        lemma_first_use(rest, site, i - 1);
    }
}

/// A hover on a binding, where there is no expression under the cursor: a function that the
/// compilation knows shows its signature, and anything else the type that it carries, followed by
/// its documentation and where it came from. The hover is on the binding. Where the cursor is
/// inside no definition there is none.
pub proof fn law_a_hover_on_a_binding_shows_its_type(
    checked: Checked,
    analyzer: Analyzer,
    current: Seq<char>,
    lexed: Option<Vec<Trivia>>,
    offset: int,
    k: int,
    f: int,
    id: ExprId,
    t: int,
)
    ensures
        ({
            let defs = checked.result.defs@;
            let types = checked.result.types@;
            let fns = checked.env.fns@;
            let site = defs[k].1;
            let shown = hover_of(checked, analyzer, current, comments(lexed), None, offset);
            let tail = hover_tail(checked, analyzer, current, lexed, site);
            let known = site.kind == DefKind::Fn && !no_fn(fns, site);
            &&& no_binding(defs, offset) ==> shown is None
            &&& is_first_binding(defs, offset, k) && site.kind == DefKind::Fn && first_fn(
                fns,
                site,
                f,
            ) ==> shown == Some(
                ("```neon\n"@ + signature_text(fns[f]) + "\n```"@ + tail, site.span),
            )
            &&& is_first_binding(defs, offset, k) && !known && carries_type(checked, site, id)
                && first_type(types, id, t) ==> shown == Some(
                ("```neon\n"@ + types[t].1.text@ + "\n```"@ + tail, site.span),
            )
            &&& is_first_binding(defs, offset, k) && !known && carries_type(checked, site, id)
                && no_type(types, id) ==> shown is None
        }),
{
    let defs = checked.result.defs@;
    let lets = checked.module.lets@;
    let types = checked.result.types@;
    let fns = checked.env.fns@;
    let site = defs[k].1;
    lemma_binding_of(checked, offset);
    law_a_listed_type_is_found(checked.result, id);
    law_a_function_is_known_by_where_it_was_declared(checked.env, site);
    lemma_initialiser(lets, site.span, 0);
    if carries_type(checked, site, id) {
        if exists|i: int|
            0 <= i < lets.len() && (#[trigger] lets[i]).pattern == site.span && lets[i].value == id
                && forall|j: int| i < j < lets.len() ==> (#[trigger] lets[j]).pattern != site.span {
            let i = choose|i: int|
                0 <= i < lets.len() && (#[trigger] lets[i]).pattern == site.span && lets[i].value
                    == id && forall|j: int|
                    i < j < lets.len() ==> (#[trigger] lets[j]).pattern != site.span;
            lemma_initialiser(lets, site.span, i);
        } else {
            let i = choose|i: int|
                0 <= i < defs.len() && (#[trigger] defs[i]).1.is(site) && defs[i].0 == id
                    && forall|j: int| 0 <= j < i ==> !(#[trigger] defs[j]).1.is(site);
            lemma_first_use(defs, site, i);
        }
        assert(carrier(checked, site) == Some(id));
    }
    lemma_hover_text(
        checked,
        analyzer,
        current,
        lexed,
        "```neon\n"@ + types[t].1.text@ + "\n```"@,
        site,
    );
    lemma_hover_text(
        checked,
        analyzer,
        current,
        lexed,
        "```neon\n"@ + signature_text(fns[f]) + "\n```"@,
        site,
    );
}

/// Where every expression and every definition of a check is a span of the text, all references
/// can be shown and every rename made.
pub proof fn law_references_in_a_text_that_fits_can_be_shown(
    checked: Checked,
    analyzer: Analyzer,
    text: Seq<char>,
    innermost: Option<Node>,
    offset: int,
)
    requires
        forall|i: int|
            0 <= i < checked.module.exprs@.len() ==> span_fits(
                text,
                (#[trigger] checked.module.exprs@[i]).span,
            ),
        forall|k: int|
            0 <= k < checked.result.defs@.len() ==> span_fits(
                text,
                (#[trigger] checked.result.defs@[k]).1.span,
            ),
    ensures
        spans_fit(text, reference_spans(checked, analyzer, innermost, offset)),
        rename_spans(checked, analyzer, innermost, offset) matches Some(spans) ==> spans_fit(
            text,
            spans,
        ),
{
    let defs = checked.result.defs@;
    law_a_rename_edits_the_references(checked, analyzer, innermost, offset);
    if let Some(target) = site_of(checked, innermost, offset) {
        law_references_are_the_occurrences(checked, analyzer, target);
        lemma_first_binding(defs, offset);
        if let Some(node) = innermost {
            law_a_listed_definition_is_found(checked.result, node.id);
        }
        let k = if innermost is Some && checked.result.def_of(innermost->0.id) is Some {
            choose|k: int| #[trigger] first_def(defs, innermost->0.id, k)
        } else {
            binding_index(defs, offset)->0
        };
        assert(defs[k].1 == target);
        let spans = occurrences(checked, analyzer, target);
        assert forall|i: int| 0 <= i < spans.len() implies span_fits(text, #[trigger] spans[i]) by {
            assert(spans.contains(spans[i]));
        }
    }
}

} // verus!
