//! Function signatures as Neon source, and help at a call.

use crate::analysis::Checked;
use crate::position::{offset_of, LineIndex, Position};
use crate::syntax::{
    first_def, law_a_listed_definition_is_found, no_def, DefSite, Env, Expr, ExprKind, FnSig, Span,
    Ty,
};
use crate::text::{join, joined, same_names, texts};
use vstd::prelude::*;

verus! {

/// A parameter as it is declared.
pub open spec fn param_text(name: Seq<char>, ty: Seq<char>) -> Seq<char> {
    name + ": "@ + ty
}

/// Parameters as they are declared.
pub open spec fn param_texts(params: Seq<(String, Ty)>) -> Seq<Seq<char>> {
    Seq::new(params.len(), |i: int| param_text(params[i].0@, params[i].1.text@))
}

/// The bounds of a `where` clause, each a type variable and the path of a protocol.
pub open spec fn bound_texts(wheres: Seq<(String, Vec<String>)>) -> Seq<Seq<char>> {
    Seq::new(
        wheres.len(),
        |i: int| wheres[i].0@ + ": "@ + joined(texts(wheres[i].1@), "::"@),
    )
}

/// The type parameters in brackets, where there are any.
pub open spec fn generics_text(generics: Seq<String>) -> Seq<char> {
    if generics.len() == 0 {
        Seq::empty()
    } else {
        "["@ + joined(texts(generics), ", "@) + "]"@
    }
}

/// The `throws` clause. `never` is how the absence of one is recorded.
pub open spec fn throws_text(throws: Ty) -> Seq<char> {
    if throws.never {
        Seq::empty()
    } else {
        " throws "@ + throws.text@
    }
}

/// The `where` clause, where there is one.
pub open spec fn wheres_text(wheres: Seq<(String, Vec<String>)>) -> Seq<char> {
    if wheres.len() == 0 {
        Seq::empty()
    } else {
        " where "@ + joined(bound_texts(wheres), ", "@)
    }
}

/// A function signature as Neon source, the way its declaration reads.
pub open spec fn signature_text(sig: FnSig) -> Seq<char> {
    "fn "@ + sig.name@ + generics_text(sig.generics@) + "("@ + joined(
        param_texts(sig.params@),
        ", "@,
    ) + ")"@ + throws_text(sig.throws) + " -> "@ + sig.ret.text@ + wheres_text(sig.wheres@)
}

/// Parameters as they are declared.
pub fn param_labels(params: &[(String, Ty)]) -> (labels: Vec<String>)
    ensures
        texts(labels@) == param_texts(params@),
{
    let mut labels: Vec<String> = Vec::new();
    let n: usize = params.len();
    let mut i: usize = 0;
    while i < n
        invariant
            n == params@.len(),
            i <= n,
            texts(labels@) =~= param_texts(params@).take(i as int),
        decreases n - i,
    {
        let mut label: String = params[i].0.clone();
        label.append(": ");
        label.append(params[i].1.text.as_str());
        let ghost before = labels@;
        labels.push(label);
        proof {
            assert(texts(labels@) =~= texts(before).push(label@));
        }
        i = i + 1;
    }
    labels
}

fn bounds(wheres: &[(String, Vec<String>)]) -> (out: Vec<String>)
    ensures
        texts(out@) == bound_texts(wheres@),
{
    let mut out: Vec<String> = Vec::new();
    let n: usize = wheres.len();
    let mut i: usize = 0;
    while i < n
        invariant
            n == wheres@.len(),
            i <= n,
            texts(out@) =~= bound_texts(wheres@).take(i as int),
        decreases n - i,
    {
        let mut bound: String = wheres[i].0.clone();
        bound.append(": ");
        bound.append(join(&wheres[i].1, "::").as_str());
        let ghost before = out@;
        out.push(bound);
        proof {
            assert(texts(out@) =~= texts(before).push(bound@));
        }
        i = i + 1;
    }
    out
}

/// A function signature as Neon source, the way its declaration reads.
///
/// Put together from what the compilation knows rather than sliced out of the file, because the
/// two are not the same text: every type is printed as the compiler spelled it in `sig`, however
/// the declaration wrote it.
pub fn signature(sig: &FnSig) -> (text: String)
    ensures
        text@ == signature_text(*sig),
{
    let mut out: String = "fn ".to_owned();
    out.append(sig.name.as_str());
    let ghost named = out@;
    if sig.generics.len() > 0 {
        let list: String = join(&sig.generics, ", ");
        out.append("[");
        out.append(list.as_str());
        out.append("]");
    }
    proof {
        assert(out@ =~= named + generics_text(sig.generics@));
    }
    out.append("(");
    out.append(join(&param_labels(&sig.params), ", ").as_str());
    out.append(")");
    let ghost listed = out@;
    if !sig.throws.never {
        out.append(" throws ");
        out.append(sig.throws.text.as_str());
    }
    proof {
        assert(out@ =~= listed + throws_text(sig.throws));
    }
    out.append(" -> ");
    out.append(sig.ret.text.as_str());
    let ghost returned = out@;
    if sig.wheres.len() > 0 {
        let list: String = join(&bounds(&sig.wheres), ", ");
        out.append(" where ");
        out.append(list.as_str());
    }
    proof {
        assert(out@ =~= returned + wheres_text(sig.wheres@));
    }
    out
}

/// Neon source, fenced for display in an editor's hover popup.
pub open spec fn fenced_text(code: Seq<char>) -> Seq<char> {
    "```neon\n"@ + code + "\n```"@
}

/// Fence a piece of Neon source for display in an editor's hover popup.
pub fn fenced(code: &str) -> (text: String)
    ensures
        text@ == fenced_text(code@),
{
    let mut out: String = "```neon\n".to_owned();
    out.append(code);
    out.append("\n```");
    out
}

/// Whether a function is the one declared at a place. Matched on the span rather than the name:
/// two functions in different modules share a name often.
pub open spec fn declared_at(f: FnSig, site: DefSite) -> bool {
    f.span == site.span && texts(f.module@) == texts(site.module@)
}

/// The first function declared at a place.
pub open spec fn sig_index(fns: Seq<FnSig>, site: DefSite) -> Option<int>
    decreases fns.len(),
{
    if fns.len() == 0 {
        None
    } else {
        match sig_index(fns.drop_last(), site) {
            Some(i) => Some(i),
            None => if declared_at(fns.last(), site) {
                Some(fns.len() - 1)
            } else {
                None
            },
        }
    }
}

/// The signature that a place names, if it names a function.
pub open spec fn sig_at(env: Env, site: DefSite) -> Option<FnSig> {
    match sig_index(env.fns@, site) {
        Some(i) => Some(env.fns@[i]),
        None => None,
    }
}

proof fn lemma_sig_prefix(fns: Seq<FnSig>, k: int, site: DefSite)
    requires
        0 <= k <= fns.len(),
        sig_index(fns.take(k), site) is Some,
    ensures
        sig_index(fns, site) == sig_index(fns.take(k), site),
    decreases fns.len() - k,
{
    if k == fns.len() {
        assert(fns.take(k) =~= fns);
    } else {
        assert(fns.take(k + 1).drop_last() =~= fns.take(k));
        lemma_sig_prefix(fns, k + 1, site);
    }
}

/// The signature that a place names, if it names a function.
pub fn fn_at<'e>(env: &'e Env, site: &DefSite) -> (sig: Option<&'e FnSig>)
    ensures
        sig is Some <==> sig_at(*env, *site) is Some,
        sig matches Some(f) ==> sig_at(*env, *site) == Some(*f),
{
    let n: usize = env.fns.len();
    let mut i: usize = 0;
    while i < n
        invariant
            n == env.fns@.len(),
            i <= n,
            sig_index(env.fns@.take(i as int), *site) is None,
        decreases n - i,
    {
        proof {
            assert(env.fns@.take(i + 1).drop_last() =~= env.fns@.take(i as int));
        }
        if env.fns[i].span == site.span && same_names(&env.fns[i].module, &site.module) {
            proof {
                lemma_sig_prefix(env.fns@, i + 1, *site);
            }
            return Some(&env.fns[i]);
        }
        i = i + 1;
    }
    proof {
        assert(env.fns@.take(n as int) =~= env.fns@);
    }
    None
}

/// How many bytes a span covers.
pub open spec fn width(span: Span) -> int {
    span.end - span.start
}

/// The innermost call around an offset: the narrowest, and the last of several as narrow.
///
/// It is not the innermost expression: the cursor is on an argument, and the argument is not
/// the thing being described.
pub open spec fn call_at(exprs: Seq<Expr>, offset: int) -> Option<int>
    decreases exprs.len(),
{
    if exprs.len() == 0 {
        None
    } else {
        let best = call_at(exprs.drop_last(), offset);
        let e = exprs.last();
        if e.kind is Call && e.span.holds(offset) && (best is None || width(e.span) <= width(
            exprs[best->0].span,
        )) {
            Some(exprs.len() - 1)
        } else {
            best
        }
    }
}

/// The first argument that an offset lies in, or the number of arguments.
pub open spec fn first_arg(args: Seq<Span>, offset: int) -> nat
    decreases args.len(),
{
    if args.len() == 0 {
        0
    } else if args[0].holds(offset) {
        0
    } else {
        1 + first_arg(args.drop_first(), offset)
    }
}

/// The argument that an offset is on: the one it lies in, or else the last.
pub open spec fn active_arg(args: Seq<Span>, offset: int) -> nat {
    let i = first_arg(args, offset);
    if i < args.len() {
        i
    } else if args.len() > 0 {
        (args.len() - 1) as nat
    } else {
        0
    }
}

/// The signature of a call, and which argument the cursor is on.
#[derive(Debug)]
pub struct SignatureHelp {
    pub label: String,
    /// The label of each parameter.
    pub parameters: Vec<String>,
    pub active_parameter: u32,
}

impl SignatureHelp {
    /// Whether this describes a function, with the cursor on a certain argument.
    pub open spec fn describes(self, sig: FnSig, active: nat) -> bool {
        &&& self.label@ == signature_text(sig)
        &&& texts(self.parameters@) == param_texts(sig.params@)
        &&& self.active_parameter == active as u32
    }
}

/// The function that the innermost call around an offset calls, where that is known.
pub open spec fn called_at(checked: Checked, offset: int) -> Option<FnSig> {
    match call_at(checked.module.exprs@, offset) {
        Some(i) => match checked.result.def_of(
            checked.module.exprs@[i].kind->Call_callee,
        ) {
            Some(site) => sig_at(checked.env, site),
            None => None,
        },
        None => None,
    }
}

/// The argument of the innermost call that an offset is on.
pub open spec fn argument_at(checked: Checked, offset: int) -> nat {
    active_arg(
        checked.module.exprs@[call_at(checked.module.exprs@, offset)->0].kind->Call_args@,
        offset,
    )
}

proof fn lemma_call_at(exprs: Seq<Expr>, offset: int)
    ensures
        call_at(exprs, offset) matches Some(i) ==> {
            &&& 0 <= i < exprs.len()
            &&& exprs[i].kind is Call
            &&& exprs[i].span.holds(offset)
            &&& forall|j: int|
                0 <= j < exprs.len() && (#[trigger] exprs[j]).kind is Call
                    && exprs[j].span.holds(offset) ==> width(exprs[i].span) <= width(
                    exprs[j].span,
                )
        },
        call_at(exprs, offset) is None ==> forall|j: int|
            0 <= j < exprs.len() ==> !((#[trigger] exprs[j]).kind is Call
                && exprs[j].span.holds(offset)),
    decreases exprs.len(),
{
    if exprs.len() > 0 {
        let init = exprs.drop_last();
        lemma_call_at(init, offset);
        assert forall|j: int| 0 <= j < init.len() implies #[trigger] exprs[j] == init[j] by {}
    }
}

/// The call described is one that the cursor is in, and no call that the cursor is in is
/// narrower; without one there is no call around the cursor.
pub proof fn law_help_is_for_the_innermost_call(exprs: Seq<Expr>, offset: int)
    ensures
        call_at(exprs, offset) is Some <==> exists|j: int|
            0 <= j < exprs.len() && (#[trigger] exprs[j]).kind is Call
                && exprs[j].span.holds(offset),
        call_at(exprs, offset) matches Some(i) ==> {
            &&& 0 <= i < exprs.len()
            &&& exprs[i].kind is Call
            &&& exprs[i].span.holds(offset)
            &&& forall|j: int|
                0 <= j < exprs.len() && (#[trigger] exprs[j]).kind is Call
                    && exprs[j].span.holds(offset) ==> width(exprs[i].span) <= width(
                    exprs[j].span,
                )
        },
{
    lemma_call_at(exprs, offset);
}

/// The active argument is one of the call's, where it has any, and the cursor is in it unless
/// it is in none.
pub proof fn law_the_active_argument_exists(args: Seq<Span>, offset: int)
    ensures
        args.len() > 0 ==> active_arg(args, offset) < args.len(),
        (exists|i: int| 0 <= i < args.len() && (#[trigger] args[i]).holds(offset))
            ==> args[active_arg(args, offset) as int].holds(offset),
{
    lemma_first_arg(args, offset);
    if exists|i: int| 0 <= i < args.len() && (#[trigger] args[i]).holds(offset) {
        let i = choose|i: int| 0 <= i < args.len() && (#[trigger] args[i]).holds(offset);
        assert(first_arg(args, offset) <= i);
    }
}

proof fn lemma_first_arg(args: Seq<Span>, offset: int)
    ensures
        first_arg(args, offset) <= args.len(),
        first_arg(args, offset) < args.len() ==> args[first_arg(args, offset) as int].holds(
            offset,
        ),
        forall|i: int|
            0 <= i < first_arg(args, offset) ==> !(#[trigger] args[i]).holds(offset),
    decreases args.len(),
{
    if args.len() > 0 && !args[0].holds(offset) {
        let rest = args.drop_first();
        lemma_first_arg(rest, offset);
        assert forall|i: int| 0 <= i < first_arg(args, offset) implies !(
        #[trigger] args[i]).holds(offset) by {
            if i > 0 {
                assert(args[i] == rest[i - 1]);
            }
        }
    }
}

fn active(args: &[Span], offset: usize) -> (i: usize)
    ensures
        i == active_arg(args@, offset as int),
{
    let n: usize = args.len();
    let mut i: usize = 0;
    proof {
        assert(args@.skip(0) =~= args@);
    }
    while i < n
        invariant
            n == args@.len(),
            i <= n,
            first_arg(args@, offset as int) == i + first_arg(args@.skip(i as int), offset as int),
        decreases n - i,
    {
        if args[i].contains(offset) {
            return i;
        }
        proof {
            assert(args@.skip(i as int).drop_first() =~= args@.skip(i + 1));
        }
        i = i + 1;
    }
    if n > 0 {
        n - 1
    } else {
        0
    }
}

fn innermost_call(exprs: &[Expr], offset: usize) -> (best: Option<usize>)
    ensures
        best is Some <==> call_at(exprs@, offset as int) is Some,
        best matches Some(i) ==> i < exprs@.len() && call_at(exprs@, offset as int) == Some(
            i as int,
        ),
{
    let n: usize = exprs.len();
    let mut best: Option<usize> = None;
    let mut i: usize = 0;
    while i < n
        invariant
            n == exprs@.len(),
            i <= n,
            best is Some <==> call_at(exprs@.take(i as int), offset as int) is Some,
            best matches Some(b) ==> b < i && exprs@[b as int].span.holds(offset as int)
                && call_at(exprs@.take(i as int), offset as int) == Some(b as int),
        decreases n - i,
    {
        proof {
            assert(exprs@.take(i + 1).drop_last() =~= exprs@.take(i as int));
        }
        let e: &Expr = &exprs[i];
        let is_call: bool = match &e.kind {
            ExprKind::Call { callee: _, args: _ } => true,
            _ => false,
        };
        if is_call && e.span.contains(offset) {
            let wins: bool = match best {
                Some(b) => {
                    proof {
                        assert(exprs@.take(i + 1)[b as int] == exprs@[b as int]);
                    }
                    e.span.end - e.span.start <= exprs[b].span.end - exprs[b].span.start
                },
                None => true,
            };
            if wins {
                best = Some(i);
            }
        }
        i = i + 1;
    }
    proof {
        assert(exprs@.take(n as int) =~= exprs@);
    }
    best
}

/// The signature of the call the cursor is inside, and which argument it is on.
pub fn signature_help(checked: &Checked, index: &LineIndex, pos: Position) -> (help: Option<
    SignatureHelp,
>)
    ensures
        help is Some <==> called_at(*checked, offset_of(index@, pos) as int) is Some,
        help matches Some(h) ==> h.describes(
            called_at(*checked, offset_of(index@, pos) as int)->0,
            argument_at(*checked, offset_of(index@, pos) as int),
        ),
{
    let offset: usize = index.offset(pos);
    proof {
        lemma_call_at(checked.module.exprs@, offset as int);
    }
    let call: usize = match innermost_call(&checked.module.exprs, offset) {
        Some(i) => i,
        None => {
            return None;
        },
    };
    match &checked.module.exprs[call].kind {
        ExprKind::Call { callee, args } => {
            let site: &DefSite = match checked.result.def(*callee) {
                Some(s) => s,
                None => {
                    return None;
                },
            };
            match fn_at(&checked.env, site) {
                Some(sig) => {
                    let active_parameter: u32 = active(args, offset) as u32;
                    Some(
                        SignatureHelp {
                            label: signature(sig),
                            parameters: param_labels(&sig.params),
                            active_parameter,
                        },
                    )
                },
                None => None,
            }
        },
        _ => None,
    }
}

/// A signature reads as its declaration: the name, the type variables in brackets where there are
/// any, every parameter with its type, what it throws where it can throw, what it returns, and
/// every bound where there are any. The parts that depend on the function are given.
pub proof fn law_a_signature_reads_as_a_declaration(sig: FnSig) -> (parts: (
    Seq<char>,
    Seq<Seq<char>>,
    Seq<char>,
    Seq<Seq<char>>,
))
    ensures
        sig.generics@.len() == 0 <==> parts.0.len() == 0,
        sig.generics@.len() > 0 ==> parts.0 == "["@ + joined(texts(sig.generics@), ", "@) + "]"@,
        parts.1.len() == sig.params@.len(),
        forall|i: int|
            0 <= i < sig.params@.len() ==> #[trigger] parts.1[i] == sig.params@[i].0@ + ": "@
                + sig.params@[i].1.text@,
        sig.throws.never <==> parts.2.len() == 0,
        !sig.throws.never ==> parts.2 == " throws "@ + sig.throws.text@,
        parts.3.len() == sig.wheres@.len(),
        forall|i: int|
            0 <= i < sig.wheres@.len() ==> #[trigger] parts.3[i] == sig.wheres@[i].0@ + ": "@
                + joined(texts(sig.wheres@[i].1@), "::"@),
        signature_text(sig) == "fn "@ + sig.name@ + parts.0 + "("@ + joined(parts.1, ", "@) + ")"@
            + parts.2 + " -> "@ + sig.ret.text@ + (if sig.wheres@.len() == 0 {
            Seq::empty()
        } else {
            " where "@ + joined(parts.3, ", "@)
        }),
{
    reveal_strlit("[");
    reveal_strlit(" throws ");
    (
        generics_text(sig.generics@),
        param_texts(sig.params@),
        throws_text(sig.throws),
        bound_texts(sig.wheres@),
    )
}

/// Whether a function was declared where a definition is: with its span, in its module.
pub open spec fn declares(f: FnSig, site: DefSite) -> bool {
    &&& f.span == site.span
    &&& f.module@.len() == site.module@.len()
    &&& forall|i: int| 0 <= i < f.module@.len() ==> (#[trigger] f.module@[i])@ == site.module@[i]@
}

/// Whether the first function declared where a definition is stands at `f` in the table.
pub open spec fn first_fn(fns: Seq<FnSig>, site: DefSite, f: int) -> bool {
    &&& 0 <= f < fns.len()
    &&& declares(fns[f], site)
    &&& forall|j: int| 0 <= j < f ==> !declares(#[trigger] fns[j], site)
}

/// Whether no function was declared where a definition is.
pub open spec fn no_fn(fns: Seq<FnSig>, site: DefSite) -> bool {
    forall|j: int| 0 <= j < fns.len() ==> !declares(#[trigger] fns[j], site)
}

proof fn lemma_declares(f: FnSig, site: DefSite)
    ensures
        declared_at(f, site) <==> declares(f, site),
{
    let (x, y) = (texts(f.module@), texts(site.module@));
    if x == y {
        assert(x.len() == y.len());
        assert forall|i: int| 0 <= i < f.module@.len() implies (#[trigger] f.module@[i])@
            == site.module@[i]@ by {
            assert(x[i] == y[i]);
        }
    }
    if declares(f, site) {
        assert(x =~= y);
    }
}

proof fn lemma_sig_index_first(fns: Seq<FnSig>, site: DefSite)
    ensures
        sig_index(fns, site) matches Some(f) ==> first_fn(fns, site, f),
        sig_index(fns, site) is None ==> no_fn(fns, site),
    decreases fns.len(),
{
    if fns.len() > 0 {
        let init = fns.drop_last();
        lemma_sig_index_first(init, site);
        lemma_declares(fns.last(), site);
        assert forall|j: int| 0 <= j < init.len() implies #[trigger] fns[j] == init[j] by {}
    }
}

/// A function is known by where it was declared, in whichever module that is: the first of the
/// table with the definition's span and module, if there is one.
pub proof fn law_a_function_is_known_by_where_it_was_declared(env: Env, site: DefSite)
    ensures
        forall|f: int| #[trigger]
            first_fn(env.fns@, site, f) ==> sig_at(env, site) == Some(env.fns@[f]),
        no_fn(env.fns@, site) <==> sig_at(env, site) is None,
        sig_at(env, site) is Some ==> exists|f: int| #[trigger] first_fn(env.fns@, site, f),
{
    lemma_sig_index_first(env.fns@, site);
    assert forall|f: int| #[trigger] first_fn(env.fns@, site, f) implies sig_at(env, site) == Some(
        env.fns@[f],
    ) by {
        let i = sig_index(env.fns@, site)->0;
        assert(declares(env.fns@[f], site));
        assert(i < f ==> !declares(env.fns@[i], site));
        assert(f < i ==> !declares(env.fns@[f], site));
    }
    if let Some(f) = sig_index(env.fns@, site) {
        assert(first_fn(env.fns@, site, f));
    }
}

/// Whether an expression is a call around an offset.
pub open spec fn is_call_around(e: Expr, offset: int) -> bool {
    e.kind is Call && e.span.start <= offset && offset < e.span.end
}

/// Whether the `j`-th expression is the innermost call around an offset: none is narrower, and of
/// those as narrow it is the last that the walk met.
pub open spec fn is_innermost_call(exprs: Seq<Expr>, offset: int, j: int) -> bool {
    &&& 0 <= j < exprs.len()
    &&& is_call_around(exprs[j], offset)
    &&& forall|i: int|
        0 <= i < exprs.len() && is_call_around(#[trigger] exprs[i], offset) ==> {
            &&& exprs[j].span.end - exprs[j].span.start <= exprs[i].span.end - exprs[i].span.start
            &&& i > j ==> exprs[j].span.end - exprs[j].span.start < exprs[i].span.end
                - exprs[i].span.start
        }
}

proof fn lemma_innermost_call(exprs: Seq<Expr>, offset: int)
    ensures
        call_at(exprs, offset) matches Some(j) ==> is_innermost_call(exprs, offset, j),
        call_at(exprs, offset) is None ==> forall|i: int|
            0 <= i < exprs.len() ==> !is_call_around(#[trigger] exprs[i], offset),
    decreases exprs.len(),
{
    if exprs.len() > 0 {
        let init = exprs.drop_last();
        lemma_innermost_call(init, offset);
        assert forall|j: int| 0 <= j < init.len() implies #[trigger] exprs[j] == init[j] by {}
        if let Some(b) = call_at(init, offset) {
            assert(is_call_around(exprs[b], offset));
        }
    }
}

/// Help is about the function that the innermost call around the cursor calls, in whichever
/// module it was declared: there is help exactly where there is such a call, its callee was
/// resolved, and a function of the table was declared where it was resolved to. `j` is the call.
pub proof fn law_the_called_function_is_helped_with(checked: Checked, offset: int, j: int)
    ensures
        (forall|i: int|
            0 <= i < checked.module.exprs@.len() ==> !is_call_around(
                #[trigger] checked.module.exprs@[i],
                offset,
            )) ==> called_at(checked, offset) is None,
        is_innermost_call(checked.module.exprs@, offset, j) ==> {
            let callee = checked.module.exprs@[j].kind->Call_callee;
            let args = checked.module.exprs@[j].kind->Call_args@;
            &&& no_def(checked.result.defs@, callee) ==> called_at(checked, offset) is None
            &&& forall|k: int| #[trigger]
                first_def(checked.result.defs@, callee, k) ==> {
                    let site = checked.result.defs@[k].1;
                    &&& no_fn(checked.env.fns@, site) ==> called_at(checked, offset) is None
                    &&& forall|f: int| #[trigger]
                        first_fn(checked.env.fns@, site, f) ==> called_at(checked, offset) == Some(
                            checked.env.fns@[f],
                        )
                }
            &&& argument_at(checked, offset) == active_arg(args, offset)
        },
{
    let exprs = checked.module.exprs@;
    lemma_innermost_call(exprs, offset);
    if is_innermost_call(exprs, offset, j) {
        let i = call_at(exprs, offset)->0;
        assert(is_call_around(exprs[j], offset));
        assert(i == j);
        let callee = exprs[j].kind->Call_callee;
        law_a_listed_definition_is_found(checked.result, callee);
        assert forall|k: int| #[trigger] first_def(checked.result.defs@, callee, k) implies {
            let site = checked.result.defs@[k].1;
            &&& no_fn(checked.env.fns@, site) ==> called_at(checked, offset) is None
            &&& forall|f: int| #[trigger]
                first_fn(checked.env.fns@, site, f) ==> called_at(checked, offset) == Some(
                    checked.env.fns@[f],
                )
        } by {
            law_a_function_is_known_by_where_it_was_declared(
                checked.env,
                checked.result.defs@[k].1,
            );
        }
    } else if call_at(exprs, offset) is Some {
        assert(is_call_around(exprs[call_at(exprs, offset)->0], offset));
    }
}

/// The active argument is the first one that the cursor is in, and the last where it is in none.
pub proof fn law_the_argument_under_the_cursor_is_active(args: Seq<Span>, offset: int, i: int)
    ensures
        0 <= i < args.len() && args[i].start <= offset && offset < args[i].end && (forall|j: int|
            0 <= j < i ==> !((#[trigger] args[j]).start <= offset && offset < args[j].end))
            ==> active_arg(args, offset) == i,
        (forall|j: int|
            0 <= j < args.len() ==> !((#[trigger] args[j]).start <= offset && offset
                < args[j].end)) ==> active_arg(args, offset) == (if args.len() == 0 {
            0
        } else {
            args.len() - 1
        }),
    decreases args.len(),
{
    lemma_first_arg_at(args, offset, i);
    lemma_first_arg_at(args, offset, args.len() as int);
}

proof fn lemma_first_arg_at(args: Seq<Span>, offset: int, i: int)
    ensures
        0 <= i <= args.len() && (i < args.len() ==> args[i].start <= offset && offset
            < args[i].end) && (forall|j: int|
            0 <= j < i ==> !((#[trigger] args[j]).start <= offset && offset < args[j].end))
            ==> first_arg(args, offset) == i,
    decreases args.len(),
{
    if args.len() > 0 && 0 < i <= args.len() && (forall|j: int|
        0 <= j < i ==> !((#[trigger] args[j]).start <= offset && offset < args[j].end)) {
        let rest = args.drop_first();
        assert(!(args[0].start <= offset && offset < args[0].end));
        assert forall|j: int| 0 <= j < i - 1 implies !((#[trigger] rest[j]).start <= offset
            && offset < rest[j].end) by {
            assert(rest[j] == args[j + 1]);
        }
        if i < args.len() {
            assert(rest[i - 1] == args[i]);
        }
        lemma_first_arg_at(rest, offset, i - 1);
    }
}

/// Help shows the whole signature, every parameter with its type, and which one is active.
pub proof fn law_help_shows_every_parameter(help: SignatureHelp, sig: FnSig, active: nat)
    requires
        help.describes(sig, active),
    ensures
        help.label@ == signature_text(sig),
        help.parameters@.len() == sig.params@.len(),
        forall|i: int|
            0 <= i < sig.params@.len() ==> (#[trigger] help.parameters@[i])@ == sig.params@[i].0@
                + ": "@ + sig.params@[i].1.text@,
        active <= u32::MAX ==> help.active_parameter == active,
{
    let shown = texts(help.parameters@);
    let want = param_texts(sig.params@);
    assert(shown == want);
    assert(shown.len() == help.parameters@.len());
    assert forall|i: int| 0 <= i < sig.params@.len() implies (#[trigger] help.parameters@[i])@
        == sig.params@[i].0@ + ": "@ + sig.params@[i].1.text@ by {
        assert(shown[i] == want[i]);
    }
}

} // verus!
