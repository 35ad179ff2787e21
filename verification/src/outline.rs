//! The outline of a file: every declaration, in source order.
//!
//! Nested rather than flat. A module containing ten functions is the case the outline is for,
//! and flattening it produces ten entries with no indication of what they belong to.

use crate::analysis::Checked;
use crate::position::{has_position, position_of, LineIndex, Range};
use crate::ranges::{fits, range, range_of, span_fits};
use crate::syntax::{Decl, DeclKind};
use crate::text::{join, joined, texts};
use crate::sort::{in_places, lemma_one_more_place};
use vstd::prelude::*;

verus! {

/// What an entry of the outline is.
#[derive(Debug, Clone, Copy, PartialEq, Eq, Structural)]
pub enum SymbolKind {
    Function,
    Struct,
    Interface,
    TypeParameter,
    Constant,
    Module,
    Class,
    Method,
}

/// One entry in the outline, with whatever it contains.
#[derive(Debug)]
pub struct Symbol {
    pub name: String,
    pub kind: SymbolKind,
    pub range: Range,
    pub children: Vec<Symbol>,
}

/// What an entry of the outline says.
pub struct SymbolView {
    pub name: Seq<char>,
    pub kind: SymbolKind,
    pub range: Range,
    pub children: Seq<SymbolView>,
}

/// What an entry of the outline says.
pub open spec fn seen(symbol: Symbol) -> SymbolView
    decreases symbol,
{
    SymbolView {
        name: symbol.name@,
        kind: symbol.kind,
        range: symbol.range,
        children: all_seen(symbol.children@),
    }
}

/// What entries of the outline say.
pub open spec fn all_seen(symbols: Seq<Symbol>) -> Seq<SymbolView>
    decreases symbols,
{
    if symbols.len() == 0 {
        Seq::empty()
    } else {
        all_seen(symbols.drop_last()).push(seen(symbols.last()))
    }
}

impl View for Symbol {
    type V = SymbolView;

    open spec fn view(&self) -> SymbolView {
        seen(*self)
    }
}

/// An entry that contains nothing.
pub open spec fn leaf(name: Seq<char>, kind: SymbolKind, range: Range) -> SymbolView {
    SymbolView { name, kind, range, children: Seq::empty() }
}

/// The methods of an implementation. They carry the range of the whole.
pub open spec fn methods_of(methods: Seq<String>, range: Range) -> Seq<SymbolView> {
    Seq::new(methods.len(), |i: int| leaf(methods[i]@, SymbolKind::Method, range))
}

/// The entries for one declaration, of which there is at most one. An implementation is named by
/// what it implements, which is a type rather than a name, so it is shown as its own group with
/// the methods inside. Imports and tests are not listed.
pub open spec fn entry(text: Seq<char>, decl: Decl) -> Seq<SymbolView>
    decreases decl,
{
    let range = range_of(text, decl.span);
    match decl.kind {
        DeclKind::Fn(name) => seq![leaf(name@, SymbolKind::Function, range)],
        DeclKind::Record(name) => seq![leaf(name@, SymbolKind::Struct, range)],
        DeclKind::Protocol(name) => seq![leaf(name@, SymbolKind::Interface, range)],
        DeclKind::TypeAlias(name) => seq![leaf(name@, SymbolKind::TypeParameter, range)],
        DeclKind::MuType(name) => seq![leaf(name@, SymbolKind::TypeParameter, range)],
        DeclKind::Newtype(name) => seq![leaf(name@, SymbolKind::TypeParameter, range)],
        DeclKind::Const(name) => seq![leaf(name@, SymbolKind::Constant, range)],
        DeclKind::Mod { name, decls } => seq![
            SymbolView {
                name: name@,
                kind: SymbolKind::Module,
                range,
                children: outline(text, decls@),
            },
        ],
        DeclKind::Impl { protocol, methods } => seq![
            SymbolView {
                name: "impl "@ + joined(texts(protocol@), "::"@),
                kind: SymbolKind::Class,
                range,
                children: methods_of(methods@, range),
            },
        ],
        DeclKind::Use => Seq::empty(),
        DeclKind::TestBlock => Seq::empty(),
        DeclKind::Error => Seq::empty(),
    }
}

/// The outline of some declarations, in source order.
pub open spec fn outline(text: Seq<char>, decls: Seq<Decl>) -> Seq<SymbolView>
    decreases decls,
{
    if decls.len() == 0 {
        Seq::empty()
    } else {
        outline(text, decls.drop_last()) + entry(text, decls.last())
    }
}

/// Whether a declaration's entry can be shown: its span, and those inside it, are spans of the
/// text.
pub open spec fn entry_fits(text: Seq<char>, decl: Decl) -> bool
    decreases decl,
{
    match decl.kind {
        DeclKind::Use => true,
        DeclKind::TestBlock => true,
        DeclKind::Error => true,
        DeclKind::Mod { name, decls } => span_fits(text, decl.span) && outline_fits(text, decls@),
        _ => span_fits(text, decl.span),
    }
}

/// Whether an outline can be shown.
pub open spec fn outline_fits(text: Seq<char>, decls: Seq<Decl>) -> bool
    decreases decls,
{
    if decls.len() == 0 {
        true
    } else {
        outline_fits(text, decls.drop_last()) && entry_fits(text, decls.last())
    }
}

proof fn lemma_fits_each(text: Seq<char>, decls: Seq<Decl>, i: int)
    requires
        outline_fits(text, decls),
        0 <= i < decls.len(),
    ensures
        entry_fits(text, decls[i]),
    decreases decls.len(),
{
    if i < decls.len() - 1 {
        lemma_fits_each(text, decls.drop_last(), i);
    }
}

proof fn lemma_seen_push(symbols: Seq<Symbol>, symbol: Symbol)
    ensures
        all_seen(symbols.push(symbol)) == all_seen(symbols).push(seen(symbol)),
{
    assert(symbols.push(symbol).drop_last() =~= symbols);
}

/// The outline of one file: every declaration, in source order.
pub fn document_symbols(checked: &Checked, index: &LineIndex) -> (symbols: Vec<Symbol>)
    requires
        outline_fits(index@, checked.module.decls@),
    ensures
        all_seen(symbols@) == outline(index@, checked.module.decls@),
{
    collect_symbols(&checked.module.decls, index)
}

/// The outline of some declarations.
pub fn collect_symbols(decls: &[Decl], index: &LineIndex) -> (symbols: Vec<Symbol>)
    requires
        outline_fits(index@, decls@),
    ensures
        all_seen(symbols@) == outline(index@, decls@),
    decreases decls@,
{
    let mut symbols: Vec<Symbol> = Vec::new();
    let n: usize = decls.len();
    let mut i: usize = 0;
    while i < n
        invariant
            n == decls@.len(),
            i <= n,
            outline_fits(index@, decls@),
            all_seen(symbols@) == outline(index@, decls@.take(i as int)),
        decreases n - i,
    {
        proof {
            assert(decls@.take(i + 1).drop_last() =~= decls@.take(i as int));
            lemma_fits_each(index@, decls@, i as int);
        }
        let d: &Decl = &decls[i];
        let ghost before = symbols@;
        let listed: Option<Symbol> = symbol_for(d, index);
        if let Some(symbol) = listed {
            proof {
                lemma_seen_push(before, symbol);
            }
            symbols.push(symbol);
        }
        proof {
            assert(all_seen(symbols@) =~= all_seen(before) + entry(index@, *d));
        }
        i = i + 1;
    }
    proof {
        assert(decls@.take(n as int) =~= decls@);
    }
    symbols
}

/// The entry for one declaration.
fn symbol_for(d: &Decl, index: &LineIndex) -> (symbol: Option<Symbol>)
    requires
        entry_fits(index@, *d),
    ensures
        symbol is Some <==> entry(index@, *d).len() > 0,
        symbol matches Some(s) ==> entry(index@, *d) == seq![seen(s)],
    decreases d,
{
    let (name, kind): (String, SymbolKind) = match &d.kind {
        DeclKind::Fn(name) => (name.clone(), SymbolKind::Function),
        DeclKind::Record(name) => (name.clone(), SymbolKind::Struct),
        DeclKind::Protocol(name) => (name.clone(), SymbolKind::Interface),
        DeclKind::TypeAlias(name) => (name.clone(), SymbolKind::TypeParameter),
        DeclKind::MuType(name) => (name.clone(), SymbolKind::TypeParameter),
        DeclKind::Newtype(name) => (name.clone(), SymbolKind::TypeParameter),
        DeclKind::Const(name) => (name.clone(), SymbolKind::Constant),
        DeclKind::Mod { name, decls } => {
            return Some(
                Symbol {
                    name: name.clone(),
                    kind: SymbolKind::Module,
                    range: range(index, d.span),
                    children: collect_symbols(decls, index),
                },
            );
        },
        DeclKind::Impl { protocol, methods } => {
            let at: Range = range(index, d.span);
            let mut name: String = "impl ".to_owned();
            name.append(join(protocol, "::").as_str());
            return Some(
                Symbol { name, kind: SymbolKind::Class, range: at, children: members(methods, at) },
            );
        },
        DeclKind::Use => {
            return None;
        },
        DeclKind::TestBlock => {
            return None;
        },
        DeclKind::Error => {
            return None;
        },
    };
    Some(Symbol { name, kind, range: range(index, d.span), children: Vec::new() })
}

/// The methods of an implementation.
fn members(methods: &[String], at: Range) -> (symbols: Vec<Symbol>)
    ensures
        all_seen(symbols@) == methods_of(methods@, at),
{
    let mut symbols: Vec<Symbol> = Vec::new();
    let n: usize = methods.len();
    let mut i: usize = 0;
    while i < n
        invariant
            n == methods@.len(),
            i <= n,
            all_seen(symbols@) =~= methods_of(methods@, at).take(i as int),
        decreases n - i,
    {
        let symbol: Symbol = Symbol {
            name: methods[i].clone(),
            kind: SymbolKind::Method,
            range: at,
            children: Vec::new(),
        };
        proof {
            lemma_seen_push(symbols@, symbol);
        }
        symbols.push(symbol);
        i = i + 1;
    }
    symbols
}

/// Whether an outline can be shown.
pub fn can_outline(decls: &[Decl], index: &LineIndex) -> (yes: bool)
    ensures
        yes == outline_fits(index@, decls@),
    decreases decls@,
{
    let n: usize = decls.len();
    let mut i: usize = 0;
    while i < n
        invariant
            n == decls@.len(),
            i <= n,
            outline_fits(index@, decls@.take(i as int)),
        decreases n - i,
    {
        proof {
            assert(decls@.take(i + 1).drop_last() =~= decls@.take(i as int));
        }
        let d: &Decl = &decls[i];
        let yes: bool = match &d.kind {
            DeclKind::Use => true,
            DeclKind::TestBlock => true,
            DeclKind::Error => true,
            DeclKind::Mod { name: _, decls: inner } => fits(index, d.span) && can_outline(
                inner,
                index,
            ),
            _ => fits(index, d.span),
        };
        proof {
            assert(yes == entry_fits(index@, decls@[i as int]));
            assert(decls@.take(i + 1).last() == decls@[i as int]);
        }
        if !yes {
            proof {
                if outline_fits(index@, decls@) {
                    lemma_fits_each(index@, decls@, i as int);
                }
            }
            return false;
        }
        i = i + 1;
    }
    proof {
        assert(decls@.take(n as int) =~= decls@);
    }
    true
}

/// The module's own declarations are what its entry contains, however deep it is.
pub proof fn law_a_module_nests_inside_itself(text: Seq<char>, decls: Seq<Decl>, i: int)
    requires
        0 <= i < decls.len(),
        decls[i].kind is Mod,
    ensures
        outline(text, decls).contains(
            SymbolView {
                name: decls[i].kind->Mod_name@,
                kind: SymbolKind::Module,
                range: range_of(text, decls[i].span),
                children: outline(text, decls[i].kind->Mod_decls@),
            },
        ),
    decreases decls.len(),
{
    let init = decls.drop_last();
    let before = outline(text, init);
    let last = entry(text, decls.last());
    let symbol = SymbolView {
        name: decls[i].kind->Mod_name@,
        kind: SymbolKind::Module,
        range: range_of(text, decls[i].span),
        children: outline(text, decls[i].kind->Mod_decls@),
    };
    if i < init.len() {
        law_a_module_nests_inside_itself(text, init, i);
        let k = choose|k: int| 0 <= k < before.len() && before[k] == symbol;
        assert((before + last)[k] == symbol);
    } else {
        assert(last[0] == symbol);
        assert((before + last)[before.len() as int] == symbol);
    }
}

/// Whether a declaration is listed in the outline: imports, tests and what did not parse are not.
pub open spec fn is_listed(kind: DeclKind) -> bool {
    !(kind is Use || kind is TestBlock || kind is Error)
}

/// Whether a symbol is about a declaration that has a name and nothing inside.
pub open spec fn is_leaf(symbol: Symbol, name: String, kind: SymbolKind) -> bool {
    symbol.name@ == name@ && symbol.kind == kind && symbol.children@.len() == 0
}

/// Whether a symbol is about a declaration: its name, its kind, where it stands, and what is
/// inside it.
pub open spec fn symbolises(symbol: Symbol, decl: Decl, text: Seq<char>) -> bool {
    &&& symbol.range.start == position_of(text, decl.span.start as int)
    &&& symbol.range.end == position_of(text, decl.span.end as int)
    &&& match decl.kind {
        DeclKind::Fn(name) => is_leaf(symbol, name, SymbolKind::Function),
        DeclKind::Record(name) => is_leaf(symbol, name, SymbolKind::Struct),
        DeclKind::Protocol(name) => is_leaf(symbol, name, SymbolKind::Interface),
        DeclKind::TypeAlias(name) => is_leaf(symbol, name, SymbolKind::TypeParameter),
        DeclKind::MuType(name) => is_leaf(symbol, name, SymbolKind::TypeParameter),
        DeclKind::Newtype(name) => is_leaf(symbol, name, SymbolKind::TypeParameter),
        DeclKind::Const(name) => is_leaf(symbol, name, SymbolKind::Constant),
        DeclKind::Mod { name, decls } => symbol.name@ == name@ && symbol.kind == SymbolKind::Module
            && all_seen(symbol.children@) == outline(text, decls@),
        DeclKind::Impl { protocol, methods } => {
            &&& symbol.name@ == "impl "@ + joined(texts(protocol@), "::"@)
            &&& symbol.kind == SymbolKind::Class
            &&& symbol.children@.len() == methods@.len()
            &&& forall|m: int|
                0 <= m < methods@.len() ==> {
                    let method = #[trigger] symbol.children@[m];
                    is_leaf(method, methods@[m], SymbolKind::Method) && method.range
                        == symbol.range
                }
        },
        _ => false,
    }
}

proof fn lemma_all_seen(symbols: Seq<Symbol>)
    ensures
        all_seen(symbols).len() == symbols.len(),
        forall|i: int|
            0 <= i < symbols.len() ==> #[trigger] all_seen(symbols)[i] == seen(symbols[i]),
    decreases symbols.len(),
{
    if symbols.len() > 0 {
        let init = symbols.drop_last();
        lemma_all_seen(init);
        assert forall|i: int| 0 <= i < symbols.len() implies #[trigger] all_seen(symbols)[i]
            == seen(symbols[i]) by {
            if i < init.len() {
                assert(init[i] == symbols[i]);
            }
        }
    }
}

proof fn lemma_symbolises(symbol: Symbol, decl: Decl, text: Seq<char>)
    requires
        entry(text, decl) == seq![seen(symbol)],
    ensures
        symbolises(symbol, decl, text),
{
    let want = entry(text, decl);
    assert(want.len() == 1);
    assert(want[0] == seen(symbol));
    lemma_all_seen(symbol.children@);
    if let DeclKind::Impl { protocol, methods } = decl.kind {
        let inside = methods_of(methods@, range_of(text, decl.span));
        assert(all_seen(symbol.children@) == inside);
        assert forall|m: int| 0 <= m < methods@.len() implies {
            let method = #[trigger] symbol.children@[m];
            is_leaf(method, methods@[m], SymbolKind::Method) && method.range == symbol.range
        } by {
            assert(inside[m] == seen(symbol.children@[m]));
            lemma_all_seen(symbol.children@[m].children@);
        }
    }
}

proof fn lemma_outline_places(text: Seq<char>, decls: Seq<Decl>, n: int) -> (at: Seq<int>)
    requires
        0 <= n <= decls.len(),
    ensures
        in_places(at, n),
        outline(text, decls.take(n)).len() == at.len(),
        forall|k: int|
            0 <= k < at.len() ==> entry(text, decls[#[trigger] at[k]]) == seq![
                outline(text, decls.take(n))[k],
            ],
        forall|i: int|
            0 <= i < n ==> (#[trigger] at.contains(i) <==> is_listed(decls[i].kind)),
    decreases n,
{
    if n == 0 {
        Seq::empty()
    } else {
        let before = lemma_outline_places(text, decls, n - 1);
        assert(decls.take(n).drop_last() =~= decls.take(n - 1));
        assert(decls.take(n).last() == decls[n - 1]);
        lemma_one_more_place(before, n - 1);
        let list = outline(text, decls.take(n));
        let init = outline(text, decls.take(n - 1));
        let last = entry(text, decls[n - 1]);
        assert(list == init + last);
        if is_listed(decls[n - 1].kind) {
            let at = before.push(n - 1);
            assert(last.len() == 1);
            assert forall|k: int| 0 <= k < at.len() implies entry(text, decls[#[trigger] at[k]])
                == seq![list[k]] by {
                if k < before.len() {
                    assert(at[k] == before[k]);
                    assert(list[k] == init[k]);
                } else {
                    assert(list[k] == last[0]);
                    assert(last =~= seq![last[0]]);
                }
            }
            at
        } else {
            assert(last.len() == 0);
            assert(list =~= init);
            before
        }
    }
}

/// Every declaration that has a name is in the outline, in the order of the text, with its kind,
/// its range and what is inside it; imports, tests and what did not parse are not. `at` lists
/// which. The same holds of what a module holds, which is outlined the same way.
pub proof fn law_every_declaration_is_in_the_outline(
    text: Seq<char>,
    decls: Seq<Decl>,
    symbols: Seq<Symbol>,
) -> (at: Seq<int>)
    requires
        all_seen(symbols) == outline(text, decls),
    ensures
        in_places(at, decls.len() as int),
        symbols.len() == at.len(),
        forall|k: int|
            0 <= k < at.len() ==> symbolises(symbols[k], decls[#[trigger] at[k]], text),
        forall|i: int|
            0 <= i < decls.len() ==> (#[trigger] at.contains(i) <==> is_listed(decls[i].kind)),
{
    let at = lemma_outline_places(text, decls, decls.len() as int);
    assert(decls.take(decls.len() as int) =~= decls);
    lemma_all_seen(symbols);
    assert forall|k: int| 0 <= k < at.len() implies symbolises(
        symbols[k],
        decls[#[trigger] at[k]],
        text,
    ) by {
        assert(outline(text, decls)[k] == seen(symbols[k]));
        lemma_symbolises(symbols[k], decls[at[k]], text);
    }
    at
}

/// An outline can be shown exactly when every declaration in it has a span of the text, inside
/// modules too.
pub proof fn law_an_outline_of_fitting_spans_can_be_shown(text: Seq<char>, decls: Seq<Decl>)
    ensures
        outline_fits(text, decls) <==> forall|i: int|
            0 <= i < decls.len() && is_listed((#[trigger] decls[i]).kind) ==> has_position(
                text,
                decls[i].span.start as int,
            ) && has_position(text, decls[i].span.end as int) && (decls[i].kind is Mod
                ==> outline_fits(text, decls[i].kind->Mod_decls@)),
    decreases decls.len(),
{
    if decls.len() > 0 {
        let init = decls.drop_last();
        law_an_outline_of_fitting_spans_can_be_shown(text, init);
        assert forall|i: int| 0 <= i < init.len() implies #[trigger] decls[i] == init[i] by {}
        let last = decls.len() - 1;
        assert(decls[last] == decls.last());
        assert(entry_fits(text, decls[last]) <==> (is_listed(decls[last].kind) ==> has_position(
            text,
            decls[last].span.start as int,
        ) && has_position(text, decls[last].span.end as int) && (decls[last].kind is Mod
            ==> outline_fits(text, decls[last].kind->Mod_decls@))));
        if outline_fits(text, decls) {
            assert forall|i: int|
                0 <= i < decls.len() && is_listed((#[trigger] decls[i]).kind) implies has_position(
                text,
                decls[i].span.start as int,
            ) && has_position(text, decls[i].span.end as int) && (decls[i].kind is Mod
                ==> outline_fits(text, decls[i].kind->Mod_decls@)) by {
                if i < last {
                    assert(init[i] == decls[i]);
                }
            }
        }
    }
}

} // verus!
