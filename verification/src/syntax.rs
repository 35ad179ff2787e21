//! What the server reads of a checked file, as plain values.
//!
//! The compiler's tree, its type table and its maps stay with the compiler. What a request
//! needs of them is listed here once per check: the expressions, patterns and blocks that the
//! compiler's own walk meets, in the order it meets them; the definition and the type it
//! recorded for each expression; and the signatures it knows, with every type already spelled
//! out.

use crate::sort::{Listed, Ranked};
use crate::text::{same_names, texts};
use vstd::prelude::*;

verus! {

/// A range of bytes in a file, its end excluded.
#[derive(Debug, Clone, Copy, PartialEq, Eq, Structural)]
pub struct Span {
    pub start: usize,
    pub end: usize,
}

impl Span {
    /// Whether the byte at `offset` lies inside.
    pub open spec fn holds(self, offset: int) -> bool {
        self.start <= offset < self.end
    }

    /// Whether the byte at `offset` lies inside.
    pub fn contains(&self, offset: usize) -> (yes: bool)
        ensures
            yes == self.holds(offset as int),
    {
        self.start <= offset && offset < self.end
    }
}

impl Ranked for Span {
    /// Spans are listed by where they start, then by where they end.
    open spec fn at_most(self, other: Self) -> bool {
        self.start < other.start || (self.start == other.start && self.end <= other.end)
    }

    fn ranks_at_most(&self, other: &Self) -> (yes: bool) {
        self.start < other.start || (self.start == other.start && self.end <= other.end)
    }

    proof fn order_laws(a: Self, b: Self, c: Self) {
    }
}

impl Listed for Span {
    fn same_as(&self, other: &Self) -> (same: bool) {
        self.start == other.start && self.end == other.end
    }

    proof fn distinct_laws(a: Self, b: Self) {
    }
}

/// The number the compiler gave an expression, unique in one compilation.
#[derive(Debug, Clone, Copy, PartialEq, Eq, Structural)]
pub struct ExprId(pub u32);

/// As much of an expression's form as any request asks about.
#[derive(Debug)]
pub enum ExprKind {
    /// A name.
    Path,
    /// A call: what is called, and where each argument stands.
    Call { callee: ExprId, args: Vec<Span> },
    Other,
}

#[derive(Debug)]
pub struct Expr {
    pub id: ExprId,
    pub span: Span,
    pub kind: ExprKind,
}

/// The innermost expression at a place, as the compiler's walk finds it.
#[derive(Debug, Clone, Copy, PartialEq, Eq, Structural)]
pub struct Node {
    pub id: ExprId,
    pub span: Span,
}

/// One `let`.
#[derive(Debug)]
pub struct Let {
    /// Where its pattern stands.
    pub pattern: Span,
    /// Whether the pattern is a single name.
    pub binds: bool,
    /// Whether the type was written down.
    pub annotated: bool,
    /// The initialiser.
    pub value: ExprId,
}

/// What a declaration declares.
#[derive(Debug)]
pub enum DeclKind {
    Fn(String),
    Record(String),
    Protocol(String),
    TypeAlias(String),
    MuType(String),
    Newtype(String),
    Const(String),
    Mod { name: String, decls: Vec<Decl> },
    Impl { protocol: Vec<String>, methods: Vec<String> },
    Use,
    TestBlock,
    Error,
}

#[derive(Debug)]
pub struct Decl {
    pub span: Span,
    pub kind: DeclKind,
}

/// One file's syntax. Every list is in the order of the compiler's walk.
#[derive(Debug)]
pub struct Module {
    pub decls: Vec<Decl>,
    pub exprs: Vec<Expr>,
    pub patterns: Vec<Span>,
    pub blocks: Vec<Span>,
    pub lets: Vec<Let>,
}

/// What a name turned out to be.
#[derive(Debug, Clone, Copy, PartialEq, Eq, Structural)]
pub enum DefKind {
    Fn,
    Param,
    Local,
    Const,
}

/// Where a name was defined.
#[derive(Debug)]
pub struct DefSite {
    pub module: Vec<String>,
    pub span: Span,
    pub kind: DefKind,
}

impl DefSite {
    /// Whether two sites are the same one.
    pub open spec fn is(self, other: Self) -> bool {
        &&& texts(self.module@) == texts(other.module@)
        &&& self.span == other.span
        &&& self.kind == other.kind
    }

    /// Whether two sites are the same one.
    pub fn same_site(&self, other: &DefSite) -> (same: bool)
        ensures
            same == self.is(*other),
    {
        self.span == other.span && self.kind == other.kind && same_names(
            &self.module,
            &other.module,
        )
    }
}

/// A type, spelled out in Neon syntax.
#[derive(Debug)]
pub struct Ty {
    pub text: String,
    /// Whether it is `never`, which is how the absence of a `throws` clause is recorded.
    pub never: bool,
}

/// A function the compilation knows.
#[derive(Debug)]
pub struct FnSig {
    pub name: String,
    pub module: Vec<String>,
    pub span: Span,
    pub generics: Vec<String>,
    pub params: Vec<(String, Ty)>,
    pub throws: Ty,
    pub ret: Ty,
    /// Each type variable with the protocol that bounds it.
    pub wheres: Vec<(String, Vec<String>)>,
    pub has_body: bool,
}

/// What the checker decided about expressions.
#[derive(Debug)]
pub struct TypecheckResult {
    /// For each name that resolved, where it was defined. In the order the checker lists them.
    pub defs: Vec<(ExprId, DefSite)>,
    /// For each expression that was typed, its type.
    pub types: Vec<(ExprId, Ty)>,
}

/// Where in a list the first definition for an expression stands.
pub open spec fn def_index(defs: Seq<(ExprId, DefSite)>, id: ExprId) -> Option<int>
    decreases defs.len(),
{
    if defs.len() == 0 {
        None
    } else {
        match def_index(defs.drop_last(), id) {
            Some(i) => Some(i),
            None => if defs.last().0 == id {
                Some(defs.len() - 1)
            } else {
                None
            },
        }
    }
}

/// Where in a list the first type for an expression stands.
pub open spec fn type_index(types: Seq<(ExprId, Ty)>, id: ExprId) -> Option<int>
    decreases types.len(),
{
    if types.len() == 0 {
        None
    } else {
        match type_index(types.drop_last(), id) {
            Some(i) => Some(i),
            None => if types.last().0 == id {
                Some(types.len() - 1)
            } else {
                None
            },
        }
    }
}

impl TypecheckResult {
    /// Where the name that an expression is was defined, when it is one and resolved.
    pub open spec fn def_of(self, id: ExprId) -> Option<DefSite> {
        match def_index(self.defs@, id) {
            Some(i) => Some(self.defs@[i].1),
            None => None,
        }
    }

    /// The type of an expression, when it was given one.
    pub open spec fn type_of(self, id: ExprId) -> Option<Ty> {
        match type_index(self.types@, id) {
            Some(i) => Some(self.types@[i].1),
            None => None,
        }
    }

    /// Where the name that an expression is was defined, when it is one and resolved.
    pub fn def(&self, id: ExprId) -> (site: Option<&DefSite>)
        ensures
            site is Some <==> self.def_of(id) is Some,
            site matches Some(s) ==> self.def_of(id) == Some(*s),
    {
        let n: usize = self.defs.len();
        let mut i: usize = 0;
        while i < n
            invariant
                n == self.defs@.len(),
                i <= n,
                def_index(self.defs@.take(i as int), id) is None,
            decreases n - i,
        {
            proof {
                assert(self.defs@.take(i + 1).drop_last() =~= self.defs@.take(i as int));
            }
            if self.defs[i].0 == id {
                proof {
                    lemma_def_index_prefix(self.defs@, i + 1, id);
                }
                return Some(&self.defs[i].1);
            }
            i = i + 1;
        }
        proof {
            assert(self.defs@.take(n as int) =~= self.defs@);
        }
        None
    }

    /// The type of an expression, when it was given one.
    pub fn ty(&self, id: ExprId) -> (ty: Option<&Ty>)
        ensures
            ty is Some <==> self.type_of(id) is Some,
            ty matches Some(t) ==> self.type_of(id) == Some(*t),
    {
        let n: usize = self.types.len();
        let mut i: usize = 0;
        while i < n
            invariant
                n == self.types@.len(),
                i <= n,
                type_index(self.types@.take(i as int), id) is None,
            decreases n - i,
        {
            proof {
                assert(self.types@.take(i + 1).drop_last() =~= self.types@.take(i as int));
            }
            if self.types[i].0 == id {
                proof {
                    lemma_type_index_prefix(self.types@, i + 1, id);
                }
                return Some(&self.types[i].1);
            }
            i = i + 1;
        }
        proof {
            assert(self.types@.take(n as int) =~= self.types@);
        }
        None
    }
}

proof fn lemma_def_index_prefix(defs: Seq<(ExprId, DefSite)>, k: int, id: ExprId)
    requires
        0 <= k <= defs.len(),
        def_index(defs.take(k), id) is Some,
    ensures
        def_index(defs, id) == def_index(defs.take(k), id),
    decreases defs.len() - k,
{
    if k == defs.len() {
        assert(defs.take(k) =~= defs);
    } else {
        assert(defs.take(k + 1).drop_last() =~= defs.take(k));
        lemma_def_index_prefix(defs, k + 1, id);
    }
}

proof fn lemma_type_index_prefix(types: Seq<(ExprId, Ty)>, k: int, id: ExprId)
    requires
        0 <= k <= types.len(),
        type_index(types.take(k), id) is Some,
    ensures
        type_index(types, id) == type_index(types.take(k), id),
    decreases types.len() - k,
{
    if k == types.len() {
        assert(types.take(k) =~= types);
    } else {
        assert(types.take(k + 1).drop_last() =~= types.take(k));
        lemma_type_index_prefix(types, k + 1, id);
    }
}

/// What the whole compilation declares.
#[derive(Debug)]
pub struct Env {
    pub fns: Vec<FnSig>,
}

/// What kind of text the lexer set aside.
#[derive(Debug, Clone, Copy, PartialEq, Eq, Structural)]
pub enum TriviaKind {
    /// A `///` comment.
    Doc,
    Other,
}

/// Text the lexer set aside: a comment.
#[derive(Debug)]
pub struct Trivia {
    pub kind: TriviaKind,
    pub span: Span,
    pub text: String,
}

/// Whether the first definition that the checker lists for an expression is its `k`-th.
pub open spec fn first_def(defs: Seq<(ExprId, DefSite)>, id: ExprId, k: int) -> bool {
    &&& 0 <= k < defs.len()
    &&& defs[k].0 == id
    &&& forall|j: int| 0 <= j < k ==> (#[trigger] defs[j]).0 != id
}

/// Whether the checker lists no definition for an expression.
pub open spec fn no_def(defs: Seq<(ExprId, DefSite)>, id: ExprId) -> bool {
    forall|j: int| 0 <= j < defs.len() ==> (#[trigger] defs[j]).0 != id
}

/// Whether the first type that the checker lists for an expression is its `k`-th.
pub open spec fn first_type(types: Seq<(ExprId, Ty)>, id: ExprId, k: int) -> bool {
    &&& 0 <= k < types.len()
    &&& types[k].0 == id
    &&& forall|j: int| 0 <= j < k ==> (#[trigger] types[j]).0 != id
}

/// Whether the checker lists no type for an expression.
pub open spec fn no_type(types: Seq<(ExprId, Ty)>, id: ExprId) -> bool {
    forall|j: int| 0 <= j < types.len() ==> (#[trigger] types[j]).0 != id
}

proof fn lemma_def_index_first(defs: Seq<(ExprId, DefSite)>, id: ExprId)
    ensures
        def_index(defs, id) matches Some(k) ==> first_def(defs, id, k),
        def_index(defs, id) is None ==> no_def(defs, id),
    decreases defs.len(),
{
    if defs.len() > 0 {
        let init = defs.drop_last();
        lemma_def_index_first(init, id);
        assert forall|j: int| 0 <= j < init.len() implies #[trigger] defs[j] == init[j] by {}
    }
}

proof fn lemma_type_index_first(types: Seq<(ExprId, Ty)>, id: ExprId)
    ensures
        type_index(types, id) matches Some(k) ==> first_type(types, id, k),
        type_index(types, id) is None ==> no_type(types, id),
    decreases types.len(),
{
    if types.len() > 0 {
        let init = types.drop_last();
        lemma_type_index_first(init, id);
        assert forall|j: int| 0 <= j < init.len() implies #[trigger] types[j] == init[j] by {}
    }
}

/// An expression that the checker lists a definition for has the first one listed, of whatever
/// kind and module, and one that it lists none for has none.
pub proof fn law_a_listed_definition_is_found(result: TypecheckResult, id: ExprId)
    ensures
        forall|k: int| #[trigger]
            first_def(result.defs@, id, k) ==> result.def_of(id) == Some(result.defs@[k].1),
        no_def(result.defs@, id) <==> result.def_of(id) is None,
        result.def_of(id) is Some ==> exists|k: int| #[trigger] first_def(result.defs@, id, k),
{
    lemma_def_index_first(result.defs@, id);
    assert forall|k: int| #[trigger] first_def(result.defs@, id, k) implies result.def_of(id)
        == Some(result.defs@[k].1) by {
        let i = def_index(result.defs@, id)->0;
        assert(result.defs@[k].0 == id);
        assert(i < k ==> result.defs@[i].0 != id);
        assert(k < i ==> result.defs@[k].0 != id);
    }
    if let Some(k) = def_index(result.defs@, id) {
        assert(first_def(result.defs@, id, k));
    }
}

/// An expression that the checker lists a type for has the first one listed, and one that it
/// lists none for has none.
pub proof fn law_a_listed_type_is_found(result: TypecheckResult, id: ExprId)
    ensures
        forall|k: int| #[trigger]
            first_type(result.types@, id, k) ==> result.type_of(id) == Some(result.types@[k].1),
        no_type(result.types@, id) <==> result.type_of(id) is None,
        result.type_of(id) is Some ==> exists|k: int| #[trigger] first_type(result.types@, id, k),
{
    lemma_type_index_first(result.types@, id);
    assert forall|k: int| #[trigger] first_type(result.types@, id, k) implies result.type_of(id)
        == Some(result.types@[k].1) by {
        let i = type_index(result.types@, id)->0;
        assert(result.types@[k].0 == id);
        assert(i < k ==> result.types@[i].0 != id);
        assert(k < i ==> result.types@[k].0 != id);
    }
    if let Some(k) = type_index(result.types@, id) {
        assert(first_type(result.types@, id, k));
    }
}

/// A span holds its first byte and every byte up to its end, which it does not hold; two sites
/// are the same one when they agree in module, span and kind.
pub proof fn law_spans_and_sites(span: Span, offset: int, a: DefSite, b: DefSite)
    ensures
        span.holds(offset) <==> span.start <= offset && offset < span.end,
        a.is(b) <==> a.module@.len() == b.module@.len() && (forall|i: int|
            0 <= i < a.module@.len() ==> (#[trigger] a.module@[i])@ == b.module@[i]@) && a.span
            == b.span && a.kind == b.kind,
{
    let x = texts(a.module@);
    let y = texts(b.module@);
    if x == y {
        assert(x.len() == y.len());
        assert forall|i: int| 0 <= i < a.module@.len() implies (#[trigger] a.module@[i])@
            == b.module@[i]@ by {
            assert(x[i] == y[i]);
        }
    }
    if a.module@.len() == b.module@.len() && (forall|i: int|
        0 <= i < a.module@.len() ==> (#[trigger] a.module@[i])@ == b.module@[i]@) {
        assert(x =~= y);
    }
}

} // verus!
