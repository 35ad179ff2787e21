//! Colouring that knows what a name resolved to.
//!
//! A layer over syntax highlighting, not a replacement for it: an editor already colours
//! keywords, strings and numbers from the text alone. What it cannot do is tell a parameter
//! from a local from a function that happens to be used as a value.

use crate::analysis::Checked;
use crate::position::{
    comes_before, law_positions_keep_the_order_of_offsets, not_after, position_of, LineIndex,
    Position,
};
use crate::ranges::{fits, is_plain, span_fits};
use crate::sort::{
    in_order, in_places, inserted, law_sorting_orders_and_keeps, lemma_one_more_place, sort, sorted,
    Ranked,
};
use crate::syntax::{
    first_def, law_a_listed_definition_is_found, no_def, DefKind, Expr, ExprKind, Span,
};
use crate::utf::byte_len;
use vstd::prelude::*;

verus! {

/// A category of name.
#[derive(Debug, Clone, Copy, PartialEq, Eq, Structural)]
pub enum TokenType {
    Function,
    Parameter,
    Variable,
}

/// The categories this server emits, in the order the protocol numbers them: exactly those that
/// resolution knows and syntax does not.
pub const TOKEN_TYPES: [TokenType; 3] = [
    TokenType::Function,
    TokenType::Parameter,
    TokenType::Variable,
];

/// The number of a function's category.
pub const TOK_FUNCTION: u32 = 0;

/// The number of a parameter's category.
pub const TOK_PARAMETER: u32 = 1;

/// The number of a variable's category.
pub const TOK_VARIABLE: u32 = 2;

/// One coloured name, placed relative to the one before it.
#[derive(Debug, Clone, Copy, PartialEq, Eq, Structural)]
pub struct SemanticToken {
    pub delta_line: u32,
    /// From the start of the one before it when both are on one line, else from the line's.
    pub delta_start: u32,
    pub length: u32,
    pub token_type: u32,
    pub token_modifiers_bitset: u32,
}

/// A name to colour, where it stands.
#[derive(Debug, Clone, Copy)]
pub struct Token {
    pub span: Span,
    pub token_type: u32,
}

impl Ranked for Token {
    /// Names are listed by where they start, then by where they end.
    open spec fn at_most(self, other: Self) -> bool {
        self.span.at_most(other.span)
    }

    fn ranks_at_most(&self, other: &Self) -> (yes: bool) {
        self.span.ranks_at_most(&other.span)
    }

    proof fn order_laws(a: Self, b: Self, c: Self) {
    }
}

/// The number of the category of what a name turned out to be. A constant is coloured as a
/// variable: telling them apart would take a modifier, and none is sent.
pub open spec fn token_type_of(kind: DefKind) -> u32 {
    match kind {
        DefKind::Fn => TOK_FUNCTION,
        DefKind::Param => TOK_PARAMETER,
        DefKind::Local => TOK_VARIABLE,
        DefKind::Const => TOK_VARIABLE,
    }
}

/// The names among some expressions that were resolved.
pub open spec fn tokens_in(checked: Checked, exprs: Seq<Expr>) -> Seq<Token>
    decreases exprs.len(),
{
    if exprs.len() == 0 {
        Seq::empty()
    } else {
        let before = tokens_in(checked, exprs.drop_last());
        let e = exprs.last();
        if e.kind is Path && checked.result.def_of(e.id) is Some {
            before.push(
                Token {
                    span: e.span,
                    token_type: token_type_of(checked.result.def_of(e.id)->0.kind),
                },
            )
        } else {
            before
        }
    }
}

/// The names to colour, in order.
pub open spec fn tokens_of(checked: Checked) -> Seq<Token> {
    sorted(tokens_in(checked, checked.module.exprs@))
}

/// Whether a name stands on one line.
pub open spec fn on_one_line(text: Seq<char>, span: Span) -> bool {
    position_of(text, span.start as int).line == position_of(text, span.end as int).line
}

/// Names, each placed relative to the one before it, the first relative to `prev`. A name that
/// covers a line break has no length the protocol can express and is left out.
pub open spec fn encoded(text: Seq<char>, tokens: Seq<Token>, prev: Position) -> Seq<
    SemanticToken,
>
    decreases tokens.len(),
{
    if tokens.len() == 0 {
        Seq::empty()
    } else {
        let t = tokens[0];
        let rest = tokens.drop_first();
        let at = position_of(text, t.span.start as int);
        let end = position_of(text, t.span.end as int);
        if !on_one_line(text, t.span) {
            encoded(text, rest, prev)
        } else {
            seq![
                SemanticToken {
                    delta_line: (at.line - prev.line) as u32,
                    delta_start: if at.line == prev.line {
                        (at.character - prev.character) as u32
                    } else {
                        at.character
                    },
                    length: (end.character - at.character) as u32,
                    token_type: t.token_type,
                    token_modifiers_bitset: 0,
                },
            ] + encoded(text, rest, at)
        }
    }
}

/// The first position of a document.
pub open spec fn origin() -> Position {
    Position { line: 0, character: 0 }
}

/// Whether names can be placed, reading from `prev`: their spans are spans of the text, and
/// where one stands on one line it does not begin before the one before it, nor end before it
/// begins.
pub open spec fn tokens_fit(text: Seq<char>, tokens: Seq<Token>, prev: Position) -> bool
    decreases tokens.len(),
{
    if tokens.len() == 0 {
        true
    } else {
        let t = tokens[0];
        let rest = tokens.drop_first();
        let at = position_of(text, t.span.start as int);
        let end = position_of(text, t.span.end as int);
        &&& span_fits(text, t.span)
        &&& if on_one_line(text, t.span) {
            &&& not_after(prev, at)
            &&& at.character <= end.character
            &&& tokens_fit(text, rest, at)
        } else {
            tokens_fit(text, rest, prev)
        }
    }
}

/// The names to colour, in the order the walk meets them.
fn find_tokens(checked: &Checked) -> (found: Vec<Token>)
    ensures
        found@ == tokens_in(*checked, checked.module.exprs@),
{
    let ghost exprs = checked.module.exprs@;
    let mut found: Vec<Token> = Vec::new();
    let n: usize = checked.module.exprs.len();
    let mut i: usize = 0;
    while i < n
        invariant
            exprs == checked.module.exprs@,
            n == exprs.len(),
            i <= n,
            found@ == tokens_in(*checked, exprs.take(i as int)),
        decreases n - i,
    {
        proof {
            assert(exprs.take(i + 1).drop_last() =~= exprs.take(i as int));
        }
        let e: &Expr = &checked.module.exprs[i];
        let is_name: bool = match &e.kind {
            ExprKind::Path => true,
            _ => false,
        };
        if is_name {
            if let Some(site) = checked.result.def(e.id) {
                let token_type: u32 = match site.kind {
                    DefKind::Fn => TOK_FUNCTION,
                    DefKind::Param => TOK_PARAMETER,
                    DefKind::Local => TOK_VARIABLE,
                    DefKind::Const => TOK_VARIABLE,
                };
                found.push(Token { span: e.span, token_type });
            }
        }
        i = i + 1;
    }
    proof {
        assert(exprs.take(n as int) =~= exprs);
    }
    found
}

/// Resolution-aware colouring for every name in the file.
///
/// The protocol wants tokens relative to each other and in increasing order. Getting the order
/// wrong does not error: the client silently renders garbage from the first out-of-order token
/// on, which is why the sort is unconditional.
pub fn semantic_tokens(checked: &Checked, index: &LineIndex) -> (tokens: Vec<SemanticToken>)
    requires
        tokens_fit(index@, tokens_of(*checked), origin()),
    ensures
        tokens@ == encoded(index@, tokens_of(*checked), origin()),
{
    let mut found: Vec<Token> = find_tokens(checked);
    sort(&mut found);
    let ghost all = found@;
    let mut out: Vec<SemanticToken> = Vec::new();
    let mut prev: Position = Position { line: 0, character: 0 };
    let n: usize = found.len();
    let mut i: usize = 0;
    proof {
        assert(all.skip(0) =~= all);
        assert(out@ + encoded(index@, all, prev) =~= encoded(index@, all, prev));
    }
    while i < n
        invariant
            found@ == all,
            n == all.len(),
            i <= n,
            tokens_fit(index@, all.skip(i as int), prev),
            encoded(index@, all, origin()) == out@ + encoded(index@, all.skip(i as int), prev),
        decreases n - i,
    {
        let t: Token = found[i];
        proof {
            assert(all.skip(i as int)[0] == t);
            assert(all.skip(i as int).drop_first() =~= all.skip(i + 1));
        }
        let at: Position = index.position(t.span.start);
        let end: Position = index.position(t.span.end);
        if end.line == at.line {
            let delta_line: u32 = at.line - prev.line;
            let delta_start: u32 = if delta_line == 0 {
                at.character - prev.character
            } else {
                at.character
            };
            let ghost before = out@;
            let token: SemanticToken = SemanticToken {
                delta_line,
                delta_start,
                length: end.character - at.character,
                token_type: t.token_type,
                token_modifiers_bitset: 0,
            };
            out.push(token);
            prev = at;
            proof {
                let rest = encoded(index@, all.skip(i + 1), at);
                assert(before + (seq![token] + rest) =~= out@ + rest);
            }
        }
        i = i + 1;
    }
    proof {
        assert(all.skip(n as int) =~= Seq::<Token>::empty());
        assert(out@ + Seq::<SemanticToken>::empty() =~= out@);
    }
    out
}

/// Whether every name can be placed.
pub fn can_colour(checked: &Checked, index: &LineIndex) -> (yes: bool)
    ensures
        yes == tokens_fit(index@, tokens_of(*checked), origin()),
{
    let mut found: Vec<Token> = find_tokens(checked);
    sort(&mut found);
    let ghost all = found@;
    let mut prev: Position = Position { line: 0, character: 0 };
    let n: usize = found.len();
    let mut i: usize = 0;
    proof {
        assert(all.skip(0) =~= all);
    }
    while i < n
        invariant
            found@ == all,
            all == tokens_of(*checked),
            n == all.len(),
            i <= n,
            tokens_fit(index@, all, origin()) == tokens_fit(index@, all.skip(i as int), prev),
        decreases n - i,
    {
        let span: Span = found[i].span;
        proof {
            assert(all.skip(i as int)[0] == found@[i as int]);
            assert(all.skip(i as int).drop_first() =~= all.skip(i + 1));
        }
        if !fits(index, span) {
            return false;
        }
        let at: Position = index.position(span.start);
        let end: Position = index.position(span.end);
        if at.line == end.line {
            if at.character > end.character || at.line < prev.line || (at.line == prev.line
                && at.character < prev.character) {
                return false;
            }
            prev = at;
        }
        i = i + 1;
    }
    true
}

/// The names of a text can be placed wherever their spans are spans of it that end no earlier
/// than they begin, and the counts of their positions fit: the sort sees to the rest.
pub proof fn law_sorted_names_can_be_placed(text: Seq<char>, checked: Checked)
    requires
        forall|i: int|
            0 <= i < tokens_of(checked).len() ==> is_plain(
                text,
                (#[trigger] tokens_of(checked)[i]).span,
            ),
    ensures
        tokens_fit(text, tokens_of(checked), origin()),
{
    law_sorting_orders_and_keeps(tokens_in(checked, checked.module.exprs@));
    lemma_plain_fits(text, tokens_of(checked), origin());
}

proof fn lemma_plain_fits(text: Seq<char>, tokens: Seq<Token>, prev: Position)
    requires
        in_order(tokens),
        forall|i: int| 0 <= i < tokens.len() ==> is_plain(text, (#[trigger] tokens[i]).span),
        forall|j: int|
            0 <= j < tokens.len() ==> not_after(
                prev,
                position_of(text, (#[trigger] tokens[j]).span.start as int),
            ),
    ensures
        tokens_fit(text, tokens, prev),
    decreases tokens.len(),
{
    if tokens.len() > 0 {
        let t = tokens[0];
        let rest = tokens.drop_first();
        let at = position_of(text, t.span.start as int);
        assert(is_plain(text, tokens[0].span));
        assert(not_after(prev, position_of(text, tokens[0].span.start as int)));
        law_positions_keep_the_order_of_offsets(text, t.span.start as int, t.span.end as int);
        assert forall|i: int, j: int| 0 <= i < j < rest.len() implies #[trigger] rest[i].at_most(
            #[trigger] rest[j],
        ) by {
            assert(tokens[i + 1].at_most(tokens[j + 1]));
        }
        assert forall|j: int| 0 <= j < rest.len() implies is_plain(
            text,
            (#[trigger] rest[j]).span,
        ) && not_after(prev, position_of(text, rest[j].span.start as int)) && not_after(
            at,
            position_of(text, rest[j].span.start as int),
        ) by {
            assert(is_plain(text, tokens[j + 1].span));
            assert(not_after(prev, position_of(text, tokens[j + 1].span.start as int)));
            assert(tokens[0].at_most(tokens[j + 1]));
            law_positions_keep_the_order_of_offsets(
                text,
                t.span.start as int,
                rest[j].span.start as int,
            );
        }
        if on_one_line(text, t.span) {
            lemma_plain_fits(text, rest, at);
        } else {
            lemma_plain_fits(text, rest, prev);
        }
    }
}

/// What a client makes of tokens, reading them from `prev`: where each stands, how long it is
/// and what it is.
pub open spec fn decoded(tokens: Seq<SemanticToken>, prev: Position) -> Seq<(Position, u32, u32)>
    decreases tokens.len(),
{
    if tokens.len() == 0 {
        Seq::empty()
    } else {
        let t = tokens[0];
        let at = Position {
            line: (prev.line + t.delta_line) as u32,
            character: if t.delta_line == 0 {
                (prev.character + t.delta_start) as u32
            } else {
                t.delta_start
            },
        };
        seq![(at, t.length, t.token_type)] + decoded(tokens.drop_first(), at)
    }
}

/// Names as they stand in the text: where each begins, how long it is and what it is. One that
/// covers a line break is left out.
pub open spec fn placed(text: Seq<char>, tokens: Seq<Token>) -> Seq<(Position, u32, u32)>
    decreases tokens.len(),
{
    if tokens.len() == 0 {
        Seq::empty()
    } else {
        let t = tokens[0];
        let rest = placed(text, tokens.drop_first());
        let at = position_of(text, t.span.start as int);
        let end = position_of(text, t.span.end as int);
        if on_one_line(text, t.span) {
            seq![(at, (end.character - at.character) as u32, t.token_type)] + rest
        } else {
            rest
        }
    }
}

/// A client that reads the tokens back finds every name that stands on one line, exactly where
/// it stands in the text, in order.
pub proof fn law_tokens_read_back_where_they_stand(
    text: Seq<char>,
    tokens: Seq<Token>,
    prev: Position,
)
    requires
        tokens_fit(text, tokens, prev),
    ensures
        decoded(encoded(text, tokens, prev), prev) == placed(text, tokens),
    decreases tokens.len(),
{
    if tokens.len() > 0 {
        let t = tokens[0];
        let rest = tokens.drop_first();
        let at = position_of(text, t.span.start as int);
        if on_one_line(text, t.span) {
            law_tokens_read_back_where_they_stand(text, rest, at);
            assert(encoded(text, tokens, prev).drop_first() =~= encoded(text, rest, at));
        } else {
            law_tokens_read_back_where_they_stand(text, rest, prev);
        }
    }
}

/// Whether each token from the `k`-th on is on a later line than the one before it, or further
/// along the same one.
pub open spec fn advances(tokens: Seq<SemanticToken>, k: int) -> bool {
    forall|i: int|
        k <= i < tokens.len() ==> (#[trigger] tokens[i]).delta_line > 0 || tokens[i].delta_start
            > 0
}

proof fn lemma_advance(text: Seq<char>, tokens: Seq<Token>, prev: Position)
    requires
        in_order(tokens),
        forall|i: int| 0 <= i < tokens.len() ==> is_plain(text, (#[trigger] tokens[i]).span),
        forall|i: int, j: int|
            0 <= i < j < tokens.len() ==> (#[trigger] tokens[i]).span.start != (
            #[trigger] tokens[j]).span.start,
        forall|i: int|
            0 <= i < tokens.len() ==> (#[trigger] tokens[i]).span.start <= byte_len(text),
        forall|j: int|
            0 <= j < tokens.len() ==> comes_before(
                prev,
                position_of(text, (#[trigger] tokens[j]).span.start as int),
            ),
    ensures
        advances(encoded(text, tokens, prev), 0),
    decreases tokens.len(),
{
    if tokens.len() > 0 {
        let t = tokens[0];
        let rest = tokens.drop_first();
        let at = position_of(text, t.span.start as int);
        assert(is_plain(text, tokens[0].span));
        assert forall|i: int, j: int| 0 <= i < j < rest.len() implies #[trigger] rest[i].at_most(
            #[trigger] rest[j],
        ) && rest[i].span.start != rest[j].span.start by {
            assert(tokens[i + 1].at_most(tokens[j + 1]));
        }
        assert forall|j: int| 0 <= j < rest.len() implies is_plain(
            text,
            (#[trigger] rest[j]).span,
        ) && rest[j].span.start <= byte_len(text) by {
            assert(is_plain(text, tokens[j + 1].span));
        }
        assert(comes_before(prev, position_of(text, tokens[0].span.start as int)));
        let out = encoded(text, tokens, prev);
        if on_one_line(text, t.span) {
            assert forall|j: int| 0 <= j < rest.len() implies comes_before(
                at,
                position_of(text, (#[trigger] rest[j]).span.start as int),
            ) by {
                assert(tokens[0].at_most(tokens[j + 1]));
                assert(is_plain(text, tokens[j + 1].span));
                assert(tokens[0].span.start != tokens[j + 1].span.start);
                law_positions_keep_the_order_of_offsets(
                    text,
                    t.span.start as int,
                    rest[j].span.start as int,
                );
            }
            lemma_advance(text, rest, at);
            let more = encoded(text, rest, at);
            assert forall|i: int| 0 <= i < out.len() implies (#[trigger] out[i]).delta_line > 0
                || out[i].delta_start > 0 by {
                if i > 0 {
                    assert(out[i] == more[i - 1]);
                } else {
                    assert(out[0].delta_line == at.line - prev.line);
                }
            }
        } else {
            assert forall|j: int| 0 <= j < rest.len() implies comes_before(
                prev,
                position_of(text, (#[trigger] rest[j]).span.start as int),
            ) by {
                assert(comes_before(prev, position_of(text, tokens[j + 1].span.start as int)));
            }
            lemma_advance(text, rest, prev);
        }
    }
}

/// Where no two names start at the same place, every token after the first advances: it is on a
/// later line than the one before it, or further along the same one.
pub proof fn law_tokens_advance(text: Seq<char>, tokens: Seq<Token>)
    requires
        in_order(tokens),
        forall|i: int| 0 <= i < tokens.len() ==> is_plain(text, (#[trigger] tokens[i]).span),
        forall|i: int, j: int|
            0 <= i < j < tokens.len() ==> (#[trigger] tokens[i]).span.start != (
            #[trigger] tokens[j]).span.start,
        forall|i: int|
            0 <= i < tokens.len() ==> (#[trigger] tokens[i]).span.start <= byte_len(text),
    ensures
        advances(encoded(text, tokens, origin()), 1),
    decreases tokens.len(),
{
    if tokens.len() > 0 {
        let t = tokens[0];
        let rest = tokens.drop_first();
        let at = position_of(text, t.span.start as int);
        assert(is_plain(text, tokens[0].span));
        assert forall|i: int, j: int| 0 <= i < j < rest.len() implies #[trigger] rest[i].at_most(
            #[trigger] rest[j],
        ) && rest[i].span.start != rest[j].span.start by {
            assert(tokens[i + 1].at_most(tokens[j + 1]));
        }
        assert forall|j: int| 0 <= j < rest.len() implies is_plain(
            text,
            (#[trigger] rest[j]).span,
        ) && rest[j].span.start <= byte_len(text) by {
            assert(is_plain(text, tokens[j + 1].span));
        }
        if on_one_line(text, t.span) {
            assert forall|j: int| 0 <= j < rest.len() implies comes_before(
                at,
                position_of(text, (#[trigger] rest[j]).span.start as int),
            ) by {
                assert(tokens[0].at_most(tokens[j + 1]));
                assert(is_plain(text, tokens[j + 1].span));
                assert(tokens[0].span.start != tokens[j + 1].span.start);
                law_positions_keep_the_order_of_offsets(
                    text,
                    t.span.start as int,
                    rest[j].span.start as int,
                );
            }
            lemma_advance(text, rest, at);
            let out = encoded(text, tokens, origin());
            let more = encoded(text, rest, at);
            assert forall|i: int| 1 <= i < out.len() implies (#[trigger] out[i]).delta_line > 0
                || out[i].delta_start > 0 by {
                assert(out[i] == more[i - 1]);
            }
        } else {
            law_tokens_advance(text, rest);
        }
    }
}

proof fn lemma_token_places(checked: Checked, exprs: Seq<Expr>, n: int) -> (at: Seq<int>)
    requires
        0 <= n <= exprs.len(),
    ensures
        in_places(at, n),
        tokens_in(checked, exprs.take(n)).len() == at.len(),
        forall|k: int|
            0 <= k < at.len() ==> {
                let t = tokens_in(checked, exprs.take(n))[k];
                let e = exprs[#[trigger] at[k]];
                t.span == e.span && t.token_type == token_type_of(
                    checked.result.def_of(e.id)->0.kind,
                )
            },
        forall|i: int|
            0 <= i < n ==> (#[trigger] at.contains(i) <==> exprs[i].kind is Path
                && checked.result.def_of(exprs[i].id) is Some),
    decreases n,
{
    if n == 0 {
        Seq::empty()
    } else {
        let before = lemma_token_places(checked, exprs, n - 1);
        assert(exprs.take(n).drop_last() =~= exprs.take(n - 1));
        assert(exprs.take(n).last() == exprs[n - 1]);
        lemma_one_more_place(before, n - 1);
        let e = exprs[n - 1];
        if e.kind is Path && checked.result.def_of(e.id) is Some {
            let at = before.push(n - 1);
            let list = tokens_in(checked, exprs.take(n));
            assert forall|k: int| 0 <= k < at.len() implies {
                let t = list[k];
                let e = exprs[#[trigger] at[k]];
                t.span == e.span && t.token_type == token_type_of(
                    checked.result.def_of(e.id)->0.kind,
                )
            } by {
                if k < before.len() {
                    assert(at[k] == before[k]);
                }
            }
            at
        } else {
            before
        }
    }
}

/// Where a token stands, how long it is and what it is, if it is on one line.
spec fn spot(text: Seq<char>, t: Token) -> (Position, u32, u32) {
    let start = position_of(text, t.span.start as int);
    let end = position_of(text, t.span.end as int);
    (start, (end.character - start.character) as u32, t.token_type)
}

proof fn lemma_placed_contains(text: Seq<char>, tokens: Seq<Token>)
    ensures
        forall|k: int|
            0 <= k < tokens.len() && on_one_line(text, (#[trigger] tokens[k]).span) ==> placed(
                text,
                tokens,
            ).contains(spot(text, tokens[k])),
        forall|x: (Position, u32, u32)| #[trigger]
            placed(text, tokens).contains(x) ==> exists|k: int|
                0 <= k < tokens.len() && on_one_line(text, (#[trigger] tokens[k]).span) && spot(
                    text,
                    tokens[k],
                ) == x,
    decreases tokens.len(),
{
    if tokens.len() > 0 {
        let rest = tokens.drop_first();
        lemma_placed_contains(text, rest);
        let all = placed(text, tokens);
        let tail = placed(text, rest);
        let first = on_one_line(text, tokens[0].span);
        let shift: int = if first {
            1
        } else {
            0
        };
        assert forall|i: int| 0 <= i < tail.len() implies #[trigger] all[i + shift] == tail[i] by {}
        assert forall|k: int|
            0 <= k < tokens.len() && on_one_line(text, (#[trigger] tokens[k]).span) implies all
            .contains(spot(text, tokens[k])) by {
            if k == 0 {
                assert(all[0] == spot(text, tokens[0]));
            } else {
                assert(rest[k - 1] == tokens[k]);
                assert(tail.contains(spot(text, rest[k - 1])));
                let i = choose|i: int| 0 <= i < tail.len() && tail[i] == spot(text, tokens[k]);
                assert(all[i + shift] == tail[i]);
            }
        }
        assert forall|x: (Position, u32, u32)| #[trigger] all.contains(x) implies exists|k: int|
            0 <= k < tokens.len() && on_one_line(text, (#[trigger] tokens[k]).span) && spot(
                text,
                tokens[k],
            ) == x by {
            let i = choose|i: int| 0 <= i < all.len() && all[i] == x;
            if i < shift {
                assert(spot(text, tokens[0]) == all[i]);
            } else {
                assert(all[i - shift + shift] == tail[i - shift]);
                assert(tail.contains(x));
                let k = choose|k: int|
                    0 <= k < rest.len() && on_one_line(text, (#[trigger] rest[k]).span) && spot(
                        text,
                        rest[k],
                    ) == x;
                assert(tokens[k + 1] == rest[k]);
            }
        }
    }
}

proof fn lemma_placed_push(text: Seq<char>, tokens: Seq<Token>, t: Token)
    ensures
        placed(text, tokens.push(t)).len() == placed(text, tokens).len() + (if on_one_line(
            text,
            t.span,
        ) {
            1int
        } else {
            0int
        }),
    decreases tokens.len(),
{
    let all = tokens.push(t);
    if tokens.len() == 0 {
        reveal_with_fuel(placed, 2);
        assert(all.drop_first() =~= Seq::<Token>::empty());
    } else {
        assert(all.drop_first() =~= tokens.drop_first().push(t));
        assert(all[0] == tokens[0]);
        lemma_placed_push(text, tokens.drop_first(), t);
    }
}

proof fn lemma_placed_inserted(text: Seq<char>, tokens: Seq<Token>, t: Token)
    ensures
        placed(text, inserted(tokens, t)).len() == placed(text, tokens.push(t)).len(),
    decreases tokens.len(),
{
    if tokens.len() > 0 && !tokens.last().at_most(t) {
        let init = tokens.drop_last();
        lemma_placed_inserted(text, init, t);
        lemma_placed_push(text, inserted(init, t), tokens.last());
        lemma_placed_push(text, init, t);
        lemma_placed_push(text, init, tokens.last());
        lemma_placed_push(text, tokens, t);
        assert(init.push(tokens.last()) =~= tokens);
    }
}

proof fn lemma_placed_sorted(text: Seq<char>, tokens: Seq<Token>)
    ensures
        placed(text, sorted(tokens)).len() == placed(text, tokens).len(),
    decreases tokens.len(),
{
    if tokens.len() > 0 {
        let init = tokens.drop_last();
        lemma_placed_sorted(text, init);
        lemma_placed_inserted(text, sorted(init), tokens.last());
        lemma_placed_push(text, sorted(init), tokens.last());
        lemma_placed_push(text, init, tokens.last());
        assert(init.push(tokens.last()) =~= tokens);
    }
}

proof fn lemma_placed_places(text: Seq<char>, tokens: Seq<Token>, n: int) -> (at: Seq<int>)
    requires
        0 <= n <= tokens.len(),
    ensures
        in_places(at, n),
        placed(text, tokens.take(n)).len() == at.len(),
        forall|i: int|
            0 <= i < n ==> (#[trigger] at.contains(i) <==> on_one_line(text, tokens[i].span)),
    decreases n,
{
    if n == 0 {
        Seq::empty()
    } else {
        let before = lemma_placed_places(text, tokens, n - 1);
        lemma_one_more_place(before, n - 1);
        lemma_placed_push(text, tokens.take(n - 1), tokens[n - 1]);
        assert(tokens.take(n - 1).push(tokens[n - 1]) =~= tokens.take(n));
        if on_one_line(text, tokens[n - 1].span) {
            before.push(n - 1)
        } else {
            before
        }
    }
}

/// Whether an expression is coloured: it is a name, it resolved, and it is on one line.
pub open spec fn is_coloured(checked: Checked, text: Seq<char>, e: Expr) -> bool {
    &&& e.kind is Path
    &&& !no_def(checked.result.defs@, e.id)
    &&& position_of(text, e.span.start as int).line == position_of(text, e.span.end as int).line
}

/// The number that a client is told for what a name turned out to be: its place in the legend.
pub open spec fn colour_of(kind: DefKind) -> u32 {
    match kind {
        DefKind::Fn => 0,
        DefKind::Param => 1,
        DefKind::Local | DefKind::Const => 2,
    }
}

/// Whether what a client reads for a token is about a name.
pub open spec fn colours(
    read: (Position, u32, u32),
    checked: Checked,
    text: Seq<char>,
    e: Expr,
) -> bool {
    let start = position_of(text, e.span.start as int);
    let end = position_of(text, e.span.end as int);
    &&& read.0 == start
    &&& read.1 == (end.character - start.character) as u32
    &&& forall|k: int| #[trigger]
        first_def(checked.result.defs@, e.id, k) ==> read.2 == colour_of(
            checked.result.defs@[k].1.kind,
        )
}

/// A client that adds the deltas up reads a token for every name that resolved, where the name
/// stands and as long as it is, with what it turned out to be; it reads nothing else, and no more
/// tokens than there are such names, which `at` lists.
pub proof fn law_every_resolved_name_is_coloured(
    checked: Checked,
    text: Seq<char>,
    tokens: Seq<SemanticToken>,
) -> (at: Seq<int>)
    requires
        tokens == encoded(text, tokens_of(checked), origin()),
        tokens_fit(text, tokens_of(checked), origin()),
    ensures
        ({
            let read = decoded(tokens, Position { line: 0, character: 0 });
            let exprs = checked.module.exprs@;
            &&& in_places(at, exprs.len() as int)
            &&& forall|i: int|
                0 <= i < exprs.len() ==> (#[trigger] at.contains(i) <==> is_coloured(
                    checked,
                    text,
                    exprs[i],
                ))
            &&& read.len() == at.len()
            &&& forall|i: int|
                0 <= i < exprs.len() && is_coloured(checked, text, #[trigger] exprs[i])
                    ==> exists|x: (Position, u32, u32)| #[trigger]
                    read.contains(x) && colours(x, checked, text, exprs[i])
            &&& forall|x: (Position, u32, u32)| #[trigger]
                read.contains(x) ==> exists|i: int|
                    0 <= i < exprs.len() && is_coloured(checked, text, #[trigger] exprs[i])
                        && colours(x, checked, text, exprs[i])
        }),
{
    let exprs = checked.module.exprs@;
    let found = tokens_in(checked, exprs);
    let all = tokens_of(checked);
    let read = decoded(tokens, Position { line: 0, character: 0 });
    law_tokens_read_back_where_they_stand(text, all, origin());
    assert(read == placed(text, all));
    law_sorting_orders_and_keeps(found);
    lemma_placed_sorted(text, found);
    lemma_placed_contains(text, all);
    let names = lemma_token_places(checked, exprs, exprs.len() as int);
    assert(exprs.take(exprs.len() as int) =~= exprs);
    let lined = lemma_placed_places(text, found, found.len() as int);
    assert(found.take(found.len() as int) =~= found);
    let at = Seq::new(lined.len(), |k: int| names[lined[k]]);
    assert forall|i: int| 0 <= i < exprs.len() implies (#[trigger] at.contains(i) <==> is_coloured(
        checked,
        text,
        exprs[i],
    )) by {
        law_a_listed_definition_is_found(checked.result, exprs[i].id);
        assert(names.contains(i) <==> exprs[i].kind is Path && checked.result.def_of(exprs[i].id)
            is Some);
        if at.contains(i) {
            let k = choose|k: int| 0 <= k < at.len() && at[k] == i;
            assert(lined.contains(lined[k]));
            assert(names[lined[k]] == i);
            assert(names.contains(i));
            assert(on_one_line(text, found[lined[k]].span));
        }
        if is_coloured(checked, text, exprs[i]) {
            let m = choose|m: int| 0 <= m < names.len() && names[m] == i;
            assert(found[m].span == exprs[names[m]].span);
            assert(lined.contains(m));
            let k = choose|k: int| 0 <= k < lined.len() && lined[k] == m;
            assert(at[k] == i);
        }
    }
    assert forall|j: int, k: int| 0 <= j < k < at.len() implies #[trigger] at[j]
        < #[trigger] at[k] by {
        assert(lined[j] < lined[k]);
        assert(names[lined[j]] < names[lined[k]]);
    }
    assert forall|k: int| 0 <= k < at.len() implies 0 <= #[trigger] at[k] < exprs.len() by {
        assert(0 <= lined[k] < found.len());
        assert(0 <= names[lined[k]] < exprs.len());
    }
    assert forall|i: int|
        0 <= i < exprs.len() && is_coloured(checked, text, #[trigger] exprs[i]) implies exists|
        x: (Position, u32, u32),
    | #[trigger]
        read.contains(x) && colours(x, checked, text, exprs[i]) by {
        law_a_listed_definition_is_found(checked.result, exprs[i].id);
        assert(names.contains(i));
        let m = choose|m: int| 0 <= m < names.len() && names[m] == i;
        assert(found[m].span == exprs[names[m]].span);
        assert(found.contains(found[m]));
        assert(all.contains(found[m]));
        let a = choose|a: int| 0 <= a < all.len() && all[a] == found[m];
        assert(on_one_line(text, all[a].span));
        assert(read.contains(spot(text, all[a])));
        assert(colours(spot(text, all[a]), checked, text, exprs[i]));
    }
    assert forall|x: (Position, u32, u32)| #[trigger] read.contains(x) implies exists|i: int|
        0 <= i < exprs.len() && is_coloured(checked, text, #[trigger] exprs[i]) && colours(
            x,
            checked,
            text,
            exprs[i],
        ) by {
        let a = choose|a: int|
            0 <= a < all.len() && on_one_line(text, (#[trigger] all[a]).span) && spot(text, all[a])
                == x;
        assert(all.contains(all[a]));
        assert(found.contains(all[a]));
        let m = choose|m: int| 0 <= m < found.len() && found[m] == all[a];
        let i = names[m];
        assert(names.contains(i));
        law_a_listed_definition_is_found(checked.result, exprs[i].id);
        assert(is_coloured(checked, text, exprs[i]));
        assert(colours(x, checked, text, exprs[i]));
    }
    at
}

/// The legend lists what the numbers stand for.
pub proof fn law_the_legend_explains_the_colours(kind: DefKind)
    ensures
        TOKEN_TYPES@.len() == 3,
        TOKEN_TYPES@[colour_of(kind) as int] == (match kind {
            DefKind::Fn => TokenType::Function,
            DefKind::Param => TokenType::Parameter,
            DefKind::Local | DefKind::Const => TokenType::Variable,
        }),
{
}

} // verus!
