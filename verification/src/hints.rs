//! Type annotations for bindings that did not write one.

use crate::analysis::Checked;
use crate::position::{has_position, position_of, LineIndex, Position};
use crate::ranges::offset_fits;
use crate::syntax::{first_type, law_a_listed_type_is_found, no_type, Let};
use crate::sort::{in_places, lemma_one_more_place};
use vstd::prelude::*;

verus! {

/// The hint for one `let`: where its pattern ends, and what inference concluded. A hint
/// restating what the user typed is noise, so there is none for a `let` with a type; and none
/// for a pattern that is more than a name, or a value that was given no type.
pub open spec fn hint_for(checked: Checked, l: Let) -> Option<(usize, Seq<char>)> {
    if l.binds && !l.annotated {
        match checked.result.type_of(l.value) {
            Some(ty) => Some((l.pattern.end, ": "@ + ty.text@)),
            None => None,
        }
    } else {
        None
    }
}

/// The hints for some `let`s, in order.
pub open spec fn hints_for(checked: Checked, lets: Seq<Let>) -> Seq<(usize, Seq<char>)>
    decreases lets.len(),
{
    if lets.len() == 0 {
        Seq::empty()
    } else {
        let before = hints_for(checked, lets.drop_last());
        match hint_for(checked, lets.last()) {
            Some(hint) => before.push(hint),
            None => before,
        }
    }
}

/// Hints as an editor shows them.
pub open spec fn shown_hints(text: Seq<char>, hints: Seq<(usize, Seq<char>)>) -> Seq<
    (Position, Seq<char>),
> {
    Seq::new(hints.len(), |i: int| (position_of(text, hints[i].0 as int), hints[i].1))
}

/// What hints say.
pub open spec fn hint_texts(hints: Seq<(Position, String)>) -> Seq<(Position, Seq<char>)> {
    Seq::new(hints.len(), |i: int| (hints[i].0, hints[i].1@))
}

/// Whether a hint can be shown: its place is one in the text.
pub open spec fn hints_fit(text: Seq<char>, hints: Seq<(usize, Seq<char>)>) -> bool {
    forall|i: int| 0 <= i < hints.len() ==> has_position(text, (#[trigger] hints[i]).0 as int)
}

proof fn lemma_hints_prefix(checked: Checked, lets: Seq<Let>, k: int)
    requires
        0 <= k <= lets.len(),
    ensures
        hints_for(checked, lets.take(k)).len() <= hints_for(checked, lets).len(),
        hints_for(checked, lets.take(k)) == hints_for(checked, lets).take(
            hints_for(checked, lets.take(k)).len() as int,
        ),
    decreases lets.len() - k,
{
    if k == lets.len() {
        assert(lets.take(k) =~= lets);
        let all = hints_for(checked, lets);
        assert(all.take(all.len() as int) =~= all);
    } else {
        lemma_hints_prefix(checked, lets, k + 1);
        assert(lets.take(k + 1).drop_last() =~= lets.take(k));
        let all = hints_for(checked, lets);
        let some = hints_for(checked, lets.take(k));
        assert(some =~= all.take(some.len() as int));
    }
}

/// Type annotations for bindings that did not write one.
pub fn inlay_hints(checked: &Checked, index: &LineIndex) -> (hints: Vec<(Position, String)>)
    requires
        hints_fit(index@, hints_for(*checked, checked.module.lets@)),
    ensures
        hint_texts(hints@) == shown_hints(index@, hints_for(*checked, checked.module.lets@)),
{
    let ghost lets = checked.module.lets@;
    let ghost all = hints_for(*checked, lets);
    let mut hints: Vec<(Position, String)> = Vec::new();
    let n: usize = checked.module.lets.len();
    let mut i: usize = 0;
    while i < n
        invariant
            lets == checked.module.lets@,
            all == hints_for(*checked, lets),
            n == lets.len(),
            i <= n,
            hints_fit(index@, all),
            hint_texts(hints@) =~= shown_hints(index@, hints_for(*checked, lets.take(i as int))),
        decreases n - i,
    {
        let l: &Let = &checked.module.lets[i];
        let ghost some = hints_for(*checked, lets.take(i + 1));
        proof {
            assert(lets.take(i + 1).drop_last() =~= lets.take(i as int));
            lemma_hints_prefix(*checked, lets, i + 1);
        }
        if l.binds && !l.annotated {
            if let Some(ty) = checked.result.ty(l.value) {
                let mut text: String = ": ".to_owned();
                text.append(ty.text.as_str());
                proof {
                    assert(all.take(some.len() as int)[some.len() - 1] == some.last());
                    assert(has_position(index@, all[some.len() - 1].0 as int));
                }
                let ghost before = hints@;
                hints.push((index.position(l.pattern.end), text));
                proof {
                    assert(hint_texts(hints@) =~= hint_texts(before).push(
                        (position_of(index@, l.pattern.end as int), text@),
                    ));
                }
            }
        }
        i = i + 1;
    }
    proof {
        assert(lets.take(n as int) =~= lets);
    }
    hints
}

/// Whether every hint can be shown.
pub fn can_hint(checked: &Checked, index: &LineIndex) -> (yes: bool)
    ensures
        yes == hints_fit(index@, hints_for(*checked, checked.module.lets@)),
{
    let ghost lets = checked.module.lets@;
    let ghost all = hints_for(*checked, lets);
    let n: usize = checked.module.lets.len();
    let mut i: usize = 0;
    while i < n
        invariant
            lets == checked.module.lets@,
            all == hints_for(*checked, lets),
            n == lets.len(),
            i <= n,
            hints_fit(index@, hints_for(*checked, lets.take(i as int))),
        decreases n - i,
    {
        let l: &Let = &checked.module.lets[i];
        let ghost some = hints_for(*checked, lets.take(i + 1));
        proof {
            assert(lets.take(i + 1).drop_last() =~= lets.take(i as int));
            lemma_hints_prefix(*checked, lets, i + 1);
        }
        if l.binds && !l.annotated && checked.result.ty(l.value).is_some() && !offset_fits(
            index,
            l.pattern.end,
        ) {
            proof {
                assert(all.take(some.len() as int)[some.len() - 1] == some.last());
                assert(!has_position(index@, all[some.len() - 1].0 as int));
            }
            return false;
        }
        i = i + 1;
    }
    proof {
        assert(lets.take(n as int) =~= lets);
    }
    true
}

/// A `let` that wrote its type gets no hint, and one that did not gets the type of its value.
pub proof fn law_hints_are_for_bindings_without_a_type(checked: Checked, l: Let)
    ensures
        l.annotated ==> hint_for(checked, l) is None,
        hint_for(checked, l) matches Some(hint) ==> hint.0 == l.pattern.end
            && checked.result.type_of(l.value) is Some && hint.1 == ": "@
            + checked.result.type_of(l.value)->0.text@,
{
}

proof fn lemma_hint_places(checked: Checked, lets: Seq<Let>, n: int) -> (at: Seq<int>)
    requires
        0 <= n <= lets.len(),
    ensures
        in_places(at, n),
        hints_for(checked, lets.take(n)).len() == at.len(),
        forall|k: int|
            0 <= k < at.len() ==> hint_for(checked, lets[#[trigger] at[k]]) == Some(
                hints_for(checked, lets.take(n))[k],
            ),
        forall|i: int|
            0 <= i < n ==> (#[trigger] at.contains(i) <==> hint_for(checked, lets[i]) is Some),
    decreases n,
{
    if n == 0 {
        Seq::empty()
    } else {
        let before = lemma_hint_places(checked, lets, n - 1);
        assert(lets.take(n).drop_last() =~= lets.take(n - 1));
        assert(lets.take(n).last() == lets[n - 1]);
        lemma_one_more_place(before, n - 1);
        if hint_for(checked, lets[n - 1]) is Some {
            let at = before.push(n - 1);
            let list = hints_for(checked, lets.take(n));
            assert forall|k: int| 0 <= k < at.len() implies hint_for(
                checked,
                lets[#[trigger] at[k]],
            ) == Some(list[k]) by {
                if k < before.len() {
                    assert(at[k] == before[k]);
                }
            }
            at
        } else {
            before
        }
    }
}

/// Whether a `let` is shown its type: it binds a single name, the type was not written down, and
/// the checker gave the initialiser one.
pub open spec fn wants_hint(checked: Checked, l: Let) -> bool {
    l.binds && !l.annotated && !no_type(checked.result.types@, l.value)
}

/// Every `let` that binds a name without its type written down is shown the type of its
/// initialiser right after the name, and no other is: `at` lists which, in the order of the text.
pub proof fn law_every_binding_without_a_type_is_hinted(
    checked: Checked,
    text: Seq<char>,
    hints: Seq<(Position, String)>,
) -> (at: Seq<int>)
    requires
        hint_texts(hints) == shown_hints(text, hints_for(checked, checked.module.lets@)),
    ensures
        in_places(at, checked.module.lets@.len() as int),
        hints.len() == at.len(),
        forall|k: int|
            0 <= k < at.len() ==> {
                let l = checked.module.lets@[#[trigger] at[k]];
                &&& hints[k].0 == position_of(text, l.pattern.end as int)
                &&& forall|t: int| #[trigger]
                    first_type(checked.result.types@, l.value, t) ==> hints[k].1@ == ": "@
                        + checked.result.types@[t].1.text@
            },
        forall|i: int|
            0 <= i < checked.module.lets@.len() ==> (#[trigger] at.contains(i) <==> wants_hint(
                checked,
                checked.module.lets@[i],
            )),
{
    let lets = checked.module.lets@;
    let at = lemma_hint_places(checked, lets, lets.len() as int);
    assert(lets.take(lets.len() as int) =~= lets);
    let found = hints_for(checked, lets);
    let told = hint_texts(hints);
    assert(told.len() == hints.len() && told.len() == found.len());
    assert forall|k: int| 0 <= k < at.len() implies {
        let l = lets[#[trigger] at[k]];
        &&& hints[k].0 == position_of(text, l.pattern.end as int)
        &&& forall|t: int| #[trigger]
            first_type(checked.result.types@, l.value, t) ==> hints[k].1@ == ": "@
                + checked.result.types@[t].1.text@
    } by {
        let l = lets[at[k]];
        assert(told[k] == shown_hints(text, found)[k]);
        assert(told[k] == (hints[k].0, hints[k].1@));
        law_a_listed_type_is_found(checked.result, l.value);
    }
    assert forall|i: int| 0 <= i < lets.len() implies (#[trigger] at.contains(i) <==> wants_hint(
        checked,
        lets[i],
    )) by {
        law_a_listed_type_is_found(checked.result, lets[i].value);
    }
    at
}

} // verus!
