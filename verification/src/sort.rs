//! Putting things in order, and dropping repetitions.
//!
//! What gets sorted here was collected by walking a syntax tree, so it is nearly in order
//! already: inserting from the end is linear on it.

use vstd::prelude::*;

verus! {

/// Something that can be listed in order.
pub trait Ranked: Sized {
    /// Whether `self` may stand before `other`.
    spec fn at_most(self, other: Self) -> bool;

    fn ranks_at_most(&self, other: &Self) -> (yes: bool)
        ensures
            yes == self.at_most(*other),
    ;

    /// The order is total.
    proof fn order_laws(a: Self, b: Self, c: Self)
        ensures
            a.at_most(b) || b.at_most(a),
            a.at_most(b) && b.at_most(c) ==> a.at_most(c),
    ;
}

/// `e` put into an ordered list, after everything that may stand before it.
pub open spec fn inserted<T: Ranked>(s: Seq<T>, e: T) -> Seq<T>
    decreases s.len(),
{
    if s.len() == 0 || s.last().at_most(e) {
        s.push(e)
    } else {
        inserted(s.drop_last(), e).push(s.last())
    }
}

/// A list put in order, equals staying in the order they came in.
pub open spec fn sorted<T: Ranked>(s: Seq<T>) -> Seq<T>
    decreases s.len(),
{
    if s.len() == 0 {
        s
    } else {
        inserted(sorted(s.drop_last()), s.last())
    }
}

/// A list without the items that repeat the one right before them.
pub open spec fn deduped<T>(s: Seq<T>) -> Seq<T>
    decreases s.len(),
{
    if s.len() <= 1 {
        s
    } else if s.last() == s[s.len() - 2] {
        deduped(s.drop_last())
    } else {
        deduped(s.drop_last()).push(s.last())
    }
}

proof fn lemma_inserted_len<T: Ranked>(s: Seq<T>, e: T)
    ensures
        inserted(s, e).len() == s.len() + 1,
    decreases s.len(),
{
    if s.len() > 0 {
        lemma_inserted_len(s.drop_last(), e);
    }
}

/// Where an item goes.
proof fn lemma_inserted_at<T: Ranked>(s: Seq<T>, e: T, p: int)
    requires
        0 <= p <= s.len(),
        p == 0 || s[p - 1].at_most(e),
        forall|j: int| p <= j < s.len() ==> !(#[trigger] s[j]).at_most(e),
    ensures
        inserted(s, e) == s.insert(p, e),
    decreases s.len(),
{
    if p == s.len() {
        assert(s.insert(p, e) =~= s.push(e));
    } else {
        lemma_inserted_at(s.drop_last(), e, p);
        assert(s.insert(p, e) =~= s.drop_last().insert(p, e).push(s.last()));
    }
}

/// Put a list in order, equals staying in the order they came in.
pub fn sort<T: Ranked>(items: &mut Vec<T>)
    ensures
        final(items)@ == sorted(old(items)@),
{
    let ghost given = items@;
    let n: usize = items.len();
    let mut i: usize = 0;
    proof {
        assert(given.take(0) =~= Seq::<T>::empty());
        assert(items@.take(0) =~= Seq::<T>::empty());
        assert(items@.skip(0) =~= given.skip(0));
    }
    while i < n
        invariant
            n == given.len(),
            n == items@.len(),
            i <= n,
            items@.take(i as int) == sorted(given.take(i as int)),
            items@.skip(i as int) == given.skip(i as int),
        decreases n - i,
    {
        let ghost before = items@;
        let ghost head = before.take(i as int);
        let ghost e = before[i as int];
        proof {
            assert(before.skip(i as int)[0] == given.skip(i as int)[0]);
            assert(given.take(i + 1).drop_last() =~= given.take(i as int));
            assert(given.take(i + 1).last() == e);
        }
        let mut p: usize = i;
        while p > 0 && !items[p - 1].ranks_at_most(&items[i])
            invariant
                p <= i < items@.len(),
                items@ == before,
                head == before.take(i as int),
                e == before[i as int],
                forall|j: int| p <= j < i ==> !(#[trigger] head[j]).at_most(e),
            decreases p,
        {
            p = p - 1;
        }
        proof {
            if p > 0 {
                assert(head[p - 1] == before[p - 1]);
            }
            lemma_inserted_at(head, e, p as int);
        }
        if p < i {
            let item: T = items.remove(i);
            items.insert(p, item);
        }
        proof {
            assert(items@.take(i + 1) =~= head.insert(p as int, e));
            assert(items@.skip(i + 1) =~= given.skip(i + 1)) by {
                assert(before.skip(i as int).skip(1) =~= before.skip(i + 1));
                assert(given.skip(i as int).skip(1) =~= given.skip(i + 1));
                assert(items@.skip(i + 1) =~= before.skip(i + 1));
            }
        }
        i = i + 1;
    }
    proof {
        assert(items@.take(n as int) =~= items@);
        assert(given.take(n as int) =~= given);
    }
}

/// Something small that can be listed in order and told apart from others.
pub trait Listed: Ranked + Copy {
    fn same_as(&self, other: &Self) -> (same: bool)
        ensures
            same == (*self == *other),
    ;

    /// Only equal things share a place in the order.
    proof fn distinct_laws(a: Self, b: Self)
        ensures
            a.at_most(b) && b.at_most(a) ==> a == b,
    ;
}

/// Drop the items that repeat the one right before them.
pub fn dedup<T: Listed>(items: Vec<T>) -> (out: Vec<T>)
    ensures
        out@ == deduped(items@),
{
    let mut out: Vec<T> = Vec::new();
    let n: usize = items.len();
    let mut i: usize = 0;
    while i < n
        invariant
            n == items@.len(),
            i <= n,
            out@ == deduped(items@.take(i as int)),
        decreases n - i,
    {
        proof {
            assert(items@.take(i + 1).drop_last() =~= items@.take(i as int));
            if i == 0 {
                assert(items@.take(0) =~= Seq::<T>::empty());
                assert(items@.take(1) =~= seq![items@[0]]);
            }
        }
        if i == 0 || !items[i].same_as(&items[i - 1]) {
            out.push(items[i]);
        }
        proof {
            if i == 0 {
                assert(out@ =~= items@.take(1));
            }
        }
        i = i + 1;
    }
    proof {
        assert(items@.take(n as int) =~= items@);
    }
    out
}

/// A list in order, each item once.
pub open spec fn listing<T: Listed>(s: Seq<T>) -> Seq<T> {
    deduped(sorted(s))
}

/// Whether every item stands strictly before the ones after it.
pub open spec fn ascending<T: Listed>(s: Seq<T>) -> bool {
    forall|i: int, j: int|
        0 <= i < j < s.len() ==> (#[trigger] s[i]).at_most(#[trigger] s[j]) && s[i] != s[j]
}

/// Put a list in order, each item once.
pub fn sort_dedup<T: Listed>(items: Vec<T>) -> (out: Vec<T>)
    ensures
        out@ == listing(items@),
{
    let mut items = items;
    sort(&mut items);
    dedup(items)
}

/// Whether every item may stand before the ones after it.
pub open spec fn in_order<T: Ranked>(s: Seq<T>) -> bool {
    forall|i: int, j: int| 0 <= i < j < s.len() ==> #[trigger] s[i].at_most(#[trigger] s[j])
}

proof fn lemma_inserted_order<T: Ranked>(s: Seq<T>, e: T)
    requires
        in_order(s),
    ensures
        in_order(inserted(s, e)),
        forall|x: T| #[trigger] inserted(s, e).contains(x) <==> s.contains(x) || x == e,
    decreases s.len(),
{
    lemma_inserted_len(s, e);
    if s.len() == 0 || s.last().at_most(e) {
        let r = s.push(e);
        assert forall|i: int, j: int| 0 <= i < j < r.len() implies #[trigger] r[i].at_most(
            #[trigger] r[j],
        ) by {
            if j == s.len() && i < s.len() - 1 {
                assert(s[i].at_most(s[s.len() - 1]));
                T::order_laws(s[i], s.last(), e);
            }
        }
        assert forall|x: T| #[trigger] r.contains(x) <==> s.contains(x) || x == e by {
            if s.contains(x) {
                let i = choose|i: int| 0 <= i < s.len() && s[i] == x;
                assert(r[i] == x);
            }
            if x == e {
                assert(r[s.len() as int] == x);
            }
        }
    } else {
        let init = s.drop_last();
        lemma_inserted_order(init, e);
        let m = inserted(init, e);
        let r = m.push(s.last());
        assert forall|i: int, j: int| 0 <= i < j < r.len() implies #[trigger] r[i].at_most(
            #[trigger] r[j],
        ) by {
            if j == m.len() {
                assert(m.contains(m[i]));
                if m[i] == e {
                    T::order_laws(e, s.last(), e);
                } else {
                    let k = choose|k: int| 0 <= k < init.len() && init[k] == m[i];
                    assert(s[k].at_most(s[s.len() - 1]));
                }
            }
        }
        assert forall|x: T| #[trigger] r.contains(x) <==> s.contains(x) || x == e by {
            if r.contains(x) {
                let i = choose|i: int| 0 <= i < r.len() && r[i] == x;
                if i < m.len() {
                    assert(m.contains(x));
                    if init.contains(x) {
                        let k = choose|k: int| 0 <= k < init.len() && init[k] == x;
                        assert(s[k] == x);
                    }
                } else {
                    assert(s[s.len() - 1] == x);
                }
            }
            if s.contains(x) {
                let k = choose|k: int| 0 <= k < s.len() && s[k] == x;
                if k < s.len() - 1 {
                    assert(init[k] == x);
                    assert(m.contains(x));
                    let i = choose|i: int| 0 <= i < m.len() && m[i] == x;
                    assert(r[i] == x);
                } else {
                    assert(r[m.len() as int] == x);
                }
            }
            if x == e {
                assert(m.contains(x));
                let i = choose|i: int| 0 <= i < m.len() && m[i] == x;
                assert(r[i] == x);
            }
        }
    }
}

proof fn lemma_sorted_order<T: Ranked>(s: Seq<T>)
    ensures
        in_order(sorted(s)),
        forall|x: T| #[trigger] sorted(s).contains(x) <==> s.contains(x),
    decreases s.len(),
{
    if s.len() > 0 {
        let init = s.drop_last();
        lemma_sorted_order(init);
        lemma_inserted_order(sorted(init), s.last());
        assert forall|x: T| #[trigger] sorted(s).contains(x) <==> s.contains(x) by {
            if s.contains(x) {
                let k = choose|k: int| 0 <= k < s.len() && s[k] == x;
                if k < s.len() - 1 {
                    assert(init[k] == x);
                    assert(sorted(init).contains(x));
                }
            }
            if sorted(s).contains(x) && x != s.last() {
                assert(sorted(init).contains(x));
                let k = choose|k: int| 0 <= k < init.len() && init[k] == x;
                assert(s[k] == x);
            }
            if x == s.last() {
                assert(s[s.len() - 1] == x);
            }
        }
    }
}

proof fn lemma_deduped_order<T: Listed>(s: Seq<T>)
    requires
        in_order(s),
    ensures
        ascending(deduped(s)),
        s.len() > 0 ==> deduped(s).len() > 0 && deduped(s).last() == s.last(),
        forall|x: T| #[trigger] deduped(s).contains(x) <==> s.contains(x),
    decreases s.len(),
{
    if s.len() > 1 {
        let init = s.drop_last();
        lemma_deduped_order(init);
        let d = deduped(init);
        let r = deduped(s);
        assert(s[s.len() - 2] == init.last());
        if s.last() != init.last() {
            assert forall|i: int, j: int| 0 <= i < j < r.len() implies #[trigger] r[i].at_most(
                #[trigger] r[j],
            ) && r[i] != r[j] by {
                assert(r == d.push(s.last()));
                if j < d.len() {
                    assert(d[i].at_most(d[j]));
                } else {
                    assert(s[s.len() - 2].at_most(s[s.len() - 1]));
                    if i < d.len() - 1 {
                        assert(d[i].at_most(d[d.len() - 1]));
                        T::order_laws(d[i], d.last(), s.last());
                        T::distinct_laws(d.last(), s.last());
                        if d[i] == s.last() {
                            assert(d.last() == s.last());
                        }
                    }
                }
            }
        }
        assert forall|x: T| #[trigger] r.contains(x) <==> s.contains(x) by {
            if s.contains(x) {
                let k = choose|k: int| 0 <= k < s.len() && s[k] == x;
                if k < s.len() - 1 {
                    assert(init[k] == x);
                    assert(d.contains(x));
                    let i = choose|i: int| 0 <= i < d.len() && d[i] == x;
                    assert(r[i] == x);
                } else {
                    assert(r[r.len() - 1] == x);
                }
            }
            if r.contains(x) {
                let i = choose|i: int| 0 <= i < r.len() && r[i] == x;
                if i < d.len() {
                    assert(d[i] == x);
                    assert(d.contains(x));
                    let k = choose|k: int| 0 <= k < init.len() && init[k] == x;
                    assert(s[k] == x);
                } else {
                    assert(s[s.len() - 1] == x);
                }
            }
        }
    } else if s.len() == 1 {
    }
}

proof fn lemma_inserted_count<T: Ranked>(s: Seq<T>, e: T)
    ensures
        inserted(s, e).to_multiset() == s.to_multiset().insert(e),
    decreases s.len(),
{
    broadcast use vstd::seq_lib::group_to_multiset_ensures;

    if s.len() > 0 && !s.last().at_most(e) {
        let init = s.drop_last();
        lemma_inserted_count(init, e);
        assert(s =~= init.push(s.last()));
        assert(inserted(s, e).to_multiset() =~= s.to_multiset().insert(e));
    }
}

/// Sorting puts items in order, and neither loses nor invents one.
pub proof fn law_sorting_orders_and_keeps<T: Ranked>(s: Seq<T>)
    ensures
        in_order(sorted(s)),
        sorted(s).to_multiset() == s.to_multiset(),
        forall|x: T| #[trigger] sorted(s).contains(x) <==> s.contains(x),
    decreases s.len(),
{
    broadcast use vstd::seq_lib::group_to_multiset_ensures;

    lemma_sorted_order(s);
    if s.len() > 0 {
        let init = s.drop_last();
        law_sorting_orders_and_keeps(init);
        lemma_inserted_count(sorted(init), s.last());
        assert(s =~= init.push(s.last()));
    }
}

/// A listing is strictly in order and holds exactly the items that were listed.
pub proof fn law_a_listing_is_in_order_and_complete<T: Listed>(s: Seq<T>)
    ensures
        ascending(listing(s)),
        forall|x: T| #[trigger] listing(s).contains(x) <==> s.contains(x),
{
    lemma_sorted_order(s);
    lemma_deduped_order(sorted(s));
    assert forall|x: T| #[trigger] listing(s).contains(x) <==> s.contains(x) by {
        assert(sorted(s).contains(x) <==> s.contains(x));
    }
}

/// What a listing holds does not depend on the order or the number of times items came in.
pub proof fn law_a_listing_depends_on_its_members_alone<T: Listed>(a: Seq<T>, b: Seq<T>)
    requires
        forall|x: T| #[trigger] a.contains(x) <==> b.contains(x),
    ensures
        listing(a) == listing(b),
{
    law_a_listing_is_in_order_and_complete(a);
    law_a_listing_is_in_order_and_complete(b);
    assert forall|x: T| #[trigger] listing(a).contains(x) <==> listing(b).contains(x) by {
        assert(a.contains(x) <==> b.contains(x));
    }
    lemma_ascending_unique(listing(a), listing(b));
}

proof fn lemma_ascending_unique<T: Listed>(a: Seq<T>, b: Seq<T>)
    requires
        ascending(a),
        ascending(b),
        forall|x: T| #[trigger] a.contains(x) <==> b.contains(x),
    ensures
        a == b,
    decreases a.len(),
{
    if a.len() == 0 {
        if b.len() > 0 {
            assert(b.contains(b[0]));
            assert(a.contains(b[0]));
        }
        assert(a =~= b);
    } else {
        assert(a.contains(a.last()));
        assert(b.contains(a.last()));
        assert(b.len() > 0);
        assert(b.contains(b.last()));
        assert(a.contains(b.last()));
        let i = choose|i: int| 0 <= i < a.len() && a[i] == b.last();
        let j = choose|j: int| 0 <= j < b.len() && b[j] == a.last();
        T::distinct_laws(a.last(), b.last());
        if i < a.len() - 1 {
            assert(a[i].at_most(a[a.len() - 1]));
        }
        if j < b.len() - 1 {
            assert(b[j].at_most(b[b.len() - 1]));
        }
        assert(a.last() == b.last());
        let x = a.drop_last();
        let y = b.drop_last();
        assert forall|e: T| #[trigger] x.contains(e) <==> y.contains(e) by {
            if x.contains(e) {
                let k = choose|k: int| 0 <= k < x.len() && x[k] == e;
                assert(a[k] == e);
                assert(a[k].at_most(a[a.len() - 1]));
                assert(a.contains(e));
                let m = choose|m: int| 0 <= m < b.len() && b[m] == e;
                assert(m != b.len() - 1);
                assert(y[m] == e);
            }
            if y.contains(e) {
                let k = choose|k: int| 0 <= k < y.len() && y[k] == e;
                assert(b[k] == e);
                assert(b[k].at_most(b[b.len() - 1]));
                assert(b.contains(e));
                assert(a.contains(e));
                let m = choose|m: int| 0 <= m < a.len() && a[m] == e;
                assert(m != a.len() - 1);
                assert(x[m] == e);
            }
        }
        lemma_ascending_unique(x, y);
        assert(a =~= x.push(a.last()));
        assert(b =~= y.push(b.last()));
    }
}

/// Whether some places of a list of `n` things are given in the order of the list, none twice.
pub open spec fn in_places(at: Seq<int>, n: int) -> bool {
    &&& forall|k: int| 0 <= k < at.len() ==> 0 <= #[trigger] at[k] < n
    &&& forall|j: int, k: int| 0 <= j < k < at.len() ==> #[trigger] at[j] < #[trigger] at[k]
}

/// One more place, after all the others.
pub proof fn lemma_one_more_place(at: Seq<int>, n: int)
    requires
        in_places(at, n),
        n >= 0,
    ensures
        in_places(at, n + 1),
        in_places(at.push(n), n + 1),
        forall|i: int| #[trigger] at.push(n).contains(i) <==> at.contains(i) || i == n,
        !at.contains(n),
{
    assert forall|i: int| #[trigger] at.push(n).contains(i) <==> at.contains(i) || i == n by {
        if at.contains(i) {
            let k = choose|k: int| 0 <= k < at.len() && at[k] == i;
            assert(at.push(n)[k] == i);
        }
        assert(at.push(n)[at.len() as int] == n);
        if at.push(n).contains(i) && i != n {
            let k = choose|k: int| 0 <= k < at.push(n).len() && at.push(n)[k] == i;
            assert(at[k] == i);
        }
    }
}

/// A list that is in order already is left as it is.
pub proof fn law_an_ordered_list_is_left_alone<T: Ranked>(s: Seq<T>)
    requires
        in_order(s),
    ensures
        sorted(s) == s,
    decreases s.len(),
{
    if s.len() > 0 {
        let init = s.drop_last();
        assert forall|i: int, j: int| 0 <= i < j < init.len() implies #[trigger] init[i].at_most(
            #[trigger] init[j],
        ) by {
            assert(s[i].at_most(s[j]));
        }
        law_an_ordered_list_is_left_alone(init);
        if init.len() > 0 {
            assert(s[s.len() - 2].at_most(s[s.len() - 1]));
        }
        assert(init.push(s.last()) =~= s);
    }
}

} // verus!
