//! The open documents.
//!
//! The editor's copy is authoritative: a file on disk may be stale by several keystrokes, and
//! checking the stale one would report errors the user has already fixed.

use crate::analysis::Checked;
use crate::position::LineIndex;
use crate::text::same_text;
use vstd::prelude::*;

verus! {

/// One open document: its current text, and the most recent check of it.
///
/// `checked` deliberately survives a failed parse. A file is unparseable for most of the time
/// anyone is typing in it, so the last check that succeeded stays until a later one replaces
/// it: slightly stale beats absent.
pub struct Doc {
    pub index: LineIndex,
    pub checked: Option<Checked>,
}

/// Where in a list a document stands.
spec fn slot(entries: Seq<(String, Doc)>, uri: Seq<char>) -> Option<int>
    decreases entries.len(),
{
    if entries.len() == 0 {
        None
    } else if entries.last().0@ == uri {
        Some(entries.len() - 1)
    } else {
        slot(entries.drop_last(), uri)
    }
}

/// What a list holds, by URI.
spec fn by_uri(entries: Seq<(String, Doc)>) -> Map<Seq<char>, Doc> {
    Map::new(
        |uri: Seq<char>| slot(entries, uri) is Some,
        |uri: Seq<char>| entries[slot(entries, uri)->0].1,
    )
}

proof fn lemma_slot(entries: Seq<(String, Doc)>, uri: Seq<char>)
    ensures
        slot(entries, uri) matches Some(i) ==> 0 <= i < entries.len() && entries[i].0@ == uri,
        slot(entries, uri) is None ==> forall|i: int|
            0 <= i < entries.len() ==> (#[trigger] entries[i]).0@ != uri,
    decreases entries.len(),
{
    if entries.len() > 0 {
        let init = entries.drop_last();
        lemma_slot(init, uri);
        assert forall|i: int| 0 <= i < init.len() implies #[trigger] entries[i] == init[i] by {}
    }
}

/// Whether no URI stands twice in a list.
spec fn distinct(entries: Seq<(String, Doc)>) -> bool {
    forall|i: int, j: int|
        0 <= i < j < entries.len() ==> (#[trigger] entries[i]).0@ != (#[trigger] entries[j]).0@
}

proof fn lemma_slot_is(entries: Seq<(String, Doc)>, i: int)
    requires
        distinct(entries),
        0 <= i < entries.len(),
    ensures
        slot(entries, entries[i].0@) == Some(i),
{
    lemma_slot(entries, entries[i].0@);
}

/// Open documents, by URI.
pub struct Documents {
    entries: Vec<(String, Doc)>,
}

impl View for Documents {
    type V = Map<Seq<char>, Doc>;

    closed spec fn view(&self) -> Map<Seq<char>, Doc> {
        by_uri(self.entries@)
    }
}

impl Documents {
    /// Each document is listed once.
    #[verifier::type_invariant]
    spec fn well_formed(self) -> bool {
        distinct(self.entries@)
    }

    /// No documents.
    pub fn new() -> (docs: Documents)
        ensures
            docs@ == Map::<Seq<char>, Doc>::empty(),
    {
        let docs: Documents = Documents { entries: Vec::new() };
        proof {
            assert(docs@ =~= Map::<Seq<char>, Doc>::empty());
        }
        docs
    }

    fn find(&self, uri: &str) -> (at: Option<usize>)
        ensures
            at is Some <==> slot(self.entries@, uri@) is Some,
            at matches Some(i) ==> i < self.entries@.len() && slot(self.entries@, uri@) == Some(
                i as int,
            ),
    {
        proof {
            use_type_invariant(self);
            lemma_slot(self.entries@, uri@);
        }
        let n: usize = self.entries.len();
        let mut i: usize = 0;
        while i < n
            invariant
                n == self.entries@.len(),
                i <= n,
                distinct(self.entries@),
                slot(self.entries@, uri@) matches Some(k) ==> 0 <= k < n
                    && self.entries@[k].0@ == uri@,
                forall|j: int| 0 <= j < i ==> (#[trigger] self.entries@[j]).0@ != uri@,
            decreases n - i,
        {
            if same_text(self.entries[i].0.as_str(), uri) {
                proof {
                    lemma_slot_is(self.entries@, i as int);
                }
                return Some(i);
            }
            i = i + 1;
        }
        None
    }

    /// The document with a URI, if it is open.
    pub fn get(&self, uri: &str) -> (doc: Option<&Doc>)
        ensures
            doc is Some <==> self@.contains_key(uri@),
            doc matches Some(d) ==> self@[uri@] == *d,
    {
        match self.find(uri) {
            Some(i) => Some(&self.entries[i].1),
            None => None,
        }
    }

    /// The other open documents, each with its text: what the analysis of one reads in the place
    /// of the files on disk.
    pub fn others(&self, uri: &str) -> (found: Vec<(String, String)>)
        ensures
            forall|i: int|
                0 <= i < found@.len() ==> {
                    &&& (#[trigger] found@[i]).0@ != uri@
                    &&& self@.contains_key(found@[i].0@)
                    &&& self@[found@[i].0@].index@ == found@[i].1@
                },
            forall|other: Seq<char>| #[trigger]
                self@.contains_key(other) && other != uri@ ==> exists|i: int|
                    0 <= i < found@.len() && (#[trigger] found@[i]).0@ == other,
            forall|i: int, j: int|
                0 <= i < j < found@.len() ==> (#[trigger] found@[i]).0@ != (
                #[trigger] found@[j]).0@,
    {
        proof {
            use_type_invariant(self);
        }
        let ghost entries = self.entries@;
        let mut found: Vec<(String, String)> = Vec::new();
        let n: usize = self.entries.len();
        let mut i: usize = 0;
        while i < n
            invariant
                entries == self.entries@,
                distinct(entries),
                n == entries.len(),
                i <= n,
                forall|k: int|
                    0 <= k < found@.len() ==> {
                        &&& (#[trigger] found@[k]).0@ != uri@
                        &&& exists|j: int|
                            0 <= j < i && (#[trigger] entries[j]).0@ == found@[k].0@
                                && entries[j].1.index@ == found@[k].1@
                    },
                forall|j: int|
                    0 <= j < i && (#[trigger] entries[j]).0@ != uri@ ==> exists|k: int|
                        0 <= k < found@.len() && (#[trigger] found@[k]).0@ == entries[j].0@,
                forall|k: int, l: int|
                    0 <= k < l < found@.len() ==> (#[trigger] found@[k]).0@ != (
                    #[trigger] found@[l]).0@,
            decreases n - i,
        {
            let ghost before = found@;
            if !same_text(self.entries[i].0.as_str(), uri) {
                found.push(
                    (self.entries[i].0.clone(), self.entries[i].1.index.text().to_owned()),
                );
                proof {
                    assert(found@.last().0@ == entries[i as int].0@);
                    assert forall|k: int| 0 <= k < before.len() implies #[trigger] found@[k]
                        == before[k] by {}
                    assert forall|j: int|
                        0 <= j < i + 1 && (#[trigger] entries[j]).0@ != uri@ implies exists|k: int|
                        0 <= k < found@.len() && (#[trigger] found@[k]).0@ == entries[j].0@ by {
                        if j < i {
                            let k = choose|k: int|
                                0 <= k < before.len() && (#[trigger] before[k]).0@
                                    == entries[j].0@;
                            assert(found@[k].0@ == entries[j].0@);
                        } else {
                            assert(found@[before.len() as int].0@ == entries[j].0@);
                        }
                    }
                }
            }
            i = i + 1;
        }
        proof {
            assert forall|k: int| 0 <= k < found@.len() implies self@.contains_key(
                (#[trigger] found@[k]).0@,
            ) && self@[found@[k].0@].index@ == found@[k].1@ by {
                let j = choose|j: int|
                    0 <= j < n && (#[trigger] entries[j]).0@ == found@[k].0@
                        && entries[j].1.index@ == found@[k].1@;
                lemma_slot_is(entries, j);
            }
            assert forall|other: Seq<char>| #[trigger]
                self@.contains_key(other) && other != uri@ implies exists|k: int|
                0 <= k < found@.len() && (#[trigger] found@[k]).0@ == other by {
                lemma_slot(entries, other);
                let j = slot(entries, other)->0;
                assert(entries[j].0@ == other);
            }
        }
        found
    }

    /// Take the entries out.
    fn take(&mut self) -> (entries: Vec<(String, Doc)>)
        ensures
            entries@ == old(self).entries@,
            distinct(entries@),
            final(self).entries@.len() == 0,
    {
        proof {
            use_type_invariant(&*self);
        }
        let mut entries: Vec<(String, Doc)> = Vec::new();
        std::mem::swap(&mut entries, &mut self.entries);
        entries
    }

    /// Close a document, and hand out what it was.
    pub fn remove(&mut self, uri: &str) -> (doc: Option<Doc>)
        ensures
            final(self)@ == old(self)@.remove(uri@),
            doc is Some <==> old(self)@.contains_key(uri@),
            doc matches Some(d) ==> old(self)@[uri@] == d,
    {
        let at: Option<usize> = self.find(uri);
        match at {
            Some(i) => {
                let mut entries: Vec<(String, Doc)> = self.take();
                let ghost before = entries@;
                let (_uri, doc) = entries.remove(i);
                proof {
                    lemma_slot(before, uri@);
                    assert(entries@ =~= before.remove(i as int));
                    lemma_removed(before, i as int);
                }
                self.entries = entries;
                Some(doc)
            },
            None => {
                proof {
                    assert(self@.remove(uri@) =~= self@);
                }
                None
            },
        }
    }

    /// Open a document, or replace one that is open.
    pub fn insert(&mut self, uri: &str, doc: Doc)
        ensures
            final(self)@ == old(self)@.insert(uri@, doc),
    {
        let _old: Option<Doc> = self.remove(uri);
        let ghost without = self.entries@;
        let mut entries: Vec<(String, Doc)> = self.take();
        let key: String = uri.to_owned();
        proof {
            assert(!by_uri(without).contains_key(uri@));
            lemma_slot(without, uri@);
            lemma_pushed(without, (key, doc));
        }
        entries.push((key, doc));
        self.entries = entries;
        proof {
            assert(old(self)@.remove(uri@).insert(uri@, doc) =~= old(self)@.insert(uri@, doc));
        }
    }

    /// A document has a new text. Its last check stays: the new text may not parse, and this is
    /// exactly the moment the check's answers are still worth having.
    pub fn change(&mut self, uri: &str, text: &str)
        ensures
            final(self)@.dom() == old(self)@.dom().insert(uri@),
            final(self)@[uri@].index@ == text@,
            final(self)@[uri@].checked == (if old(self)@.contains_key(uri@) {
                old(self)@[uri@].checked
            } else {
                None
            }),
            final(self)@.remove(uri@) == old(self)@.remove(uri@),
    {
        let index: LineIndex = LineIndex::new(text);
        let checked: Option<Checked> = match self.remove(uri) {
            Some(doc) => doc.checked,
            None => None,
        };
        self.insert(uri, Doc { index, checked });
        proof {
            assert(final(self)@.remove(uri@) =~= old(self)@.remove(uri@));
            assert(final(self)@.dom() =~= old(self)@.dom().insert(uri@));
        }
    }

    /// A document that is open was checked.
    pub fn record(&mut self, uri: &str, checked: Checked)
        ensures
            final(self)@.dom() == old(self)@.dom(),
            final(self)@.remove(uri@) == old(self)@.remove(uri@),
            old(self)@.contains_key(uri@) ==> final(self)@[uri@] == (Doc {
                index: old(self)@[uri@].index,
                checked: Some(checked),
            }),
    {
        match self.remove(uri) {
            Some(doc) => {
                self.insert(uri, Doc { index: doc.index, checked: Some(checked) });
                proof {
                    assert(final(self)@.remove(uri@) =~= old(self)@.remove(uri@));
                    assert(final(self)@.dom() =~= old(self)@.dom());
                }
            },
            None => {
                proof {
                    assert(final(self)@ =~= old(self)@);
                }
            },
        }
    }
}

proof fn lemma_pushed(entries: Seq<(String, Doc)>, entry: (String, Doc))
    requires
        distinct(entries),
        slot(entries, entry.0@) is None,
    ensures
        distinct(entries.push(entry)),
        by_uri(entries.push(entry)) == by_uri(entries).insert(entry.0@, entry.1),
{
    let all = entries.push(entry);
    lemma_slot(entries, entry.0@);
    assert(all.drop_last() =~= entries);
    assert forall|uri: Seq<char>| by_uri(all).contains_key(uri) implies by_uri(all)[uri] == by_uri(
        entries,
    ).insert(entry.0@, entry.1)[uri] by {
        lemma_slot(entries, uri);
    }
    assert(by_uri(all) =~= by_uri(entries).insert(entry.0@, entry.1));
}

proof fn lemma_removed(entries: Seq<(String, Doc)>, i: int)
    requires
        distinct(entries),
        0 <= i < entries.len(),
    ensures
        distinct(entries.remove(i)),
        by_uri(entries.remove(i)) == by_uri(entries).remove(entries[i].0@),
{
    let rest = entries.remove(i);
    let gone = entries[i].0@;
    assert forall|j: int, k: int| 0 <= j < k < rest.len() implies (#[trigger] rest[j]).0@ != (
    #[trigger] rest[k]).0@ by {
        let a = if j < i {
            j
        } else {
            j + 1
        };
        let b = if k < i {
            k
        } else {
            k + 1
        };
        assert(rest[j] == entries[a] && rest[k] == entries[b]);
    }
    let kept = by_uri(entries).remove(gone);
    assert forall|uri: Seq<char>| #[trigger]
        by_uri(rest).dom().contains(uri) == kept.dom().contains(uri) by {
        lemma_moved(entries, i, uri);
    }
    assert(by_uri(rest).dom() =~= kept.dom());
    assert forall|uri: Seq<char>| #[trigger] by_uri(rest).dom().contains(uri) implies by_uri(
        rest,
    )[uri] == kept[uri] by {
        lemma_moved(entries, i, uri);
    }
    assert(by_uri(rest) =~= kept);
}

proof fn lemma_moved(entries: Seq<(String, Doc)>, i: int, uri: Seq<char>)
    requires
        distinct(entries),
        distinct(entries.remove(i)),
        0 <= i < entries.len(),
    ensures
        slot(entries.remove(i), uri) is Some <==> slot(entries, uri) is Some && uri
            != entries[i].0@,
        slot(entries.remove(i), uri) matches Some(k) ==> entries.remove(i)[k]
            == entries[slot(entries, uri)->0],
{
    let rest = entries.remove(i);
    lemma_slot(rest, uri);
    lemma_slot(entries, uri);
    if let Some(k) = slot(rest, uri) {
        let b = if k < i {
            k
        } else {
            k + 1
        };
        assert(rest[k] == entries[b]);
        lemma_slot_is(entries, b);
    }
    if let Some(b) = slot(entries, uri) {
        if uri != entries[i].0@ {
            let k = if b < i {
                b
            } else {
                b - 1
            };
            assert(rest[k] == entries[b]);
        }
    }
}

} // verus!
