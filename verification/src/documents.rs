//! The documents that the editor holds open, each under its URI.

use vstd::prelude::*;
use vstd::string::*;
use crate::encoding::str_equal;

verus! {

/// The open documents: for each URI the full text that the editor last
/// told of it.
pub struct DocumentStore {
    entries: Vec<(String, String)>,
}

/// No URI is held twice.
pub open spec fn distinct_uris(entries: Seq<(String, String)>) -> bool {
    forall|i: int, j: int|
        0 <= i < j < entries.len() ==> (#[trigger] entries[i]).0@ != (#[trigger] entries[j]).0@
}

/// `uri` is held in `entries`.
pub open spec fn holds_uri(entries: Seq<(String, String)>, uri: Seq<char>) -> bool {
    exists|i: int| 0 <= i < entries.len() && (#[trigger] entries[i]).0@ == uri
}

/// The text held under `uri`.
pub open spec fn text_under(entries: Seq<(String, String)>, uri: Seq<char>) -> Seq<char> {
    let i = choose|i: int| 0 <= i < entries.len() && (#[trigger] entries[i]).0@ == uri;
    entries[i].1@
}

/// The texts of `entries` by their URIs.
pub open spec fn documents_of(entries: Seq<(String, String)>) -> Map<Seq<char>, Seq<char>> {
    Map::new(|uri: Seq<char>| holds_uri(entries, uri), |uri: Seq<char>| text_under(entries, uri))
}

/// An entry's text is the text held under its URI.
proof fn lemma_entry(entries: Seq<(String, String)>, i: int)
    requires
        distinct_uris(entries),
        0 <= i < entries.len(),
    ensures
        holds_uri(entries, entries[i].0@),
        text_under(entries, entries[i].0@) == entries[i].1@,
{
    let uri = entries[i].0@;
    let j = choose|j: int| 0 <= j < entries.len() && (#[trigger] entries[j]).0@ == uri;
    assert(j == i);
}

impl DocumentStore {
    /// The store is in order: it holds no URI twice. Every store that
    /// `new` made and the methods below changed is.
    pub closed spec fn wf(self) -> bool {
        distinct_uris(self.entries@)
    }

    /// The open documents: the text of each by its URI.
    pub closed spec fn view(self) -> Map<Seq<char>, Seq<char>> {
        documents_of(self.entries@)
    }

    /// A store with no document in it.
    pub fn new() -> (store: Self)
        ensures
            store.wf(),
            store@ == Map::<Seq<char>, Seq<char>>::empty(),
    {
        let store = DocumentStore { entries: Vec::new() };
        assert(store@ =~= Map::<Seq<char>, Seq<char>>::empty());
        store
    }

    /// Where `uri` is held, if it is.
    fn position_of(&self, uri: &str) -> (r: Option<usize>)
        ensures
            match r {
                Some(i) => i < self.entries@.len() && self.entries@[i as int].0@ == uri@,
                None => !holds_uri(self.entries@, uri@),
            },
    {
        let mut i: usize = 0;
        while i < self.entries.len()
            invariant
                i <= self.entries@.len(),
                forall|j: int| 0 <= j < i ==> (#[trigger] self.entries@[j]).0@ != uri@,
            decreases self.entries@.len() - i,
        {
            if str_equal(self.entries[i].0.as_str(), uri) {
                return Some(i);
            }
            i = i + 1;
        }
        None
    }

    /// The text of the document `uri`, if it is open.
    pub fn get(&self, uri: &str) -> (r: Option<&str>)
        requires
            self.wf(),
        ensures
            match r {
                Some(text) => self@.contains_key(uri@) && self@[uri@] == text@,
                None => !self@.contains_key(uri@),
            },
    {
        match self.position_of(uri) {
            Some(i) => {
                proof {
                    lemma_entry(self.entries@, i as int);
                }
                Some(self.entries[i].1.as_str())
            },
            None => None,
        }
    }

    /// Holds `text` as the document `uri`, in place of what was held
    /// under that URI.
    pub fn open(&mut self, uri: String, text: String)
        requires
            old(self).wf(),
        ensures
            final(self).wf(),
            final(self)@ == old(self)@.insert(uri@, text@),
    {
        let ghost before = self.entries@;
        match self.position_of(uri.as_str()) {
            Some(i) => {
                self.entries.set(i, (uri, text));
                proof {
                    let after = self.entries@;
                    assert(distinct_uris(after)) by {
                        assert forall|a: int, b: int| 0 <= a < b < after.len() implies (
                        #[trigger] after[a]).0@ != (#[trigger] after[b]).0@ by {
                            assert(after[a].0@ == before[a].0@);
                            assert(after[b].0@ == before[b].0@);
                        }
                    }
                    assert forall|u: Seq<char>| holds_uri(after, u) <==> (u == uri@ || holds_uri(
                        before,
                        u,
                    )) by {
                        if holds_uri(after, u) {
                            let j = choose|j: int|
                                0 <= j < after.len() && (#[trigger] after[j]).0@ == u;
                            assert(before[j].0@ == u);
                        }
                        if holds_uri(before, u) {
                            let j = choose|j: int|
                                0 <= j < before.len() && (#[trigger] before[j]).0@ == u;
                            assert(after[j].0@ == u);
                        }
                        if u == uri@ {
                            assert(after[i as int].0@ == u);
                        }
                    }
                    assert forall|u: Seq<char>| holds_uri(after, u) implies text_under(after, u)
                        == (if u == uri@ {
                        text@
                    } else {
                        text_under(before, u)
                    }) by {
                        let j = choose|j: int|
                            0 <= j < after.len() && (#[trigger] after[j]).0@ == u;
                        lemma_entry(after, j);
                        if u != uri@ {
                            assert(before[j].0@ == u);
                            lemma_entry(before, j);
                        } else {
                            assert(after[i as int].0@ == u);
                            assert(j == i);
                        }
                    }
                    assert(documents_of(after) =~= documents_of(before).insert(uri@, text@));
                }
            },
            None => {
                self.entries.push((uri, text));
                proof {
                    let after = self.entries@;
                    let last = after.len() - 1;
                    assert(distinct_uris(after)) by {
                        assert forall|a: int, b: int| 0 <= a < b < after.len() implies (
                        #[trigger] after[a]).0@ != (#[trigger] after[b]).0@ by {
                            assert(after[a] == before[a]);
                            if b < last {
                                assert(after[b] == before[b]);
                            }
                        }
                    }
                    assert forall|u: Seq<char>| holds_uri(after, u) <==> (u == uri@ || holds_uri(
                        before,
                        u,
                    )) by {
                        if holds_uri(after, u) {
                            let j = choose|j: int|
                                0 <= j < after.len() && (#[trigger] after[j]).0@ == u;
                            if j < last {
                                assert(before[j].0@ == u);
                            }
                        }
                        if holds_uri(before, u) {
                            let j = choose|j: int|
                                0 <= j < before.len() && (#[trigger] before[j]).0@ == u;
                            assert(after[j].0@ == u);
                        }
                        if u == uri@ {
                            assert(after[last].0@ == u);
                        }
                    }
                    assert forall|u: Seq<char>| holds_uri(after, u) implies text_under(after, u)
                        == (if u == uri@ {
                        text@
                    } else {
                        text_under(before, u)
                    }) by {
                        let j = choose|j: int|
                            0 <= j < after.len() && (#[trigger] after[j]).0@ == u;
                        lemma_entry(after, j);
                        if u != uri@ {
                            assert(before[j] == after[j]);
                            lemma_entry(before, j);
                        } else {
                            assert(after[last].0@ == u);
                            assert(j == last);
                        }
                    }
                    assert(documents_of(after) =~= documents_of(before).insert(uri@, text@));
                }
            },
        }
    }

    /// Takes the last of `changes` as the new full text of the document
    /// `uri`; the changes before it count for nothing, and with no change
    /// at all the store stays as it is.
    pub fn change(&mut self, uri: String, changes: Vec<String>)
        requires
            old(self).wf(),
        ensures
            final(self).wf(),
            final(self)@ == (if changes@.len() == 0 {
                old(self)@
            } else {
                old(self)@.insert(uri@, changes@.last()@)
            }),
    {
        let mut changes = changes;
        match changes.pop() {
            Some(text) => {
                self.open(uri, text);
            },
            None => {},
        }
    }

    /// Lets go of the document `uri`.
    pub fn close(&mut self, uri: &str)
        requires
            old(self).wf(),
        ensures
            final(self).wf(),
            final(self)@ == old(self)@.remove(uri@),
    {
        let ghost before = self.entries@;
        match self.position_of(uri) {
            Some(i) => {
                self.entries.remove(i);
                proof {
                    let after = self.entries@;
                    assert forall|a: int| 0 <= a < after.len() implies #[trigger] after[a] == (if a
                        < i {
                        before[a]
                    } else {
                        before[a + 1]
                    }) by {}
                    assert(distinct_uris(after)) by {
                        assert forall|a: int, b: int| 0 <= a < b < after.len() implies (
                        #[trigger] after[a]).0@ != (#[trigger] after[b]).0@ by {
                            let x = if a < i { a } else { a + 1 };
                            let y = if b < i { b } else { b + 1 };
                            assert(after[a] == before[x]);
                            assert(after[b] == before[y]);
                        }
                    }
                    assert forall|u: Seq<char>| holds_uri(after, u) <==> (u != uri@ && holds_uri(
                        before,
                        u,
                    )) by {
                        if holds_uri(after, u) {
                            let j = choose|j: int|
                                0 <= j < after.len() && (#[trigger] after[j]).0@ == u;
                            let x = if j < i { j } else { j + 1 };
                            assert(before[x].0@ == u);
                            assert(before[i as int].0@ == uri@);
                        }
                        if u != uri@ && holds_uri(before, u) {
                            let j = choose|j: int|
                                0 <= j < before.len() && (#[trigger] before[j]).0@ == u;
                            let x = if j < i { j } else { j - 1 };
                            assert(after[x].0@ == u);
                        }
                    }
                    assert forall|u: Seq<char>| holds_uri(after, u) implies text_under(after, u)
                        == text_under(before, u) by {
                        let j = choose|j: int|
                            0 <= j < after.len() && (#[trigger] after[j]).0@ == u;
                        lemma_entry(after, j);
                        let x = if j < i { j } else { j + 1 };
                        assert(before[x] == after[j]);
                        lemma_entry(before, x);
                    }
                    assert(documents_of(after) =~= documents_of(before).remove(uri@));
                }
            },
            None => {
                assert(documents_of(before) =~= documents_of(before).remove(uri@));
            },
        }
    }
}

} // verus!
