//! The concordance index: for each key, the occurrences recorded under it, in the order
//! in which they were met. Keys are kept in ascending order.

use crate::order::{ascending, lemma_ascending_index_of};
use crate::text::{lemma_text_order_is_strict_total, text_order};
use crate::word_set::WordSet;
use vstd::prelude::*;

verus! {

/// The number of a page of the document.
pub type PageNumber = u32;

/// One occurrence of a word as the model sees it.
pub struct Sighting {
    /// The word as it stood in the text.
    pub surface: Seq<char>,
    /// The number of the page on which it stood.
    pub page: nat,
}

/// One occurrence of a word: the form in which it stood in the text, and the page.
pub struct Occurrence {
    pub surface: String,
    pub page: PageNumber,
}

impl View for Occurrence {
    type V = Sighting;

    open spec fn view(&self) -> Sighting {
        Sighting { surface: self.surface@, page: self.page as nat }
    }
}

/// What has been recorded under one key, oldest first.
pub struct IndexEntry {
    pub occurrences: Vec<Occurrence>,
}

impl View for IndexEntry {
    type V = Seq<Sighting>;

    open spec fn view(&self) -> Seq<Sighting> {
        self.occurrences@.map_values(|o: Occurrence| o@)
    }
}

/// The index as a value: each key that has been recorded, with its occurrences in the
/// order of recording.
pub type Concordance = Map<Seq<char>, Seq<Sighting>>;

/// What is recorded under `key` in `index`; nothing where the key is new.
pub open spec fn recorded_under(index: Concordance, key: Seq<char>) -> Seq<Sighting> {
    if index.dom().contains(key) {
        index[key]
    } else {
        Seq::empty()
    }
}

/// `index` after one more occurrence has been recorded under `key`: it goes to the end of
/// the key's entry, which is created if the key is new. Other entries stay as they are.
pub open spec fn with_occurrence(
    index: Concordance,
    key: Seq<char>,
    seen: Sighting,
) -> Concordance {
    index.insert(key, recorded_under(index, key).push(seen))
}

/// A mapping from keys to index entries, ordered by key.
pub struct ConcordanceIndex {
    keys: WordSet,
    entries: Vec<IndexEntry>,
}

impl View for ConcordanceIndex {
    type V = Concordance;

    /// Each key of the index with what is recorded under it.
    open spec fn view(&self) -> Concordance {
        Map::new(
            |key: Seq<char>| self.keys().contains(key),
            |key: Seq<char>| self.entries()[self.keys().index_of(key)],
        )
    }
}

impl ConcordanceIndex {
    /// The keys in the order of the index.
    pub closed spec fn keys(&self) -> Seq<Seq<char>> {
        self.keys.listing()
    }

    /// The entries in the order of the index: `entries()[i]` belongs to `keys()[i]`.
    pub closed spec fn entries(&self) -> Seq<Seq<Sighting>> {
        self.entries@.map_values(|e: IndexEntry| e@)
    }

    /// The keys ascend, each has its entry, and no entry is empty.
    pub open spec fn wf(&self) -> bool {
        &&& ascending(self.keys(), text_order())
        &&& self.entries().len() == self.keys().len()
        &&& forall|i: int|
            0 <= i < self.entries().len() ==> (#[trigger] self.entries()[i]).len() > 0
    }

    /// The entry at a position of the index is the one that the index maps its key to.
    pub proof fn lemma_entry_of_key(&self, at: int)
        requires
            self.wf(),
            0 <= at < self.keys().len(),
        ensures
            self@.dom().contains(self.keys()[at]),
            self@[self.keys()[at]] == self.entries()[at],
    {
        lemma_text_order_is_strict_total();
        lemma_ascending_index_of(self.keys(), text_order(), at);
    }

    /// The empty index.
    pub fn new() -> (index: ConcordanceIndex)
        ensures
            index.wf(),
            index@ == Concordance::empty(),
            index.keys() == Seq::<Seq<char>>::empty(),
    {
        let index = ConcordanceIndex { keys: WordSet::new(), entries: Vec::new() };
        assert(index.entries() =~= Seq::<Seq<Sighting>>::empty());
        assert(index@ =~= Concordance::empty());
        index
    }

    /// The number of keys.
    pub fn len(&self) -> (n: usize)
        requires
            self.wf(),
        ensures
            n == self.keys().len(),
            n == self.entries().len(),
    {
        self.entries.len()
    }

    /// The key at position `at` of the index.
    pub fn key(&self, at: usize) -> (key: &String)
        requires
            self.wf(),
            at < self.keys().len(),
        ensures
            key@ == self.keys()[at as int],
    {
        &self.keys.words()[at]
    }

    /// The entry at position `at` of the index.
    pub fn entry(&self, at: usize) -> (entry: &IndexEntry)
        requires
            self.wf(),
            at < self.entries().len(),
        ensures
            entry@ == self.entries()[at as int],
    {
        &self.entries[at]
    }

    /// The entry of `key`, if the index has one.
    pub fn get(&self, key: &str) -> (entry: Option<&IndexEntry>)
        requires
            self.wf(),
        ensures
            match entry {
                Some(entry) => self@.dom().contains(key@) && entry@ == self@[key@],
                None => !self@.dom().contains(key@),
            },
    {
        let (at, found) = self.keys.locate(key);
        if found {
            proof {
                self.lemma_entry_of_key(at as int);
            }
            Some(&self.entries[at])
        } else {
            None
        }
    }

    /// Records one occurrence under `key`, after those that the key already has.
    pub fn record(&mut self, key: String, surface: String, page: PageNumber)
        requires
            old(self).wf(),
        ensures
            final(self).wf(),
            final(self)@ == with_occurrence(
                old(self)@,
                key@,
                (Sighting { surface: surface@, page: page as nat }),
            ),
    {
        let ghost key_text = key@;
        let ghost seen = Sighting { surface: surface@, page: page as nat };
        let ghost keys_before = self.keys();
        let ghost entries_before = self.entries();
        assert(self.entries@.len() == entries_before.len());
        let (at, added) = self.keys.insert(key);
        if added {
            let fresh = IndexEntry { occurrences: Vec::new() };
            assert(fresh@ =~= Seq::<Sighting>::empty());
            self.entries.insert(at, fresh);
        }
        let ghost entries_between = self.entries();
        assert(entries_between =~= if added {
            entries_before.insert(at as int, Seq::empty())
        } else {
            entries_before
        });
        self.entries[at].occurrences.push(Occurrence { surface, page });
        proof {
            let keys_after = self.keys();
            let entries_after = self.entries();
            lemma_text_order_is_strict_total();
            assert(entries_after[at as int] =~= entries_between[at as int].push(seen));
            assert(entries_after =~= entries_between.update(
                at as int,
                entries_between[at as int].push(seen),
            ));
            let before = old(self)@;
            let expected = with_occurrence(before, key_text, seen);
            assert(keys_after.to_set() == keys_before.to_set().insert(key_text));
            assert forall|k: Seq<char>| self@.dom().contains(k) <==> expected.dom().contains(
                k,
            ) by {
                assert(keys_after.to_set().contains(k) <==> keys_after.contains(k));
                assert(keys_before.to_set().contains(k) <==> keys_before.contains(k));
            }
            assert forall|k: Seq<char>| self@.dom().contains(k) implies self@[k] == expected[k] by {
                let i = keys_after.index_of(k);
                lemma_ascending_index_of(keys_after, text_order(), i);
                if i == at {
                    if !added {
                        lemma_ascending_index_of(keys_before, text_order(), at as int);
                    }
                } else {
                    let j = if !added || i < at { i } else { i - 1 };
                    assert(keys_before[j] == k);
                    lemma_ascending_index_of(keys_before, text_order(), j);
                }
            }
            assert(self@ =~= expected);
        }
    }
}

} // verus!
