//! A set of strings kept as a vector in ascending order, searched by bisection.

use crate::order::{
    ascending, is_slot, lemma_insert_at_slot, lemma_listing_is_unique, lemma_slot_finds, listing,
    lists,
};
use crate::text::{
    chars_of, chars_precede, lemma_precedes_connected, lemma_precedes_transitive,
    lemma_text_order_is_strict_total, precedes, text_order, texts,
};
use vstd::prelude::*;

verus! {

/// A finite set of strings.
pub struct WordSet {
    words: Vec<String>,
}

impl View for WordSet {
    type V = Set<Seq<char>>;

    /// The strings in the set.
    open spec fn view(&self) -> Set<Seq<char>> {
        self.listing().to_set()
    }
}

impl WordSet {
    /// The strings of the set in the order in which they are stored.
    pub closed spec fn listing(&self) -> Seq<Seq<char>> {
        texts(self.words@)
    }

    /// The strings are stored in ascending order, each once.
    pub open spec fn wf(&self) -> bool {
        ascending(self.listing(), text_order())
    }

    /// The stored order is the one ascending listing that the set has.
    pub proof fn lemma_listing_is_canonical(&self)
        requires
            self.wf(),
        ensures
            lists(self.listing(), self@, text_order()),
            self.listing() == listing(self@, text_order()),
    {
        lemma_text_order_is_strict_total();
        lemma_listing_is_unique(self.listing(), self@, text_order());
    }

    /// The empty set.
    pub fn new() -> (set: WordSet)
        ensures
            set.wf(),
            set.listing() == Seq::<Seq<char>>::empty(),
            set@ == Set::<Seq<char>>::empty(),
    {
        let set = WordSet { words: Vec::new() };
        assert(set.listing() =~= Seq::<Seq<char>>::empty());
        assert(set@ =~= Set::<Seq<char>>::empty());
        set
    }

    /// The number of strings in the set.
    pub fn len(&self) -> (n: usize)
        ensures
            n == self.listing().len(),
    {
        self.words.len()
    }

    /// The strings of the set in ascending order.
    pub fn words(&self) -> (words: &Vec<String>)
        ensures
            texts(words@) == self.listing(),
    {
        &self.words
    }

    /// Where `word` stands in the ascending listing, or would stand if it were added, and
    /// whether it is in the set.
    pub fn locate(&self, word: &str) -> (r: (usize, bool))
        requires
            self.wf(),
        ensures
            is_slot(self.listing(), word@, r.0 as int, text_order()),
            r.1 == self@.contains(word@),
            r.1 ==> r.0 < self.listing().len() && self.listing()[r.0 as int] == word@,
    {
        let target = chars_of(word);
        let ghost list = self.listing();
        let mut low: usize = 0;
        let mut high: usize = self.words.len();
        while low < high
            invariant
                self.wf(),
                list == self.listing(),
                target@ == word@,
                low <= high <= list.len(),
                list.len() == self.words.len(),
                forall|i: int| 0 <= i < low ==> precedes(#[trigger] list[i], word@),
                forall|i: int| high <= i < list.len() ==> !precedes(#[trigger] list[i], word@),
            decreases high - low,
        {
            let middle = low + (high - low) / 2;
            let probe = chars_of(self.words[middle].as_str());
            assert(probe@ == list[middle as int]);
            if chars_precede(&probe, &target) {
                assert forall|i: int| 0 <= i < middle + 1 implies precedes(
                    #[trigger] list[i],
                    word@,
                ) by {
                    if i < middle {
                        assert(text_order()(list[i], list[middle as int]));
                        lemma_precedes_transitive(list[i], list[middle as int], word@);
                    }
                }
                low = middle + 1;
            } else {
                assert forall|i: int| middle <= i < list.len() implies !precedes(
                    #[trigger] list[i],
                    word@,
                ) by {
                    if i > middle && precedes(list[i], word@) {
                        assert(text_order()(list[middle as int], list[i]));
                        lemma_precedes_transitive(list[middle as int], list[i], word@);
                    }
                }
                high = middle;
            }
        }
        let found = if low < self.words.len() {
            let probe = chars_of(self.words[low].as_str());
            !chars_precede(&target, &probe)
        } else {
            false
        };
        proof {
            lemma_text_order_is_strict_total();
            lemma_slot_finds(list, word@, low as int, text_order());
            if found && list[low as int] != word@ {
                lemma_precedes_connected(list[low as int], word@);
            }
        }
        (low, found)
    }

    /// Whether `word` is in the set.
    pub fn contains(&self, word: &str) -> (r: bool)
        requires
            self.wf(),
        ensures
            r == self@.contains(word@),
    {
        self.locate(word).1
    }

    /// Adds `word` to the set. Returns its position in the ascending listing, and whether
    /// it was new.
    pub fn insert(&mut self, word: String) -> (r: (usize, bool))
        requires
            old(self).wf(),
        ensures
            final(self).wf(),
            final(self)@ == old(self)@.insert(word@),
            is_slot(old(self).listing(), word@, r.0 as int, text_order()),
            r.1 == !old(self)@.contains(word@),
            r.1 ==> final(self).listing() == old(self).listing().insert(r.0 as int, word@),
            !r.1 ==> final(self).listing() == old(self).listing(),
            r.0 < final(self).listing().len(),
            final(self).listing()[r.0 as int] == word@,
    {
        let (at, found) = self.locate(word.as_str());
        let ghost before = self.listing();
        if found {
            assert(self@ =~= old(self)@.insert(word@));
            return (at, false);
        }
        proof {
            lemma_text_order_is_strict_total();
            lemma_slot_finds(before, word@, at as int, text_order());
            lemma_insert_at_slot(before, word@, at as int, text_order());
        }
        self.words.insert(at, word);
        assert(self.listing() =~= before.insert(at as int, word@));
        assert(self@ =~= old(self)@.insert(word@));
        (at, true)
    }
}

} // verus!
