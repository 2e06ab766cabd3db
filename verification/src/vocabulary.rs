//! The vocabulary: an optional set of lowercase words to which indexing is restricted.

use crate::lines::{lines_of, split_lines};
use crate::normalize::{normal_form, normalize, NormalForm, Normalized};
use crate::text::{lowercase, lowercase_of, texts};
use crate::word_set::WordSet;
use vstd::prelude::*;

verus! {

/// Which keys are indexed: all of them, or those of a given set. A restriction to the
/// empty set indexes nothing, which is not the same as no restriction.
pub enum Vocabulary {
    Unrestricted,
    RestrictedTo(WordSet),
}

impl View for Vocabulary {
    type V = Option<Set<Seq<char>>>;

    /// The set of permitted keys, or `None` where every key is permitted.
    open spec fn view(&self) -> Option<Set<Seq<char>>> {
        match self {
            Vocabulary::Unrestricted => None,
            Vocabulary::RestrictedTo(words) => Some(words@),
        }
    }
}

/// Whether `vocabulary` lets `key` into the index.
pub open spec fn permits(vocabulary: Option<Set<Seq<char>>>, key: Seq<char>) -> bool {
    match vocabulary {
        None => true,
        Some(words) => words.contains(key),
    }
}

/// The lowercase forms of `lines`, as a set.
pub open spec fn lowercased(lines: Seq<Seq<char>>) -> Set<Seq<char>> {
    lines.map_values(|line: Seq<char>| lowercase_of(line)).to_set()
}

/// The normal form under which `token` enters the index, or `None` where it stays out:
/// it has to be kept by normalization first, and then its key has to be permitted.
pub open spec fn accepted(
    token: Seq<char>,
    vocabulary: Option<Set<Seq<char>>>,
    filtering: bool,
) -> Option<NormalForm> {
    match normal_form(token, filtering) {
        Some(kept) => if permits(vocabulary, kept.key) {
            Some(kept)
        } else {
            None
        },
        None => None,
    }
}

/// A vocabulary only restricts: the token that it lets in is one that normalization kept,
/// in the same normal form, and no vocabulary lets in a token that normalization discards.
pub proof fn lemma_vocabulary_only_restricts(
    token: Seq<char>,
    vocabulary: Option<Set<Seq<char>>>,
    filtering: bool,
)
    ensures
        normal_form(token, filtering) is None ==> accepted(token, vocabulary, filtering) is None,
        accepted(token, vocabulary, filtering) is Some ==> accepted(token, vocabulary, filtering)
            == normal_form(token, filtering),
{
}

/// A vocabulary looks at the key alone: two kept tokens with the same lowercase form are let
/// in or left out together, however they are capitalized.
pub proof fn lemma_vocabulary_ignores_case(
    first: Seq<char>,
    second: Seq<char>,
    vocabulary: Option<Set<Seq<char>>>,
    filtering: bool,
)
    requires
        normal_form(first, filtering) is Some,
        normal_form(second, filtering) is Some,
        normal_form(first, filtering)->0.key == normal_form(second, filtering)->0.key,
    ensures
        accepted(first, vocabulary, filtering) is Some <==> accepted(
            second,
            vocabulary,
            filtering,
        ) is Some,
{
}

impl Vocabulary {
    /// The set of words, if there is one, is well formed.
    pub open spec fn wf(&self) -> bool {
        match self {
            Vocabulary::Unrestricted => true,
            Vocabulary::RestrictedTo(words) => words.wf(),
        }
    }

    /// The vocabulary that a word list gives: each line, in lowercase, is one word.
    /// Lines that give the same word count once.
    pub fn from_lines(lines: &Vec<String>) -> (vocabulary: Vocabulary)
        ensures
            vocabulary.wf(),
            vocabulary@ == Some(lowercased(texts(lines@))),
    {
        let mut words = WordSet::new();
        let ghost all = texts(lines@);
        let ghost lower = |line: Seq<char>| lowercase_of(line);
        let mut i: usize = 0;
        assert(all.take(0).map_values(lower).to_set() =~= Set::<Seq<char>>::empty());
        while i < lines.len()
            invariant
                i <= lines.len(),
                all == texts(lines@),
                lower == |line: Seq<char>| lowercase_of(line),
                words.wf(),
                words@ == all.take(i as int).map_values(lower).to_set(),
            decreases lines.len() - i,
        {
            let word = lowercase(lines[i].as_str());
            proof {
                all.lemma_map_take_succ(lower, i as int);
                all.take(i as int).map_values(lower).lemma_push_to_set_commute(word@);
            }
            words.insert(word);
            i += 1;
        }
        assert(all.take(i as int) =~= all);
        Vocabulary::RestrictedTo(words)
    }

    /// The vocabulary that the text of a word list gives: one word for each line.
    pub fn from_text(text: &str) -> (vocabulary: Vocabulary)
        ensures
            vocabulary.wf(),
            vocabulary@ == Some(lowercased(lines_of(text@))),
    {
        let lines = split_lines(text);
        Vocabulary::from_lines(&lines)
    }

    /// The vocabulary of a run: no word list means no restriction, a word list restricts
    /// indexing to its words, even where it holds none.
    pub fn load(word_list: Option<&str>) -> (vocabulary: Vocabulary)
        ensures
            vocabulary.wf(),
            vocabulary@ == match word_list {
                Some(text) => Some(lowercased(lines_of(text@))),
                None => None,
            },
    {
        match word_list {
            Some(text) => Vocabulary::from_text(text),
            None => Vocabulary::Unrestricted,
        }
    }

    /// Whether the vocabulary lets `key` into the index.
    pub fn permits(&self, key: &str) -> (r: bool)
        requires
            self.wf(),
        ensures
            r == permits(self@, key@),
    {
        match self {
            Vocabulary::Unrestricted => true,
            Vocabulary::RestrictedTo(words) => words.contains(key),
        }
    }
}

/// Normalizes `token` and passes its key through the vocabulary: gives the normal form
/// under which the token enters the index, or `None` where it stays out.
pub fn accept(token: &str, vocabulary: &Vocabulary, filtering: bool) -> (r: Option<Normalized>)
    requires
        vocabulary.wf(),
    ensures
        match r {
            Some(kept) => accepted(token@, vocabulary@, filtering) == Some(kept@),
            None => accepted(token@, vocabulary@, filtering) is None,
        },
{
    match normalize(token, filtering) {
        Some(kept) => {
            if vocabulary.permits(kept.key.as_str()) {
                Some(kept)
            } else {
                None
            }
        },
        None => None,
    }
}

} // verus!
