//! Building the index: the tokens of each page, in the order of the pages, pass through
//! normalization and the vocabulary, and what is accepted is recorded under its key.

use crate::index::{with_occurrence, Concordance, ConcordanceIndex, PageNumber, Sighting};
use crate::text::texts;
use crate::tokens::{split_tokens, tokens_of};
use crate::vocabulary::{accept, accepted, Vocabulary};
use vstd::prelude::*;

verus! {

/// A page as the model sees it.
pub struct PageText {
    pub number: nat,
    pub text: Seq<char>,
}

/// A page of the document: its number and the text that was extracted from it.
pub struct Page {
    pub number: PageNumber,
    pub text: String,
}

impl View for Page {
    type V = PageText;

    open spec fn view(&self) -> PageText {
        PageText { number: self.number as nat, text: self.text@ }
    }
}

/// The views of a sequence of pages.
pub open spec fn page_texts(pages: Seq<Page>) -> Seq<PageText> {
    pages.map_values(|page: Page| page@)
}

/// An accepted token: the key it goes under and the occurrence it adds there.
pub struct Hit {
    pub key: Seq<char>,
    pub seen: Sighting,
}

/// What `token`, standing on page `page`, adds to the index: nothing where it is not
/// accepted.
pub open spec fn hit_of(
    page: nat,
    token: Seq<char>,
    vocabulary: Option<Set<Seq<char>>>,
    filtering: bool,
) -> Option<Hit> {
    match accepted(token, vocabulary, filtering) {
        Some(kept) => Some(Hit { key: kept.key, seen: Sighting { surface: kept.surface, page } }),
        None => None,
    }
}

/// The accepted tokens of one page, in the order in which they stand on it.
pub open spec fn hits_on_page(
    page: PageText,
    vocabulary: Option<Set<Seq<char>>>,
    filtering: bool,
) -> Seq<Hit> {
    tokens_of(page.text).filter_map(
        |token: Seq<char>| hit_of(page.number, token, vocabulary, filtering),
    )
}

/// The accepted tokens of a document: those of its pages, one page after the other.
pub open spec fn hits_in(
    pages: Seq<PageText>,
    vocabulary: Option<Set<Seq<char>>>,
    filtering: bool,
) -> Seq<Hit> {
    pages.flat_map(|page: PageText| hits_on_page(page, vocabulary, filtering))
}

/// The occurrences that `hits` holds for `key`, in their order.
pub open spec fn sightings(hits: Seq<Hit>, key: Seq<char>) -> Seq<Sighting> {
    hits.filter(|hit: Hit| hit.key == key).map_values(|hit: Hit| hit.seen)
}

/// The index that a sequence of accepted tokens amounts to: it has the keys that occur
/// among them and, under each, the occurrences of that key in their order.
pub open spec fn concordance(hits: Seq<Hit>) -> Concordance {
    Map::new(|key: Seq<char>| sightings(hits, key).len() > 0, |key: Seq<char>| sightings(hits, key))
}

/// `index` after `hits` have been recorded one after the other.
pub open spec fn with_hits(index: Concordance, hits: Seq<Hit>) -> Concordance
    decreases hits.len(),
{
    if hits.len() == 0 {
        index
    } else {
        with_occurrence(with_hits(index, hits.drop_last()), hits.last().key, hits.last().seen)
    }
}

/// One more accepted token adds its occurrence to the end of those of its key and leaves
/// the other keys alone.
proof fn lemma_sightings_push(hits: Seq<Hit>, hit: Hit, key: Seq<char>)
    ensures
        sightings(hits.push(hit), key) == if hit.key == key {
            sightings(hits, key).push(hit.seen)
        } else {
            sightings(hits, key)
        },
{
    let of_key = |h: Hit| h.key == key;
    let seen = |h: Hit| h.seen;
    hits.lemma_filter_push(hit, of_key);
    if hit.key == key {
        hits.filter(of_key).lemma_push_map_commute(seen, hit);
    }
}

/// Recording an accepted token in the index of the tokens before it gives the index of
/// all of them.
pub proof fn lemma_concordance_push(hits: Seq<Hit>, hit: Hit)
    ensures
        concordance(hits.push(hit)) == with_occurrence(concordance(hits), hit.key, hit.seen),
{
    let before = concordance(hits);
    let after = concordance(hits.push(hit));
    let expected = with_occurrence(before, hit.key, hit.seen);
    assert forall|key: Seq<char>| after.dom().contains(key) <==> expected.dom().contains(key) by {
        lemma_sightings_push(hits, hit, key);
    }
    assert forall|key: Seq<char>| after.dom().contains(key) implies after[key] == expected[key] by {
        lemma_sightings_push(hits, hit, key);
        if key == hit.key && !before.dom().contains(key) {
            assert(sightings(hits, key) =~= Seq::<Sighting>::empty());
        }
    }
    assert(after =~= expected);
}

/// Where no token has been accepted the index is empty.
pub proof fn lemma_concordance_of_nothing()
    ensures
        concordance(Seq::<Hit>::empty()) == Concordance::empty(),
{
    assert forall|key: Seq<char>| sightings(Seq::<Hit>::empty(), key).len() == 0 by {
        Seq::<Hit>::empty().lemma_filter_len(|hit: Hit| hit.key == key);
    }
    assert(concordance(Seq::<Hit>::empty()) =~= Concordance::empty());
}

/// The index of a sequence of accepted tokens has finitely many keys.
pub proof fn lemma_concordance_is_finite(hits: Seq<Hit>)
    ensures
        concordance(hits).dom().finite(),
    decreases hits.len(),
{
    if hits.len() == 0 {
        lemma_concordance_of_nothing();
        assert(hits =~= Seq::<Hit>::empty());
    } else {
        lemma_concordance_is_finite(hits.drop_last());
        lemma_concordance_push(hits.drop_last(), hits.last());
        assert(hits.drop_last().push(hits.last()) =~= hits);
    }
}

/// Recording further accepted tokens in the index of the tokens before them gives the
/// index of all of them.
pub proof fn lemma_concordance_grows(hits: Seq<Hit>, more: Seq<Hit>)
    ensures
        with_hits(concordance(hits), more) == concordance(hits + more),
    decreases more.len(),
{
    if more.len() == 0 {
        assert(hits + more =~= hits);
    } else {
        lemma_concordance_grows(hits, more.drop_last());
        lemma_concordance_push(hits + more.drop_last(), more.last());
        assert((hits + more.drop_last()).push(more.last()) =~= hits + more);
    }
}

/// Whether `token` is accepted and goes under `key`.
pub open spec fn accepted_under(
    token: Seq<char>,
    key: Seq<char>,
    vocabulary: Option<Set<Seq<char>>>,
    filtering: bool,
) -> bool {
    accepted(token, vocabulary, filtering) is Some && accepted(token, vocabulary, filtering)->0.key
        == key
}

/// How many tokens of `page` are accepted and go under `key`.
pub open spec fn accepted_on_page(
    page: PageText,
    key: Seq<char>,
    vocabulary: Option<Set<Seq<char>>>,
    filtering: bool,
) -> nat {
    tokens_of(page.text).filter(
        |token: Seq<char>| accepted_under(token, key, vocabulary, filtering),
    ).len()
}

/// How many tokens of `pages` are accepted and go under `key`.
pub open spec fn accepted_in(
    pages: Seq<PageText>,
    key: Seq<char>,
    vocabulary: Option<Set<Seq<char>>>,
    filtering: bool,
) -> nat
    decreases pages.len(),
{
    if pages.len() == 0 {
        0
    } else {
        accepted_in(pages.drop_last(), key, vocabulary, filtering) + accepted_on_page(
            pages.last(),
            key,
            vocabulary,
            filtering,
        )
    }
}

/// Among the hits of some tokens, those of `key` are as many as the tokens accepted under
/// `key`.
proof fn lemma_hits_of_tokens_under_key(
    tokens: Seq<Seq<char>>,
    page: nat,
    key: Seq<char>,
    vocabulary: Option<Set<Seq<char>>>,
    filtering: bool,
)
    ensures
        sightings(
            tokens.filter_map(|token: Seq<char>| hit_of(page, token, vocabulary, filtering)),
            key,
        ).len() == tokens.filter(
            |token: Seq<char>| accepted_under(token, key, vocabulary, filtering),
        ).len(),
    decreases tokens.len(),
{
    let hit_on_page = |token: Seq<char>| hit_of(page, token, vocabulary, filtering);
    let under_key = |token: Seq<char>| accepted_under(token, key, vocabulary, filtering);
    let of_key = |hit: Hit| hit.key == key;
    reveal(Seq::filter);
    if tokens.len() > 0 {
        let before = tokens.drop_last();
        lemma_hits_of_tokens_under_key(before, page, key, vocabulary, filtering);
        match hit_on_page(tokens.last()) {
            Some(hit) => {
                assert(before.filter_map(hit_on_page) + seq![hit] =~= before.filter_map(
                    hit_on_page,
                ).push(hit));
                before.filter_map(hit_on_page).lemma_filter_push(hit, of_key);
            },
            None => {},
        }
    }
}

/// No accepted token is lost or counted twice: a key has as many occurrences in the index
/// of a document as the document has tokens that are accepted under that key, and it is in
/// the index exactly if there is such a token.
pub proof fn lemma_every_accepted_token_is_recorded(
    pages: Seq<PageText>,
    key: Seq<char>,
    vocabulary: Option<Set<Seq<char>>>,
    filtering: bool,
)
    ensures
        sightings(hits_in(pages, vocabulary, filtering), key).len() == accepted_in(
            pages,
            key,
            vocabulary,
            filtering,
        ),
        concordance(hits_in(pages, vocabulary, filtering)).dom().contains(key) <==> accepted_in(
            pages,
            key,
            vocabulary,
            filtering,
        ) > 0,
        concordance(hits_in(pages, vocabulary, filtering)).dom().contains(key) ==> concordance(
            hits_in(pages, vocabulary, filtering),
        )[key].len() == accepted_in(pages, key, vocabulary, filtering),
    decreases pages.len(),
{
    let hits_of_page = |page: PageText| hits_on_page(page, vocabulary, filtering);
    let of_key = |hit: Hit| hit.key == key;
    if pages.len() == 0 {
        assert(pages.flat_map(hits_of_page) =~= Seq::<Hit>::empty());
        Seq::<Hit>::empty().lemma_filter_len(of_key);
    } else {
        let before = pages.drop_last();
        lemma_every_accepted_token_is_recorded(before, key, vocabulary, filtering);
        before.lemma_flat_map_push(hits_of_page, pages.last());
        assert(before.push(pages.last()) =~= pages);
        Seq::filter_distributes_over_add(
            before.flat_map(hits_of_page),
            hits_of_page(pages.last()),
            of_key,
        );
        lemma_hits_of_tokens_under_key(
            tokens_of(pages.last().text),
            pages.last().number,
            key,
            vocabulary,
            filtering,
        );
    }
}

impl ConcordanceIndex {
    /// Takes in one token that stands on page `page`: records it where it is accepted,
    /// and leaves the index as it is where it is not.
    pub fn add_token(
        &mut self,
        page: PageNumber,
        token: &str,
        vocabulary: &Vocabulary,
        filtering: bool,
    )
        requires
            old(self).wf(),
            vocabulary.wf(),
        ensures
            final(self).wf(),
            final(self)@ == match hit_of(page as nat, token@, vocabulary@, filtering) {
                Some(hit) => with_occurrence(old(self)@, hit.key, hit.seen),
                None => old(self)@,
            },
    {
        match accept(token, vocabulary, filtering) {
            Some(kept) => {
                self.record(kept.key, kept.surface, page);
            },
            None => {},
        }
    }

    /// Takes in the tokens of one page, in the order in which they stand on it.
    pub fn add_page(&mut self, page: &Page, vocabulary: &Vocabulary, filtering: bool)
        requires
            old(self).wf(),
            vocabulary.wf(),
        ensures
            final(self).wf(),
            final(self)@ == with_hits(old(self)@, hits_on_page(page@, vocabulary@, filtering)),
    {
        let tokens = split_tokens(page.text.as_str());
        let ghost hit_on_page = |token: Seq<char>|
            hit_of(page.number as nat, token, vocabulary@, filtering);
        let ghost all = texts(tokens@);
        let mut i: usize = 0;
        assert(all.take(0).filter_map(hit_on_page) =~= Seq::<Hit>::empty());
        while i < tokens.len()
            invariant
                i <= tokens.len(),
                self.wf(),
                vocabulary.wf(),
                all == texts(tokens@),
                hit_on_page == |token: Seq<char>|
                    hit_of(page.number as nat, token, vocabulary@, filtering),
                self@ == with_hits(old(self)@, all.take(i as int).filter_map(hit_on_page)),
            decreases tokens.len() - i,
        {
            proof {
                all.lemma_filter_map_take_succ(hit_on_page, i as int);
                let done = all.take(i as int).filter_map(hit_on_page);
                match hit_on_page(all[i as int]) {
                    Some(hit) => {
                        assert((done + seq![hit]).drop_last() =~= done);
                    },
                    None => {
                        assert(done + Seq::<Hit>::empty() =~= done);
                    },
                }
            }
            self.add_token(page.number, tokens[i].as_str(), vocabulary, filtering);
            i += 1;
        }
        assert(all.take(i as int) =~= all);
    }
}

/// Builds the index of a document from its pages, taken in the order given.
pub fn build(pages: &Vec<Page>, vocabulary: &Vocabulary, filtering: bool) -> (index:
    ConcordanceIndex)
    requires
        vocabulary.wf(),
    ensures
        index.wf(),
        index@ == concordance(hits_in(page_texts(pages@), vocabulary@, filtering)),
{
    let mut index = ConcordanceIndex::new();
    let ghost hits_of_page = |page: PageText| hits_on_page(page, vocabulary@, filtering);
    let ghost all = page_texts(pages@);
    let mut i: usize = 0;
    proof {
        assert(all.take(0).flat_map(hits_of_page) =~= Seq::<Hit>::empty());
        lemma_concordance_of_nothing();
    }
    while i < pages.len()
        invariant
            i <= pages.len(),
            index.wf(),
            vocabulary.wf(),
            all == page_texts(pages@),
            hits_of_page == |page: PageText| hits_on_page(page, vocabulary@, filtering),
            index@ == concordance(all.take(i as int).flat_map(hits_of_page)),
        decreases pages.len() - i,
    {
        proof {
            all.lemma_flat_map_take_append(hits_of_page, i as int);
            lemma_concordance_grows(
                all.take(i as int).flat_map(hits_of_page),
                hits_of_page(all[i as int]),
            );
        }
        index.add_page(&pages[i], vocabulary, filtering);
        i += 1;
    }
    assert(all.take(i as int) =~= all);
    index
}

} // verus!
