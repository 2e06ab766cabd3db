//! The report: one line for each key of the index, in ascending order of the keys. A line
//! shows the distinct surface forms of the key in the natural order of strings, then the
//! distinct pages in ascending order.

use crate::builder::{build, concordance, hits_in, page_texts, Page, PageText};
use crate::index::{Concordance, ConcordanceIndex, IndexEntry, PageNumber, Sighting};
use crate::order::{
    ascending, lemma_finite_set_has_listing, lemma_insert_at_slot, lemma_listing_counts,
    lemma_listing_is_unique, lemma_slot_finds, listing, lists, strict_total_order,
};
use crate::decimal::{decimal, decimal_digits};
use crate::text::{join, joined, lemma_text_order_is_strict_total, text_order, texts};
use crate::vocabulary::Vocabulary;
use crate::word_set::WordSet;
use vstd::prelude::*;
use vstd::string::StringExecFns;

verus! {

/// What separates the items of a list in a line of the report.
pub open spec fn list_separator() -> Seq<char> {
    seq![',', ' ']
}

/// What separates the surface forms from the pages in a line of the report.
pub open spec fn pages_separator() -> Seq<char> {
    seq![':', ' ']
}

/// The order of page numbers.
pub open spec fn number_order() -> spec_fn(nat, nat) -> bool {
    |a: nat, b: nat| a < b
}

/// The surface forms that occur in an entry.
pub open spec fn surfaces_of(entry: Seq<Sighting>) -> Set<Seq<char>> {
    entry.map_values(|seen: Sighting| seen.surface).to_set()
}

/// The pages that occur in an entry.
pub open spec fn pages_of(entry: Seq<Sighting>) -> Set<nat> {
    entry.map_values(|seen: Sighting| seen.page).to_set()
}

/// The line of the report for an entry.
pub open spec fn entry_line(entry: Seq<Sighting>) -> Seq<char> {
    joined(listing(surfaces_of(entry), text_order()), list_separator()) + pages_separator()
        + joined(
        listing(pages_of(entry), number_order()).map_values(|page: nat| decimal_digits(page)),
        list_separator(),
    )
}

/// The report of an index: the lines of its entries, in ascending order of their keys.
pub open spec fn report(index: Concordance) -> Seq<Seq<char>> {
    listing(index.dom(), text_order()).map_values(|key: Seq<char>| entry_line(index[key]))
}

/// The report of a document.
pub open spec fn report_of(
    pages: Seq<PageText>,
    vocabulary: Option<Set<Seq<char>>>,
    filtering: bool,
) -> Seq<Seq<char>> {
    report(concordance(hits_in(pages, vocabulary, filtering)))
}

/// The page numbers as the model sees them.
pub open spec fn numbers(pages: Seq<PageNumber>) -> Seq<nat> {
    pages.map_values(|page: PageNumber| page as nat)
}

/// The order of page numbers is a strict total order.
pub proof fn lemma_number_order_is_strict_total()
    ensures
        strict_total_order(number_order()),
{
}

impl IndexEntry {
    /// The distinct surface forms of the entry.
    pub fn surface_forms(&self) -> (forms: WordSet)
        ensures
            forms.wf(),
            forms@ == surfaces_of(self@),
    {
        let mut forms = WordSet::new();
        let ghost surface_of = |seen: Sighting| seen.surface;
        let mut i: usize = 0;
        assert(self@.take(0).map_values(surface_of).to_set() =~= Set::<Seq<char>>::empty());
        while i < self.occurrences.len()
            invariant
                i <= self.occurrences.len(),
                surface_of == |seen: Sighting| seen.surface,
                forms.wf(),
                forms@ == self@.take(i as int).map_values(surface_of).to_set(),
            decreases self.occurrences.len() - i,
        {
            let surface = self.occurrences[i].surface.clone();
            proof {
                self@.lemma_map_take_succ(surface_of, i as int);
                self@.take(i as int).map_values(surface_of).lemma_push_to_set_commute(surface@);
            }
            forms.insert(surface);
            i += 1;
        }
        assert(self@.take(i as int) =~= self@);
        forms
    }

    /// The distinct pages of the entry, in ascending order.
    pub fn pages(&self) -> (pages: Vec<PageNumber>)
        ensures
            lists(numbers(pages@), pages_of(self@), number_order()),
    {
        let mut pages: Vec<PageNumber> = Vec::new();
        let ghost page_of = |seen: Sighting| seen.page;
        let mut i: usize = 0;
        assert(self@.take(0).map_values(page_of).to_set() =~= Set::<nat>::empty());
        assert(numbers(pages@) =~= Seq::<nat>::empty());
        while i < self.occurrences.len()
            invariant
                i <= self.occurrences.len(),
                page_of == |seen: Sighting| seen.page,
                lists(
                    numbers(pages@),
                    self@.take(i as int).map_values(page_of).to_set(),
                    number_order(),
                ),
            decreases self.occurrences.len() - i,
        {
            let page = self.occurrences[i].page;
            proof {
                self@.lemma_map_take_succ(page_of, i as int);
                self@.take(i as int).map_values(page_of).lemma_push_to_set_commute(page as nat);
            }
            insert_page(&mut pages, page);
            i += 1;
        }
        assert(self@.take(i as int) =~= self@);
        pages
    }
}

/// Puts `page` into the ascending vector `pages`, unless it is there already.
pub fn insert_page(pages: &mut Vec<PageNumber>, page: PageNumber)
    requires
        ascending(numbers(old(pages)@), number_order()),
    ensures
        ascending(numbers(final(pages)@), number_order()),
        forall|p: nat|
            numbers(final(pages)@).contains(p) <==> numbers(old(pages)@).contains(p) || p
                == page as nat,
{
    let ghost before = numbers(pages@);
    let mut at: usize = pages.len();
    while at > 0 && pages[at - 1] > page
        invariant
            at <= pages.len(),
            *pages == *old(pages),
            before == numbers(pages@),
            forall|i: int| at <= i < before.len() ==> #[trigger] before[i] > page,
        decreases at,
    {
        at -= 1;
    }
    if at > 0 && pages[at - 1] == page {
        assert(before[at - 1] == page as nat);
        assert(before.contains(page as nat));
        return;
    }
    proof {
        lemma_number_order_is_strict_total();
        assert forall|i: int| 0 <= i < at implies #[trigger] before[i] < page by {
            if i < at - 1 {
                assert(number_order()(before[i], before[at - 1]));
            }
        }
        lemma_slot_finds(before, page as nat, at as int, number_order());
        lemma_insert_at_slot(before, page as nat, at as int, number_order());
    }
    pages.insert(at, page);
    assert(numbers(pages@) =~= before.insert(at as int, page as nat));
}

/// The line of the report for `entry`: its distinct surface forms, a colon, its distinct
/// pages.
pub fn render_entry(entry: &IndexEntry) -> (line: String)
    ensures
        line@ == entry_line(entry@),
{
    let forms = entry.surface_forms();
    let pages = entry.pages();
    let mut numerals: Vec<String> = Vec::new();
    let mut i: usize = 0;
    while i < pages.len()
        invariant
            i <= pages.len(),
            numerals@.len() == i,
            forall|k: int|
                0 <= k < i ==> (#[trigger] numerals@[k])@ == decimal_digits(pages@[k] as nat),
        decreases pages.len() - i,
    {
        numerals.push(decimal(pages[i]));
        i += 1;
    }
    proof {
        reveal_strlit(", ");
        reveal_strlit(": ");
        assert(", "@ =~= list_separator());
        assert(": "@ =~= pages_separator());
        assert(texts(numerals@) =~= numbers(pages@).map_values(
            |page: nat| decimal_digits(page),
        ));
        forms.lemma_listing_is_canonical();
        lemma_number_order_is_strict_total();
        lemma_listing_is_unique(numbers(pages@), pages_of(entry@), number_order());
    }
    let mut line = join(forms.words(), ", ");
    line.append(": ");
    let page_list = join(&numerals, ", ");
    line.append(page_list.as_str());
    line
}

/// The report of an index holds one line for each of its keys, and the lines stand in the
/// ascending order of their keys. The index of a document is such an index: it has
/// finitely many keys (`lemma_concordance_is_finite`).
pub proof fn lemma_report_is_complete(index: Concordance)
    requires
        index.dom().finite(),
    ensures
        lists(listing(index.dom(), text_order()), index.dom(), text_order()),
        report(index).len() == index.dom().len(),
        forall|i: int|
            0 <= i < report(index).len() ==> #[trigger] report(index)[i] == entry_line(
                index[listing(index.dom(), text_order())[i]],
            ),
{
    lemma_text_order_is_strict_total();
    lemma_finite_set_has_listing(index.dom(), text_order());
    lemma_listing_counts(listing(index.dom(), text_order()), index.dom(), text_order());
}

/// The report of an index holds the lines of its entries, in the order in which the index
/// holds them.
pub proof fn lemma_report_follows_the_index(index: ConcordanceIndex)
    requires
        index.wf(),
    ensures
        report(index@).len() == index.entries().len(),
        forall|i: int|
            0 <= i < index.entries().len() ==> #[trigger] report(index@)[i] == entry_line(
                index.entries()[i],
            ),
{
    lemma_text_order_is_strict_total();
    lemma_listing_is_unique(index.keys(), index@.dom(), text_order());
    assert forall|i: int| 0 <= i < index.entries().len() implies #[trigger] report(index@)[i]
        == entry_line(index.entries()[i]) by {
        index.lemma_entry_of_key(i);
    }
}

/// The report is determined by the document, the vocabulary and the filtering flag: two
/// runs on the same input give the same lines, with the same order inside each line.
pub proof fn lemma_report_is_reproducible(
    first: Seq<Seq<char>>,
    second: Seq<Seq<char>>,
    pages: Seq<PageText>,
    vocabulary: Option<Set<Seq<char>>>,
    filtering: bool,
)
    requires
        first == report_of(pages, vocabulary, filtering),
        second == report_of(pages, vocabulary, filtering),
    ensures
        first == second,
{
}

/// Two indexes that map the same keys to the same occurrences hold them in the same
/// order, so the report does not depend on how an index came about.
pub proof fn lemma_equal_indexes_are_laid_out_alike(
    first: ConcordanceIndex,
    second: ConcordanceIndex,
)
    requires
        first.wf(),
        second.wf(),
        first@ == second@,
    ensures
        first.keys() == second.keys(),
        first.entries() == second.entries(),
{
    lemma_text_order_is_strict_total();
    lemma_listing_is_unique(first.keys(), first@.dom(), text_order());
    lemma_listing_is_unique(second.keys(), second@.dom(), text_order());
    assert forall|i: int| 0 <= i < first.entries().len() implies first.entries()[i]
        == second.entries()[i] by {
        first.lemma_entry_of_key(i);
        second.lemma_entry_of_key(i);
    }
    assert(first.entries() =~= second.entries());
}

/// The report of `index`: one line for each key, in ascending order of the keys.
pub fn render(index: &ConcordanceIndex) -> (lines: Vec<String>)
    requires
        index.wf(),
    ensures
        texts(lines@) == report(index@),
{
    let mut lines: Vec<String> = Vec::new();
    let n = index.len();
    let mut i: usize = 0;
    while i < n
        invariant
            i <= n,
            n == index.entries().len(),
            index.wf(),
            lines@.len() == i,
            forall|k: int| 0 <= k < i ==> (#[trigger] lines@[k])@ == entry_line(index.entries()[k]),
        decreases n - i,
    {
        lines.push(render_entry(index.entry(i)));
        i += 1;
    }
    proof {
        lemma_report_follows_the_index(*index);
        assert(texts(lines@) =~= report(index@));
    }
    lines
}

/// The report of a document: builds the index of its pages and renders it.
pub fn concordance_report(pages: &Vec<Page>, vocabulary: &Vocabulary, filtering: bool) -> (lines:
    Vec<String>)
    requires
        vocabulary.wf(),
    ensures
        texts(lines@) == report_of(page_texts(pages@), vocabulary@, filtering),
{
    let index = build(pages, vocabulary, filtering);
    render(&index)
}

} // verus!
