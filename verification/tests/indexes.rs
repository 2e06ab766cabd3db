use concordance::builder::{build, Page};
use concordance::index::ConcordanceIndex;
use concordance::vocabulary::Vocabulary;

fn page(number: u32, text: &str) -> Page {
    Page { number, text: text.to_string() }
}

fn entry_of(index: &ConcordanceIndex, key: &str) -> Vec<(String, u32)> {
    index.get(key).unwrap().occurrences.iter().map(|o| (o.surface.clone(), o.page)).collect()
}

fn keys_of(index: &ConcordanceIndex) -> Vec<String> {
    (0..index.len()).map(|i| index.key(i).clone()).collect()
}

fn seen(surface: &str, page: u32) -> (String, u32) {
    (surface.to_string(), page)
}

#[test]
fn new_index_has_no_keys() {
    let index = ConcordanceIndex::new();
    assert_eq!(index.len(), 0);
    assert!(index.get("a").is_none());
}

#[test]
fn record_creates_an_entry_on_first_occurrence() {
    let mut index = ConcordanceIndex::new();
    index.record("cat".to_string(), "Cat".to_string(), 4);
    assert_eq!(index.len(), 1);
    assert_eq!(index.key(0), "cat");
    assert_eq!(entry_of(&index, "cat"), vec![seen("Cat", 4)]);
    assert_eq!(index.entry(0).occurrences.len(), 1);
}

#[test]
fn record_appends_to_an_entry_in_order() {
    let mut index = ConcordanceIndex::new();
    index.record("cat".to_string(), "Cat".to_string(), 4);
    index.record("dog".to_string(), "dog".to_string(), 1);
    index.record("cat".to_string(), "cat".to_string(), 2);
    index.record("cat".to_string(), "Cat".to_string(), 4);
    assert_eq!(index.len(), 2);
    assert_eq!(entry_of(&index, "cat"), vec![seen("Cat", 4), seen("cat", 2), seen("Cat", 4)]);
    assert_eq!(entry_of(&index, "dog"), vec![seen("dog", 1)]);
}

#[test]
fn keys_are_kept_in_ascending_order() {
    let mut index = ConcordanceIndex::new();
    for key in ["pear", "apple", "zoo", "fig", "apple", "Zoo", "banana"] {
        index.record(key.to_string(), key.to_string(), 1);
    }
    assert_eq!(keys_of(&index), vec!["Zoo", "apple", "banana", "fig", "pear", "zoo"]);
    for i in 0..index.len() {
        let key = index.key(i).clone();
        assert_eq!(index.entry(i).occurrences[0].surface, key);
    }
}

#[test]
fn get_finds_exactly_the_recorded_keys() {
    let mut index = ConcordanceIndex::new();
    index.record("b".to_string(), "B".to_string(), 1);
    index.record("d".to_string(), "D".to_string(), 2);
    assert!(index.get("a").is_none());
    assert!(index.get("c").is_none());
    assert!(index.get("e").is_none());
    assert!(index.get("B").is_none());
    assert_eq!(index.get("b").unwrap().occurrences[0].page, 1);
    assert_eq!(index.get("d").unwrap().occurrences[0].page, 2);
}

#[test]
fn add_token_records_an_accepted_token_and_skips_others() {
    let mut index = ConcordanceIndex::new();
    index.add_token(7, "(Word)", &Vocabulary::Unrestricted, true);
    index.add_token(7, "x1", &Vocabulary::Unrestricted, true);
    index.add_token(8, "WORD", &Vocabulary::Unrestricted, true);
    assert_eq!(index.len(), 1);
    assert_eq!(entry_of(&index, "word"), vec![seen("Word", 7), seen("WORD", 8)]);
}

#[test]
fn add_page_takes_the_tokens_in_their_order() {
    let mut index = ConcordanceIndex::new();
    index.add_page(&page(3, "b a B (a) a1 b"), &Vocabulary::Unrestricted, true);
    assert_eq!(keys_of(&index), vec!["a", "b"]);
    assert_eq!(entry_of(&index, "a"), vec![seen("a", 3), seen("a", 3)]);
    assert_eq!(entry_of(&index, "b"), vec![seen("b", 3), seen("B", 3), seen("b", 3)]);
    index.add_page(&page(1, "A c"), &Vocabulary::Unrestricted, true);
    assert_eq!(keys_of(&index), vec!["a", "b", "c"]);
    assert_eq!(entry_of(&index, "a"), vec![seen("a", 3), seen("a", 3), seen("A", 1)]);
}

#[test]
fn build_visits_the_pages_in_the_order_given() {
    let pages = vec![page(2, "cat dog"), page(1, "Dog"), page(2, "cat")];
    let index = build(&pages, &Vocabulary::Unrestricted, true);
    assert_eq!(keys_of(&index), vec!["cat", "dog"]);
    assert_eq!(entry_of(&index, "cat"), vec![seen("cat", 2), seen("cat", 2)]);
    assert_eq!(entry_of(&index, "dog"), vec![seen("dog", 2), seen("Dog", 1)]);
}

#[test]
fn build_of_no_pages_or_of_empty_pages_is_empty() {
    assert_eq!(build(&Vec::new(), &Vocabulary::Unrestricted, true).len(), 0);
    let blank = vec![page(1, ""), page(2, "  \n ")];
    assert_eq!(build(&blank, &Vocabulary::Unrestricted, false).len(), 0);
}

#[test]
fn without_filtering_punctuation_stays_in_the_key() {
    let index = build(&vec![page(1, "End. end (End)")], &Vocabulary::Unrestricted, false);
    assert_eq!(keys_of(&index), vec!["(end)", "end", "end."]);
    assert_eq!(entry_of(&index, "end."), vec![seen("End.", 1)]);
}

#[test]
fn every_accepted_token_adds_one_occurrence() {
    let pages = vec![
        page(1, "the cat The (cat) x1 THE"),
        page(2, "cat. the dog"),
        page(3, "Dog dog the"),
    ];
    let index = build(&pages, &Vocabulary::Unrestricted, true);
    assert_eq!(index.get("the").unwrap().occurrences.len(), 5);
    assert_eq!(index.get("cat").unwrap().occurrences.len(), 2);
    assert_eq!(index.get("dog").unwrap().occurrences.len(), 3);
    let total: usize = (0..index.len()).map(|i| index.entry(i).occurrences.len()).sum();
    assert_eq!(total, 10);
    assert_eq!(
        entry_of(&index, "the"),
        vec![seen("the", 1), seen("The", 1), seen("THE", 1), seen("the", 2), seen("the", 3)]
    );
}

#[test]
fn no_entry_is_empty() {
    let pages = vec![page(1, "a b c a"), page(2, "b (d) e1")];
    let index = build(&pages, &Vocabulary::Unrestricted, true);
    assert_eq!(index.len(), 4);
    for i in 0..index.len() {
        assert!(!index.entry(i).occurrences.is_empty());
    }
}
