use concordance::builder::{build, Page};
use concordance::index::{ConcordanceIndex, IndexEntry, Occurrence};
use concordance::decimal::{decimal, digit_char, push_decimal};
use concordance::report::{concordance_report, insert_page, render, render_entry};
use concordance::vocabulary::Vocabulary;

fn page(number: u32, text: &str) -> Page {
    Page { number, text: text.to_string() }
}

fn entry(list: &[(&str, u32)]) -> IndexEntry {
    IndexEntry {
        occurrences: list
            .iter()
            .map(|(surface, page)| Occurrence { surface: surface.to_string(), page: *page })
            .collect(),
    }
}

#[test]
fn decimal_notation_of_page_numbers() {
    assert_eq!(decimal(0), "0");
    assert_eq!(decimal(7), "7");
    assert_eq!(decimal(10), "10");
    assert_eq!(decimal(42), "42");
    assert_eq!(decimal(100), "100");
    assert_eq!(decimal(1009), "1009");
    assert_eq!(decimal(4294967295), "4294967295");
}

#[test]
fn decimal_notation_is_that_of_the_standard_library() {
    let mut n: u32 = 1;
    for _ in 0..200 {
        assert_eq!(decimal(n), n.to_string());
        n = n.wrapping_mul(2654435761).wrapping_add(97);
    }
}

#[test]
fn digits_are_the_ten_characters_from_zero_to_nine() {
    let digits: Vec<char> = (0..10).map(digit_char).collect();
    assert_eq!(digits, vec!['0', '1', '2', '3', '4', '5', '6', '7', '8', '9']);
}

#[test]
fn push_decimal_appends_to_what_is_there() {
    let mut text = "p. ".to_string();
    push_decimal(&mut text, 305);
    assert_eq!(text, "p. 305");
    push_decimal(&mut text, 0);
    assert_eq!(text, "p. 3050");
}

#[test]
fn insert_page_keeps_pages_ascending_and_distinct() {
    let mut pages = Vec::new();
    for p in [5, 3, 9, 3, 1, 9, 5, 7, 0, 4294967295] {
        insert_page(&mut pages, p);
    }
    assert_eq!(pages, vec![0, 1, 3, 5, 7, 9, 4294967295]);
}

#[test]
fn pages_of_an_entry_are_distinct_and_ascending() {
    let e = entry(&[("a", 12), ("A", 3), ("a", 12), ("a", 100), ("a", 3)]);
    assert_eq!(e.pages(), vec![3, 12, 100]);
}

#[test]
fn surface_forms_of_an_entry_are_distinct_and_ordered_as_strings() {
    let e = entry(&[("cat", 1), ("Cat", 1), ("CAT", 2), ("cat", 3), ("Cat", 9)]);
    assert_eq!(e.surface_forms().words(), &vec!["CAT", "Cat", "cat"]);
}

#[test]
fn line_with_one_form_and_one_page() {
    assert_eq!(render_entry(&entry(&[("hello", 1)])), "hello: 1");
}

#[test]
fn line_lists_forms_then_pages_separated_by_comma_and_space() {
    let e = entry(&[("Dog", 1), ("dog", 2)]);
    assert_eq!(render_entry(&e), "Dog, dog: 1, 2");
    let e = entry(&[("the", 10), ("The", 2), ("THE", 33), ("the", 2)]);
    assert_eq!(render_entry(&e), "THE, The, the: 2, 10, 33");
}

#[test]
fn pages_are_ordered_as_numbers_and_not_as_strings() {
    let e = entry(&[("a", 100), ("a", 20), ("a", 3)]);
    assert_eq!(render_entry(&e), "a: 3, 20, 100");
}

#[test]
fn report_of_an_empty_index_is_empty() {
    assert!(render(&ConcordanceIndex::new()).is_empty());
}

#[test]
fn report_has_one_line_for_each_key_in_ascending_order() {
    let pages = vec![page(1, "pear Apple fig"), page(2, "apple Pear zebra"), page(3, "fig")];
    let index = build(&pages, &Vocabulary::Unrestricted, true);
    let lines = render(&index);
    assert_eq!(
        lines,
        vec![
            "Apple, apple: 1, 2".to_string(),
            "fig: 1, 3".to_string(),
            "Pear, pear: 1, 2".to_string(),
            "zebra: 2".to_string(),
        ]
    );
    assert_eq!(lines.len(), index.len());
    for i in 0..index.len() {
        assert_eq!(lines[i], render_entry(index.entry(i)));
        if i > 0 {
            assert!(index.key(i - 1) < index.key(i));
        }
    }
}

#[test]
fn report_does_not_depend_on_the_order_of_the_pages() {
    let forward = vec![page(1, "b A"), page(2, "a B"), page(3, "c")];
    let backward = vec![page(3, "c"), page(2, "a B"), page(1, "b A")];
    let first = concordance_report(&forward, &Vocabulary::Unrestricted, true);
    let second = concordance_report(&backward, &Vocabulary::Unrestricted, true);
    assert_eq!(first, vec!["A, a: 1, 2".to_string(), "B, b: 1, 2".to_string(), "c: 3".to_string()]);
    assert_eq!(second, first);
}

#[test]
fn two_runs_on_the_same_input_give_the_same_report() {
    let pages = vec![
        page(1, "The quick (brown) fox [jumps] over the lazy dog."),
        page(2, "the Quick BROWN fox"),
        page(5, "Fox fox FOX x1 the"),
    ];
    let words: Vec<String> =
        ["the", "fox", "quick", "brown"].iter().map(|w| w.to_string()).collect();
    for filtering in [true, false] {
        let first = concordance_report(&pages, &Vocabulary::from_lines(&words), filtering);
        let second = concordance_report(&pages, &Vocabulary::from_lines(&words), filtering);
        assert_eq!(first, second);
        let first = concordance_report(&pages, &Vocabulary::Unrestricted, filtering);
        let second = concordance_report(&pages, &Vocabulary::Unrestricted, filtering);
        assert_eq!(first, second);
    }
    let report = concordance_report(&pages, &Vocabulary::from_lines(&words), true);
    assert_eq!(
        report,
        vec![
            "BROWN, brown: 1, 2".to_string(),
            "FOX, Fox, fox: 1, 2, 5".to_string(),
            "Quick, quick: 1, 2".to_string(),
            "The, the: 1, 2, 5".to_string(),
        ]
    );
}

#[test]
fn report_is_the_rendering_of_the_built_index() {
    let pages = vec![page(4, "one Two two"), page(9, "ONE three")];
    let vocabulary = Vocabulary::Unrestricted;
    let index = build(&pages, &vocabulary, true);
    assert_eq!(concordance_report(&pages, &vocabulary, true), render(&index));
}

#[test]
fn without_filtering_the_report_keeps_punctuation() {
    let pages = vec![page(1, "End. end, (end)")];
    let report = concordance_report(&pages, &Vocabulary::Unrestricted, false);
    assert_eq!(
        report,
        vec!["(end): 1".to_string(), "end,: 1".to_string(), "End.: 1".to_string()]
    );
}
