use concordance::word_set::WordSet;

fn set_of(list: &[&str]) -> WordSet {
    let mut set = WordSet::new();
    for word in list {
        set.insert(word.to_string());
    }
    set
}

#[test]
fn new_set_is_empty() {
    let set = WordSet::new();
    assert_eq!(set.len(), 0);
    assert!(set.words().is_empty());
    assert!(!set.contains("a"));
    assert_eq!(set.locate("a"), (0, false));
}

#[test]
fn words_are_listed_in_ascending_order() {
    let set = set_of(&["pear", "apple", "fig", "Zebra", "banana"]);
    assert_eq!(set.words(), &vec!["Zebra", "apple", "banana", "fig", "pear"]);
    assert_eq!(set.len(), 5);
}

#[test]
fn a_word_is_in_the_set_once() {
    let mut set = WordSet::new();
    assert_eq!(set.insert("b".to_string()), (0, true));
    assert_eq!(set.insert("a".to_string()), (0, true));
    assert_eq!(set.insert("c".to_string()), (2, true));
    assert_eq!(set.insert("b".to_string()), (1, false));
    assert_eq!(set.insert("a".to_string()), (0, false));
    assert_eq!(set.len(), 3);
    assert_eq!(set.words(), &vec!["a", "b", "c"]);
}

#[test]
fn membership_is_exact() {
    let set = set_of(&["apple", "fig", "pear"]);
    assert!(set.contains("apple"));
    assert!(set.contains("fig"));
    assert!(set.contains("pear"));
    assert!(!set.contains("Apple"));
    assert!(!set.contains("figs"));
    assert!(!set.contains("fi"));
    assert!(!set.contains(""));
    assert!(!set.contains("zebra"));
}

#[test]
fn locate_gives_the_place_of_a_word() {
    let set = set_of(&["b", "d", "f"]);
    assert_eq!(set.locate("a"), (0, false));
    assert_eq!(set.locate("b"), (0, true));
    assert_eq!(set.locate("c"), (1, false));
    assert_eq!(set.locate("d"), (1, true));
    assert_eq!(set.locate("e"), (2, false));
    assert_eq!(set.locate("f"), (2, true));
    assert_eq!(set.locate("g"), (3, false));
}

#[test]
fn many_words_stay_sorted_and_distinct() {
    let mut set = WordSet::new();
    let mut expected = std::collections::BTreeSet::new();
    let mut x: u32 = 12345;
    for _ in 0..500 {
        x = x.wrapping_mul(1103515245).wrapping_add(12345);
        let word = format!("w{}", (x >> 16) % 200);
        let (_, added) = set.insert(word.clone());
        assert_eq!(added, expected.insert(word));
    }
    let listed: Vec<String> = expected.into_iter().collect();
    assert_eq!(set.words(), &listed);
    for word in &listed {
        assert!(set.contains(word));
    }
}
