use concordance::normalize::{is_bracket_char, normalize, trim_brackets, trimmed_bounds};

fn kept(token: &str, filtering: bool) -> Option<(String, String)> {
    normalize(token, filtering).map(|n| (n.key, n.surface))
}

fn pair(key: &str, surface: &str) -> Option<(String, String)> {
    Some((key.to_string(), surface.to_string()))
}

#[test]
fn plain_word_is_kept_with_lowercase_key() {
    assert_eq!(kept("Hello", true), pair("hello", "Hello"));
    assert_eq!(kept("hello", true), pair("hello", "hello"));
    assert_eq!(kept("HELLO", true), pair("hello", "HELLO"));
}

#[test]
fn brackets_at_both_ends_are_stripped() {
    assert_eq!(kept("(hello)", true), pair("hello", "hello"));
    assert_eq!(kept("[Hello]", true), pair("hello", "Hello"));
    assert_eq!(kept("([(Word)])", true), pair("word", "Word"));
    assert_eq!(kept("(((a", true), pair("a", "a"));
    assert_eq!(kept("a]]]", true), pair("a", "a"));
    assert_eq!(kept(")word(", true), pair("word", "word"));
}

#[test]
fn brackets_inside_a_token_are_not_stripped() {
    assert_eq!(kept("a(b)c", true), None);
    assert_eq!(kept("(a[b)", true), None);
    assert_eq!(kept("f(x)", true), None);
}

#[test]
fn token_of_brackets_alone_is_discarded() {
    assert_eq!(kept("()", true), None);
    assert_eq!(kept("([", true), None);
    assert_eq!(kept("]", true), None);
    assert_eq!(kept("", true), None);
}

#[test]
fn token_with_other_characters_is_discarded() {
    assert_eq!(kept("hello2", true), None);
    assert_eq!(kept("sat.", true), None);
    assert_eq!(kept("don't", true), None);
    assert_eq!(kept("well-known", true), None);
    assert_eq!(kept("{word}", true), None);
    assert_eq!(kept("(x1)", true), None);
    assert_eq!(kept("42", true), None);
}

#[test]
fn alphabetic_means_more_than_ascii_letters() {
    assert_eq!(kept("Über", true), pair("über", "Über"));
    assert_eq!(kept("(ÉCOLE)", true), pair("école", "ÉCOLE"));
    assert_eq!(kept("Ωμέγα", true), pair("ωμέγα", "Ωμέγα"));
    assert_eq!(kept("日本語", true), pair("日本語", "日本語"));
    assert_eq!(kept("naïve", true), pair("naïve", "naïve"));
}

#[test]
fn without_filtering_every_token_is_kept_as_it_is() {
    assert_eq!(kept("(Hello)", false), pair("(hello)", "(Hello)"));
    assert_eq!(kept("x1", false), pair("x1", "x1"));
    assert_eq!(kept("...", false), pair("...", "..."));
    assert_eq!(kept("Sat.", false), pair("sat.", "Sat."));
    assert_eq!(kept("", false), pair("", ""));
    assert_eq!(kept("()", false), pair("()", "()"));
}

#[test]
fn key_is_what_the_standard_library_gives_for_lowercase() {
    for token in ["Straße", "İstanbul", "ΣΑΣ", "ǅ", "ÀÉÎ", "mixedCASE"] {
        let n = normalize(token, true).unwrap();
        assert_eq!(n.key, token.to_lowercase());
        assert_eq!(n.surface, token);
        let n = normalize(token, false).unwrap();
        assert_eq!(n.key, token.to_lowercase());
        assert_eq!(n.surface, token);
    }
}

#[test]
fn filtering_agrees_with_trimming_and_testing_by_hand() {
    for token in ["(a)", "a", "", "((", "a1", "(Ab]", "[a(b]", "é)", "a.", "(.)", " a", "(ab)c)"] {
        let trimmed = token.trim_matches(|c| "()[]".contains(c));
        let expected = if trimmed.is_empty() || !trimmed.chars().all(char::is_alphabetic) {
            None
        } else {
            Some((trimmed.to_lowercase(), trimmed.to_string()))
        };
        assert_eq!(kept(token, true), expected);
    }
}

#[test]
fn the_four_brackets_and_no_other_character() {
    for c in ['(', ')', '[', ']'] {
        assert!(is_bracket_char(c));
    }
    for c in ['{', '}', '<', '>', 'a', ' ', '.', '0', '（'] {
        assert!(!is_bracket_char(c));
    }
}

#[test]
fn normalizing_a_surface_form_again_gives_the_same_key() {
    for filtering in [true, false] {
        for token in ["(Hello)", "World", "[[Ünï]]", "ab", "(a)", "x1", "(("] {
            if let Some(first) = normalize(token, filtering) {
                let again = normalize(&first.surface, filtering).unwrap();
                assert_eq!(again.key, first.key);
                assert_eq!(again.surface, first.surface);
            }
        }
    }
}

#[test]
fn a_kept_token_is_still_kept_after_trimming() {
    for token in ["(Hello)", "World", "[[Ünï]]", "(a)", ")b("] {
        let first = normalize(token, true).unwrap();
        let trimmed = token.trim_matches(|c| "()[]".contains(c));
        let second = normalize(trimmed, true).unwrap();
        assert_eq!(second.key, first.key);
        assert_eq!(second.surface, first.surface);
    }
}

#[test]
fn trimming_strips_brackets_at_the_ends_only() {
    assert_eq!(trim_brackets("(hello)"), "hello");
    assert_eq!(trim_brackets("[(a(b)c)]"), "a(b)c");
    assert_eq!(trim_brackets("()[]"), "");
    assert_eq!(trim_brackets(""), "");
    assert_eq!(trim_brackets("x1)"), "x1");
    assert_eq!(trim_brackets(" (a) "), " (a) ");
    assert_eq!(trim_brackets("{a}"), "{a}");
    for token in ["(a)", "", "((", "a(b", "]a[", "(é)]", "a"] {
        assert_eq!(trim_brackets(token), token.trim_matches(|c| "()[]".contains(c)));
    }
}

#[test]
fn bounds_of_what_trimming_leaves() {
    assert_eq!(trimmed_bounds(&"((ab)".chars().collect()), (2, 4));
    assert_eq!(trimmed_bounds(&"ab".chars().collect()), (0, 2));
    assert_eq!(trimmed_bounds(&"a(b".chars().collect()), (0, 3));
    let (from, to) = trimmed_bounds(&"()".chars().collect());
    assert_eq!(from, to);
    let (from, to) = trimmed_bounds(&Vec::new());
    assert_eq!((from, to), (0, 0));
}
