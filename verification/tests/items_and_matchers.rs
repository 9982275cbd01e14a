use shuttle::item::Item;
use shuttle::matcher::{FuzzyMatcher, Matcher, SimpleMatcher};

fn item(label: &str, value: &str) -> Item {
    Item::from_repo(label.to_string(), value.to_string())
}

fn labels(items: &[Item]) -> Vec<String> {
    items.iter().map(|it| it.label.clone()).collect()
}

#[test]
fn haystack_is_normalized() {
    let it = item("Alpha/One_X", "https://example.test/alpha");
    assert_eq!(it.label, "Alpha/One_X");
    assert_eq!(it.value, "https://example.test/alpha");
    assert_eq!(it.haystack, "alpha one x");
}

#[test]
fn haystack_has_no_uppercase_or_separators() {
    let inputs = ["Repo/Name_Here", "ALL_CAPS", "mixed/Case_path/End", "ümlaut/Ärger"];
    for raw in inputs {
        let it = item(raw, "v");
        assert!(!it.haystack.chars().any(|c| c.is_ascii_uppercase()));
        assert!(!it.haystack.contains('/'));
        assert!(!it.haystack.contains('_'));
    }
}

#[test]
fn job_items_are_normalized_too() {
    let it = Item::from_job("Deploy_Web/Prod".to_string(), "http://jenkins.test/job/1".to_string());
    assert_eq!(it.label, "Deploy_Web/Prod");
    assert_eq!(it.value, "http://jenkins.test/job/1");
    assert_eq!(it.haystack, "deploy web prod");
}

#[test]
fn line_item_takes_last_path_segment_as_label() {
    let it = Item::from_line("  /srv/tools/launcher  ").unwrap();
    assert_eq!(it.value, "/srv/tools/launcher");
    assert_eq!(it.label, "launcher");
    assert_eq!(it.haystack, " srv tools launcher");
}

#[test]
fn line_item_without_separator_keeps_whole_value() {
    let it = Item::from_line("plain").unwrap();
    assert_eq!(it.label, "plain");
    assert_eq!(it.value, "plain");
}

#[test]
fn line_item_strips_trailing_separators_for_label() {
    let it = Item::from_line("a/b///").unwrap();
    assert_eq!(it.label, "b");
    assert_eq!(it.value, "a/b///");
}

#[test]
fn empty_line_is_a_parse_error() {
    assert!(Item::from_line("").is_err());
    assert!(Item::from_line("   \t  ").is_err());
    assert!(Item::from_line(" x ").is_ok());
}

#[test]
fn simple_matcher_requires_every_token() {
    let items = vec![
        item("alpha/one", "1"),
        item("beta/two", "2"),
        item("alpha/three", "3"),
    ];
    let m = SimpleMatcher;
    let r = m.matches("al one", &items);
    assert_eq!(labels(&r), vec!["alpha/one"]);
    for it in &r {
        assert!(it.haystack.contains("al"));
        assert!(it.haystack.contains("one"));
    }
}

#[test]
fn simple_matcher_is_stable() {
    let items = vec![
        item("alpha/one", "1"),
        item("beta/two", "2"),
        item("alpha/three", "3"),
    ];
    let m = SimpleMatcher;
    let r = m.matches("al", &items);
    assert_eq!(labels(&r), vec!["alpha/one", "alpha/three"]);
}

#[test]
fn simple_matcher_lowercases_the_query() {
    let items = vec![item("alpha/one", "1"), item("beta/two", "2")];
    let m = SimpleMatcher;
    let r = m.matches("AL", &items);
    assert_eq!(labels(&r), vec!["alpha/one"]);
}

#[test]
fn simple_matcher_empty_query_returns_everything() {
    let items = vec![item("alpha/one", "1"), item("beta/two", "2")];
    let m = SimpleMatcher;
    let r = m.matches("", &items);
    assert_eq!(labels(&r), vec!["alpha/one", "beta/two"]);
}

#[test]
fn fuzzy_matcher_excludes_unmatched_and_sorts_by_score() {
    let items = vec![
        item("a_b_c", "spread"),
        item("abc", "tight"),
        item("zzz", "none"),
    ];
    let m = FuzzyMatcher;
    let r = m.matches("abc", &items);
    // Only the two items whose haystack contains the pattern as a
    // subsequence survive; the word-boundary bonuses rank the spaced
    // haystack above the plain contiguous one.
    assert_eq!(labels(&r), vec!["a_b_c", "abc"]);
}

#[test]
fn fuzzy_matcher_is_case_insensitive_via_lowered_query() {
    let items = vec![item("abc", "tight"), item("zzz", "none")];
    let m = FuzzyMatcher;
    let r = m.matches("ABC", &items);
    assert_eq!(labels(&r), vec!["abc"]);
}

#[test]
fn fuzzy_matcher_empty_query_keeps_all_in_order() {
    let items = vec![item("beta", "2"), item("alpha", "1")];
    let m = FuzzyMatcher;
    let r = m.matches("", &items);
    assert_eq!(labels(&r), vec!["beta", "alpha"]);
}
