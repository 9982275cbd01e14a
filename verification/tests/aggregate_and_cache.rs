use shuttle::aggregate::{load_items_from_results, merge_results, sort_by_label};
use shuttle::cache::{decode_cache, encode_cache};
use shuttle::item::Item;
use shuttle::provider::{Github, Jenkins, LoadError, Provider};

fn item(label: &str, value: &str) -> Item {
    Item::from_repo(label.to_string(), value.to_string())
}

fn labels(items: &[Item]) -> Vec<String> {
    items.iter().map(|it| it.label.clone()).collect()
}

#[test]
fn merge_concatenates_in_declaration_order() {
    let results = vec![
        Ok(vec![item("b", "1"), item("a", "2")]),
        Ok(vec![]),
        Ok(vec![item("c", "3")]),
    ];
    let merged = merge_results(&results).unwrap();
    assert_eq!(labels(&merged), vec!["b", "a", "c"]);
}

#[test]
fn one_failure_fails_the_whole_aggregation() {
    let results = vec![
        Ok(vec![item("a", "1")]),
        Err(LoadError::new("connection refused".to_string())),
        Ok(vec![item("b", "2")]),
    ];
    let err = merge_results(&results).unwrap_err();
    assert_eq!(err.message, "connection refused");
    assert!(load_items_from_results(&results).is_err());
}

#[test]
fn first_of_several_errors_wins() {
    let results: Vec<Result<Vec<Item>, LoadError>> = vec![
        Ok(vec![]),
        Err(LoadError::new("first".to_string())),
        Err(LoadError::new("second".to_string())),
    ];
    let err = merge_results(&results).unwrap_err();
    assert_eq!(err.message, "first");
}

#[test]
fn cold_load_sorts_by_label() {
    let results = vec![
        Ok(vec![item("delta", "4"), item("alpha", "1")]),
        Ok(vec![item("charlie", "3"), item("bravo", "2")]),
    ];
    let items = load_items_from_results(&results).unwrap();
    assert_eq!(labels(&items), vec!["alpha", "bravo", "charlie", "delta"]);
}

#[test]
fn label_sort_is_stable_and_ordinal() {
    let items = vec![
        item("same", "second-insert"),
        item("Zed", "z"),
        item("same", "third-insert"),
        item("abc", "a"),
    ];
    let sorted = sort_by_label(&items);
    // Ordinal order puts uppercase before lowercase.
    assert_eq!(labels(&sorted), vec!["Zed", "abc", "same", "same"]);
    assert_eq!(sorted[2].value, "second-insert");
    assert_eq!(sorted[3].value, "third-insert");
}

#[test]
fn cache_round_trips_plain_items() {
    let items = vec![item("alpha/one", "https://example.test/1"), item("beta", "2")];
    let text = encode_cache(&items);
    let back = decode_cache(&text).unwrap();
    assert_eq!(back.len(), items.len());
    for (a, b) in items.iter().zip(back.iter()) {
        assert_eq!(a.label, b.label);
        assert_eq!(a.value, b.value);
        assert_eq!(a.haystack, b.haystack);
    }
}

#[test]
fn cache_round_trips_hostile_strings() {
    let tricky = Item {
        label: "line\nbreak\\and\\\\more".to_string(),
        value: "v\n\n\\n".to_string(),
        haystack: "ünïcode ⚙ mixed \\ here".to_string(),
    };
    let empty = Item {
        label: String::new(),
        value: String::new(),
        haystack: String::new(),
    };
    let items = vec![tricky, empty];
    let back = decode_cache(&encode_cache(&items)).unwrap();
    assert_eq!(back.len(), 2);
    for (a, b) in items.iter().zip(back.iter()) {
        assert_eq!(a.label, b.label);
        assert_eq!(a.value, b.value);
        assert_eq!(a.haystack, b.haystack);
    }
}

#[test]
fn cache_of_no_items_round_trips() {
    let items: Vec<Item> = vec![];
    let text = encode_cache(&items);
    assert_eq!(text, "");
    assert_eq!(decode_cache(&text).unwrap().len(), 0);
}

#[test]
fn corrupt_cache_text_is_rejected() {
    assert!(decode_cache("no trailing newline").is_none());
    assert!(decode_cache("one\nfield\n").is_none());
    assert!(decode_cache("stray\\escape\\x\nb\nc\n").is_none());
    assert!(decode_cache("a\nb\nc\nd\n").is_none());
    assert!(decode_cache("a\nb\nc\n").is_some());
}

#[test]
fn github_urls_are_built_from_endpoint_and_orga() {
    let gh = Github::new("acme".to_string());
    assert_eq!(
        gh.repos_url(),
        "https://api.github.com/orgs/acme/repos?sort=updated&per_page=100"
    );
    let own = Github::new_with_endpoint("tools".to_string(), "https://git.example.test/api/v3///".to_string());
    assert_eq!(
        own.repos_url(),
        "https://git.example.test/api/v3/orgs/tools/repos?sort=updated&per_page=100"
    );
}

#[test]
fn jenkins_url_appends_api_path() {
    let j = Jenkins::new("http://jenkins.example.test".to_string());
    assert_eq!(j.api_url(), "http://jenkins.example.test/api/json");
}

struct CannedProvider {
    items: Vec<Item>,
}

impl Provider for CannedProvider {
    fn load(&self) -> Result<Vec<Item>, LoadError> {
        Ok(self.items.iter().cloned().collect())
    }
}

struct BrokenProvider;

impl Provider for BrokenProvider {
    fn load(&self) -> Result<Vec<Item>, LoadError> {
        Err(LoadError::new("boom".to_string()))
    }
}

#[test]
fn providers_feed_the_aggregation_through_the_trait() {
    let good = CannedProvider { items: vec![item("a", "1")] };
    let bad = BrokenProvider;
    assert_eq!(good.title(), "Unknown");
    let ok_results = vec![good.load()];
    assert_eq!(labels(&load_items_from_results(&ok_results).unwrap()), vec!["a"]);
    let mixed = vec![good.load(), bad.load()];
    assert_eq!(
        load_items_from_results(&mixed).unwrap_err().message,
        "boom"
    );
}
