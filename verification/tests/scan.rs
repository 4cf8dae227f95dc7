use inverted_index::index::Document;
use inverted_index::scan::search_naive;
use inverted_index::scan::search_regex;

fn doc(id: u32, body: &str) -> Document {
    Document { id, title: format!("doc {}", id), body: body.to_string() }
}

fn corpus() -> Vec<Document> {
    vec![doc(0, "The Cat sat"), doc(1, "A dog ran"), doc(2, "Cats and dogs")]
}

fn ids(docs: &[Document]) -> Vec<u32> {
    docs.iter().map(|d| d.id).collect()
}

#[test]
fn regex_scan_matches_whole_words_ignoring_case() {
    let found = search_regex(&corpus(), "cat").expect("plain terms form valid patterns");
    assert_eq!(ids(&found), vec![0]);
}

#[test]
fn regex_scan_does_not_match_inside_words() {
    let found = search_regex(&corpus(), "cats").expect("plain terms form valid patterns");
    assert_eq!(ids(&found), vec![2]);
}

#[test]
fn regex_scan_reports_an_invalid_pattern() {
    assert!(search_regex(&corpus(), "(").is_none());
}

#[test]
fn naive_scan_is_case_sensitive_substring_search() {
    assert_eq!(ids(&search_naive(corpus(), "dog".to_string())), vec![1, 2]);
    assert_eq!(ids(&search_naive(corpus(), "Cat".to_string())), vec![0, 2]);
    assert_eq!(ids(&search_naive(corpus(), "cat".to_string())), Vec::<u32>::new());
}
