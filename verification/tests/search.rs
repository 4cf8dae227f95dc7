use inverted_index::index::build_index;
use inverted_index::index::search;
use inverted_index::index::search_index;
use inverted_index::index::Document;
use inverted_index::index::InvertedIndex;
use inverted_index::index::NoResults;

fn doc(id: u32, body: &str) -> Document {
    Document { id, title: format!("doc {}", id), body: body.to_string() }
}

fn corpus() -> Vec<Document> {
    vec![doc(0, "The Cat sat"), doc(1, "A dog ran"), doc(2, "Cats and dogs")]
}

fn sorted(result: Result<Vec<u32>, NoResults>) -> Vec<u32> {
    let mut ids = result.expect("query should have results");
    ids.sort();
    ids
}

#[test]
fn single_term_query_returns_the_stems_postings() {
    let index = build_index(&corpus());
    assert_eq!(sorted(search(&index, "cat")), vec![0, 2]);
}

#[test]
fn two_term_query_intersects_postings() {
    let index = build_index(&corpus());
    assert_eq!(sorted(search(&index, "cat dog")), vec![2]);
}

#[test]
fn pure_stopword_query_gives_no_results() {
    let index = build_index(&corpus());
    assert_eq!(search(&index, "the"), Err(NoResults));
}

#[test]
fn unknown_term_query_gives_no_results() {
    let index = build_index(&corpus());
    assert_eq!(search(&index, "xyz"), Err(NoResults));
}

#[test]
fn empty_query_gives_no_results() {
    let index = build_index(&corpus());
    assert_eq!(search(&index, ""), Err(NoResults));
    assert_eq!(search(&index, "  ,,  "), Err(NoResults));
}

#[test]
fn disjoint_terms_intersect_to_no_results() {
    let index = build_index(&corpus());
    assert_eq!(search(&index, "sat ran"), Err(NoResults));
}

#[test]
fn unmatched_terms_do_not_force_an_empty_result() {
    let index = build_index(&corpus());
    assert_eq!(sorted(search(&index, "cat xyz")), vec![0, 2]);
}

#[test]
fn inflected_and_cased_query_forms_match() {
    let index = build_index(&corpus());
    assert_eq!(sorted(search(&index, "CATS")), vec![0, 2]);
}

#[test]
fn empty_corpus_builds_an_empty_index() {
    let index = build_index(&Vec::new());
    assert_eq!(search(&index, "cat"), Err(NoResults));
    assert_eq!(search(&index, "anything at all"), Err(NoResults));
}

#[test]
fn fresh_index_has_no_postings() {
    let index = InvertedIndex::new();
    assert_eq!(search(&index, "cat"), Err(NoResults));
}

#[test]
fn document_with_only_stopwords_contributes_nothing() {
    let mut docs = corpus();
    docs.push(doc(3, "the of and"));
    let index = build_index(&docs);
    assert_eq!(sorted(search(&index, "cat")), vec![0, 2]);
}

#[test]
fn search_index_returns_one_postings_list_per_found_stem() {
    let index = build_index(&corpus());
    let lists = search_index(&index, "cat dog xyz");
    assert_eq!(lists.len(), 2);
    let mut cats = lists[0].clone();
    cats.sort();
    let mut dogs = lists[1].clone();
    dogs.sort();
    assert_eq!(cats, vec![0, 2]);
    assert_eq!(dogs, vec![1, 2]);
}

#[test]
fn duplicate_occurrences_post_an_id_once() {
    let docs = vec![doc(0, "cat cat CAT cats")];
    let index = build_index(&docs);
    assert_eq!(sorted(search(&index, "cat")), vec![0]);
}
