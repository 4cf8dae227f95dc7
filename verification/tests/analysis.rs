use inverted_index::analysis::analyze;
use inverted_index::analysis::filter_stem;
use inverted_index::analysis::filter_stopwords;
use inverted_index::analysis::tokenize;

fn strings(words: &[&str]) -> Vec<String> {
    words.iter().map(|w| w.to_string()).collect()
}

#[test]
fn tokenize_splits_and_lowercases() {
    assert_eq!(tokenize("Hello, World! 123"), strings(&["hello", "world", "123"]));
}

#[test]
fn tokenize_collapses_delimiter_runs() {
    assert_eq!(tokenize("--a__b,,c--"), strings(&["a", "b", "c"]));
    assert_eq!(tokenize("...---..."), Vec::<String>::new());
    assert_eq!(tokenize(""), Vec::<String>::new());
}

#[test]
fn tokenize_treats_non_ascii_letters_as_delimiters() {
    assert_eq!(tokenize("café naïve"), strings(&["caf", "na", "ve"]));
}

#[test]
fn tokenize_emits_only_nonempty_normalized_tokens() {
    for token in tokenize(" ,Mixed-CASE text; 42__numbers\t(and)\nsymbols!! ") {
        assert!(!token.is_empty());
        assert!(token.chars().all(|c| c.is_ascii_lowercase() || c.is_ascii_digit()));
    }
}

#[test]
fn stopwords_are_removed() {
    let tokens = strings(&[
        "the", "cat", "and", "a", "dog", "to", "have", "i", "in", "of", "that", "be", "fox",
    ]);
    assert_eq!(filter_stopwords(tokens), strings(&["cat", "dog", "fox"]));
}

#[test]
fn stopword_filtering_is_idempotent() {
    let tokens = strings(&["the", "quick", "brown", "fox", "and", "a", "hound"]);
    let once = filter_stopwords(tokens);
    let twice = filter_stopwords(once.clone());
    assert_eq!(twice, once);
}

#[test]
fn stemming_reduces_words_to_stems() {
    assert_eq!(filter_stem(strings(&["fruitlessly"])), strings(&["fruitless"]));
    assert_eq!(filter_stem(strings(&["radical"])), strings(&["radic"]));
    assert_eq!(filter_stem(strings(&["anarchism"])), strings(&["anarch"]));
    assert_eq!(filter_stem(strings(&["cats"])), strings(&["cat"]));
}

#[test]
fn analyze_composes_the_pipeline() {
    assert_eq!(analyze("The Cat sat"), strings(&["cat", "sat"]));
    assert_eq!(analyze("Cats and dogs"), strings(&["cat", "dog"]));
}

#[test]
fn analyze_is_deterministic() {
    let text = "Fruitlessly chasing the cats, and naïvely so!";
    assert_eq!(analyze(text), analyze(text));
}

#[test]
fn analyze_of_pure_stopwords_is_empty() {
    assert_eq!(analyze("The To A"), Vec::<String>::new());
    assert_eq!(analyze(""), Vec::<String>::new());
}
