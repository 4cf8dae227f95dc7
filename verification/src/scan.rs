//! Two direct corpus scans, kept for comparison with the inverted index:
//! a case-insensitive word-boundary scan driven by a regular expression,
//! and a raw case-sensitive substring scan. Both read every document body
//! on every call; the index answers the same single-word queries without
//! rescanning.

use vstd::prelude::*;
use crate::index::Document;

verus! {

/// `sub` occurs in `text` as a contiguous run of characters.
pub open spec fn has_substring(text: Seq<char>, sub: Seq<char>) -> bool {
    exists|i: int|
        0 <= i <= text.len() - sub.len() && #[trigger] text.subrange(i, i + sub.len()) == sub
}

/// Relies on `str::contains` with a `&str` pattern: true exactly when the
/// pattern occurs as a substring.
#[verifier::external_body]
fn contains_substring(text: &str, sub: &str) -> (found: bool)
    ensures
        found == has_substring(text@, sub@),
{
    text.contains(sub)
}

fn clone_document(doc: &Document) -> (copy: Document)
    ensures
        copy == *doc,
{
    Document { id: doc.id, title: doc.title.clone(), body: doc.body.clone() }
}

/// The documents whose body holds `term` as a raw substring, in corpus order.
pub open spec fn substring_matches(docs: Seq<Document>, term: Seq<char>) -> Seq<Document>
    decreases docs.len(),
{
    if docs.len() == 0 {
        seq![]
    } else if has_substring(docs[0].body@, term) {
        seq![docs[0]] + substring_matches(docs.drop_first(), term)
    } else {
        substring_matches(docs.drop_first(), term)
    }
}

/// Scans every body for `term` as a raw substring: case-sensitive and blind
/// to word boundaries, so "cat" finds "education" but not "Cat".
pub fn search_naive(docs: Vec<Document>, term: String) -> (matched: Vec<Document>)
    ensures
        matched@ == substring_matches(docs@, term@),
{
    let mut matched: Vec<Document> = Vec::new();
    let mut i: usize = 0;
    proof {
        assert(docs@.skip(0) =~= docs@);
        assert(matched@ + substring_matches(docs@, term@) =~= substring_matches(docs@, term@));
    }
    while i < docs.len()
        invariant
            i <= docs@.len(),
            matched@ + substring_matches(docs@.skip(i as int), term@) == substring_matches(
                docs@,
                term@,
            ),
        decreases docs@.len() - i,
    {
        let ghost rest = docs@.skip(i as int);
        let ghost matched0 = matched@;
        proof {
            assert(rest[0] == docs@[i as int]);
            assert(rest.drop_first() =~= docs@.skip(i as int + 1));
        }
        if contains_substring(docs[i].body.as_str(), term.as_str()) {
            matched.push(clone_document(&docs[i]));
            proof {
                assert(matched@ =~= matched0.push(docs@[i as int]));
                assert(matched0.push(docs@[i as int]) + substring_matches(
                    rest.drop_first(),
                    term@,
                ) =~= matched0 + (seq![docs@[i as int]] + substring_matches(
                    rest.drop_first(),
                    term@,
                )));
            }
        }
        i = i + 1;
    }
    proof {
        assert(docs@.skip(docs@.len() as int) =~= Seq::<Document>::empty());
    }
    matched
}

/// The case-insensitive word-boundary pattern built around `term` is a valid
/// regular expression; a property of `term` alone.
pub uninterp spec fn word_pattern_ok(term: Seq<char>) -> bool;

/// `text` matches the case-insensitive word-boundary pattern built around
/// `term`, as the regex engine decides it; a function of the two strings
/// alone.
pub uninterp spec fn word_match(term: Seq<char>, text: Seq<char>) -> bool;

/// Relies on `regex::RegexBuilder::build` (with `case_insensitive`) and
/// `regex::Regex::is_match`: builds the word-boundary pattern for `term`
/// and tests `text` against it. Both steps are deterministic in the two
/// strings; `None` reports a `term` that does not form a valid pattern.
#[verifier::external_body]
fn word_match_in(term: &str, text: &str) -> (found: Option<bool>)
    ensures
        (found is Some) == word_pattern_ok(term@),
        match found {
            Some(b) => b == word_match(term@, text@),
            None => true,
        },
{
    let pattern = format!(r"\b{}\b", term);
    match regex::RegexBuilder::new(&pattern).case_insensitive(true).build() {
        Ok(re) => Some(re.is_match(text)),
        Err(_) => None,
    }
}

/// The documents whose body matches the word-boundary pattern for `term`,
/// in corpus order.
pub open spec fn word_matches(docs: Seq<Document>, term: Seq<char>) -> Seq<Document>
    decreases docs.len(),
{
    if docs.len() == 0 {
        seq![]
    } else if word_match(term, docs[0].body@) {
        seq![docs[0]] + word_matches(docs.drop_first(), term)
    } else {
        word_matches(docs.drop_first(), term)
    }
}

/// Scans every body for `term` as a whole word, ignoring ASCII case. Where
/// `term` does not form a valid pattern the scan reports `None` rather than
/// failing.
pub fn search_regex(docs: &Vec<Document>, term: &str) -> (matched: Option<Vec<Document>>)
    ensures
        (matched is Some) == word_pattern_ok(term@),
        match matched {
            Some(found) => found@ == word_matches(docs@, term@),
            None => true,
        },
{
    if word_match_in(term, "").is_none() {
        return None;
    }
    let mut matched: Vec<Document> = Vec::new();
    let mut i: usize = 0;
    proof {
        assert(docs@.skip(0) =~= docs@);
        assert(matched@ + word_matches(docs@, term@) =~= word_matches(docs@, term@));
    }
    while i < docs.len()
        invariant
            i <= docs@.len(),
            word_pattern_ok(term@),
            matched@ + word_matches(docs@.skip(i as int), term@) == word_matches(docs@, term@),
        decreases docs@.len() - i,
    {
        let ghost rest = docs@.skip(i as int);
        let ghost matched0 = matched@;
        proof {
            assert(rest[0] == docs@[i as int]);
            assert(rest.drop_first() =~= docs@.skip(i as int + 1));
        }
        if let Some(is_hit) = word_match_in(term, docs[i].body.as_str()) {
            if is_hit {
                matched.push(clone_document(&docs[i]));
                proof {
                    assert(matched@ =~= matched0.push(docs@[i as int]));
                    assert(matched0.push(docs@[i as int]) + word_matches(rest.drop_first(), term@)
                        =~= matched0 + (seq![docs@[i as int]] + word_matches(
                        rest.drop_first(),
                        term@,
                    )));
                }
            }
        } else {
            return None;
        }
        i = i + 1;
    }
    proof {
        assert(docs@.skip(docs@.len() as int) =~= Seq::<Document>::empty());
    }
    Some(matched)
}

} // verus!
