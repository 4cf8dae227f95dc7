//! The text-analysis pipeline: tokenization, stopword removal, and stemming,
//! composed by [`analyze`]. The same pipeline is used when building the index
//! and when parsing a query, so the two always agree on what a term is.

use vstd::prelude::*;

verus! {

/// A character on which tokens are built: an ASCII letter or digit.
/// Every other character (whitespace, punctuation, and also non-ASCII
/// letters, a deliberate simplification) is a delimiter.
pub open spec fn is_token_char(c: char) -> bool {
    ('0' <= c && c <= '9') || ('A' <= c && c <= 'Z') || ('a' <= c && c <= 'z')
}

/// ASCII lowercasing of a single character; everything but 'A'..'Z'
/// is left unchanged.
pub open spec fn lower_char(c: char) -> char {
    if 'A' <= c && c <= 'Z' {
        (((c as u32) + 32) as u8) as char
    } else {
        c
    }
}

/// A character that may appear in an emitted token: a digit or a
/// lowercase ASCII letter.
pub open spec fn is_normal_char(c: char) -> bool {
    ('0' <= c && c <= '9') || ('a' <= c && c <= 'z')
}

/// A well-formed token: non-empty, and made of normalized characters only.
pub open spec fn normalized_token(t: Seq<char>) -> bool {
    &&& t.len() > 0
    &&& forall|i: int| 0 <= i < t.len() ==> is_normal_char(#[trigger] t[i])
}

/// The tokens of `s`, given that the characters of a partially built token
/// `cur` (already lowercased) precede `s`: maximal runs of token characters
/// are emitted lowercased, delimiters are dropped.
pub open spec fn tokens_from(s: Seq<char>, cur: Seq<char>) -> Seq<Seq<char>>
    decreases s.len(),
{
    if s.len() == 0 {
        if cur.len() == 0 {
            seq![]
        } else {
            seq![cur]
        }
    } else if is_token_char(s[0]) {
        tokens_from(s.drop_first(), cur.push(lower_char(s[0])))
    } else if cur.len() == 0 {
        tokens_from(s.drop_first(), cur)
    } else {
        seq![cur] + tokens_from(s.drop_first(), seq![])
    }
}

/// The token sequence of a text: maximal runs of ASCII alphanumeric
/// characters, each lowercased; everything else acts as a delimiter.
pub open spec fn tokens_of(s: Seq<char>) -> Seq<Seq<char>> {
    tokens_from(s, seq![])
}

fn char_is_token(c: char) -> (b: bool)
    ensures
        b == is_token_char(c),
{
    ('0' <= c && c <= '9') || ('A' <= c && c <= 'Z') || ('a' <= c && c <= 'z')
}

fn char_to_lower(c: char) -> (r: char)
    ensures
        r == lower_char(c),
{
    if 'A' <= c && c <= 'Z' {
        (((c as u32) + 32) as u8) as char
    } else {
        c
    }
}

/// Relies on `String: FromIterator<char>`: collecting characters yields a
/// string holding exactly those characters in order.
#[verifier::external_body]
fn chars_to_string(cs: &Vec<char>) -> (s: String)
    ensures
        s@ == cs@,
{
    cs.iter().collect()
}

/// Splits `text` into its normalized tokens: maximal ASCII-alphanumeric runs,
/// lowercased. Any other character, a non-ASCII letter included, is a
/// delimiter; runs of delimiters produce no empty tokens.
pub fn tokenize(text: &str) -> (tokens: Vec<String>)
    ensures
        tokens.deep_view() == tokens_of(text@),
{
    let n: usize = text.unicode_len();
    let mut tokens: Vec<String> = Vec::new();
    let mut cur: Vec<char> = Vec::new();
    let mut i: usize = 0;
    proof {
        assert(text@.skip(0) =~= text@);
        assert(tokens.deep_view() + tokens_of(text@) =~= tokens_of(text@));
    }
    while i < n
        invariant
            n == text@.len(),
            i <= n,
            tokens.deep_view() + tokens_from(text@.skip(i as int), cur@) == tokens_of(text@),
        decreases n - i,
    {
        let ghost rest = text@.skip(i as int);
        let ghost cur0 = cur@;
        let ghost toks0 = tokens.deep_view();
        proof {
            assert(rest.len() == n - i);
            assert(rest[0] == text@[i as int]);
            assert(rest.drop_first() =~= text@.skip(i as int + 1));
        }
        let c = text.get_char(i);
        if char_is_token(c) {
            cur.push(char_to_lower(c));
            proof {
                assert(tokens_from(rest, cur0) == tokens_from(rest.drop_first(), cur@));
            }
        } else if cur.len() > 0 {
            let word = chars_to_string(&cur);
            tokens.push(word);
            cur = Vec::new();
            proof {
                assert(tokens.deep_view() =~= toks0.push(cur0));
                assert(cur@ =~= Seq::<char>::empty());
                assert(toks0.push(cur0) + tokens_from(rest.drop_first(), Seq::<char>::empty())
                    =~= toks0 + (seq![cur0] + tokens_from(rest.drop_first(), Seq::<char>::empty())));
            }
        }
        i = i + 1;
    }
    proof {
        assert(text@.skip(n as int) =~= Seq::<char>::empty());
    }
    if cur.len() > 0 {
        let word = chars_to_string(&cur);
        let ghost prev = tokens.deep_view();
        tokens.push(word);
        proof {
            assert(tokens.deep_view() =~= prev.push(cur@));
            assert(prev.push(cur@) =~= prev + seq![cur@]);
        }
    }
    tokens
}

proof fn lemma_lower_char_normal(c: char)
    requires
        is_token_char(c),
    ensures
        is_normal_char(lower_char(c)),
{
}

proof fn lemma_tokens_from_normalized(s: Seq<char>, cur: Seq<char>)
    requires
        forall|j: int| 0 <= j < cur.len() ==> is_normal_char(#[trigger] cur[j]),
    ensures
        forall|i: int| 0 <= i < tokens_from(s, cur).len() ==> normalized_token(
            #[trigger] tokens_from(s, cur)[i],
        ),
    decreases s.len(),
{
    if s.len() == 0 {
        if cur.len() > 0 {
            assert(tokens_from(s, cur) == seq![cur]);
            assert(tokens_from(s, cur)[0] == cur);
            assert(normalized_token(cur));
        }
    } else if is_token_char(s[0]) {
        lemma_lower_char_normal(s[0]);
        let cur2 = cur.push(lower_char(s[0]));
        assert forall|j: int| 0 <= j < cur2.len() implies is_normal_char(cur2[j]) by {
            if j < cur.len() {
                assert(cur2[j] == cur[j]);
            } else {
                assert(cur2[j] == lower_char(s[0]));
            }
        }
        lemma_tokens_from_normalized(s.drop_first(), cur2);
        let out = tokens_from(s, cur);
        let rest = tokens_from(s.drop_first(), cur2);
        assert forall|i: int| 0 <= i < out.len() implies normalized_token(out[i]) by {
            assert(out[i] == rest[i]);
        }
    } else if cur.len() == 0 {
        lemma_tokens_from_normalized(s.drop_first(), cur);
        let out = tokens_from(s, cur);
        let rest = tokens_from(s.drop_first(), cur);
        assert forall|i: int| 0 <= i < out.len() implies normalized_token(out[i]) by {
            assert(out[i] == rest[i]);
        }
    } else {
        lemma_tokens_from_normalized(s.drop_first(), Seq::empty());
        let out = tokens_from(s, cur);
        let rest = tokens_from(s.drop_first(), Seq::empty());
        assert forall|i: int| 0 <= i < out.len() implies normalized_token(out[i]) by {
            if i == 0 {
                assert(out[0] == cur);
                assert(normalized_token(cur));
            } else {
                assert(out[i] == rest[i - 1]);
            }
        }
    }
}

/// Every token that `tokenize` emits is non-empty and consists of
/// lowercase ASCII letters and digits only: delimiter runs, however
/// adjacent, never produce an empty or un-normalized token.
pub proof fn lemma_tokens_normalized(s: Seq<char>)
    ensures
        forall|i: int| 0 <= i < tokens_of(s).len() ==> normalized_token(#[trigger] tokens_of(s)[i]),
{
    lemma_tokens_from_normalized(s, Seq::empty());
}

/// The fixed stopword set: the ten most common English words.
pub open spec fn is_stopword(t: Seq<char>) -> bool {
    ||| t == "a"@
    ||| t == "and"@
    ||| t == "be"@
    ||| t == "have"@
    ||| t == "i"@
    ||| t == "in"@
    ||| t == "of"@
    ||| t == "that"@
    ||| t == "the"@
    ||| t == "to"@
}

/// The token sequence with every stopword removed; order and duplicates
/// of the remaining tokens are preserved.
pub open spec fn drop_stopwords(ts: Seq<Seq<char>>) -> Seq<Seq<char>>
    decreases ts.len(),
{
    if ts.len() == 0 {
        seq![]
    } else if is_stopword(ts[0]) {
        drop_stopwords(ts.drop_first())
    } else {
        seq![ts[0]] + drop_stopwords(ts.drop_first())
    }
}

fn word_is_stopword(t: &String) -> (b: bool)
    ensures
        b == is_stopword(t@),
{
    *t == "a".to_owned() || *t == "and".to_owned() || *t == "be".to_owned() || *t
        == "have".to_owned() || *t == "i".to_owned() || *t == "in".to_owned() || *t
        == "of".to_owned() || *t == "that".to_owned() || *t == "the".to_owned() || *t
        == "to".to_owned()
}

/// Removes every token that belongs to the fixed stopword set, keeping
/// the order (and any duplicates) of the remaining tokens.
pub fn filter_stopwords(tokens: Vec<String>) -> (kept: Vec<String>)
    ensures
        kept.deep_view() == drop_stopwords(tokens.deep_view()),
{
    let ghost all = tokens.deep_view();
    let mut kept: Vec<String> = Vec::new();
    let mut i: usize = 0;
    proof {
        assert(all.skip(0) =~= all);
        assert(kept.deep_view() + drop_stopwords(all) =~= drop_stopwords(all));
    }
    while i < tokens.len()
        invariant
            i <= tokens.len(),
            all == tokens.deep_view(),
            kept.deep_view() + drop_stopwords(all.skip(i as int)) == drop_stopwords(all),
        decreases tokens.len() - i,
    {
        let ghost rest = all.skip(i as int);
        let ghost kept0 = kept.deep_view();
        proof {
            assert(rest[0] == all[i as int]);
            assert(rest.drop_first() =~= all.skip(i as int + 1));
        }
        if !word_is_stopword(&tokens[i]) {
            kept.push(tokens[i].clone());
            proof {
                assert(kept.deep_view() =~= kept0.push(all[i as int]));
                assert(kept0.push(all[i as int]) + drop_stopwords(rest.drop_first()) =~= kept0 + (
                seq![all[i as int]] + drop_stopwords(rest.drop_first())));
            }
        }
        i = i + 1;
    }
    proof {
        assert(all.skip(tokens.len() as int) =~= Seq::<Seq<char>>::empty());
    }
    kept
}

/// Removing stopwords is idempotent: filtering an already-filtered
/// token sequence leaves it unchanged.
pub proof fn lemma_drop_stopwords_idempotent(ts: Seq<Seq<char>>)
    ensures
        drop_stopwords(drop_stopwords(ts)) == drop_stopwords(ts),
    decreases ts.len(),
{
    if ts.len() == 0 {
    } else if is_stopword(ts[0]) {
        lemma_drop_stopwords_idempotent(ts.drop_first());
    } else {
        lemma_drop_stopwords_idempotent(ts.drop_first());
        let out = seq![ts[0]] + drop_stopwords(ts.drop_first());
        assert(out.drop_first() =~= drop_stopwords(ts.drop_first()));
    }
}

/// The stem of a token, as the Snowball English stemmer computes it.
/// The algorithm is a fixed rule set; its result is a function of the
/// token's characters alone.
pub uninterp spec fn stem_of(token: Seq<char>) -> Seq<char>;

/// Relies on `rust_stemmers::Stemmer::stem` on a `Stemmer` made by
/// `Stemmer::create(Algorithm::English)`: the Snowball English stemmer, a
/// deterministic rewrite whose result depends on the input characters alone.
#[verifier::external_body]
fn stem_word(token: &String) -> (stem: String)
    ensures
        stem@ == stem_of(token@),
{
    let stemmer = rust_stemmers::Stemmer::create(rust_stemmers::Algorithm::English);
    stemmer.stem(token.as_str()).into_owned()
}

/// Every token of the sequence replaced by its stem.
pub open spec fn stem_all(ts: Seq<Seq<char>>) -> Seq<Seq<char>> {
    ts.map_values(|t: Seq<char>| stem_of(t))
}

/// Replaces each token by its stem ("fruitlessly" becomes "fruitless"),
/// keeping order and length. Stems need not be dictionary words.
pub fn filter_stem(tokens: Vec<String>) -> (stems: Vec<String>)
    ensures
        stems.deep_view() == stem_all(tokens.deep_view()),
{
    let mut stems: Vec<String> = Vec::new();
    let mut i: usize = 0;
    while i < tokens.len()
        invariant
            i <= tokens.len(),
            stems.deep_view() == stem_all(tokens.deep_view().take(i as int)),
        decreases tokens.len() - i,
    {
        let ghost prev = stems.deep_view();
        stems.push(stem_word(&tokens[i]));
        proof {
            let dv = tokens.deep_view();
            assert(stems.deep_view() =~= prev.push(stem_of(dv[i as int])));
            assert(prev.push(stem_of(dv[i as int])) =~= stem_all(dv.take(i as int + 1)));
        }
        i = i + 1;
    }
    proof {
        assert(tokens.deep_view().take(tokens.len() as int) =~= tokens.deep_view());
    }
    stems
}

/// The full analysis of a text: its tokens, minus stopwords, each stemmed.
pub open spec fn analysis_of(text: Seq<char>) -> Seq<Seq<char>> {
    stem_all(drop_stopwords(tokens_of(text)))
}

/// The one analysis pipeline, used both for documents at indexing time and
/// for queries: tokenize, then remove stopwords, then stem. Its result is a
/// function of the input text alone, so the two sides always agree.
pub fn analyze(text: &str) -> (stems: Vec<String>)
    ensures
        stems.deep_view() == analysis_of(text@),
{
    let tokens = tokenize(text);
    let kept = filter_stopwords(tokens);
    filter_stem(kept)
}

} // verus!
