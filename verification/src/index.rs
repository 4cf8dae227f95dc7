//! The inverted index and the query engine: building a map from stems to
//! postings (the set of documents a stem occurs in), and answering a query
//! by intersecting the postings of its stems.

use vstd::prelude::*;
use crate::analysis::analysis_of;
use crate::analysis::analyze;

verus! {

/// One document of the corpus. The id is assigned by the loader (by load
/// order, starting at zero); only the body is analyzed, and the title is
/// carried along for display.
pub struct Document {
    pub id: u32,
    pub title: String,
    pub body: String,
}

/// A map from each stem that occurs in the corpus to its postings: the set
/// of ids of the documents whose analyzed body contains the stem. Built
/// once, then read-only.
pub struct InvertedIndex {
    entries: Vec<(String, Vec<u32>)>,
}

impl InvertedIndex {
    /// Document `id` is posted under stem `s`.
    pub closed spec fn maps(self, s: Seq<char>, id: u32) -> bool {
        exists|k: int|
            0 <= k < self.entries@.len() && (#[trigger] self.entries@[k]).0@ == s
                && self.entries@[k].1@.contains(id)
    }

    /// Some entry of the index carries stem `s`.
    pub closed spec fn contains_stem(self, s: Seq<char>) -> bool {
        exists|k: int| 0 <= k < self.entries@.len() && (#[trigger] self.entries@[k]).0@ == s
    }

    /// The postings of stem `s`: every document id posted under it
    /// (the empty set for a stem the index does not contain).
    pub open spec fn postings_of(self, s: Seq<char>) -> Set<u32> {
        Set::new(|id: u32| self.maps(s, id))
    }

    /// Well-formedness: stems are unique among the entries, and each
    /// entry's postings list holds at least one id, none of them twice.
    pub closed spec fn wf(self) -> bool {
        &&& forall|k1: int, k2: int|
            0 <= k1 < k2 < self.entries@.len() ==> (#[trigger] self.entries@[k1]).0@ != (
            #[trigger] self.entries@[k2]).0@
        &&& forall|k: int|
            0 <= k < self.entries@.len() ==> (#[trigger] self.entries@[k]).1@.no_duplicates()
        &&& forall|k: int| 0 <= k < self.entries@.len() ==> (#[trigger] self.entries@[k]).1@.len() > 0
    }

    /// The empty index: no stems, no postings.
    pub fn new() -> (index: InvertedIndex)
        ensures
            index.wf(),
            forall|s: Seq<char>| !index.contains_stem(s),
            forall|s: Seq<char>, id: u32| !index.maps(s, id),
    {
        InvertedIndex { entries: Vec::new() }
    }

    fn find_entry(&self, stem: &String) -> (found: Option<usize>)
        ensures
            match found {
                Some(k) => k < self.entries@.len() && self.entries@[k as int].0@ == stem@,
                None => !self.contains_stem(stem@),
            },
    {
        let n = self.entries.len();
        let mut k: usize = 0;
        while k < n
            invariant
                k <= n,
                n == self.entries@.len(),
                forall|k0: int| 0 <= k0 < k ==> (#[trigger] self.entries@[k0]).0@ != stem@,
            decreases n - k,
        {
            if self.entries[k].0 == *stem {
                return Some(k);
            }
            k = k + 1;
        }
        None
    }

    /// Records that `id`'s document contains `stem`: adds `id` to the stem's
    /// postings, creating the entry if the stem is new; posting the same pair
    /// twice changes nothing.
    fn insert_posting(&mut self, stem: &String, id: u32)
        requires
            old(self).wf(),
        ensures
            final(self).wf(),
            forall|s: Seq<char>, i: u32|
                #[trigger] final(self).maps(s, i) <==> old(self).maps(s, i) || (s == stem@ && i
                    == id),
            forall|s: Seq<char>|
                #[trigger] final(self).contains_stem(s) <==> old(self).contains_stem(s) || s
                    == stem@,
    {
        match self.find_entry(stem) {
            Some(k) => {
                let ghost entries0 = self.entries@;
                if !vec_contains_id(&self.entries[k].1, id) {
                    self.entries[k].1.push(id);
                    proof {
                        let entries1 = self.entries@;
                        assert(entries1 =~= entries0.update(
                            k as int,
                            (entries0[k as int].0, entries1[k as int].1),
                        ));
                        assert(entries1[k as int].1@ =~= entries0[k as int].1@.push(id));
                        lemma_update_entry(entries0, entries1, k as int, id, stem@, *old(self), *self);
                    }
                } else {
                    proof {
                        assert forall|s: Seq<char>, i: u32| #[trigger]
                            self.maps(s, i) <==> old(self).maps(s, i) || (s == stem@ && i == id) by {
                            if s == stem@ && i == id {
                                assert(self.maps(s, i));
                            }
                        }
                    }
                }
            },
            None => {
                let ghost entries0 = self.entries@;
                let mut postings: Vec<u32> = Vec::new();
                postings.push(id);
                self.entries.push((stem.clone(), postings));
                proof {
                    let entries1 = self.entries@;
                    let last = entries1.len() - 1;
                    assert(entries1[last].0@ == stem@);
                    assert(entries1[last].1@ =~= seq![id]);
                    assert forall|s: Seq<char>, i: u32| #[trigger]
                        self.maps(s, i) <==> old(self).maps(s, i) || (s == stem@ && i == id) by {
                        if self.maps(s, i) {
                            let k = choose|k: int|
                                0 <= k < entries1.len() && (#[trigger] entries1[k]).0@ == s
                                    && entries1[k].1@.contains(i);
                            if k < last {
                                assert(old(self).maps(s, i));
                            } else {
                                assert(entries1[last].1@[0] == id);
                            }
                        }
                        if old(self).maps(s, i) {
                            let k = choose|k: int|
                                0 <= k < entries0.len() && (#[trigger] entries0[k]).0@ == s
                                    && entries0[k].1@.contains(i);
                            assert(entries1[k] == entries0[k]);
                            assert(self.maps(s, i));
                        }
                        if s == stem@ && i == id {
                            assert(entries1[last].1@[0] == id);
                            assert(entries1[last].1@.contains(id));
                            assert(self.maps(s, i));
                        }
                    }
                    assert forall|s: Seq<char>| #[trigger]
                        self.contains_stem(s) <==> old(self).contains_stem(s) || s == stem@ by {
                        if self.contains_stem(s) {
                            let k = choose|k: int|
                                0 <= k < entries1.len() && (#[trigger] entries1[k]).0@ == s;
                            if k < last {
                                assert(old(self).contains_stem(s));
                            }
                        }
                        if old(self).contains_stem(s) {
                            let k = choose|k: int|
                                0 <= k < entries0.len() && (#[trigger] entries0[k]).0@ == s;
                            assert(entries1[k] == entries0[k]);
                            assert(self.contains_stem(s));
                        }
                    }
                }
            },
        }
    }
}

fn vec_contains_id(v: &Vec<u32>, id: u32) -> (present: bool)
    ensures
        present == v@.contains(id),
{
    let mut j: usize = 0;
    while j < v.len()
        invariant
            j <= v@.len(),
            forall|j0: int| 0 <= j0 < j ==> v@[j0] != id,
        decreases v@.len() - j,
    {
        if v[j] == id {
            return true;
        }
        j = j + 1;
    }
    false
}

/// Document `id` occurs in `docs` and stem `s` occurs in its analyzed body.
pub open spec fn corpus_posts(docs: Seq<Document>, s: Seq<char>, id: u32) -> bool {
    exists|j: int|
        0 <= j < docs.len() && (#[trigger] docs[j]).id == id && analysis_of(docs[j].body@).contains(
            s,
        )
}

/// Stem `s` occurs in the analyzed body of some document of `docs`.
pub open spec fn corpus_has_stem(docs: Seq<Document>, s: Seq<char>) -> bool {
    exists|j: int| 0 <= j < docs.len() && analysis_of((#[trigger] docs[j]).body@).contains(s)
}

/// Builds the inverted index of a document collection: a document's id is
/// posted under a stem exactly when the stem occurs in that document's
/// analyzed body. An empty collection yields an index with no stems, and a
/// document whose body analyzes to nothing contributes no postings.
pub fn build_index(docs: &Vec<Document>) -> (index: InvertedIndex)
    ensures
        index.wf(),
        forall|s: Seq<char>, i: u32| #[trigger] index.maps(s, i) <==> corpus_posts(docs@, s, i),
        forall|s: Seq<char>| #[trigger] index.contains_stem(s) <==> corpus_has_stem(docs@, s),
{
    let mut index = InvertedIndex::new();
    let mut j: usize = 0;
    while j < docs.len()
        invariant
            j <= docs@.len(),
            index.wf(),
            forall|s: Seq<char>, i: u32| #[trigger]
                index.maps(s, i) <==> corpus_posts(docs@.take(j as int), s, i),
            forall|s: Seq<char>| #[trigger]
                index.contains_stem(s) <==> corpus_has_stem(docs@.take(j as int), s),
        decreases docs@.len() - j,
    {
        let stems = analyze(docs[j].body.as_str());
        let id = docs[j].id;
        let ghost sd = stems.deep_view();
        let ghost done = docs@.take(j as int);
        let mut k: usize = 0;
        proof {
            assert(sd.take(0) =~= Seq::<Seq<char>>::empty());
        }
        while k < stems.len()
            invariant
                k <= stems@.len(),
                j < docs@.len(),
                sd == stems.deep_view(),
                sd == analysis_of(docs@[j as int].body@),
                id == docs@[j as int].id,
                done == docs@.take(j as int),
                index.wf(),
                forall|s: Seq<char>, i: u32| #[trigger]
                    index.maps(s, i) <==> corpus_posts(done, s, i) || (i == id && sd.take(
                        k as int,
                    ).contains(s)),
                forall|s: Seq<char>| #[trigger]
                    index.contains_stem(s) <==> corpus_has_stem(done, s) || sd.take(
                        k as int,
                    ).contains(s),
            decreases stems@.len() - k,
        {
            let ghost index0 = index;
            index.insert_posting(&stems[k], id);
            proof {
                assert(stems@[k as int]@ == sd[k as int]);
                assert forall|s: Seq<char>|
                    sd.take(k as int + 1).contains(s) <==> sd.take(k as int).contains(s) || s
                        == sd[k as int] by {
                    if sd.take(k as int + 1).contains(s) {
                        let idx = choose|idx: int|
                            0 <= idx < k + 1 && #[trigger] sd.take(k as int + 1)[idx] == s;
                        if idx < k {
                            assert(sd.take(k as int)[idx] == s);
                        }
                    }
                    if sd.take(k as int).contains(s) {
                        let idx = choose|idx: int|
                            0 <= idx < k && #[trigger] sd.take(k as int)[idx] == s;
                        assert(sd.take(k as int + 1)[idx] == s);
                    }
                    if s == sd[k as int] {
                        assert(sd.take(k as int + 1)[k as int] == s);
                        assert(sd.take(k as int + 1).contains(s));
                    }
                }
                assert forall|s: Seq<char>, i: u32| #[trigger]
                    index.maps(s, i) <==> corpus_posts(done, s, i) || (i == id && sd.take(
                        k as int + 1,
                    ).contains(s)) by {
                    assert(index.maps(s, i) <==> index0.maps(s, i) || (s == sd[k as int] && i
                        == id));
                    assert(index0.maps(s, i) <==> corpus_posts(done, s, i) || (i == id && sd.take(
                        k as int,
                    ).contains(s)));
                }
                assert forall|s: Seq<char>| #[trigger]
                    index.contains_stem(s) <==> corpus_has_stem(done, s) || sd.take(
                        k as int + 1,
                    ).contains(s) by {
                    assert(index.contains_stem(s) <==> index0.contains_stem(s) || s == sd[
                        k as int
                    ]);
                    assert(index0.contains_stem(s) <==> corpus_has_stem(done, s) || sd.take(
                        k as int,
                    ).contains(s));
                }
            }
            k = k + 1;
        }
        proof {
            assert(sd.take(stems@.len() as int) =~= sd);
            assert forall|s: Seq<char>, i: u32|
                corpus_posts(docs@.take(j as int + 1), s, i) <==> corpus_posts(done, s, i) || (i
                    == id && sd.contains(s)) by {
                let next = docs@.take(j as int + 1);
                if corpus_posts(next, s, i) {
                    let j1 = choose|j1: int|
                        0 <= j1 < next.len() && (#[trigger] next[j1]).id == i && analysis_of(
                            next[j1].body@,
                        ).contains(s);
                    if j1 < j {
                        assert(done[j1] == next[j1]);
                        assert(corpus_posts(done, s, i));
                    } else {
                        assert(next[j1] == docs@[j as int]);
                    }
                }
                if corpus_posts(done, s, i) {
                    let j1 = choose|j1: int|
                        0 <= j1 < done.len() && (#[trigger] done[j1]).id == i && analysis_of(
                            done[j1].body@,
                        ).contains(s);
                    assert(next[j1] == done[j1]);
                    assert(corpus_posts(next, s, i));
                }
                if i == id && sd.contains(s) {
                    assert(next[j as int] == docs@[j as int]);
                    assert(corpus_posts(next, s, i));
                }
            }
            assert forall|s: Seq<char>|
                corpus_has_stem(docs@.take(j as int + 1), s) <==> corpus_has_stem(done, s)
                    || sd.contains(s) by {
                let next = docs@.take(j as int + 1);
                if corpus_has_stem(next, s) {
                    let j1 = choose|j1: int|
                        0 <= j1 < next.len() && analysis_of(
                            (#[trigger] next[j1]).body@,
                        ).contains(s);
                    if j1 < j {
                        assert(done[j1] == next[j1]);
                        assert(corpus_has_stem(done, s));
                    } else {
                        assert(next[j1] == docs@[j as int]);
                    }
                }
                if corpus_has_stem(done, s) {
                    let j1 = choose|j1: int|
                        0 <= j1 < done.len() && analysis_of(
                            (#[trigger] done[j1]).body@,
                        ).contains(s);
                    assert(next[j1] == done[j1]);
                    assert(corpus_has_stem(next, s));
                }
                if sd.contains(s) {
                    assert(next[j as int] == docs@[j as int]);
                    assert(corpus_has_stem(next, s));
                }
            }
        }
        j = j + 1;
    }
    proof {
        assert(docs@.take(docs@.len() as int) =~= docs@);
    }
    index
}

/// The sets that a sequence of postings lists stands for.
pub open spec fn sets_of(postings: Seq<Seq<u32>>) -> Seq<Set<u32>> {
    postings.map_values(|p: Seq<u32>| p.to_set())
}

/// The postings sets of the stems the index contains, in stem order; a stem
/// the index does not contain contributes nothing (it is skipped, not an
/// empty set).
pub open spec fn found_postings(index: InvertedIndex, stems: Seq<Seq<char>>) -> Seq<Set<u32>>
    decreases stems.len(),
{
    if stems.len() == 0 {
        seq![]
    } else if index.contains_stem(stems[0]) {
        seq![index.postings_of(stems[0])] + found_postings(index, stems.drop_first())
    } else {
        found_postings(index, stems.drop_first())
    }
}

proof fn lemma_entry_postings(index: InvertedIndex, k: int)
    requires
        index.wf(),
        0 <= k < index.entries@.len(),
    ensures
        index.entries@[k].1@.to_set() == index.postings_of(index.entries@[k].0@),
{
    let s = index.entries@[k].0@;
    let p = index.entries@[k].1@;
    assert forall|i: u32| p.to_set().contains(i) <==> index.postings_of(s).contains(i) by {
        if p.contains(i) {
            assert(index.maps(s, i));
        }
        if index.maps(s, i) {
            let k1 = choose|k1: int|
                0 <= k1 < index.entries@.len() && (#[trigger] index.entries@[k1]).0@ == s
                    && index.entries@[k1].1@.contains(i);
            assert(k1 == k);
        }
    }
    assert(p.to_set() =~= index.postings_of(s));
}

/// Analyzes the query text and gathers, in stem order, the postings list of
/// each query stem that the index contains; stems the index lacks are
/// skipped. The lists come back with no duplicate ids and never empty.
pub fn search_index(index: &InvertedIndex, text: &str) -> (found: Vec<Vec<u32>>)
    requires
        index.wf(),
    ensures
        sets_of(found.deep_view()) == found_postings(*index, analysis_of(text@)),
        forall|k: int|
            0 <= k < found@.len() ==> (#[trigger] found@[k])@.no_duplicates() && found@[k]@.len()
                > 0,
{
    let stems = analyze(text);
    let ghost sd = stems.deep_view();
    let mut found: Vec<Vec<u32>> = Vec::new();
    let mut i: usize = 0;
    proof {
        assert(sd.skip(0) =~= sd);
        assert(sets_of(found.deep_view()) + found_postings(*index, sd) =~= found_postings(
            *index,
            sd,
        ));
    }
    while i < stems.len()
        invariant
            i <= stems@.len(),
            sd == stems.deep_view(),
            index.wf(),
            sets_of(found.deep_view()) + found_postings(*index, sd.skip(i as int))
                == found_postings(*index, sd),
            forall|k: int|
                0 <= k < found@.len() ==> (#[trigger] found@[k])@.no_duplicates()
                    && found@[k]@.len() > 0,
        decreases stems@.len() - i,
    {
        let ghost rest = sd.skip(i as int);
        proof {
            assert(rest[0] == sd[i as int]);
            assert(stems@[i as int]@ == sd[i as int]);
            assert(rest.drop_first() =~= sd.skip(i as int + 1));
        }
        match index.find_entry(&stems[i]) {
            Some(k) => {
                let ghost f0 = found.deep_view();
                let postings = index.entries[k].1.clone();
                proof {
                    assert(postings@ =~= index.entries@[k as int].1@);
                    lemma_entry_postings(*index, k as int);
                    assert(index.contains_stem(rest[0]));
                }
                found.push(postings);
                proof {
                    assert(found.deep_view() =~~= f0.push(index.entries@[k as int].1@));
                    assert(sets_of(f0.push(index.entries@[k as int].1@)) =~= sets_of(f0).push(
                        index.postings_of(rest[0]),
                    ));
                    assert(sets_of(f0).push(index.postings_of(rest[0])) + found_postings(
                        *index,
                        rest.drop_first(),
                    ) =~= sets_of(f0) + (seq![index.postings_of(rest[0])] + found_postings(
                        *index,
                        rest.drop_first(),
                    )));
                }
            },
            None => {
                proof {
                    assert(!index.contains_stem(rest[0]));
                }
            },
        }
        i = i + 1;
    }
    proof {
        assert(sd.skip(stems@.len() as int) =~= Seq::<Seq<char>>::empty());
        assert(sets_of(found.deep_view()) + found_postings(*index, Seq::empty()) =~= sets_of(
            found.deep_view(),
        ));
    }
    found
}

/// The intersection of a non-empty sequence of sets, folded left to right;
/// a single set intersects to itself.
pub open spec fn intersect_all(sets: Seq<Set<u32>>) -> Set<u32>
    decreases sets.len(),
{
    if sets.len() <= 1 {
        if sets.len() == 0 {
            Set::empty()
        } else {
            sets[0]
        }
    } else {
        intersect_all(sets.drop_last()).intersect(sets.last())
    }
}

fn intersect_vecs(a: &Vec<u32>, b: &Vec<u32>) -> (r: Vec<u32>)
    requires
        a@.no_duplicates(),
    ensures
        r@.to_set() == a@.to_set().intersect(b@.to_set()),
        r@.no_duplicates(),
{
    let mut r: Vec<u32> = Vec::new();
    let mut j: usize = 0;
    proof {
        assert(r@.to_set() =~= a@.take(0).to_set().intersect(b@.to_set()));
    }
    while j < a.len()
        invariant
            j <= a@.len(),
            a@.no_duplicates(),
            r@.to_set() == a@.take(j as int).to_set().intersect(b@.to_set()),
            r@.no_duplicates(),
        decreases a@.len() - j,
    {
        let ghost r0 = r@;
        let x = a[j];
        let present = vec_contains_id(b, x);
        proof {
            assert forall|y: u32|
                a@.take(j as int + 1).to_set().contains(y) <==> a@.take(
                    j as int,
                ).to_set().contains(y) || y == x by {
                if a@.take(j as int + 1).contains(y) {
                    let t = choose|t: int|
                        0 <= t < j + 1 && #[trigger] a@.take(j as int + 1)[t] == y;
                    if t < j {
                        assert(a@.take(j as int)[t] == y);
                        assert(a@.take(j as int).contains(y));
                    }
                }
                if a@.take(j as int).contains(y) {
                    let t = choose|t: int| 0 <= t < j && #[trigger] a@.take(j as int)[t] == y;
                    assert(a@.take(j as int + 1)[t] == y);
                    assert(a@.take(j as int + 1).contains(y));
                }
                if y == x {
                    assert(a@.take(j as int + 1)[j as int] == x);
                    assert(a@.take(j as int + 1).contains(y));
                }
            }
        }
        if present {
            proof {
                if r0.contains(x) {
                    assert(r0.to_set().contains(x));
                    assert(a@.take(j as int).contains(x));
                    let t = choose|t: int| 0 <= t < j && #[trigger] a@.take(j as int)[t] == x;
                    assert(a@[t] == a@[j as int]);
                    assert(false);
                }
            }
            r.push(x);
            proof {
                assert forall|y: int, z: int| 0 <= y < z < r@.len() implies r@[y] != r@[z] by {
                    if z < r0.len() {
                        assert(r@[y] == r0[y] && r@[z] == r0[z]);
                    } else {
                        assert(r@[z] == x && r@[y] == r0[y]);
                        assert(r0.contains(r0[y]));
                    }
                }
                assert forall|y: u32| r@.to_set().contains(y) <==> r0.to_set().contains(y) || y
                    == x by {
                    if r@.contains(y) {
                        let u = choose|u: int| 0 <= u < r@.len() && r@[u] == y;
                        if u < r0.len() {
                            assert(r0[u] == y);
                            assert(r0.contains(y));
                        }
                    }
                    if r0.contains(y) {
                        let u = choose|u: int| 0 <= u < r0.len() && r0[u] == y;
                        assert(r@[u] == y);
                        assert(r@.contains(y));
                    }
                    if y == x {
                        assert(r@[r@.len() - 1] == x);
                        assert(r@.contains(y));
                    }
                }
            }
        }
        proof {
            if present {
                assert(b@.to_set().contains(x));
            } else {
                assert(!b@.to_set().contains(x));
            }
            assert forall|y: u32|
                r@.to_set().contains(y) <==> a@.take(j as int + 1).to_set().contains(y)
                    && b@.to_set().contains(y) by {
                assert(a@.take(j as int + 1).to_set().contains(y) <==> a@.take(
                    j as int,
                ).to_set().contains(y) || y == x);
                assert(r0.to_set().contains(y) <==> a@.take(j as int).to_set().contains(y)
                    && b@.to_set().contains(y));
                if present {
                    assert(r@.to_set().contains(y) <==> r0.to_set().contains(y) || y == x);
                } else {
                    assert(r@ == r0);
                }
            }
            assert(r@.to_set() =~= a@.take(j as int + 1).to_set().intersect(b@.to_set()));
        }
        j = j + 1;
    }
    proof {
        assert(a@.take(a@.len() as int) =~= a@);
    }
    r
}

/// The failure outcome of a query: either no query stem survived analysis,
/// or the postings of the stems that were found intersect to nothing.
#[derive(Debug, PartialEq, Eq)]
pub struct NoResults;

/// Answers a query against a built index: analyzes the query with the same
/// pipeline as the documents, gathers the postings of the stems the index
/// contains (unknown stems are dropped, they do not force an empty result),
/// and intersects them. `Err(NoResults)` exactly when no stem was found or
/// the found postings intersect to nothing; otherwise the non-empty
/// intersection, each id once, in no promised order.
pub fn search(index: &InvertedIndex, query: &str) -> (result: Result<Vec<u32>, NoResults>)
    requires
        index.wf(),
    ensures
        ({
            let sets = found_postings(*index, analysis_of(query@));
            match result {
                Ok(ids) => sets.len() > 0 && ids@.to_set() == intersect_all(sets) && ids@.len() > 0
                    && ids@.no_duplicates(),
                Err(_) => sets.len() == 0 || intersect_all(sets) == Set::<u32>::empty(),
            }
        }),
{
    let found = search_index(index, query);
    let ghost sets = found_postings(*index, analysis_of(query@));
    proof {
        assert(sets.len() == found.deep_view().len());
    }
    if found.len() == 0 {
        return Err(NoResults);
    }
    let mut acc: Vec<u32> = found[0].clone();
    proof {
        assert(acc@ =~= found@[0]@);
        assert(found.deep_view()[0] =~= found@[0]@);
        assert(acc@.to_set() == sets_of(found.deep_view())[0]);
        assert(sets.take(1) =~= seq![sets[0]]);
        assert(acc@.to_set() == intersect_all(sets.take(1)));
    }
    let mut i: usize = 1;
    while i < found.len()
        invariant
            1 <= i <= found@.len(),
            sets == found_postings(*index, analysis_of(query@)),
            sets == sets_of(found.deep_view()),
            sets.len() == found@.len(),
            acc@.to_set() == intersect_all(sets.take(i as int)),
            acc@.no_duplicates(),
            forall|k: int|
                0 <= k < found@.len() ==> (#[trigger] found@[k])@.no_duplicates()
                    && found@[k]@.len() > 0,
        decreases found@.len() - i,
    {
        let next = intersect_vecs(&acc, &found[i]);
        proof {
            assert(found.deep_view()[i as int] =~= found@[i as int]@);
            assert(found@[i as int]@.to_set() == sets[i as int]);
            assert(sets.take(i as int + 1).drop_last() =~= sets.take(i as int));
            assert(sets.take(i as int + 1).last() == sets[i as int]);
        }
        acc = next;
        i = i + 1;
    }
    proof {
        assert(sets.take(found@.len() as int) =~= sets);
    }
    if acc.len() == 0 {
        proof {
            assert(acc@.to_set() =~= Set::<u32>::empty());
        }
        Err(NoResults)
    } else {
        Ok(acc)
    }
}

/// A single-word query whose stem the index contains is answered by exactly
/// the postings set stored for that stem: indexing and querying use the same
/// analysis, so the lookup is symmetric.
pub proof fn lemma_single_term_query(index: InvertedIndex, query: Seq<char>)
    requires
        analysis_of(query).len() == 1,
        index.contains_stem(analysis_of(query)[0]),
    ensures
        found_postings(index, analysis_of(query)) == seq![
            index.postings_of(analysis_of(query)[0]),
        ],
        intersect_all(found_postings(index, analysis_of(query))) == index.postings_of(
            analysis_of(query)[0],
        ),
{
    let stems = analysis_of(query);
    assert(stems.drop_first() =~= Seq::<Seq<char>>::empty());
    assert(found_postings(index, stems.drop_first()) =~= Seq::<Set<u32>>::empty());
    assert(found_postings(index, stems) =~= seq![index.postings_of(stems[0])]);
}

/// For a two-word query both of whose stems the index contains, the answer
/// is the mathematical intersection of the two postings sets, and so a
/// subset of each.
pub proof fn lemma_two_term_query(index: InvertedIndex, query: Seq<char>)
    requires
        analysis_of(query).len() == 2,
        index.contains_stem(analysis_of(query)[0]),
        index.contains_stem(analysis_of(query)[1]),
    ensures
        intersect_all(found_postings(index, analysis_of(query))) == index.postings_of(
            analysis_of(query)[0],
        ).intersect(index.postings_of(analysis_of(query)[1])),
        intersect_all(found_postings(index, analysis_of(query))).subset_of(
            index.postings_of(analysis_of(query)[0]),
        ),
        intersect_all(found_postings(index, analysis_of(query))).subset_of(
            index.postings_of(analysis_of(query)[1]),
        ),
{
    let stems = analysis_of(query);
    let p0 = index.postings_of(stems[0]);
    let p1 = index.postings_of(stems[1]);
    let rest = stems.drop_first();
    assert(rest.len() == 1);
    assert(rest[0] == stems[1]);
    assert(rest.drop_first() =~= Seq::<Seq<char>>::empty());
    assert(found_postings(index, rest.drop_first()) =~= Seq::<Set<u32>>::empty());
    assert(found_postings(index, rest) =~= seq![p1]);
    let sets = found_postings(index, stems);
    assert(sets =~= seq![p0, p1]);
    assert(sets.drop_last() =~= seq![p0]);
    assert(sets.last() == p1);
    assert(intersect_all(seq![p0]) == p0);
    assert(intersect_all(sets) == p0.intersect(p1));
    assert forall|y: u32| p0.intersect(p1).contains(y) implies p0.contains(y) && p1.contains(
        y,
    ) by {}
}

proof fn lemma_no_stems_no_postings(index: InvertedIndex, stems: Seq<Seq<char>>)
    requires
        forall|s: Seq<char>| !index.contains_stem(s),
    ensures
        found_postings(index, stems) == Seq::<Set<u32>>::empty(),
    decreases stems.len(),
{
    if stems.len() == 0 {
        assert(found_postings(index, stems) =~= Seq::<Set<u32>>::empty());
    } else {
        lemma_no_stems_no_postings(index, stems.drop_first());
    }
}

/// An index built over an empty document collection — one meeting
/// `build_index`'s contract for zero documents — contains no stems, and no
/// query finds any postings in it, so by `search`'s contract every search
/// of it ends in `NoResults`.
pub proof fn lemma_empty_corpus_no_results(
    docs: Seq<Document>,
    index: InvertedIndex,
    query: Seq<char>,
)
    requires
        docs.len() == 0,
        forall|s: Seq<char>| #[trigger] index.contains_stem(s) <==> corpus_has_stem(docs, s),
    ensures
        forall|s: Seq<char>| !index.contains_stem(s),
        found_postings(index, analysis_of(query)) == Seq::<Set<u32>>::empty(),
{
    lemma_no_stems_no_postings(index, analysis_of(query));
}

proof fn lemma_update_entry(
    entries0: Seq<(String, Vec<u32>)>,
    entries1: Seq<(String, Vec<u32>)>,
    k: int,
    id: u32,
    stem: Seq<char>,
    old_index: InvertedIndex,
    new_index: InvertedIndex,
)
    requires
        old_index.wf(),
        old_index.entries@ == entries0,
        new_index.entries@ == entries1,
        0 <= k < entries0.len(),
        entries1 == entries0.update(k, (entries0[k].0, entries1[k].1)),
        entries0[k].0@ == stem,
        entries1[k].1@ == entries0[k].1@.push(id),
        !entries0[k].1@.contains(id),
    ensures
        new_index.wf(),
        forall|s: Seq<char>, i: u32|
            #[trigger] new_index.maps(s, i) <==> old_index.maps(s, i) || (s == stem && i == id),
        forall|s: Seq<char>|
            #[trigger] new_index.contains_stem(s) <==> old_index.contains_stem(s) || s == stem,
{
    assert(entries1.len() == entries0.len());
    assert(entries1[k].0 == entries0[k].0);
    assert(entries1[k].1@.no_duplicates()) by {
        let p0 = entries0[k].1@;
        let p1 = entries1[k].1@;
        assert forall|i1: int, i2: int| 0 <= i1 < i2 < p1.len() implies p1[i1] != p1[i2] by {
            if i2 < p0.len() {
                assert(p1[i1] == p0[i1] && p1[i2] == p0[i2]);
            } else {
                assert(p1[i2] == id && p1[i1] == p0[i1]);
                assert(p0.contains(p0[i1]));
            }
        }
    }
    assert forall|s: Seq<char>, i: u32| #[trigger]
        new_index.maps(s, i) <==> old_index.maps(s, i) || (s == stem && i == id) by {
        if new_index.maps(s, i) {
            let k1 = choose|k1: int|
                0 <= k1 < entries1.len() && (#[trigger] entries1[k1]).0@ == s
                    && entries1[k1].1@.contains(i);
            if k1 != k {
                assert(entries1[k1] == entries0[k1]);
                assert(old_index.maps(s, i));
            } else {
                let j = choose|j: int| 0 <= j < entries1[k].1@.len() && entries1[k].1@[j] == i;
                if j < entries0[k].1@.len() {
                    assert(entries0[k].1@.contains(i));
                    assert(old_index.maps(s, i));
                } else {
                    assert(i == id && s == stem);
                }
            }
        }
        if old_index.maps(s, i) {
            let k0 = choose|k0: int|
                0 <= k0 < entries0.len() && (#[trigger] entries0[k0]).0@ == s
                    && entries0[k0].1@.contains(i);
            if k0 != k {
                assert(entries1[k0] == entries0[k0]);
                assert(new_index.maps(s, i));
            } else {
                let j = choose|j: int| 0 <= j < entries0[k].1@.len() && entries0[k].1@[j] == i;
                assert(entries1[k].1@[j] == i);
                assert(entries1[k].1@.contains(i));
                assert(new_index.maps(s, i));
            }
        }
        if s == stem && i == id {
            let p1 = entries1[k].1@;
            assert(p1[p1.len() - 1] == id);
            assert(p1.contains(id));
            assert(new_index.maps(s, i));
        }
    }
    assert forall|s: Seq<char>| #[trigger]
        new_index.contains_stem(s) <==> old_index.contains_stem(s) || s == stem by {
        if new_index.contains_stem(s) {
            let k1 = choose|k1: int| 0 <= k1 < entries1.len() && (#[trigger] entries1[k1]).0@ == s;
            if k1 != k {
                assert(entries1[k1] == entries0[k1]);
            }
            assert(old_index.contains_stem(s) || s == stem);
        }
        if old_index.contains_stem(s) {
            let k0 = choose|k0: int| 0 <= k0 < entries0.len() && (#[trigger] entries0[k0]).0@ == s;
            if k0 != k {
                assert(entries1[k0] == entries0[k0]);
            }
            assert(new_index.contains_stem(s));
        }
        if s == stem {
            assert(entries1[k].0@ == s);
            assert(new_index.contains_stem(s));
        }
    }
}

} // verus!
