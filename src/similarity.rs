//! Similarity between a snippet and the documents of a corpus.
//!
//! Jaccard similarity is exact here. Cosine and weighted Jaccard similarity
//! combine real-valued weights: this module aligns the two sides over their
//! combined keys, so that the arithmetic left to do is a sum over pairs. It
//! also gathers the documents to score and ranks them by score.
use crate::keys::{
    align, distinct, distinct_strings, entry_for, is_position, keys_of, lemma_distinct, lemma_value_for,
    merged_keys, value_for,
    position_of,
};
use crate::rake::{copy_parts, degree_fits, is_key_score, keyword_parts, rake_keys};
use crate::text::{contains_word, views};
use crate::tf_idf::{
    documents_of, idf_table, is_idf, is_tf_idf, term_lists, vocabulary, vocabulary_of, weight_vector,
    corpus_views, Fraction, TfIdf,
};
use vstd::prelude::*;

verus! {

/// `f` is the Jaccard similarity of the sets of `a` and `b`: the size of their
/// intersection over the size of their union, and `0/1` when both are empty.
pub open spec fn is_jaccard(f: Fraction, a: Seq<Seq<char>>, b: Seq<Seq<char>>) -> bool {
    let sa = a.to_set();
    let sb = b.to_set();
    if sa.union(sb).len() == 0 {
        f.num == 0 && f.den == 1
    } else {
        f.num == sa.intersect(sb).len() && f.den == sa.union(sb).len()
    }
}

proof fn lemma_distinct_set(s: Seq<Seq<char>>, t: Set<Seq<char>>)
    requires
        forall|x: Seq<char>| #[trigger] s.contains(x) <==> t.contains(x),
    ensures
        distinct(s).len() == t.len(),
{
    lemma_distinct(s);
    distinct(s).unique_seq_to_set();
    assert(distinct(s).to_set() =~= t);
}

/// Jaccard similarity of two sets of strings, given as lists (repeats do not
/// count).
pub fn jaccard_similarity(set_a: &Vec<String>, set_b: &Vec<String>) -> (r: Fraction)
    ensures
        is_jaccard(r, views(set_a@), views(set_b@)),
        r.wf(),
        r.num <= r.den,
{
    let ghost a = views(set_a@);
    let ghost b = views(set_b@);
    let mut both: Vec<String> = Vec::new();
    let mut either: Vec<String> = Vec::new();
    for i in 0..set_a.len()
        invariant
            a == views(set_a@),
            b == views(set_b@),
            forall|x: Seq<char>|
                #[trigger] views(both@).contains(x) <==> (a.take(i as int).contains(x) && b.contains(x)),
            views(either@) == a.take(i as int),
    {
        let ghost pa = a.take(i as int);
        let ghost na = a.take(i + 1);
        assert(na =~= pa.push(a[i as int]));
        let ghost pb = views(both@);
        if contains_word(set_b, &set_a[i]) {
            both.push(set_a[i].clone());
            assert(views(both@) =~= pb.push(a[i as int]));
        }
        either.push(set_a[i].clone());
        assert(views(either@) =~= na);
        assert forall|x: Seq<char>| #[trigger] views(both@).contains(x) <==> (na.contains(x) && b.contains(x)) by {
            if na.contains(x) {
                let k = choose|k: int| 0 <= k < na.len() && na[k] == x;
                if k < pa.len() {
                    assert(pa[k] == x);
                }
            }
            if pa.contains(x) {
                let k = choose|k: int| 0 <= k < pa.len() && pa[k] == x;
                assert(na[k] == x);
            }
            if views(both@).contains(x) && !pb.contains(x) {
                let k = choose|k: int| 0 <= k < views(both@).len() && views(both@)[k] == x;
                if k < pb.len() {
                    assert(pb[k] == x);
                }
            }
            if pb.contains(x) {
                let k = choose|k: int| 0 <= k < pb.len() && pb[k] == x;
                assert(views(both@)[k] == x);
            }
            if x == a[i as int] && b.contains(x) {
                assert(na[i as int] == x);
                assert(views(both@)[views(both@).len() - 1] == x);
            }
        }
    }
    assert(a.take(set_a.len() as int) =~= a);
    let ghost ea = views(either@);
    for j in 0..set_b.len()
        invariant
            b == views(set_b@),
            views(either@) == ea + b.take(j as int),
    {
        assert(b.take(j + 1) =~= b.take(j as int).push(b[j as int]));
        let ghost before = views(either@);
        let s = set_b[j].clone();
        assert(s@ == b[j as int]);
        either.push(s);
        assert(views(either@) =~= before.push(s@));
        assert(views(either@) =~= ea + b.take(j + 1));
    }
    assert(b.take(set_b.len() as int) =~= b);
    let common = distinct_strings(&both);
    let all = distinct_strings(&either);
    proof {
        let sa = a.to_set();
        let sb = b.to_set();
        assert forall|x: Seq<char>| #[trigger] views(both@).contains(x) <==> sa.intersect(sb).contains(x) by {}
        assert forall|x: Seq<char>| #[trigger] views(either@).contains(x) <==> sa.union(sb).contains(x) by {
            if views(either@).contains(x) {
                let k = choose|k: int| 0 <= k < views(either@).len() && views(either@)[k] == x;
                if k >= a.len() {
                    assert(b[k - a.len()] == x);
                }
            }
            if a.contains(x) {
                let k = choose|k: int| 0 <= k < a.len() && a[k] == x;
                assert(views(either@)[k] == x);
            }
            if b.contains(x) {
                let k = choose|k: int| 0 <= k < b.len() && b[k] == x;
                assert(views(either@)[a.len() + k] == x);
            }
        }
        lemma_distinct_set(views(both@), sa.intersect(sb));
        lemma_distinct_set(views(either@), sa.union(sb));
        vstd::set_lib::lemma_len_subset(sa.intersect(sb), sa.union(sb));
    }
    if all.len() == 0 {
        Fraction { num: 0, den: 1 }
    } else {
        Fraction { num: common.len(), den: all.len() }
    }
}

/// The Jaccard similarity of a non-empty set with itself is one, and that of
/// two empty sets is zero.
pub proof fn lemma_jaccard_self(f: Fraction, a: Seq<Seq<char>>)
    requires
        is_jaccard(f, a, a),
    ensures
        a.len() > 0 ==> f.num == f.den && f.den > 0,
        a.len() == 0 ==> f.num == 0 && f.den == 1,
{
    let s = a.to_set();
    assert(s.intersect(s) =~= s);
    assert(s.union(s) =~= s);
    if a.len() > 0 {
        assert(s.contains(a[0]));
        vstd::set_lib::lemma_set_empty_equivalency_len(s);
    } else {
        assert(s =~= Set::empty());
    }
}


pub open spec fn zero_weight() -> TfIdf {
    TfIdf { tf: Fraction { num: 0, den: 1 }, idf: Fraction { num: 1, den: 1 } }
}

/// The weight of the first entry with key `k`, or the zero weight when no
/// entry has that key.
pub open spec fn weight_for(entries: Seq<(String, TfIdf)>, k: Seq<char>) -> TfIdf {
    value_for(entries, k, |w: TfIdf| w, zero_weight())
}

/// Aligns two weight maps over their combined keys (those of `scores_1` in
/// order, then those only `scores_2` has): for each key, its weight on either
/// side, zero where a side lacks it. The cosine similarity is the sum of the
/// pairwise products over the product of the two norms. A map aligned with
/// itself gives pairs of equal weights.
pub fn cosine_similarity_pairs(
    scores_1: &Vec<(String, TfIdf)>,
    scores_2: &Vec<(String, TfIdf)>,
) -> (r: Vec<(TfIdf, TfIdf)>)
    ensures
        r@.len() == distinct(keys_of(scores_1@) + keys_of(scores_2@)).len(),
        forall|i: int|
            0 <= i < r@.len() ==> (#[trigger] r@[i]).0 == weight_for(
                scores_1@,
                distinct(keys_of(scores_1@) + keys_of(scores_2@))[i],
            ) && r@[i].1 == weight_for(
                scores_2@,
                distinct(keys_of(scores_1@) + keys_of(scores_2@))[i],
            ),
        scores_1@ == scores_2@
            ==> forall|i: int| 0 <= i < r@.len() ==> (#[trigger] r@[i]).0 == r@[i].1,
{
    let keys = merged_keys(scores_1, scores_2);
    let places = align(&keys, scores_1, scores_2);
    let ghost ks = distinct(keys_of(scores_1@) + keys_of(scores_2@));
    let mut out: Vec<(TfIdf, TfIdf)> = Vec::new();
    for i in 0..places.len()
        invariant
            views(keys@) == ks,
            places@.len() == keys@.len(),
            forall|j: int|
                0 <= j < places@.len()
                    ==> is_position((#[trigger] places@[j]).0, keys_of(scores_1@), keys@[j]@)
                    && is_position(places@[j].1, keys_of(scores_2@), keys@[j]@),
            out@.len() == i,
            forall|j: int|
                0 <= j < i ==> (#[trigger] out@[j]).0 == weight_for(scores_1@, ks[j]) && out@[j].1
                    == weight_for(scores_2@, ks[j]),
    {
        assert(ks[i as int] == keys@[i as int]@);
        let w1 = match places[i].0 {
            Some(p) => scores_1[p].1,
            None => TfIdf::zero(),
        };
        let w2 = match places[i].1 {
            Some(p) => scores_2[p].1,
            None => TfIdf::zero(),
        };
        proof {
            lemma_value_for(scores_1@, ks[i as int], |w: TfIdf| w, zero_weight(), places@[i as int].0);
            lemma_value_for(scores_2@, ks[i as int], |w: TfIdf| w, zero_weight(), places@[i as int].1);
        }
        out.push((w1, w2));
    }
    out
}

/// Aligns two RAKE score lists over the union of two documents' phrases
/// (those of `document_1` in order, then those only `document_2` has): for
/// each phrase, its position in `scores_1` and in `scores_2`, `None` where a
/// list lacks it. The weighted Jaccard similarity is the sum over these pairs
/// of the smaller score over the sum of the larger, a missing score counting
/// as zero.
pub fn weighted_jaccard_pairs<T>(
    document_1: &Vec<String>,
    document_2: &Vec<String>,
    scores_1: &Vec<(String, T)>,
    scores_2: &Vec<(String, T)>,
) -> (r: Vec<(Option<usize>, Option<usize>)>)
    ensures
        r@.len() == distinct(views(document_1@) + views(document_2@)).len(),
        forall|i: int|
            0 <= i < r@.len() ==> is_position(
                (#[trigger] r@[i]).0,
                keys_of(scores_1@),
                distinct(views(document_1@) + views(document_2@))[i],
            ) && is_position(
                r@[i].1,
                keys_of(scores_2@),
                distinct(views(document_1@) + views(document_2@))[i],
            ),
{
    let mut all: Vec<String> = Vec::new();
    for i in 0..document_1.len()
        invariant
            views(all@) == views(document_1@).take(i as int),
    {
        let s = document_1[i].clone();
        proof {
            assert(views(all@.push(s)) =~= views(all@).push(s@));
            assert(views(document_1@).take(i + 1) =~= views(document_1@).take(i as int).push(s@));
        }
        all.push(s);
    }
    assert(views(document_1@).take(document_1.len() as int) =~= views(document_1@));
    for j in 0..document_2.len()
        invariant
            views(all@) == views(document_1@) + views(document_2@).take(j as int),
    {
        let s = document_2[j].clone();
        proof {
            assert(views(all@.push(s)) =~= views(all@).push(s@));
            assert(views(document_2@).take(j + 1) =~= views(document_2@).take(j as int).push(s@));
        }
        all.push(s);
    }
    assert(views(document_2@).take(document_2.len() as int) =~= views(document_2@));
    let keys = distinct_strings(&all);
    let r = align(&keys, scores_1, scores_2);
    assert forall|i: int| 0 <= i < r@.len()
        implies keys@[i]@ == distinct(views(document_1@) + views(document_2@))[i] by {
        assert(views(keys@)[i] == keys@[i]@);
    }
    r
}

/// Every document of either corpus once: those of `corpus_1` in order, then
/// those only `corpus_2` has.
pub fn all_documents<T, U>(
    corpus_1: &Vec<(String, T)>,
    corpus_2: &Vec<(String, U)>,
) -> (r: Vec<String>)
    ensures
        views(r@) == distinct(keys_of(corpus_1@) + keys_of(corpus_2@)),
{
    merged_keys(corpus_1, corpus_2)
}

/// `r` is `s` sorted by non-increasing score, with `perm` giving the place in
/// `s` of each entry of `r`; entries with equal scores keep their order.
pub open spec fn is_ranking(r: Seq<(String, u32)>, s: Seq<(String, u32)>, perm: Seq<int>) -> bool {
    &&& r.len() == s.len()
    &&& perm.len() == s.len()
    &&& forall|i: int| 0 <= i < r.len() ==> 0 <= #[trigger] perm[i] < s.len() && r[i] == s[perm[i]]
    &&& forall|i: int, j: int| 0 <= i < j < r.len() ==> #[trigger] perm[i] != #[trigger] perm[j]
    &&& forall|k: int| 0 <= k < s.len() ==> #[trigger] perm.contains(k)
    &&& forall|i: int, j: int| 0 <= i < j < r.len() ==> (#[trigger] r[i]).1 >= (#[trigger] r[j]).1
    &&& forall|i: int, j: int|
        0 <= i < j < r.len() && (#[trigger] r[i]).1 == (#[trigger] r[j]).1 ==> perm[i] < perm[j]
}

/// Sorts documents by non-increasing score. Documents with equal scores keep
/// the order they had in `scores`.
pub fn rank_documents(scores: &Vec<(String, u32)>) -> (r: Vec<(String, u32)>)
    ensures
        exists|perm: Seq<int>| is_ranking(r@, scores@, perm),
{
    let mut out: Vec<(String, u32)> = Vec::new();
    let ghost mut perm: Seq<int> = Seq::empty();
    for i in 0..scores.len()
        invariant
            is_ranking(out@, scores@.take(i as int), perm),
    {
        let ghost s = scores@.take(i as int);
        let ghost s2 = scores@.take(i + 1);
        let key = scores[i].1;
        let mut pos: usize = 0;
        while pos < out.len() && out[pos].1 >= key
            invariant
                pos <= out@.len(),
                forall|j: int| 0 <= j < pos ==> (#[trigger] out@[j]).1 >= key,
            decreases out@.len() - pos,
        {
            pos = pos + 1;
        }
        let ghost old_out = out@;
        let ghost old_perm = perm;
        let e = (scores[i].0.clone(), key);
        assert(e == scores@[i as int]);
        out.insert(pos, e);
        proof {
            perm = old_perm.insert(pos as int, i as int);
            assert forall|j: int| 0 <= j < s2.len() && j != i implies s2[j] == s[j] by {}
            assert(s2[i as int] == e);
            assert forall|j: int| pos <= j < old_out.len()
                implies (#[trigger] old_out[j]).1 < key by {
                assert(old_out[pos as int].1 < key);
                if j > pos {
                    assert(old_out[pos as int].1 >= old_out[j].1);
                }
            }
            assert forall|j: int| 0 <= j < out@.len()
                implies 0 <= #[trigger] perm[j] < s2.len() && out@[j] == s2[perm[j]] by {
                if j < pos {
                    assert(out@[j] == old_out[j]);
                    assert(perm[j] == old_perm[j]);
                } else if j > pos {
                    assert(out@[j] == old_out[j - 1]);
                    assert(perm[j] == old_perm[j - 1]);
                }
            }
            assert forall|a: int, b: int| 0 <= a < b < out@.len()
                implies #[trigger] perm[a] != #[trigger] perm[b] by {
                let pa = if a < pos { a } else { a - 1 };
                let pb = if b < pos { b } else { b - 1 };
                if a != pos && b != pos {
                    assert(perm[a] == old_perm[pa]);
                    assert(perm[b] == old_perm[pb]);
                    assert(0 <= old_perm[pa] < s.len());
                    assert(pa < pb);
                } else if a == pos {
                    assert(perm[b] == old_perm[pb]);
                    assert(0 <= old_perm[pb] < s.len());
                } else {
                    assert(perm[a] == old_perm[pa]);
                    assert(0 <= old_perm[pa] < s.len());
                }
            }
            assert forall|k: int| 0 <= k < s2.len() implies #[trigger] perm.contains(k) by {
                if k == i {
                    assert(perm[pos as int] == k);
                } else {
                    assert(old_perm.contains(k));
                    let w = choose|w: int| 0 <= w < old_perm.len() && old_perm[w] == k;
                    if w < pos {
                        assert(perm[w] == k);
                    } else {
                        assert(perm[w + 1] == k);
                    }
                }
            }
            assert forall|a: int, b: int| 0 <= a < b < out@.len()
                implies (#[trigger] out@[a]).1 >= (#[trigger] out@[b]).1 by {
                let pa = if a < pos { a } else { a - 1 };
                let pb = if b < pos { b } else { b - 1 };
                if a != pos && b != pos {
                    assert(out@[a] == old_out[pa]);
                    assert(out@[b] == old_out[pb]);
                } else if a == pos {
                    assert(out@[b] == old_out[pb]);
                } else {
                    assert(out@[a] == old_out[pa]);
                }
            }
            assert forall|a: int, b: int|
                0 <= a < b < out@.len() && (#[trigger] out@[a]).1 == (#[trigger] out@[b]).1
                    implies perm[a] < perm[b] by {
                let pa = if a < pos { a } else { a - 1 };
                let pb = if b < pos { b } else { b - 1 };
                if a != pos && b != pos {
                    assert(out@[a] == old_out[pa]);
                    assert(out@[b] == old_out[pb]);
                    assert(perm[a] == old_perm[pa]);
                    assert(perm[b] == old_perm[pb]);
                } else if a == pos {
                    assert(out@[b] == old_out[pb]);
                } else {
                    assert(out@[a] == old_out[pa]);
                    assert(perm[a] == old_perm[pa]);
                    assert(0 <= old_perm[pa] < s.len());
                }
            }
        }
    }
    assert(scores@.take(scores.len() as int) =~= scores@);
    out
}

/// A ranking of scores given to every document of either corpus, in the
/// order `all_documents` lists them, is sorted by non-increasing score and
/// holds each document of either corpus exactly once.
pub proof fn lemma_ranking_covers_documents(
    ids_1: Seq<Seq<char>>,
    ids_2: Seq<Seq<char>>,
    scores: Seq<(String, u32)>,
    ranked: Seq<(String, u32)>,
)
    requires
        keys_of(scores) == distinct(ids_1 + ids_2),
        exists|perm: Seq<int>| is_ranking(ranked, scores, perm),
    ensures
        forall|i: int, j: int| 0 <= i < j < ranked.len()
            ==> (#[trigger] ranked[i]).1 >= (#[trigger] ranked[j]).1,
        keys_of(ranked).no_duplicates(),
        forall|x: Seq<char>| #[trigger] keys_of(ranked).contains(x) <==> ids_1.contains(x) || ids_2.contains(x),
{
    let perm = choose|perm: Seq<int>| is_ranking(ranked, scores, perm);
    let ks = keys_of(scores);
    let kr = keys_of(ranked);
    lemma_distinct(ids_1 + ids_2);
    assert forall|i: int, j: int| 0 <= i < kr.len() && 0 <= j < kr.len() && i != j
        implies kr[i] != kr[j] by {
        if i < j {
            assert(perm[i] != perm[j]);
        } else {
            assert(perm[j] != perm[i]);
        }
        assert(kr[i] == ks[perm[i]]);
        assert(kr[j] == ks[perm[j]]);
    }
    assert forall|x: Seq<char>| #[trigger] kr.contains(x) <==> ks.contains(x) by {
        if kr.contains(x) {
            let i = choose|i: int| 0 <= i < kr.len() && kr[i] == x;
            assert(ks[perm[i]] == x);
        }
        if ks.contains(x) {
            let k = choose|k: int| 0 <= k < ks.len() && ks[k] == x;
            assert(perm.contains(k));
            let i = choose|i: int| 0 <= i < perm.len() && perm[i] == k;
            assert(kr[i] == x);
        }
    }
    assert forall|x: Seq<char>| #[trigger] (ids_1 + ids_2).contains(x) <==> ids_1.contains(x) || ids_2.contains(x) by {
        let c = ids_1 + ids_2;
        if c.contains(x) {
            let k = choose|k: int| 0 <= k < c.len() && c[k] == x;
            if k >= ids_1.len() {
                assert(ids_2[k - ids_1.len()] == x);
            }
        }
        if ids_1.contains(x) {
            let k = choose|k: int| 0 <= k < ids_1.len() && ids_1[k] == x;
            assert(c[k] == x);
        }
        if ids_2.contains(x) {
            let k = choose|k: int| 0 <= k < ids_2.len() && ids_2[k] == x;
            assert(c[ids_1.len() + k] == x);
        }
    }
}


/// `e` is a document of `ids` with the score that `scores` gives it.
pub open spec fn scored_as(e: (String, u32), ids: Seq<Seq<char>>, scores: Seq<u32>) -> bool {
    exists|j: int| 0 <= j < scores.len() && ids[j] == e.0@ && scores[j] == e.1
}

/// Ranks every document of either corpus by its score, `scores[i]` being
/// the score of the `i`-th document in the order `all_documents` lists them.
/// The result is sorted by non-increasing score and holds each document of
/// either corpus exactly once, with its score.
pub fn rank_all_documents<T, U>(
    corpus_1: &Vec<(String, T)>,
    corpus_2: &Vec<(String, U)>,
    scores: &Vec<u32>,
) -> (r: Vec<(String, u32)>)
    requires
        scores@.len() == distinct(keys_of(corpus_1@) + keys_of(corpus_2@)).len(),
    ensures
        forall|i: int, j: int| 0 <= i < j < r@.len() ==> (#[trigger] r@[i]).1 >= (#[trigger] r@[j]).1,
        keys_of(r@).no_duplicates(),
        forall|x: Seq<char>|
            #[trigger] keys_of(r@).contains(x) <==> keys_of(corpus_1@).contains(x) || keys_of(
                corpus_2@,
            ).contains(x),
        forall|i: int|
            0 <= i < r@.len() ==> scored_as(
                #[trigger] r@[i],
                distinct(keys_of(corpus_1@) + keys_of(corpus_2@)),
                scores@,
            ),
{
    let ghost ids = distinct(keys_of(corpus_1@) + keys_of(corpus_2@));
    let documents = all_documents(corpus_1, corpus_2);
    let mut entries: Vec<(String, u32)> = Vec::new();
    for i in 0..documents.len()
        invariant
            views(documents@) == ids,
            scores@.len() == ids.len(),
            entries@.len() == i,
            forall|j: int| 0 <= j < i ==> (#[trigger] entries@[j]).0@ == ids[j] && entries@[j].1 == scores@[j],
    {
        assert(views(documents@)[i as int] == documents@[i as int]@);
        entries.push((documents[i].clone(), scores[i]));
    }
    assert(keys_of(entries@) =~= ids);
    let ranked = rank_documents(&entries);
    proof {
        lemma_ranking_covers_documents(keys_of(corpus_1@), keys_of(corpus_2@), entries@, ranked@);
        let perm = choose|perm: Seq<int>| is_ranking(ranked@, entries@, perm);
        assert forall|i: int| 0 <= i < ranked@.len() implies scored_as(#[trigger] ranked@[i], ids, scores@) by {
            let j = perm[i];
            assert(ranked@[i] == entries@[j]);
            assert(0 <= j < scores@.len() && ids[j] == ranked@[i].0@ && scores@[j] == ranked@[i].1);
        }
    }
    ranked
}

/// `parts` is the RAKE score of `k` for a document with these phrases: the
/// degree scores of its words when `k` is one of the document's keys, and no
/// parts (a zero score) otherwise.
pub open spec fn is_rake_score(parts: Seq<Fraction>, phrases: Seq<Seq<char>>, k: Seq<char>) -> bool {
    if rake_keys(phrases).contains(k) {
        is_key_score(parts, phrases, k)
    } else {
        parts.len() == 0
    }
}

/// What a snippet and one document of the corpus have to compare.
pub struct Comparison {
    pub document: String,
    /// TF-IDF weights of the snippet and of the document, for each term of
    /// the corpus vocabulary.
    pub cosine: Vec<(TfIdf, TfIdf)>,
    /// RAKE scores of the snippet and of the document, for each phrase of
    /// either.
    pub rake: Vec<(Vec<Fraction>, Vec<Fraction>)>,
}

/// `c` compares the snippet with the document `c.document`. A document that
/// one side of the corpus lacks counts there as empty.
pub open spec fn is_comparison(
    c: Comparison,
    input_terms: Seq<Seq<char>>,
    input_phrases: Seq<Seq<char>>,
    tfidf_corpus: Seq<(String, Vec<String>)>,
    rake_corpus: Seq<(String, Vec<String>)>,
) -> bool {
    let vocab = vocabulary_of(term_lists(tfidf_corpus));
    let terms = entry_for(tfidf_corpus, c.document@);
    let phrases = entry_for(rake_corpus, c.document@);
    let ks = distinct(input_phrases + phrases);
    &&& c.cosine@.len() == vocab.len()
    &&& forall|j: int|
        0 <= j < c.cosine@.len() ==> is_tf_idf(
            (#[trigger] c.cosine@[j]).0,
            vocab[j],
            input_terms,
            term_lists(tfidf_corpus),
        ) && is_tf_idf(c.cosine@[j].1, vocab[j], terms, term_lists(tfidf_corpus))
    &&& c.rake@.len() == ks.len()
    &&& forall|j: int|
        0 <= j < c.rake@.len() ==> is_rake_score((#[trigger] c.rake@[j]).0@, input_phrases, ks[j])
            && is_rake_score(c.rake@[j].1@, phrases, ks[j])
}

/// The RAKE score of the key at position `p` of `scores`, or no parts.
fn parts_at(
    scores: &Vec<(String, Vec<Fraction>)>,
    p: Option<usize>,
    phrases: Ghost<Seq<Seq<char>>>,
    k: Ghost<Seq<char>>,
) -> (r: Vec<Fraction>)
    requires
        is_position(p, keys_of(scores@), k@),
        keys_of(scores@) == rake_keys(phrases@),
        forall|i: int| 0 <= i < scores@.len()
            ==> is_key_score((#[trigger] scores@[i]).1@, phrases@, scores@[i].0@),
    ensures
        is_rake_score(r@, phrases@, k@),
{
    match p {
        Some(i) => {
            assert(keys_of(scores@)[i as int] == scores@[i as int].0@);
            copy_parts(&scores[i].1)
        },
        None => Vec::new(),
    }
}

/// For every document of either corpus (those of the TF-IDF corpus in order,
/// then those only the RAKE corpus has), what the snippet and that document
/// have to compare: their TF-IDF weights over the vocabulary of the TF-IDF
/// corpus, and their RAKE scores over the phrases of either.
pub fn compare_documents(
    input_tfidf_data: &Vec<String>,
    input_rake_data: &Vec<String>,
    corpus_tfidf_data: &Vec<(String, Vec<String>)>,
    corpus_rake_data: &Vec<(String, Vec<String>)>,
) -> (r: Vec<Comparison>)
    requires
        degree_fits(views(input_rake_data@)),
        forall|i: int| 0 <= i < corpus_rake_data@.len()
            ==> degree_fits(views((#[trigger] corpus_rake_data@[i]).1@)),
    ensures
        r@.len() == distinct(keys_of(corpus_tfidf_data@) + keys_of(corpus_rake_data@)).len(),
        forall|i: int|
            0 <= i < r@.len() ==> (#[trigger] r@[i]).document@ == distinct(
                keys_of(corpus_tfidf_data@) + keys_of(corpus_rake_data@),
            )[i] && is_comparison(
                r@[i],
                views(input_tfidf_data@),
                views(input_rake_data@),
                corpus_tfidf_data@,
                corpus_rake_data@,
            ),
{
    let ghost tl = term_lists(corpus_tfidf_data@);
    let ghost ids = distinct(keys_of(corpus_tfidf_data@) + keys_of(corpus_rake_data@));
    let docs = documents_of(corpus_tfidf_data);
    let vocab = vocabulary(&docs);
    let idfs = idf_table(&vocab, &docs);
    let input_weights = weight_vector(&vocab, &idfs, input_tfidf_data, &docs);
    let input_scores = keyword_parts(input_rake_data);
    let documents = all_documents(corpus_tfidf_data, corpus_rake_data);
    let empty: Vec<String> = Vec::new();
    assert(views(empty@) =~= Seq::<Seq<char>>::empty());
    let mut out: Vec<Comparison> = Vec::new();
    for i in 0..documents.len()
        invariant
            tl == term_lists(corpus_tfidf_data@),
            corpus_views(docs@) == tl,
            views(vocab@) == vocabulary_of(tl),
            idfs@.len() == vocab@.len(),
            forall|j: int| 0 <= j < idfs@.len() ==> is_idf(#[trigger] idfs@[j], vocab@[j]@, tl),
            input_weights@.len() == vocab@.len(),
            forall|j: int| 0 <= j < input_weights@.len()
                ==> is_tf_idf(#[trigger] input_weights@[j], vocabulary_of(tl)[j], views(input_tfidf_data@), tl),
            keys_of(input_scores@) == rake_keys(views(input_rake_data@)),
            forall|j: int| 0 <= j < input_scores@.len()
                ==> is_key_score((#[trigger] input_scores@[j]).1@, views(input_rake_data@), input_scores@[j].0@),
            forall|j: int| 0 <= j < corpus_rake_data@.len()
                ==> degree_fits(views((#[trigger] corpus_rake_data@[j]).1@)),
            views(documents@) == ids,
            views(empty@) == Seq::<Seq<char>>::empty(),
            out@.len() == i,
            forall|j: int|
                0 <= j < i ==> (#[trigger] out@[j]).document@ == ids[j] && is_comparison(
                    out@[j],
                    views(input_tfidf_data@),
                    views(input_rake_data@),
                    corpus_tfidf_data@,
                    corpus_rake_data@,
                ),
    {
        let id = &documents[i];
        assert(ids[i as int] == id@);
        let tp = position_of(corpus_tfidf_data, id);
        proof {
            lemma_value_for(corpus_tfidf_data@, id@, |v: Vec<String>| views(v@), Seq::empty(), tp);
        }
        let terms: &Vec<String> = match tp {
            Some(p) => &corpus_tfidf_data[p].1,
            None => &empty,
        };
        assert(views(terms@) == entry_for(corpus_tfidf_data@, id@));
        let doc_weights = weight_vector(&vocab, &idfs, terms, &docs);
        let mut cosine: Vec<(TfIdf, TfIdf)> = Vec::new();
        for j in 0..vocab.len()
            invariant
                input_weights@.len() == vocab@.len(),
                doc_weights@.len() == vocab@.len(),
                cosine@.len() == j,
                forall|k: int| 0 <= k < j
                    ==> (#[trigger] cosine@[k]) == (input_weights@[k], doc_weights@[k]),
        {
            cosine.push((input_weights[j], doc_weights[j]));
        }
        let rp = position_of(corpus_rake_data, id);
        proof {
            lemma_value_for(corpus_rake_data@, id@, |v: Vec<String>| views(v@), Seq::empty(), rp);
        }
        let phrases: &Vec<String> = match rp {
            Some(p) => &corpus_rake_data[p].1,
            None => &empty,
        };
        let ghost ph = entry_for(corpus_rake_data@, id@);
        assert(views(phrases@) == ph);
        let doc_scores = keyword_parts(phrases);
        let places = weighted_jaccard_pairs(input_rake_data, phrases, &input_scores, &doc_scores);
        let ghost ks = distinct(views(input_rake_data@) + ph);
        let mut pairs: Vec<(Vec<Fraction>, Vec<Fraction>)> = Vec::new();
        for j in 0..places.len()
            invariant
                places@.len() == ks.len(),
                forall|k: int|
                    0 <= k < places@.len()
                        ==> is_position((#[trigger] places@[k]).0, keys_of(input_scores@), ks[k])
                        && is_position(places@[k].1, keys_of(doc_scores@), ks[k]),
                keys_of(input_scores@) == rake_keys(views(input_rake_data@)),
                forall|k: int| 0 <= k < input_scores@.len()
                    ==> is_key_score((#[trigger] input_scores@[k]).1@, views(input_rake_data@), input_scores@[k].0@),
                keys_of(doc_scores@) == rake_keys(ph),
                forall|k: int| 0 <= k < doc_scores@.len()
                    ==> is_key_score((#[trigger] doc_scores@[k]).1@, ph, doc_scores@[k].0@),
                pairs@.len() == j,
                forall|k: int|
                    0 <= k < j
                        ==> is_rake_score((#[trigger] pairs@[k]).0@, views(input_rake_data@), ks[k])
                        && is_rake_score(pairs@[k].1@, ph, ks[k]),
        {
            let a = parts_at(&input_scores, places[j].0, Ghost(views(input_rake_data@)), Ghost(ks[j as int]));
            let b = parts_at(&doc_scores, places[j].1, Ghost(ph), Ghost(ks[j as int]));
            pairs.push((a, b));
        }
        let c = Comparison { document: id.clone(), cosine, rake: pairs };
        out.push(c);
    }
    out
}

} // verus!
