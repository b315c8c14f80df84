//! Term frequency and inverse document frequency, kept as exact fractions.
//!
//! A weight is `tf * ln(idf)`: `tf` is the share of a document's tokens that
//! are the term, `idf` the ratio of the number of documents to the number of
//! documents that hold the term. Both fractions always have a positive
//! denominator; a term that no document holds gets `idf == 1/1`, so that its
//! weight is zero rather than undefined.
use crate::keys::{copy_strings, distinct, distinct_strings, keys_of, lemma_distinct};
use crate::text::{contains_word, views};
use vstd::prelude::*;

verus! {

/// A non-negative fraction `num / den` with `den > 0`.
#[derive(Clone, Copy, Debug, PartialEq, Eq, Structural)]
pub struct Fraction {
    pub num: usize,
    pub den: usize,
}

/// The TF-IDF weight of one term for one document: `tf * ln(idf)`.
#[derive(Clone, Copy, Debug, PartialEq, Eq, Structural)]
pub struct TfIdf {
    pub tf: Fraction,
    pub idf: Fraction,
}

impl Fraction {
    pub open spec fn wf(self) -> bool {
        self.den > 0
    }
}

impl TfIdf {
    /// The weight is zero: the term is absent, or every document holds it.
    pub open spec fn is_zero(self) -> bool {
        self.tf.num == 0 || self.idf.num == self.idf.den
    }

    /// The weight of a term that does not occur at all.
    pub fn zero() -> (r: TfIdf)
        ensures
            r.tf == (Fraction { num: 0, den: 1 }),
            r.idf == (Fraction { num: 1, den: 1 }),
            r.is_zero(),
    {
        TfIdf { tf: Fraction { num: 0, den: 1 }, idf: Fraction { num: 1, den: 1 } }
    }
}

/// Number of occurrences of `t` in `doc`.
pub open spec fn count(doc: Seq<Seq<char>>, t: Seq<char>) -> nat
    decreases doc.len(),
{
    if doc.len() == 0 {
        0
    } else {
        count(doc.drop_last(), t) + if doc.last() == t {
            1nat
        } else {
            0nat
        }
    }
}

/// Number of documents of `corpus` that hold `t`.
pub open spec fn containing(corpus: Seq<Seq<Seq<char>>>, t: Seq<char>) -> nat {
    corpus.filter(|d: Seq<Seq<char>>| d.contains(t)).len()
}

/// `f` is the term frequency of `t` in `doc`: occurrences over length, and
/// `0/1` for an empty document.
pub open spec fn is_tf(f: Fraction, t: Seq<char>, doc: Seq<Seq<char>>) -> bool {
    &&& f.num == count(doc, t)
    &&& f.den == if doc.len() == 0 {
        1
    } else {
        doc.len()
    }
}

/// `f` is the inverse-document-frequency ratio of `t` over `corpus`: the number
/// of documents over the number that hold `t`, and `1/1` when none does.
pub open spec fn is_idf(f: Fraction, t: Seq<char>, corpus: Seq<Seq<Seq<char>>>) -> bool {
    &&& f.num == if containing(corpus, t) == 0 {
        1
    } else {
        corpus.len()
    }
    &&& f.den == if containing(corpus, t) == 0 {
        1
    } else {
        containing(corpus, t)
    }
}

pub open spec fn is_tf_idf(w: TfIdf, t: Seq<char>, doc: Seq<Seq<char>>, corpus: Seq<Seq<Seq<char>>>) -> bool {
    is_tf(w.tf, t, doc) && is_idf(w.idf, t, corpus)
}

pub open spec fn corpus_views(corpus: Seq<Vec<String>>) -> Seq<Seq<Seq<char>>> {
    corpus.map_values(|d: Vec<String>| views(d@))
}

/// The vocabulary of a corpus: every term of every document, once, in order
/// of first occurrence.
pub open spec fn vocabulary_of(corpus: Seq<Seq<Seq<char>>>) -> Seq<Seq<char>> {
    distinct(corpus.flatten_alt())
}

pub proof fn lemma_count_bounds(doc: Seq<Seq<char>>, t: Seq<char>)
    ensures
        count(doc, t) <= doc.len(),
        !doc.contains(t) ==> count(doc, t) == 0,
        doc.contains(t) ==> count(doc, t) > 0,
    decreases doc.len(),
{
    if doc.len() > 0 {
        let p = doc.drop_last();
        lemma_count_bounds(p, t);
        if p.contains(t) {
            let k = choose|k: int| 0 <= k < p.len() && p[k] == t;
            assert(doc[k] == t);
        }
        if doc.contains(t) && doc.last() != t {
            let k = choose|k: int| 0 <= k < doc.len() && doc[k] == t;
            assert(p[k] == t);
        }
    }
}

/// A term frequency lies in `[0, 1]`, and it is zero exactly when the term
/// does not occur in the document.
pub proof fn lemma_tf_bounds(f: Fraction, t: Seq<char>, doc: Seq<Seq<char>>)
    requires
        is_tf(f, t, doc),
    ensures
        f.wf(),
        f.num <= f.den,
        f.num == 0 <==> !doc.contains(t),
{
    lemma_count_bounds(doc, t);
}

/// Number of occurrences of `term` in `document`.
pub fn occurrences(term: &String, document: &Vec<String>) -> (r: usize)
    ensures
        r == count(views(document@), term@),
        r <= document@.len(),
{
    let ghost d = views(document@);
    let mut n: usize = 0;
    for i in 0..document.len()
        invariant
            d == views(document@),
            n == count(d.take(i as int), term@),
            n <= i,
    {
        assert(d.take(i + 1).drop_last() =~= d.take(i as int));
        if document[i] == *term {
            n = n + 1;
        }
    }
    assert(d.take(document.len() as int) =~= d);
    n
}

/// Term frequency of `term` in `document`. It lies in `[0, 1]`, and it is
/// zero exactly when the term does not occur.
pub fn tf(term: &String, document: &Vec<String>) -> (r: Fraction)
    ensures
        is_tf(r, term@, views(document@)),
        r.wf(),
        r.num <= r.den,
        r.num == 0 <==> !views(document@).contains(term@),
{
    let n = occurrences(term, document);
    let r = if document.len() == 0 {
        Fraction { num: 0, den: 1 }
    } else {
        Fraction { num: n, den: document.len() }
    };
    proof {
        lemma_tf_bounds(r, term@, views(document@));
    }
    r
}

/// Inverse-document-frequency ratio of `term` over `corpus`.
pub fn idf(term: &String, corpus: &Vec<Vec<String>>) -> (r: Fraction)
    ensures
        is_idf(r, term@, corpus_views(corpus@)),
        r.wf(),
        r.den <= r.num,
{
    let ghost c = corpus_views(corpus@);
    let ghost pred = |d: Seq<Seq<char>>| d.contains(term@);
    let mut n: usize = 0;
    for i in 0..corpus.len()
        invariant
            c == corpus_views(corpus@),
            pred == (|d: Seq<Seq<char>>| d.contains(term@)),
            n == c.take(i as int).filter(pred).len(),
            n <= i,
    {
        let ghost pre = c.take(i as int);
        assert(c.take(i + 1) =~= pre.push(c[i as int]));
        proof {
            pre.lemma_filter_push(c[i as int], pred);
        }
        if contains_word(&corpus[i], term) {
            n = n + 1;
        }
    }
    assert(c.take(corpus.len() as int) =~= c);
    if n == 0 {
        Fraction { num: 1, den: 1 }
    } else {
        Fraction { num: corpus.len(), den: n }
    }
}

/// The TF-IDF weight of `term` for `document` against `corpus`.
pub fn tf_idf(term: &String, document: &Vec<String>, corpus: &Vec<Vec<String>>) -> (r: TfIdf)
    ensures
        is_tf_idf(r, term@, views(document@), corpus_views(corpus@)),
        r.tf.wf() && r.idf.wf(),
{
    TfIdf { tf: tf(term, document), idf: idf(term, corpus) }
}

/// All strings of all lists, in order.
pub fn flatten_lists(lists: &Vec<Vec<String>>) -> (r: Vec<String>)
    ensures
        views(r@) == corpus_views(lists@).flatten_alt(),
{
    let ghost c = corpus_views(lists@);
    let mut all: Vec<String> = Vec::new();
    for i in 0..lists.len()
        invariant
            c == corpus_views(lists@),
            views(all@) == c.take(i as int).flatten_alt(),
    {
        let ghost pre = c.take(i as int);
        let ghost start = all@;
        assert(c.take(i + 1).drop_last() =~= pre);
        let doc = &lists[i];
        for j in 0..doc.len()
            invariant
                c == corpus_views(lists@),
                doc == lists@[i as int],
                all@ == start + doc@.take(j as int),
        {
            let s = doc[j].clone();
            assert(doc@.take(j + 1) =~= doc@.take(j as int).push(doc@[j as int]));
            all.push(s);
            assert(all@ =~= start + doc@.take(j + 1));
        }
        assert(doc@.take(doc.len() as int) =~= doc@);
        assert(views(all@) =~= views(start) + views(doc@));
    }
    assert(c.take(lists.len() as int) =~= c);
    all
}

/// Every term of the corpus once, in order of first occurrence.
pub fn vocabulary(corpus: &Vec<Vec<String>>) -> (r: Vec<String>)
    ensures
        views(r@) == vocabulary_of(corpus_views(corpus@)),
        views(r@).no_duplicates(),
{
    let all = flatten_lists(corpus);
    proof {
        lemma_distinct(views(all@));
    }
    distinct_strings(&all)
}


/// `r` holds, for each term of the corpus vocabulary in order, the term and its
/// weight for `doc`.
pub open spec fn is_weight_map(
    r: Seq<(String, TfIdf)>,
    doc: Seq<Seq<char>>,
    corpus: Seq<Seq<Seq<char>>>,
) -> bool {
    let vocab = vocabulary_of(corpus);
    &&& r.len() == vocab.len()
    &&& forall|i: int|
        0 <= i < r.len()
            ==> (#[trigger] r[i]).0@ == vocab[i] && is_tf_idf(r[i].1, vocab[i], doc, corpus)
}

/// `r` holds the weights of the vocabulary terms for `doc`, in vocabulary order.
pub open spec fn is_weight_vector(
    r: Seq<TfIdf>,
    doc: Seq<Seq<char>>,
    corpus: Seq<Seq<Seq<char>>>,
) -> bool {
    let vocab = vocabulary_of(corpus);
    &&& r.len() == vocab.len()
    &&& forall|i: int| 0 <= i < r.len() ==> is_tf_idf(#[trigger] r[i], vocab[i], doc, corpus)
}

/// The idf ratio of every vocabulary term, computed once.
pub(crate) fn idf_table(vocab: &Vec<String>, corpus: &Vec<Vec<String>>) -> (r: Vec<Fraction>)
    ensures
        r@.len() == vocab@.len(),
        forall|i: int|
            0 <= i < r@.len() ==> is_idf(#[trigger] r@[i], vocab@[i]@, corpus_views(corpus@))
                && r@[i].wf(),
{
    let mut out: Vec<Fraction> = Vec::new();
    for i in 0..vocab.len()
        invariant
            out@.len() == i,
            forall|j: int|
                0 <= j < i ==> is_idf(#[trigger] out@[j], vocab@[j]@, corpus_views(corpus@))
                    && out@[j].wf(),
    {
        out.push(idf(&vocab[i], corpus));
    }
    out
}

pub(crate) fn weight_map(
    vocab: &Vec<String>,
    idfs: &Vec<Fraction>,
    doc: &Vec<String>,
    corpus: &Vec<Vec<String>>,
) -> (r: Vec<(String, TfIdf)>)
    requires
        views(vocab@) == vocabulary_of(corpus_views(corpus@)),
        idfs@.len() == vocab@.len(),
        forall|i: int| 0 <= i < idfs@.len()
            ==> is_idf(#[trigger] idfs@[i], vocab@[i]@, corpus_views(corpus@)),
    ensures
        is_weight_map(r@, views(doc@), corpus_views(corpus@)),
{
    let ghost vv = views(vocab@);
    let mut out: Vec<(String, TfIdf)> = Vec::new();
    for i in 0..vocab.len()
        invariant
            vv == views(vocab@),
            vv == vocabulary_of(corpus_views(corpus@)),
            idfs@.len() == vocab@.len(),
            forall|j: int| 0 <= j < idfs@.len()
                ==> is_idf(#[trigger] idfs@[j], vocab@[j]@, corpus_views(corpus@)),
            out@.len() == i,
            forall|j: int|
                0 <= j < i
                    ==> (#[trigger] out@[j]).0@ == vv[j] && is_tf_idf(out@[j].1, vv[j], views(doc@), corpus_views(corpus@)),
    {
        let w = TfIdf { tf: tf(&vocab[i], doc), idf: idfs[i] };
        assert(vv[i as int] == vocab@[i as int]@);
        out.push((vocab[i].clone(), w));
    }
    out
}

pub(crate) fn weight_vector(
    vocab: &Vec<String>,
    idfs: &Vec<Fraction>,
    doc: &Vec<String>,
    corpus: &Vec<Vec<String>>,
) -> (r: Vec<TfIdf>)
    requires
        views(vocab@) == vocabulary_of(corpus_views(corpus@)),
        idfs@.len() == vocab@.len(),
        forall|i: int| 0 <= i < idfs@.len()
            ==> is_idf(#[trigger] idfs@[i], vocab@[i]@, corpus_views(corpus@)),
    ensures
        is_weight_vector(r@, views(doc@), corpus_views(corpus@)),
{
    let ghost vv = views(vocab@);
    let mut out: Vec<TfIdf> = Vec::new();
    for i in 0..vocab.len()
        invariant
            vv == views(vocab@),
            vv == vocabulary_of(corpus_views(corpus@)),
            idfs@.len() == vocab@.len(),
            forall|j: int| 0 <= j < idfs@.len()
                ==> is_idf(#[trigger] idfs@[j], vocab@[j]@, corpus_views(corpus@)),
            out@.len() == i,
            forall|j: int|
                0 <= j < i
                    ==> is_tf_idf(#[trigger] out@[j], vv[j], views(doc@), corpus_views(corpus@)),
    {
        assert(vv[i as int] == vocab@[i as int]@);
        out.push(TfIdf { tf: tf(&vocab[i], doc), idf: idfs[i] });
    }
    out
}

/// The weights of `new_document` over the corpus vocabulary, in vocabulary
/// order.
pub fn tf_idf_vectorize(new_document: &Vec<String>, corpus: &Vec<Vec<String>>) -> (r: Vec<TfIdf>)
    ensures
        is_weight_vector(r@, views(new_document@), corpus_views(corpus@)),
{
    let vocab = vocabulary(corpus);
    let idfs = idf_table(&vocab, corpus);
    weight_vector(&vocab, &idfs, new_document, corpus)
}

/// Each vocabulary term of the corpus with its weight for `new_document`.
pub fn tf_idf_hash(
    new_document: &Vec<String>,
    corpus: &Vec<Vec<String>>,
) -> (r: Vec<(String, TfIdf)>)
    ensures
        is_weight_map(r@, views(new_document@), corpus_views(corpus@)),
{
    let vocab = vocabulary(corpus);
    let idfs = idf_table(&vocab, corpus);
    weight_map(&vocab, &idfs, new_document, corpus)
}

/// The weight vector of every document of the corpus, against the corpus
/// itself; the vocabulary and the idf ratios are computed once.
pub fn all_tf_idf_vectorize(corpus: &Vec<Vec<String>>) -> (r: Vec<Vec<TfIdf>>)
    ensures
        r@.len() == corpus@.len(),
        forall|i: int|
            0 <= i < r@.len()
                ==> is_weight_vector(#[trigger] r@[i]@, views(corpus@[i]@), corpus_views(corpus@)),
{
    let vocab = vocabulary(corpus);
    let idfs = idf_table(&vocab, corpus);
    let mut out: Vec<Vec<TfIdf>> = Vec::new();
    for i in 0..corpus.len()
        invariant
            views(vocab@) == vocabulary_of(corpus_views(corpus@)),
            idfs@.len() == vocab@.len(),
            forall|j: int| 0 <= j < idfs@.len()
                ==> is_idf(#[trigger] idfs@[j], vocab@[j]@, corpus_views(corpus@)),
            out@.len() == i,
            forall|j: int|
                0 <= j < i
                    ==> is_weight_vector(#[trigger] out@[j]@, views(corpus@[j]@), corpus_views(corpus@)),
    {
        out.push(weight_vector(&vocab, &idfs, &corpus[i], corpus));
    }
    out
}

/// The weight map of every document of the corpus, against the corpus itself.
pub fn all_tf_idf_hash(corpus: &Vec<Vec<String>>) -> (r: Vec<Vec<(String, TfIdf)>>)
    ensures
        r@.len() == corpus@.len(),
        forall|i: int|
            0 <= i < r@.len()
                ==> is_weight_map(#[trigger] r@[i]@, views(corpus@[i]@), corpus_views(corpus@)),
{
    let vocab = vocabulary(corpus);
    let idfs = idf_table(&vocab, corpus);
    let mut out: Vec<Vec<(String, TfIdf)>> = Vec::new();
    for i in 0..corpus.len()
        invariant
            views(vocab@) == vocabulary_of(corpus_views(corpus@)),
            idfs@.len() == vocab@.len(),
            forall|j: int| 0 <= j < idfs@.len()
                ==> is_idf(#[trigger] idfs@[j], vocab@[j]@, corpus_views(corpus@)),
            out@.len() == i,
            forall|j: int|
                0 <= j < i
                    ==> is_weight_map(#[trigger] out@[j]@, views(corpus@[j]@), corpus_views(corpus@)),
    {
        out.push(weight_map(&vocab, &idfs, &corpus[i], corpus));
    }
    out
}


/// The term lists of a corpus keyed by document.
pub open spec fn term_lists(corpus: Seq<(String, Vec<String>)>) -> Seq<Seq<Seq<char>>> {
    corpus.map_values(|e: (String, Vec<String>)| views(e.1@))
}

/// The term lists of a corpus keyed by document, in order.
pub fn documents_of(corpus: &Vec<(String, Vec<String>)>) -> (r: Vec<Vec<String>>)
    ensures
        corpus_views(r@) == term_lists(corpus@),
{
    let mut out: Vec<Vec<String>> = Vec::new();
    for i in 0..corpus.len()
        invariant
            corpus_views(out@) == term_lists(corpus@.take(i as int)),
    {
        let d = copy_strings(&corpus[i].1);
        proof {
            assert(corpus_views(out@.push(d)) =~= corpus_views(out@).push(views(d@)));
            assert(term_lists(corpus@.take(i + 1)) =~= term_lists(corpus@.take(i as int)).push(
                views(corpus@[i as int].1@),
            ));
        }
        out.push(d);
    }
    assert(corpus@.take(corpus.len() as int) =~= corpus@);
    out
}

/// The weight map of every document of a corpus keyed by document, against
/// the term lists of the whole corpus.
pub fn corpus_tf_idf_hash(
    corpus: &Vec<(String, Vec<String>)>,
) -> (r: Vec<(String, Vec<(String, TfIdf)>)>)
    ensures
        keys_of(r@) == keys_of(corpus@),
        forall|i: int|
            0 <= i < r@.len() ==> is_weight_map(
                (#[trigger] r@[i]).1@,
                views(corpus@[i].1@),
                term_lists(corpus@),
            ),
{
    let docs = documents_of(corpus);
    let vocab = vocabulary(&docs);
    let idfs = idf_table(&vocab, &docs);
    let mut out: Vec<(String, Vec<(String, TfIdf)>)> = Vec::new();
    for i in 0..corpus.len()
        invariant
            corpus_views(docs@) == term_lists(corpus@),
            views(vocab@) == vocabulary_of(corpus_views(docs@)),
            idfs@.len() == vocab@.len(),
            forall|j: int| 0 <= j < idfs@.len()
                ==> is_idf(#[trigger] idfs@[j], vocab@[j]@, corpus_views(docs@)),
            out@.len() == i,
            forall|j: int| 0 <= j < i ==> (#[trigger] out@[j]).0@ == corpus@[j].0@,
            forall|j: int|
                0 <= j < i
                    ==> is_weight_map((#[trigger] out@[j]).1@, views(corpus@[j].1@), term_lists(corpus@)),
    {
        assert(corpus_views(docs@)[i as int] == views(docs@[i as int]@));
        let m = weight_map(&vocab, &idfs, &docs[i], &docs);
        out.push((corpus[i].0.clone(), m));
    }
    assert(keys_of(out@) =~= keys_of(corpus@));
    out
}

proof fn lemma_filter_all<A>(s: Seq<A>, pred: spec_fn(A) -> bool)
    requires
        forall|i: int| 0 <= i < s.len() ==> pred(#[trigger] s[i]),
    ensures
        s.filter(pred).len() == s.len(),
    decreases s.len(),
{
    if s.len() > 0 {
        let p = s.drop_last();
        assert forall|i: int| 0 <= i < p.len() implies pred(#[trigger] p[i]) by {
            assert(p[i] == s[i]);
        }
        lemma_filter_all(p, pred);
        assert(s == p.push(s.last()));
        p.lemma_filter_push(s.last(), pred);
    }
}

/// A term that every document of the corpus holds has the idf ratio `n/n`,
/// whose logarithm is zero: its TF-IDF weight is zero for every document.
pub proof fn lemma_term_in_every_document(
    w: TfIdf,
    t: Seq<char>,
    doc: Seq<Seq<char>>,
    corpus: Seq<Seq<Seq<char>>>,
)
    requires
        forall|i: int| 0 <= i < corpus.len() ==> (#[trigger] corpus[i]).contains(t),
        is_tf_idf(w, t, doc, corpus),
    ensures
        w.idf.num == w.idf.den,
        w.is_zero(),
{
    lemma_filter_all(corpus, |d: Seq<Seq<char>>| d.contains(t));
}

} // verus!
