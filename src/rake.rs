//! RAKE keyword statistics of a document given as its phrases.
//!
//! The words of a phrase are its whitespace-separated parts. A word's degree
//! adds, for each occurrence of the word in a phrase, the number of words of
//! that phrase; its frequency counts its occurrences over the whole document.
//! A word's score is `degree / frequency`, and a phrase's score is the sum of
//! the scores of its words. Scores are handed out as the list of fractions to
//! add up.
use crate::keys::{distinct, distinct_strings, keys_of, lemma_distinct, lemma_keys_push, position_of};
use crate::text::{lemma_word_is_one_word, split_words, views, words_of};
use crate::tf_idf::{corpus_views, count, flatten_lists, lemma_count_bounds, occurrences, Fraction};
use vstd::prelude::*;

verus! {

proof fn lemma_in_some_list(lists: Seq<Seq<Seq<char>>>, x: Seq<char>) -> (r: (int, int))
    requires
        lists.flatten_alt().contains(x),
    ensures
        0 <= r.0 < lists.len(),
        0 <= r.1 < lists[r.0].len(),
        lists[r.0][r.1] == x,
    decreases lists.len(),
{
    let p = lists.drop_last();
    let f = lists.flatten_alt();
    assert(f == p.flatten_alt() + lists.last());
    let k = choose|k: int| 0 <= k < f.len() && f[k] == x;
    if k < p.flatten_alt().len() {
        assert(p.flatten_alt()[k] == x);
        let (a, b) = lemma_in_some_list(p, x);
        assert(lists[a] == p[a]);
        (a, b)
    } else {
        assert(lists.last()[k - p.flatten_alt().len()] == x);
        ((lists.len() - 1) as int, k - p.flatten_alt().len())
    }
}

/// A word of the document is scored as itself: its only part is its own
/// degree score. A phrase of one word therefore scores the same as that
/// word, so listing phrases and words together is consistent.
pub proof fn lemma_word_key_score(parts: Seq<Fraction>, phrases: Seq<Seq<char>>, w: Seq<char>)
    requires
        all_words(phrases).contains(w),
        is_key_score(parts, phrases, w),
    ensures
        parts.len() == 1,
        is_degree_score(parts[0], phrases, w),
{
    let (a, b) = lemma_in_some_list(word_lists(phrases), w);
    assert(word_lists(phrases)[a] == words_of(phrases[a]));
    lemma_word_is_one_word(phrases[a], b);
    assert(words_of(w) == seq![w]);
    assert(words_of(w)[0] == w);
}

/// The words of each phrase.
pub open spec fn word_lists(phrases: Seq<Seq<char>>) -> Seq<Seq<Seq<char>>> {
    phrases.map_values(|p: Seq<char>| words_of(p))
}

/// Every word of every phrase, in order.
pub open spec fn all_words(phrases: Seq<Seq<char>>) -> Seq<Seq<char>> {
    word_lists(phrases).flatten_alt()
}

/// Degree of `w`: for each of its occurrences in a phrase, the length of that
/// phrase.
pub open spec fn degree(lists: Seq<Seq<Seq<char>>>, w: Seq<char>) -> nat
    decreases lists.len(),
{
    if lists.len() == 0 {
        0
    } else {
        degree(lists.drop_last(), w) + count(lists.last(), w) * lists.last().len()
    }
}

/// Sum of the squared phrase lengths: a bound on every degree.
pub open spec fn squares(lists: Seq<Seq<Seq<char>>>) -> nat
    decreases lists.len(),
{
    if lists.len() == 0 {
        0
    } else {
        squares(lists.drop_last()) + lists.last().len() * lists.last().len()
    }
}

/// The degrees of the document's words fit in a `usize`.
pub open spec fn degree_fits(phrases: Seq<Seq<char>>) -> bool {
    squares(word_lists(phrases)) <= usize::MAX
}

pub open spec fn frequency(phrases: Seq<Seq<char>>, w: Seq<char>) -> nat {
    count(all_words(phrases), w)
}

/// `f` is the degree score `degree / frequency` of `w`, or `0/1` for a word
/// that the document does not hold.
pub open spec fn is_degree_score(f: Fraction, phrases: Seq<Seq<char>>, w: Seq<char>) -> bool {
    if all_words(phrases).contains(w) {
        f.num == degree(word_lists(phrases), w) && f.den == frequency(phrases, w)
    } else {
        f.num == 0 && f.den == 1
    }
}

/// The keys that RAKE scores: the distinct phrases that hold a word, then
/// the distinct words that are not already a key.
pub open spec fn rake_keys(phrases: Seq<Seq<char>>) -> Seq<Seq<char>> {
    distinct(phrases.filter(|p: Seq<char>| words_of(p).len() > 0) + all_words(phrases))
}

/// `parts` are the degree scores of the words of `key`, in order; the score of
/// `key` is their sum.
pub open spec fn is_key_score(parts: Seq<Fraction>, phrases: Seq<Seq<char>>, key: Seq<char>) -> bool {
    &&& parts.len() == words_of(key).len()
    &&& forall|j: int|
        0 <= j < parts.len() ==> is_degree_score(#[trigger] parts[j], phrases, words_of(key)[j])
}

proof fn lemma_squares_prefix(lists: Seq<Seq<Seq<char>>>, k: int)
    requires
        0 <= k <= lists.len(),
    ensures
        squares(lists.take(k)) <= squares(lists),
    decreases lists.len(),
{
    if k < lists.len() {
        let p = lists.drop_last();
        assert(p.take(k) =~= lists.take(k));
        lemma_squares_prefix(p, k);
    } else {
        assert(lists.take(k) =~= lists);
    }
}

proof fn lemma_degree_bound(lists: Seq<Seq<Seq<char>>>, w: Seq<char>)
    ensures
        degree(lists, w) <= squares(lists),
    decreases lists.len(),
{
    if lists.len() > 0 {
        lemma_degree_bound(lists.drop_last(), w);
        lemma_count_bounds(lists.last(), w);
        let c = count(lists.last(), w);
        let l = lists.last().len();
        assert(c * l <= l * l) by (nonlinear_arith)
            requires
                c <= l,
        ;
    }
}

proof fn lemma_words_bound(lists: Seq<Seq<Seq<char>>>)
    ensures
        lists.flatten_alt().len() <= squares(lists),
    decreases lists.len(),
{
    if lists.len() > 0 {
        lemma_words_bound(lists.drop_last());
        let l = lists.last().len();
        assert(l <= l * l) by (nonlinear_arith);
    }
}

/// The words of each phrase.
fn phrase_words(phrases: &Vec<String>) -> (r: Vec<Vec<String>>)
    ensures
        corpus_views(r@) == word_lists(views(phrases@)),
{
    let mut out: Vec<Vec<String>> = Vec::new();
    for i in 0..phrases.len()
        invariant
            corpus_views(out@) == word_lists(views(phrases@).take(i as int)),
    {
        let ws = split_words(phrases[i].as_str());
        proof {
            assert(corpus_views(out@.push(ws)) =~= corpus_views(out@).push(views(ws@)));
            assert(word_lists(views(phrases@).take(i + 1)) =~= word_lists(
                views(phrases@).take(i as int),
            ).push(words_of(phrases@[i as int]@)));
        }
        out.push(ws);
    }
    assert(views(phrases@).take(phrases.len() as int) =~= views(phrases@));
    out
}

/// Degree of `w` over the word lists of the phrases.
fn degree_of(w: &String, lists: &Vec<Vec<String>>) -> (r: usize)
    requires
        squares(corpus_views(lists@)) <= usize::MAX,
    ensures
        r == degree(corpus_views(lists@), w@),
{
    let ghost c = corpus_views(lists@);
    let mut d: usize = 0;
    for k in 0..lists.len()
        invariant
            c == corpus_views(lists@),
            squares(c) <= usize::MAX,
            d == degree(c.take(k as int), w@),
    {
        let ghost next = c.take(k + 1);
        assert(next.drop_last() =~= c.take(k as int));
        assert(next.last() == views(lists@[k as int]@));
        proof {
            lemma_degree_bound(next, w@);
            lemma_squares_prefix(c, k + 1);
            lemma_count_bounds(next.last(), w@);
        }
        let n = occurrences(w, &lists[k]);
        let len = lists[k].len();
        assert(n * len <= degree(next, w@)) by (nonlinear_arith)
            requires
                degree(next, w@) == d + n * len,
        ;
        d = d + n * len;
    }
    assert(c.take(lists.len() as int) =~= c);
    d
}

/// Each distinct word of the document with its frequency.
pub fn word_frequency(phrases: &Vec<String>) -> (r: Vec<(String, usize)>)
    ensures
        keys_of(r@) == distinct(all_words(views(phrases@))),
        forall|i: int|
            0 <= i < r@.len() ==> (#[trigger] r@[i]).1 == frequency(views(phrases@), r@[i].0@),
{
    let lists = phrase_words(phrases);
    let all = flatten_lists(&lists);
    let words = distinct_strings(&all);
    let mut out: Vec<(String, usize)> = Vec::new();
    for i in 0..words.len()
        invariant
            views(all@) == all_words(views(phrases@)),
            views(words@) == distinct(all_words(views(phrases@))),
            out@.len() == i,
            keys_of(out@) == views(words@).take(i as int),
            forall|j: int|
                0 <= j < i ==> (#[trigger] out@[j]).1 == frequency(views(phrases@), out@[j].0@),
    {
        let n = occurrences(&words[i], &all);
        let w = words[i].clone();
        proof {
            lemma_keys_push(out@, (w, n));
            assert(views(words@).take(i + 1) =~= views(words@).take(i as int).push(w@));
        }
        out.push((w, n));
    }
    assert(views(words@).take(words.len() as int) =~= views(words@));
    out
}

/// Each distinct word of the document with its degree.
pub fn word_degrees(phrases: &Vec<String>) -> (r: Vec<(String, usize)>)
    requires
        degree_fits(views(phrases@)),
    ensures
        keys_of(r@) == distinct(all_words(views(phrases@))),
        forall|i: int|
            0 <= i < r@.len() ==> (#[trigger] r@[i]).1 == degree(
                word_lists(views(phrases@)),
                r@[i].0@,
            ),
{
    let lists = phrase_words(phrases);
    let all = flatten_lists(&lists);
    let words = distinct_strings(&all);
    let mut out: Vec<(String, usize)> = Vec::new();
    for i in 0..words.len()
        invariant
            corpus_views(lists@) == word_lists(views(phrases@)),
            degree_fits(views(phrases@)),
            views(words@) == distinct(all_words(views(phrases@))),
            out@.len() == i,
            keys_of(out@) == views(words@).take(i as int),
            forall|j: int|
                0 <= j < i ==> (#[trigger] out@[j]).1 == degree(
                    word_lists(views(phrases@)),
                    out@[j].0@,
                ),
    {
        let d = degree_of(&words[i], &lists);
        let w = words[i].clone();
        proof {
            lemma_keys_push(out@, (w, d));
            assert(views(words@).take(i + 1) =~= views(words@).take(i as int).push(w@));
        }
        out.push((w, d));
    }
    assert(views(words@).take(words.len() as int) =~= views(words@));
    out
}

/// Each distinct word of the document with its degree score.
pub fn degree_scores(phrases: &Vec<String>) -> (r: Vec<(String, Fraction)>)
    requires
        degree_fits(views(phrases@)),
    ensures
        keys_of(r@) == distinct(all_words(views(phrases@))),
        forall|i: int|
            0 <= i < r@.len() ==> is_degree_score((#[trigger] r@[i]).1, views(phrases@), r@[i].0@)
                && r@[i].1.wf(),
{
    let lists = phrase_words(phrases);
    let all = flatten_lists(&lists);
    let words = distinct_strings(&all);
    proof {
        lemma_distinct(views(all@));
        lemma_words_bound(word_lists(views(phrases@)));
    }
    let mut out: Vec<(String, Fraction)> = Vec::new();
    for i in 0..words.len()
        invariant
            corpus_views(lists@) == word_lists(views(phrases@)),
            views(all@) == all_words(views(phrases@)),
            degree_fits(views(phrases@)),
            views(words@) == distinct(all_words(views(phrases@))),
            forall|x: Seq<char>| #[trigger] views(words@).contains(x) <==> views(all@).contains(x),
            out@.len() == i,
            keys_of(out@) == views(words@).take(i as int),
            forall|j: int|
                0 <= j < i ==> is_degree_score((#[trigger] out@[j]).1, views(phrases@), out@[j].0@)
                    && out@[j].1.wf(),
    {
        let d = degree_of(&words[i], &lists);
        let n = occurrences(&words[i], &all);
        let w = words[i].clone();
        proof {
            assert(views(words@)[i as int] == w@);
            assert(views(words@).contains(w@));
            assert(views(all@).contains(w@));
            lemma_count_bounds(views(all@), w@);
            lemma_keys_push(out@, (w, Fraction { num: d, den: n }));
            assert(views(words@).take(i + 1) =~= views(words@).take(i as int).push(w@));
        }
        out.push((w, Fraction { num: d, den: n }));
    }
    assert(views(words@).take(words.len() as int) =~= views(words@));
    out
}

/// The degree scores of the words of `key`, looked up in `scores`; a word
/// that `scores` lacks contributes `0/1`.
fn key_parts(key: &String, scores: &Vec<(String, Fraction)>, phrases: &Vec<String>) -> (r: Vec<
    Fraction,
>)
    requires
        keys_of(scores@) == distinct(all_words(views(phrases@))),
        forall|i: int|
            0 <= i < scores@.len() ==> is_degree_score(
                (#[trigger] scores@[i]).1,
                views(phrases@),
                scores@[i].0@,
            ),
    ensures
        is_key_score(r@, views(phrases@), key@),
{
    let ws = split_words(key.as_str());
    proof {
        lemma_distinct(all_words(views(phrases@)));
    }
    let mut out: Vec<Fraction> = Vec::new();
    for j in 0..ws.len()
        invariant
            views(ws@) == words_of(key@),
            keys_of(scores@) == distinct(all_words(views(phrases@))),
            forall|x: Seq<char>|
                #[trigger] keys_of(scores@).contains(x) <==> all_words(views(phrases@)).contains(
                    x,
                ),
            forall|i: int|
                0 <= i < scores@.len() ==> is_degree_score(
                    (#[trigger] scores@[i]).1,
                    views(phrases@),
                    scores@[i].0@,
                ),
            out@.len() == j,
            forall|k: int|
                0 <= k < j
                    ==> is_degree_score(#[trigger] out@[k], views(phrases@), words_of(key@)[k]),
    {
        assert(views(ws@)[j as int] == ws@[j as int]@);
        match position_of(scores, &ws[j]) {
            Some(p) => {
                out.push(scores[p].1);
            },
            None => {
                out.push(Fraction { num: 0, den: 1 });
            },
        }
    }
    out
}

/// The RAKE keys of a document given as its phrases, in key order (phrases
/// that hold a word, then words), each with the degree scores of its words.
pub(crate) fn keyword_parts(document: &Vec<String>) -> (r: Vec<(String, Vec<Fraction>)>)
    requires
        degree_fits(views(document@)),
    ensures
        keys_of(r@) == rake_keys(views(document@)),
        forall|i: int|
            0 <= i < r@.len() ==> is_key_score((#[trigger] r@[i]).1@, views(document@), r@[i].0@),
{
    let scores = degree_scores(document);
    let lists = phrase_words(document);
    let all = flatten_lists(&lists);
    let ghost ds = views(document@);
    let ghost has_word = |p: Seq<char>| words_of(p).len() > 0;
    let mut candidates: Vec<String> = Vec::new();
    assert(corpus_views(lists@).len() == word_lists(ds).len());
    for i in 0..document.len()
        invariant
            lists@.len() == document@.len(),
            ds == views(document@),
            has_word == (|p: Seq<char>| words_of(p).len() > 0),
            corpus_views(lists@) == word_lists(ds),
            views(candidates@) == ds.take(i as int).filter(has_word),
    {
        let ghost pre = ds.take(i as int);
        assert(ds.take(i + 1) =~= pre.push(ds[i as int]));
        proof {
            pre.lemma_filter_push(ds[i as int], has_word);
            assert(corpus_views(lists@)[i as int] == views(lists@[i as int]@));
        }
        if lists[i].len() > 0 {
            let p = document[i].clone();
            proof {
                assert(views(candidates@.push(p)) =~= views(candidates@).push(p@));
            }
            candidates.push(p);
        }
    }
    assert(ds.take(document.len() as int) =~= ds);
    let ghost start = candidates@;
    for i in 0..all.len()
        invariant
            candidates@ == start + all@.take(i as int),
    {
        assert(all@.take(i + 1) =~= all@.take(i as int).push(all@[i as int]));
        candidates.push(all[i].clone());
    }
    assert(all@.take(all.len() as int) =~= all@);
    assert(views(candidates@) =~= views(start) + all_words(views(document@)));
    let keys = distinct_strings(&candidates);
    let mut out: Vec<(String, Vec<Fraction>)> = Vec::new();
    for i in 0..keys.len()
        invariant
            views(keys@) == rake_keys(views(document@)),
            keys_of(scores@) == distinct(all_words(views(document@))),
            forall|j: int|
                0 <= j < scores@.len() ==> is_degree_score(
                    (#[trigger] scores@[j]).1,
                    views(document@),
                    scores@[j].0@,
                ),
            out@.len() == i,
            keys_of(out@) == views(keys@).take(i as int),
            forall|j: int|
                0 <= j < i ==> is_key_score((#[trigger] out@[j]).1@, views(document@), out@[j].0@),
    {
        let parts = key_parts(&keys[i], &scores, document);
        let k = keys[i].clone();
        proof {
            lemma_keys_push(out@, (k, parts));
            assert(views(keys@).take(i + 1) =~= views(keys@).take(i as int).push(k@));
        }
        out.push((k, parts));
    }
    assert(views(keys@).take(keys.len() as int) =~= views(keys@));
    out
}


/// The degree score of `w` as a pair `(numerator, denominator)`.
pub open spec fn degree_pair(phrases: Seq<Seq<char>>, w: Seq<char>) -> (int, int) {
    if all_words(phrases).contains(w) {
        (degree(word_lists(phrases), w) as int, frequency(phrases, w) as int)
    } else {
        (0, 1)
    }
}

/// Sum of two fractions given as pairs, over the product of the denominators.
pub open spec fn add_pairs(x: (int, int), y: (int, int)) -> (int, int) {
    (x.0 * y.1 + y.0 * x.1, x.1 * y.1)
}

/// Sum of fractions given as pairs.
pub open spec fn pair_sum(ps: Seq<(int, int)>) -> (int, int)
    decreases ps.len(),
{
    if ps.len() == 0 {
        (0, 1)
    } else {
        add_pairs(pair_sum(ps.drop_last()), ps.last())
    }
}

pub open spec fn fraction_pairs(parts: Seq<Fraction>) -> Seq<(int, int)> {
    parts.map_values(|f: Fraction| (f.num as int, f.den as int))
}

/// The RAKE score of `k`: the sum of the degree scores of its words.
pub open spec fn score_of(phrases: Seq<Seq<char>>, k: Seq<char>) -> (int, int) {
    pair_sum(words_of(k).map_values(|w: Seq<char>| degree_pair(phrases, w)))
}

/// The fraction `x` is at least the fraction `y` (both denominators positive).
pub open spec fn at_least(x: (int, int), y: (int, int)) -> bool {
    x.0 * y.1 >= y.0 * x.1
}

pub open spec fn fits_u64(x: (int, int)) -> bool {
    x.0 <= u64::MAX && x.1 <= u64::MAX
}

pub open spec fn as_pair(x: (u64, u64)) -> (int, int) {
    (x.0 as int, x.1 as int)
}

/// The degrees fit in a `usize`, and the score of every key, summed over the
/// product of its denominators, fits in a `u64`.
pub open spec fn rake_fits(phrases: Seq<Seq<char>>) -> bool {
    &&& degree_fits(phrases)
    &&& forall|k: Seq<char>| rake_keys(phrases).contains(k) ==> fits_u64(#[trigger] score_of(phrases, k))
}

proof fn lemma_degree_pair(phrases: Seq<Seq<char>>, w: Seq<char>)
    ensures
        degree_pair(phrases, w).0 >= 0,
        degree_pair(phrases, w).1 >= 1,
{
    lemma_count_bounds(all_words(phrases), w);
}

/// The parts of a key are the degree pairs of its words, all with a positive
/// denominator, and they add up to the key's score.
proof fn lemma_key_parts(parts: Seq<Fraction>, phrases: Seq<Seq<char>>, k: Seq<char>)
    requires
        is_key_score(parts, phrases, k),
    ensures
        fraction_pairs(parts) == words_of(k).map_values(|w: Seq<char>| degree_pair(phrases, w)),
        pair_sum(fraction_pairs(parts)) == score_of(phrases, k),
        forall|j: int| 0 <= j < parts.len() ==> (#[trigger] parts[j]).den >= 1,
{
    assert forall|j: int| 0 <= j < parts.len() implies (#[trigger] parts[j]).den >= 1 by {
        lemma_degree_pair(phrases, words_of(k)[j]);
        assert(is_degree_score(parts[j], phrases, words_of(k)[j]));
    }
    assert(fraction_pairs(parts) =~= words_of(k).map_values(|w: Seq<char>| degree_pair(phrases, w)));
}

/// Sums of non-negative fractions with positive denominators only grow as
/// terms are added.
proof fn lemma_pair_sum_grows(ps: Seq<(int, int)>, i: int)
    requires
        0 <= i <= ps.len(),
        forall|j: int| 0 <= j < ps.len() ==> (#[trigger] ps[j]).0 >= 0 && ps[j].1 >= 1,
    ensures
        pair_sum(ps).0 >= 0,
        pair_sum(ps).1 >= 1,
        pair_sum(ps.take(i)).0 <= pair_sum(ps).0,
        pair_sum(ps.take(i)).1 <= pair_sum(ps).1,
    decreases ps.len(),
{
    if i == ps.len() {
        assert(ps.take(i) =~= ps);
    }
    if ps.len() > 0 {
        let p = ps.drop_last();
        assert forall|j: int| 0 <= j < p.len() implies (#[trigger] p[j]).0 >= 0 && p[j].1 >= 1 by {
            assert(p[j] == ps[j]);
        }
        let k = if i < ps.len() { i } else { p.len() as int };
        lemma_pair_sum_grows(p, k);
        let x = pair_sum(p);
        let y = ps.last();
        assert(y == ps[ps.len() - 1]);
        assert(x.0 * y.1 + y.0 * x.1 >= x.0 && x.1 * y.1 >= x.1 && x.1 * y.1 >= 1
            && x.0 * y.1 + y.0 * x.1 >= 0) by (nonlinear_arith)
            requires
                x.0 >= 0,
                x.1 >= 1,
                y.0 >= 0,
                y.1 >= 1,
        ;
        if i < ps.len() {
            assert(p.take(i) =~= ps.take(i));
        }
    }
}

/// The sum of the fractions, over the product of their denominators, or
/// `None` when it does not fit in a `u64`.
fn sum_parts(parts: &Vec<Fraction>) -> (r: Option<(u64, u64)>)
    requires
        forall|j: int| 0 <= j < parts@.len() ==> (#[trigger] parts@[j]).den >= 1,
    ensures
        match r {
            Some(x) => fits_u64(pair_sum(fraction_pairs(parts@))) && as_pair(x) == pair_sum(
                fraction_pairs(parts@),
            ),
            None => !fits_u64(pair_sum(fraction_pairs(parts@))),
        },
{
    let ghost ps = fraction_pairs(parts@);
    let mut n: u64 = 0;
    let mut d: u64 = 1;
    assert(ps.take(0) =~= Seq::<(int, int)>::empty());
    for i in 0..parts.len()
        invariant
            ps == fraction_pairs(parts@),
            forall|j: int| 0 <= j < parts@.len() ==> (#[trigger] parts@[j]).den >= 1,
            as_pair((n, d)) == pair_sum(ps.take(i as int)),
    {
        let ghost next = ps.take(i + 1);
        assert(next.drop_last() =~= ps.take(i as int));
        assert(next.last() == ps[i as int]);
        proof {
            assert forall|j: int| 0 <= j < ps.len() implies (#[trigger] ps[j]).0 >= 0 && ps[j].1 >= 1 by {
                assert(parts@[j].den >= 1);
            }
            lemma_pair_sum_grows(ps, i + 1);
        }
        let a = parts[i].num as u128;
        let b = parts[i].den as u128;
        let nw = n as u128;
        let dw = d as u128;
        assert(nw * b <= u128::MAX && a * dw <= u128::MAX && dw * b <= u128::MAX) by (nonlinear_arith)
            requires
                nw <= u64::MAX,
                dw <= u64::MAX,
                a <= u64::MAX,
                b <= u64::MAX,
        ;
        let dd = dw * b;
        match (nw * b).checked_add(a * dw) {
            None => {
                return None;
            },
            Some(nn) => {
                if nn > u64::MAX as u128 || dd > u64::MAX as u128 {
                    return None;
                }
                n = nn as u64;
                d = dd as u64;
            },
        }
    }
    assert(ps.take(parts.len() as int) =~= ps);
    Some((n, d))
}

fn at_least_exec(x: (u64, u64), y: (u64, u64)) -> (r: bool)
    ensures
        r == at_least(as_pair(x), as_pair(y)),
{
    let (a, b, c, d) = (x.0 as u128, x.1 as u128, y.0 as u128, y.1 as u128);
    assert(a * d <= u128::MAX && c * b <= u128::MAX) by (nonlinear_arith)
        requires
            a <= u64::MAX,
            b <= u64::MAX,
            c <= u64::MAX,
            d <= u64::MAX,
    ;
    a * d >= c * b
}

proof fn lemma_at_least_strict(e: (int, int), x: (int, int), y: (int, int))
    requires
        e.1 > 0,
        x.1 > 0,
        y.1 > 0,
        !at_least(x, e),
        at_least(x, y),
    ensures
        at_least(e, y),
        !at_least(y, e),
{
    assert(e.0 * y.1 > y.0 * e.1) by (nonlinear_arith)
        requires
            e.1 > 0,
            x.1 > 0,
            y.1 > 0,
            e.0 * x.1 > x.0 * e.1,
            x.0 * y.1 >= y.0 * x.1,
    ;
}

/// The order in which to list fractions so that they do not increase:
/// `r[i]` is the position in `sums` of the `i`-th. Equal fractions keep their
/// order.
pub fn order_by_score(sums: &Vec<(u64, u64)>) -> (r: Vec<usize>)
    requires
        forall|i: int| 0 <= i < sums@.len() ==> (#[trigger] sums@[i]).1 > 0,
    ensures
        r@.len() == sums@.len(),
        forall|i: int| 0 <= i < r@.len() ==> (#[trigger] r@[i]) < sums@.len(),
        forall|i: int, j: int| 0 <= i < j < r@.len() ==> #[trigger] r@[i] != #[trigger] r@[j],
        forall|k: usize| k < sums@.len() ==> #[trigger] r@.contains(k),
        forall|i: int, j: int|
            0 <= i < j < r@.len() ==> at_least(
                as_pair(sums@[#[trigger] r@[i] as int]),
                as_pair(sums@[#[trigger] r@[j] as int]),
            ),
        forall|i: int, j: int|
            0 <= i < j < r@.len() && at_least(
                as_pair(sums@[#[trigger] r@[j] as int]),
                as_pair(sums@[#[trigger] r@[i] as int]),
            ) ==> r@[i] < r@[j],
{
    let mut out: Vec<usize> = Vec::new();
    for i in 0..sums.len()
        invariant
            forall|i: int| 0 <= i < sums@.len() ==> (#[trigger] sums@[i]).1 > 0,
            out@.len() == i,
            forall|a: int| 0 <= a < out@.len() ==> (#[trigger] out@[a]) < i,
            forall|a: int, b: int| 0 <= a < b < out@.len() ==> #[trigger] out@[a] != #[trigger] out@[b],
            forall|k: usize| k < i ==> #[trigger] out@.contains(k),
            forall|a: int, b: int|
                0 <= a < b < out@.len() ==> at_least(
                    as_pair(sums@[#[trigger] out@[a] as int]),
                    as_pair(sums@[#[trigger] out@[b] as int]),
                ),
            forall|a: int, b: int|
                0 <= a < b < out@.len() && at_least(
                    as_pair(sums@[#[trigger] out@[b] as int]),
                    as_pair(sums@[#[trigger] out@[a] as int]),
                ) ==> out@[a] < out@[b],
    {
        let e = sums[i];
        let mut pos: usize = 0;
        while pos < out.len() && at_least_exec(sums[out[pos]], e)
            invariant
                i < sums@.len(),
                e == sums@[i as int],
                pos <= out@.len(),
                forall|a: int| 0 <= a < out@.len() ==> (#[trigger] out@[a]) < i,
                forall|a: int|
                    0 <= a < pos ==> at_least(as_pair(sums@[#[trigger] out@[a] as int]), as_pair(e)),
            decreases out@.len() - pos,
        {
            pos = pos + 1;
        }
        let ghost old_out = out@;
        out.insert(pos, i);
        proof {
            let ep = as_pair(e);
            assert(ep == as_pair(sums@[i as int]));
            assert forall|j: int| pos < j < out@.len() implies !at_least(
                as_pair(sums@[out@[j] as int]),
                ep,
            ) && at_least(ep, as_pair(sums@[out@[j] as int])) by {
                let x = as_pair(sums@[old_out[pos as int] as int]);
                let y = as_pair(sums@[old_out[j - 1] as int]);
                assert(out@[j] == old_out[j - 1]);
                if j - 1 > pos {
                    assert(at_least(x, y));
                } else {
                    assert(x.0 * y.1 >= y.0 * x.1) by (nonlinear_arith)
                        requires
                            x == y,
                    ;
                }
                lemma_at_least_strict(ep, x, y);
            }
            assert forall|a: int| 0 <= a < out@.len() implies (#[trigger] out@[a]) < i + 1 by {
                if a < pos {
                    assert(out@[a] == old_out[a]);
                } else if a > pos {
                    assert(out@[a] == old_out[a - 1]);
                }
            }
            assert forall|a: int, b: int| 0 <= a < b < out@.len() implies #[trigger] out@[a]
                != #[trigger] out@[b] by {
                let pa = if a < pos { a } else { a - 1 };
                let pb = if b < pos { b } else { b - 1 };
                if a != pos {
                    assert(out@[a] == old_out[pa]);
                }
                if b != pos {
                    assert(out@[b] == old_out[pb]);
                }
            }
            assert forall|k: usize| k < i + 1 implies #[trigger] out@.contains(k) by {
                if k == i {
                    assert(out@[pos as int] == k);
                } else {
                    assert(old_out.contains(k));
                    let w = choose|w: int| 0 <= w < old_out.len() && old_out[w] == k;
                    if w < pos {
                        assert(out@[w] == k);
                    } else {
                        assert(out@[w + 1] == k);
                    }
                }
            }
            assert forall|a: int, b: int| 0 <= a < b < out@.len() implies at_least(
                as_pair(sums@[#[trigger] out@[a] as int]),
                as_pair(sums@[#[trigger] out@[b] as int]),
            ) by {
                let pa = if a < pos { a } else { a - 1 };
                let pb = if b < pos { b } else { b - 1 };
                if a != pos {
                    assert(out@[a] == old_out[pa]);
                }
                if b != pos {
                    assert(out@[b] == old_out[pb]);
                }
            }
            assert forall|a: int, b: int|
                0 <= a < b < out@.len() && at_least(
                    as_pair(sums@[#[trigger] out@[b] as int]),
                    as_pair(sums@[#[trigger] out@[a] as int]),
                ) implies out@[a] < out@[b] by {
                let pa = if a < pos { a } else { a - 1 };
                let pb = if b < pos { b } else { b - 1 };
                if a != pos {
                    assert(out@[a] == old_out[pa]);
                }
                if b != pos {
                    assert(out@[b] == old_out[pb]);
                }
            }
        }
    }
    out
}

proof fn lemma_in_flatten(lists: Seq<Seq<Seq<char>>>, a: int, b: int)
    requires
        0 <= a < lists.len(),
        0 <= b < lists[a].len(),
    ensures
        lists.flatten_alt().contains(lists[a][b]),
    decreases lists.len(),
{
    let p = lists.drop_last();
    let f = lists.flatten_alt();
    assert(f == p.flatten_alt() + lists.last());
    if a < lists.len() - 1 {
        assert(p[a] == lists[a]);
        lemma_in_flatten(p, a, b);
        let k = choose|k: int| 0 <= k < p.flatten_alt().len() && p.flatten_alt()[k] == lists[a][b];
        assert(f[k] == lists[a][b]);
    } else {
        assert(f[p.flatten_alt().len() + b] == lists[a][b]);
    }
}

proof fn lemma_degree_positive(lists: Seq<Seq<Seq<char>>>, a: int, b: int)
    requires
        0 <= a < lists.len(),
        0 <= b < lists[a].len(),
    ensures
        degree(lists, lists[a][b]) >= 1,
    decreases lists.len(),
{
    let w = lists[a][b];
    let p = lists.drop_last();
    if a < lists.len() - 1 {
        assert(p[a] == lists[a]);
        lemma_degree_positive(p, a, b);
    } else {
        assert(lists.last().contains(w));
        lemma_count_bounds(lists.last(), w);
        let c = count(lists.last(), w);
        let l = lists.last().len();
        assert(c * l >= 1) by (nonlinear_arith)
            requires
                c >= 1,
                l >= 1,
        ;
    }
}

proof fn lemma_pair_sum_positive(ps: Seq<(int, int)>, j: int)
    requires
        0 <= j < ps.len(),
        ps[j].0 >= 1,
        forall|i: int| 0 <= i < ps.len() ==> (#[trigger] ps[i]).0 >= 0 && ps[i].1 >= 1,
    ensures
        pair_sum(ps).0 >= 1,
    decreases ps.len(),
{
    let p = ps.drop_last();
    assert forall|i: int| 0 <= i < p.len() implies (#[trigger] p[i]).0 >= 0 && p[i].1 >= 1 by {
        assert(p[i] == ps[i]);
    }
    lemma_pair_sum_grows(p, 0);
    let x = pair_sum(p);
    let y = ps.last();
    assert(y == ps[ps.len() - 1]);
    if j < ps.len() - 1 {
        assert(p[j] == ps[j]);
        lemma_pair_sum_positive(p, j);
        assert(x.0 * y.1 + y.0 * x.1 >= 1) by (nonlinear_arith)
            requires
                x.0 >= 1,
                x.1 >= 1,
                y.0 >= 0,
                y.1 >= 1,
        ;
    } else {
        assert(x.0 * y.1 + y.0 * x.1 >= 1) by (nonlinear_arith)
            requires
                x.0 >= 0,
                x.1 >= 1,
                y.0 >= 1,
                y.1 >= 1,
        ;
    }
}

/// Every RAKE key has a positive score: it holds at least one word, and every
/// word of the document has a positive degree.
pub proof fn lemma_key_score_positive(phrases: Seq<Seq<char>>, k: Seq<char>)
    requires
        rake_keys(phrases).contains(k),
    ensures
        score_of(phrases, k).0 >= 1,
        score_of(phrases, k).1 >= 1,
{
    let has_word = |p: Seq<char>| words_of(p).len() > 0;
    let fl = phrases.filter(has_word);
    let all = all_words(phrases);
    let lists = word_lists(phrases);
    lemma_distinct(fl + all);
    let c = choose|c: int| 0 <= c < (fl + all).len() && (fl + all)[c] == k;
    let w: Seq<char> = if c < fl.len() {
        phrases.filter_lemma(has_word);
        assert(fl[c] == k);
        assert(fl.contains(k));
        phrases.lemma_filter_contains_rev(has_word, k);
        assert(phrases.contains(k));
        let a = choose|a: int| 0 <= a < phrases.len() && phrases[a] == k;
        assert(lists[a] == words_of(k));
        assert(words_of(k).len() > 0);
        lemma_in_flatten(lists, a, 0);
        lemma_degree_positive(lists, a, 0);
        words_of(k)[0]
    } else {
        assert(all[c - fl.len()] == k);
        let (a, b) = lemma_in_some_list(lists, k);
        assert(lists[a] == words_of(phrases[a]));
        lemma_word_is_one_word(phrases[a], b);
        lemma_degree_positive(lists, a, b);
        k
    };
    assert(words_of(k).len() > 0 && words_of(k)[0] == w);
    assert(all.contains(w));
    let ps = words_of(k).map_values(|v: Seq<char>| degree_pair(phrases, v));
    assert forall|i: int| 0 <= i < ps.len() implies (#[trigger] ps[i]).0 >= 0 && ps[i].1 >= 1 by {
        lemma_degree_pair(phrases, words_of(k)[i]);
    }
    assert(ps[0] == degree_pair(phrases, w));
    lemma_pair_sum_positive(ps, 0);
    lemma_pair_sum_grows(ps, 0);
}

pub(crate) fn copy_parts(v: &Vec<Fraction>) -> (r: Vec<Fraction>)
    ensures
        r@ == v@,
{
    let mut out: Vec<Fraction> = Vec::new();
    for i in 0..v.len()
        invariant
            out@ == v@.take(i as int),
    {
        assert(v@.take(i + 1) =~= v@.take(i as int).push(v@[i as int]));
        out.push(v[i]);
    }
    assert(v@.take(v.len() as int) =~= v@);
    out
}

/// `r` lists every RAKE key of the document once, each with the degree scores
/// of its words, by non-increasing score.
pub open spec fn is_ranked_keywords(r: Seq<(String, Vec<Fraction>)>, phrases: Seq<Seq<char>>) -> bool {
    &&& keys_of(r).no_duplicates()
    &&& forall|x: Seq<char>| #[trigger] keys_of(r).contains(x) <==> rake_keys(phrases).contains(x)
    &&& forall|i: int| 0 <= i < r.len() ==> is_key_score((#[trigger] r[i]).1@, phrases, r[i].0@)
    &&& forall|i: int| 0 <= i < r.len() ==> score_of(phrases, (#[trigger] r[i]).0@).0 >= 1
    &&& forall|i: int, j: int|
        0 <= i < j < r.len() ==> at_least(
            score_of(phrases, (#[trigger] r[i]).0@),
            score_of(phrases, (#[trigger] r[j]).0@),
        )
}

/// The score of every key, as a fraction over the product of its
/// denominators.
fn key_sums(entries: &Vec<(String, Vec<Fraction>)>, document: Ghost<Seq<Seq<char>>>) -> (r: Vec<(u64, u64)>)
    requires
        rake_fits(document@),
        keys_of(entries@) == rake_keys(document@),
        forall|i: int|
            0 <= i < entries@.len() ==> is_key_score((#[trigger] entries@[i]).1@, document@, entries@[i].0@),
    ensures
        r@.len() == entries@.len(),
        forall|i: int|
            0 <= i < r@.len() ==> as_pair(#[trigger] r@[i]) == score_of(document@, entries@[i].0@) && r@[i].1 > 0,
{
    let mut sums: Vec<(u64, u64)> = Vec::new();
    for i in 0..entries.len()
        invariant
            rake_fits(document@),
            keys_of(entries@) == rake_keys(document@),
            forall|i: int|
                0 <= i < entries@.len() ==> is_key_score((#[trigger] entries@[i]).1@, document@, entries@[i].0@),
            sums@.len() == i,
            forall|j: int|
                0 <= j < i ==> as_pair(#[trigger] sums@[j]) == score_of(document@, entries@[j].0@) && sums@[j].1 > 0,
    {
        let ghost k = entries@[i as int].0@;
        let ghost ps = fraction_pairs(entries@[i as int].1@);
        proof {
            lemma_key_parts(entries@[i as int].1@, document@, k);
            assert(keys_of(entries@)[i as int] == k);
            assert(rake_keys(document@).contains(k));
            assert forall|j: int| 0 <= j < ps.len() implies (#[trigger] ps[j]).0 >= 0 && ps[j].1 >= 1 by {
                assert(entries@[i as int].1@[j].den >= 1);
            }
            lemma_pair_sum_grows(ps, 0);
        }
        match sum_parts(&entries[i].1) {
            Some(x) => {
                sums.push(x);
            },
            None => {
                assert(false);
                sums.push((0, 1));
            },
        }
    }
    sums
}

/// RAKE scores of a document given as its phrases: every phrase that holds a
/// word and every word, each once, with the degree scores of its words (whose
/// sum is its score), by non-increasing score. Keys with equal scores keep
/// the order in which they first occur, phrases before words.
pub fn rake(document: &Vec<String>) -> (r: Vec<(String, Vec<Fraction>)>)
    requires
        rake_fits(views(document@)),
    ensures
        is_ranked_keywords(r@, views(document@)),
        r@.len() == rake_keys(views(document@)).len(),
{
    let ghost doc = views(document@);
    let entries = keyword_parts(document);
    let sums = key_sums(&entries, Ghost(doc));
    let order = order_by_score(&sums);
    let mut out: Vec<(String, Vec<Fraction>)> = Vec::new();
    for k in 0..order.len()
        invariant
            order@.len() == entries@.len(),
            sums@.len() == entries@.len(),
            forall|i: int| 0 <= i < order@.len() ==> (#[trigger] order@[i]) < entries@.len(),
            out@.len() == k,
            forall|a: int|
                0 <= a < k ==> (#[trigger] out@[a]).0 == entries@[order@[a] as int].0 && out@[a].1@
                    == entries@[order@[a] as int].1@,
    {
        let idx = order[k];
        out.push((entries[idx].0.clone(), copy_parts(&entries[idx].1)));
    }
    proof {
        let ks = rake_keys(doc);
        let ko = keys_of(out@);
        lemma_distinct(doc.filter(|p: Seq<char>| words_of(p).len() > 0) + all_words(doc));
        assert forall|a: int| 0 <= a < ko.len() implies ko[a] == ks[order@[a] as int] by {
            assert(keys_of(entries@)[order@[a] as int] == entries@[order@[a] as int].0@);
        }
        assert forall|a: int, b: int| 0 <= a < ko.len() && 0 <= b < ko.len() && a != b implies ko[a]
            != ko[b] by {
            if a < b {
                assert(order@[a] != order@[b]);
            } else {
                assert(order@[b] != order@[a]);
            }
        }
        assert forall|x: Seq<char>| #[trigger] ko.contains(x) <==> ks.contains(x) by {
            if ko.contains(x) {
                let a = choose|a: int| 0 <= a < ko.len() && ko[a] == x;
                assert(ks[order@[a] as int] == x);
            }
            if ks.contains(x) {
                let c = choose|c: int| 0 <= c < ks.len() && ks[c] == x;
                assert(order@.contains(c as usize));
                let a = choose|a: int| 0 <= a < order@.len() && order@[a] == c as usize;
                assert(ko[a] == x);
            }
        }
        assert forall|i: int| 0 <= i < out@.len() implies is_key_score((#[trigger] out@[i]).1@, doc, out@[i].0@) by {
            assert(is_key_score(entries@[order@[i] as int].1@, doc, entries@[order@[i] as int].0@));
        }
        assert forall|i: int| 0 <= i < out@.len() implies score_of(doc, (#[trigger] out@[i]).0@).0 >= 1 by {
            assert(ko[i] == out@[i].0@);
            assert(ko.contains(out@[i].0@));
            lemma_key_score_positive(doc, out@[i].0@);
        }
        assert forall|i: int, j: int| 0 <= i < j < out@.len() implies at_least(
            score_of(doc, (#[trigger] out@[i]).0@),
            score_of(doc, (#[trigger] out@[j]).0@),
        ) by {
            assert(at_least(as_pair(sums@[order@[i] as int]), as_pair(sums@[order@[j] as int])));
        }
    }
    out
}

/// Whether `rake` can score the document: its degrees fit in a `usize` and
/// its scores in a `u64`.
pub fn can_rake(document: &Vec<String>) -> (r: bool)
    ensures
        r == rake_fits(views(document@)),
{
    if !degrees_fit(document) {
        return false;
    }
    let ghost doc = views(document@);
    let entries = keyword_parts(document);
    for i in 0..entries.len()
        invariant
            doc == views(document@),
            keys_of(entries@) == rake_keys(doc),
            forall|i: int|
                0 <= i < entries@.len() ==> is_key_score((#[trigger] entries@[i]).1@, doc, entries@[i].0@),
            forall|j: int| 0 <= j < i ==> fits_u64(score_of(doc, (#[trigger] entries@[j]).0@)),
    {
        proof {
            lemma_key_parts(entries@[i as int].1@, doc, entries@[i as int].0@);
            assert(keys_of(entries@)[i as int] == entries@[i as int].0@);
        }
        if sum_parts(&entries[i].1).is_none() {
            assert(rake_keys(doc).contains(entries@[i as int].0@));
            return false;
        }
    }
    assert forall|k: Seq<char>| rake_keys(doc).contains(k) implies fits_u64(#[trigger] score_of(doc, k)) by {
        let c = choose|c: int| 0 <= c < rake_keys(doc).len() && rake_keys(doc)[c] == k;
        assert(keys_of(entries@)[c] == entries@[c].0@);
    }
    true
}

/// Whether the degrees of the document's words fit in a `usize`.
pub fn degrees_fit(phrases: &Vec<String>) -> (r: bool)
    ensures
        r == degree_fits(views(phrases@)),
{
    let lists = phrase_words(phrases);
    let ghost c = corpus_views(lists@);
    let mut total: usize = 0;
    for k in 0..lists.len()
        invariant
            c == corpus_views(lists@),
            c == word_lists(views(phrases@)),
            total == squares(c.take(k as int)),
    {
        let ghost next = c.take(k + 1);
        assert(next.drop_last() =~= c.take(k as int));
        assert(next.last() == views(lists@[k as int]@));
        proof {
            lemma_squares_prefix(c, k + 1);
        }
        let l = lists[k].len();
        match l.checked_mul(l) {
            None => {
                return false;
            },
            Some(sq) => match total.checked_add(sq) {
                None => {
                    return false;
                },
                Some(t) => {
                    total = t;
                },
            },
        }
    }
    assert(c.take(lists.len() as int) =~= c);
    true
}

/// RAKE scores of every document of a corpus, in order.
pub fn all_rake(corpus: &Vec<Vec<String>>) -> (r: Vec<Vec<(String, Vec<Fraction>)>>)
    requires
        forall|i: int| 0 <= i < corpus@.len() ==> rake_fits(views(#[trigger] corpus@[i]@)),
    ensures
        r@.len() == corpus@.len(),
        forall|i: int| 0 <= i < r@.len() ==> is_ranked_keywords((#[trigger] r@[i])@, views(corpus@[i]@)),
{
    let mut out: Vec<Vec<(String, Vec<Fraction>)>> = Vec::new();
    for i in 0..corpus.len()
        invariant
            forall|i: int| 0 <= i < corpus@.len() ==> rake_fits(views(#[trigger] corpus@[i]@)),
            out@.len() == i,
            forall|k: int| 0 <= k < i ==> is_ranked_keywords((#[trigger] out@[k])@, views(corpus@[k]@)),
    {
        out.push(rake(&corpus[i]));
    }
    out
}

/// RAKE scores of every document of a corpus keyed by document.
pub fn corpus_rake(corpus: &Vec<(String, Vec<String>)>) -> (r: Vec<(String, Vec<(String, Vec<Fraction>)>)>)
    requires
        forall|i: int| 0 <= i < corpus@.len() ==> rake_fits(views((#[trigger] corpus@[i]).1@)),
    ensures
        keys_of(r@) == keys_of(corpus@),
        forall|i: int| 0 <= i < r@.len() ==> is_ranked_keywords((#[trigger] r@[i]).1@, views(corpus@[i].1@)),
{
    let mut out: Vec<(String, Vec<(String, Vec<Fraction>)>)> = Vec::new();
    for i in 0..corpus.len()
        invariant
            forall|i: int| 0 <= i < corpus@.len() ==> rake_fits(views((#[trigger] corpus@[i]).1@)),
            out@.len() == i,
            forall|k: int| 0 <= k < i ==> (#[trigger] out@[k]).0@ == corpus@[k].0@,
            forall|k: int| 0 <= k < i ==> is_ranked_keywords((#[trigger] out@[k]).1@, views(corpus@[k].1@)),
    {
        let scores = rake(&corpus[i].1);
        out.push((corpus[i].0.clone(), scores));
    }
    assert(keys_of(out@) =~= keys_of(corpus@));
    out
}

} // verus!
