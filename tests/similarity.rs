use page_compiler::records::get_test_corpus;
use page_compiler::similarity::{
    all_documents, compare_documents, cosine_similarity_pairs, jaccard_similarity, rank_all_documents,
    rank_documents,
    weighted_jaccard_pairs, Comparison,
};
use page_compiler::text::{rake_preprocess, tfidf_preprocess};
use page_compiler::tf_idf::{Fraction, TfIdf};

fn strings(words: &[&str]) -> Vec<String> {
    words.iter().map(|w| w.to_string()).collect()
}

fn frac(num: usize, den: usize) -> Fraction {
    Fraction { num, den }
}

fn english() -> Vec<String> {
    stop_words::get(stop_words::LANGUAGE::English)
}

fn weight(w: &TfIdf) -> f32 {
    (w.tf.num as f32 / w.tf.den as f32) * (w.idf.num as f32 / w.idf.den as f32).ln()
}

fn score(parts: &[Fraction]) -> f32 {
    parts.iter().map(|f| f.num as f32 / f.den as f32).sum()
}

fn combined(c: &Comparison, cosine_weight: f32) -> f32 {
    let dot: f32 = c.cosine.iter().map(|p| weight(&p.0) * weight(&p.1)).sum();
    let na: f32 = c.cosine.iter().map(|p| weight(&p.0).powi(2)).sum::<f32>().sqrt();
    let nb: f32 = c.cosine.iter().map(|p| weight(&p.1).powi(2)).sum::<f32>().sqrt();
    let cos = if na == 0.0 || nb == 0.0 { 0.0 } else { dot / (na * nb) };
    let min: f32 = c.rake.iter().map(|p| score(&p.0).min(score(&p.1))).sum();
    let max: f32 = c.rake.iter().map(|p| score(&p.0).max(score(&p.1))).sum();
    let jac = if max == 0.0 { 0.0 } else { min / max };
    cos * cosine_weight + jac * (1.0 - cosine_weight)
}

fn keyed(corpus: &[(String, String)], f: impl Fn(String) -> Vec<String>) -> Vec<(String, Vec<String>)> {
    corpus.iter().map(|(id, text)| (id.clone(), f(text.clone()))).collect()
}

#[test]
fn jaccard_counts_intersection_over_union() {
    let a = strings(&["a", "b", "c", "a"]);
    let b = strings(&["b", "c", "d"]);
    assert_eq!(jaccard_similarity(&a, &b), frac(2, 4));
}

#[test]
fn jaccard_of_set_with_itself_is_one() {
    let a = strings(&["x", "y", "x"]);
    assert_eq!(jaccard_similarity(&a, &a), frac(2, 2));
}

#[test]
fn jaccard_of_empty_sets_is_zero() {
    assert_eq!(jaccard_similarity(&Vec::new(), &Vec::new()), frac(0, 1));
    assert_eq!(jaccard_similarity(&strings(&["a"]), &Vec::new()), frac(0, 1));
}

#[test]
fn cosine_pairs_fill_missing_keys_with_zero() {
    let w1 = TfIdf { tf: frac(1, 2), idf: frac(3, 1) };
    let w2 = TfIdf { tf: frac(1, 3), idf: frac(3, 2) };
    let w3 = TfIdf { tf: frac(2, 3), idf: frac(3, 1) };
    let a = vec![("x".to_string(), w1), ("y".to_string(), w2)];
    let b = vec![("y".to_string(), w3), ("z".to_string(), w1)];
    let pairs = cosine_similarity_pairs(&a, &b);
    assert_eq!(pairs, vec![(w1, TfIdf::zero()), (w2, w3), (TfIdf::zero(), w1)]);
}

#[test]
fn cosine_of_vector_with_itself_is_one() {
    let a = vec![
        ("x".to_string(), TfIdf { tf: frac(1, 2), idf: frac(3, 1) }),
        ("y".to_string(), TfIdf { tf: frac(1, 3), idf: frac(3, 2) }),
    ];
    let pairs = cosine_similarity_pairs(&a, &a);
    assert!(pairs.iter().all(|p| p.0 == p.1));
    let dot: f64 = pairs.iter().map(|p| weight(&p.0) as f64 * weight(&p.1) as f64).sum();
    let norm: f64 = pairs.iter().map(|p| (weight(&p.0) as f64).powi(2)).sum::<f64>();
    assert!((dot / norm - 1.0).abs() < 1e-9);
}

#[test]
fn weighted_jaccard_pairs_use_document_tokens_as_keys() {
    let d1 = strings(&["big cat", "dog"]);
    let d2 = strings(&["dog", "owl"]);
    let s1 = vec![("dog".to_string(), 1u8), ("big cat".to_string(), 2u8)];
    let s2 = vec![("owl".to_string(), 3u8)];
    let pairs = weighted_jaccard_pairs(&d1, &d2, &s1, &s2);
    assert_eq!(pairs, vec![(Some(1), None), (Some(0), None), (None, Some(0))]);
}

#[test]
fn documents_of_either_corpus_once() {
    let a = vec![("d1".to_string(), 0u8), ("d2".to_string(), 0u8)];
    let b = vec![("d2".to_string(), 'x'), ("d3".to_string(), 'y')];
    assert_eq!(all_documents(&a, &b), strings(&["d1", "d2", "d3"]));
}

#[test]
fn ranking_is_non_increasing_and_stable() {
    let scores = vec![
        ("a".to_string(), 1u32),
        ("b".to_string(), 5u32),
        ("c".to_string(), 5u32),
        ("d".to_string(), 0u32),
    ];
    let ranked = rank_documents(&scores);
    let ids: Vec<&str> = ranked.iter().map(|e| e.0.as_str()).collect();
    assert_eq!(ids, vec!["b", "c", "a", "d"]);
    assert!(ranked.windows(2).all(|w| w[0].1 >= w[1].1));
}

#[test]
fn ranking_of_union_has_each_document_once() {
    let t = vec![("d1".to_string(), 0u8), ("d2".to_string(), 0u8)];
    let r = vec![("d3".to_string(), 0u8), ("d1".to_string(), 0u8)];
    let docs = all_documents(&t, &r);
    let scores: Vec<(String, u32)> = docs.iter().enumerate().map(|(i, d)| (d.clone(), (i as u32 * 7) % 3)).collect();
    let ranked = rank_documents(&scores);
    let mut ids: Vec<String> = ranked.iter().map(|e| e.0.clone()).collect();
    ids.sort();
    assert_eq!(ids, strings(&["d1", "d2", "d3"]));
}

#[test]
fn shared_term_gives_no_tf_idf_signal() {
    let corpus = vec![
        ("doc1".to_string(), "machine learning is fun".to_string()),
        ("doc2".to_string(), "deep learning is powerful".to_string()),
    ];
    let tfidf = keyed(&corpus, |t| tfidf_preprocess(t, english()));
    let rake = keyed(&corpus, |t| rake_preprocess(t, english()));
    let input_tfidf = tfidf_preprocess("learning".to_string(), english());
    let input_rake = rake_preprocess("learning".to_string(), english());
    assert_eq!(input_tfidf, strings(&["learn"]));
    let comparisons = compare_documents(&input_tfidf, &input_rake, &tfidf, &rake);
    assert_eq!(comparisons.len(), 2);
    for c in &comparisons {
        let shared: Vec<&(TfIdf, TfIdf)> = c.cosine.iter().filter(|p| p.0.tf.num > 0).collect();
        assert_eq!(shared.len(), 1);
        assert_eq!(shared[0].0.idf, frac(2, 2));
        assert!(c.cosine.iter().all(|p| weight(&p.0) * weight(&p.1) == 0.0));
        let jac_min: f32 = c.rake.iter().map(|p| score(&p.0).min(score(&p.1))).sum();
        assert!(jac_min > 0.0);
        let total = combined(c, 0.4);
        assert!(total > 0.0);
    }
}

#[test]
fn unrelated_snippet_scores_near_zero() {
    let corpus = get_test_corpus();
    let tfidf = keyed(&corpus, |t| tfidf_preprocess(t, english()));
    let rake = keyed(&corpus, |t| rake_preprocess(t, english()));
    let input_tfidf = tfidf_preprocess("cats chase mice".to_string(), english());
    let input_rake = rake_preprocess("cats chase mice".to_string(), english());
    let comparisons = compare_documents(&input_tfidf, &input_rake, &tfidf, &rake);
    assert_eq!(comparisons.len(), 10);
    for c in &comparisons {
        let s = combined(c, 0.4);
        assert!(s.abs() < 1e-6);
        assert!(s < 0.6);
    }
}

#[test]
fn document_missing_from_one_side_is_still_compared() {
    let tfidf = vec![("d1".to_string(), strings(&["cat"]))];
    let rake = vec![("d2".to_string(), strings(&["cat"]))];
    let comparisons = compare_documents(&strings(&["cat"]), &strings(&["cat"]), &tfidf, &rake);
    let ids: Vec<&str> = comparisons.iter().map(|c| c.document.as_str()).collect();
    assert_eq!(ids, vec!["d1", "d2"]);
    assert!(comparisons[0].rake.iter().all(|p| p.1.is_empty()));
    assert!(comparisons[1].cosine.iter().all(|p| p.1.tf.num == 0));
    assert_eq!(comparisons[1].rake, vec![(vec![frac(1, 1)], vec![frac(1, 1)])]);
}

#[test]
fn test_corpus_has_ten_documents() {
    let corpus = get_test_corpus();
    assert_eq!(corpus.len(), 10);
    assert_eq!(corpus[0], ("doc1".to_string(), "machine learning is fun".to_string()));
    assert_eq!(corpus[9].0, "doc10");
}

#[test]
fn rank_all_documents_lists_union_by_score() {
    let t = vec![("d1".to_string(), 0u8), ("d2".to_string(), 0u8)];
    let r = vec![("d3".to_string(), 0u8), ("d1".to_string(), 0u8)];
    let ranked = rank_all_documents(&t, &r, &vec![2, 7, 2]);
    assert_eq!(
        ranked,
        vec![("d2".to_string(), 7), ("d1".to_string(), 2), ("d3".to_string(), 2)]
    );
}
