use page_compiler::rake::{
    all_rake, can_rake, corpus_rake, degree_scores, degrees_fit, order_by_score, rake, word_degrees,
    word_frequency,
};
use page_compiler::tf_idf::Fraction;

fn strings(words: &[&str]) -> Vec<String> {
    words.iter().map(|w| w.to_string()).collect()
}

fn frac(num: usize, den: usize) -> Fraction {
    Fraction { num, den }
}

#[test]
fn frequency_counts_words_over_whole_document() {
    let phrases = strings(&["deep learn", "learn"]);
    assert_eq!(word_frequency(&phrases), vec![("deep".to_string(), 1), ("learn".to_string(), 2)]);
}

#[test]
fn degree_adds_phrase_lengths() {
    let phrases = strings(&["deep learn", "learn"]);
    assert_eq!(word_degrees(&phrases), vec![("deep".to_string(), 2), ("learn".to_string(), 3)]);
}

#[test]
fn repeated_word_in_one_phrase_counts_twice() {
    let phrases = strings(&["a a b"]);
    assert_eq!(word_degrees(&phrases), vec![("a".to_string(), 6), ("b".to_string(), 3)]);
    assert_eq!(degree_scores(&phrases), vec![("a".to_string(), frac(6, 2)), ("b".to_string(), frac(3, 1))]);
}

#[test]
fn degree_score_is_degree_over_frequency() {
    let phrases = strings(&["deep learn", "learn"]);
    assert_eq!(
        degree_scores(&phrases),
        vec![("deep".to_string(), frac(2, 1)), ("learn".to_string(), frac(3, 2))]
    );
}

#[test]
fn rake_ranks_keys_by_score() {
    let phrases = strings(&["deep learn", "learn"]);
    assert_eq!(
        rake(&phrases),
        vec![
            ("deep learn".to_string(), vec![frac(2, 1), frac(3, 2)]),
            ("deep".to_string(), vec![frac(2, 1)]),
            ("learn".to_string(), vec![frac(3, 2)]),
        ]
    );
}

#[test]
fn rake_ties_keep_key_order() {
    let phrases = strings(&["machin learn", "fun"]);
    assert_eq!(
        rake(&phrases),
        vec![
            ("machin learn".to_string(), vec![frac(2, 1), frac(2, 1)]),
            ("machin".to_string(), vec![frac(2, 1)]),
            ("learn".to_string(), vec![frac(2, 1)]),
            ("fun".to_string(), vec![frac(1, 1)]),
        ]
    );
}

#[test]
fn phrase_without_words_is_no_key() {
    let phrases = strings(&["", "a", "  "]);
    assert_eq!(rake(&phrases), vec![("a".to_string(), vec![frac(1, 1)])]);
}

#[test]
fn order_by_score_compares_fractions_exactly() {
    let sums = vec![(1u64, 3u64), (2, 3), (2, 6), (5, 4)];
    assert_eq!(order_by_score(&sums), vec![3, 1, 0, 2]);
}

#[test]
fn small_documents_can_be_raked() {
    assert!(can_rake(&strings(&["deep learn", "learn"])));
    assert!(can_rake(&Vec::new()));
}

#[test]
fn rake_of_empty_document_is_empty() {
    assert!(rake(&Vec::new()).is_empty());
}

#[test]
fn repeated_phrase_is_one_key() {
    let phrases = strings(&["big cat", "big cat"]);
    let scores = rake(&phrases);
    assert_eq!(scores.len(), 3);
    assert_eq!(scores[0], ("big cat".to_string(), vec![frac(4, 2), frac(4, 2)]));
}

#[test]
fn corpus_rake_keeps_ids() {
    let corpus = vec![("d1".to_string(), strings(&["x y"])), ("d2".to_string(), strings(&["z"]))];
    let scores = corpus_rake(&corpus);
    assert_eq!(scores[0].0, "d1");
    assert_eq!(scores[1], ("d2".to_string(), vec![("z".to_string(), vec![frac(1, 1)])]));
    let plain = all_rake(&vec![strings(&["x y"]), strings(&["z"])]);
    assert_eq!(plain[0], scores[0].1);
}

#[test]
fn small_documents_fit() {
    assert!(degrees_fit(&strings(&["a b c", "d"])));
    assert!(degrees_fit(&Vec::new()));
}
