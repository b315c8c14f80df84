use page_compiler::tf_idf::{
    all_tf_idf_hash, all_tf_idf_vectorize, corpus_tf_idf_hash, idf, occurrences, tf, tf_idf,
    tf_idf_hash, tf_idf_vectorize, vocabulary, Fraction, TfIdf,
};

fn strings(words: &[&str]) -> Vec<String> {
    words.iter().map(|w| w.to_string()).collect()
}

fn frac(num: usize, den: usize) -> Fraction {
    Fraction { num, den }
}

#[test]
fn tf_counts_share_of_tokens() {
    let doc = strings(&["a", "b", "a", "c"]);
    assert_eq!(tf(&"a".to_string(), &doc), frac(2, 4));
    assert_eq!(tf(&"z".to_string(), &doc), frac(0, 4));
    assert_eq!(occurrences(&"a".to_string(), &doc), 2);
}

#[test]
fn tf_of_empty_document_is_zero() {
    assert_eq!(tf(&"a".to_string(), &Vec::new()), frac(0, 1));
}

#[test]
fn tf_stays_within_unit_interval() {
    let doc = strings(&["x", "x", "x"]);
    let f = tf(&"x".to_string(), &doc);
    assert_eq!(f, frac(3, 3));
    assert!(f.num <= f.den);
}

#[test]
fn idf_ratio_counts_documents_holding_term() {
    let corpus = vec![strings(&["a", "b"]), strings(&["b"]), strings(&["c", "c"])];
    assert_eq!(idf(&"a".to_string(), &corpus), frac(3, 1));
    assert_eq!(idf(&"c".to_string(), &corpus), frac(3, 1));
    assert_eq!(idf(&"b".to_string(), &corpus), frac(3, 2));
}

#[test]
fn idf_of_unseen_term_is_neutral() {
    let corpus = vec![strings(&["a"])];
    assert_eq!(idf(&"q".to_string(), &corpus), frac(1, 1));
    assert_eq!(idf(&"q".to_string(), &Vec::new()), frac(1, 1));
}

#[test]
fn term_in_every_document_has_zero_weight() {
    let corpus = vec![strings(&["machin", "learn", "fun"]), strings(&["deep", "learn", "power"])];
    let w = tf_idf(&"learn".to_string(), &corpus[0], &corpus);
    assert_eq!(w.idf, frac(2, 2));
    assert_eq!(w.tf, frac(1, 3));
    let ln = (w.idf.num as f64 / w.idf.den as f64).ln();
    assert_eq!(ln, 0.0);
}

#[test]
fn vocabulary_in_first_occurrence_order() {
    let corpus = vec![strings(&["b", "a", "b"]), strings(&["c", "a"]), vec![]];
    assert_eq!(vocabulary(&corpus), strings(&["b", "a", "c"]));
    assert!(vocabulary(&Vec::new()).is_empty());
}

#[test]
fn hash_and_vector_follow_vocabulary() {
    let corpus = vec![strings(&["a", "b"]), strings(&["b", "c"])];
    let doc = strings(&["a", "a", "c", "z"]);
    let map = tf_idf_hash(&doc, &corpus);
    let vector = tf_idf_vectorize(&doc, &corpus);
    let keys: Vec<String> = map.iter().map(|e| e.0.clone()).collect();
    assert_eq!(keys, strings(&["a", "b", "c"]));
    assert_eq!(map[0].1, TfIdf { tf: frac(2, 4), idf: frac(2, 1) });
    assert_eq!(map[1].1, TfIdf { tf: frac(0, 4), idf: frac(2, 2) });
    assert_eq!(map[2].1, TfIdf { tf: frac(1, 4), idf: frac(2, 1) });
    let values: Vec<TfIdf> = map.iter().map(|e| e.1).collect();
    assert_eq!(vector, values);
}

#[test]
fn whole_corpus_weights() {
    let corpus = vec![strings(&["a", "b"]), strings(&["b"])];
    let vectors = all_tf_idf_vectorize(&corpus);
    let maps = all_tf_idf_hash(&corpus);
    assert_eq!(vectors.len(), 2);
    assert_eq!(vectors[1], vec![TfIdf { tf: frac(0, 1), idf: frac(2, 1) }, TfIdf { tf: frac(1, 1), idf: frac(2, 2) }]);
    assert_eq!(maps[0][0], ("a".to_string(), TfIdf { tf: frac(1, 2), idf: frac(2, 1) }));
    let keyed = vec![("d1".to_string(), corpus[0].clone()), ("d2".to_string(), corpus[1].clone())];
    let by_id = corpus_tf_idf_hash(&keyed);
    assert_eq!(by_id[1].0, "d2");
    assert_eq!(by_id[1].1, maps[1]);
}

#[test]
fn zero_weight_is_zero() {
    let z = TfIdf::zero();
    assert_eq!(z.tf.num, 0);
    assert_eq!(z.idf, frac(1, 1));
}
