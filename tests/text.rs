use page_compiler::text::{
    corpus_rake_preprocess, corpus_tfidf_preprocess, contains_word, join_with_spaces, normalize,
    rake_preprocess, segment_phrases, split_words, tfidf_preprocess, to_ascii_lowercase,
};

fn strings(words: &[&str]) -> Vec<String> {
    words.iter().map(|w| w.to_string()).collect()
}

fn english() -> Vec<String> {
    stop_words::get(stop_words::LANGUAGE::English)
}

#[test]
fn lowercase_changes_ascii_letters_only() {
    assert_eq!(to_ascii_lowercase("HeLLo ÀB 9"), "hello Àb 9");
}

#[test]
fn split_words_drops_every_kind_of_whitespace() {
    assert_eq!(split_words("  a\tbc \n d\u{3000}e  "), strings(&["a", "bc", "d", "e"]));
    assert_eq!(split_words(""), Vec::<String>::new());
    assert_eq!(split_words("   "), Vec::<String>::new());
}

#[test]
fn normalize_lowercases_and_strips_punctuation() {
    assert_eq!(normalize("Hello, World! Don't  x-ray."), strings(&["hello", "world", "dont", "xray"]));
}

#[test]
fn punctuation_alone_fuses_words() {
    assert_eq!(normalize("rock,paper"), strings(&["rockpaper"]));
}

#[test]
fn empty_text_gives_no_tokens() {
    assert!(tfidf_preprocess(String::new(), english()).is_empty());
    assert!(rake_preprocess(String::new(), english()).is_empty());
}

#[test]
fn tfidf_tokens_drop_stop_words_then_stem() {
    let stops = strings(&["the", "are"]);
    assert_eq!(
        tfidf_preprocess("The cats are running".to_string(), stops),
        strings(&["cat", "run"])
    );
}

#[test]
fn stop_word_test_compares_before_stemming() {
    // "cats" is not a stop-word even though its stem "cat" is.
    let stops = strings(&["cat"]);
    assert_eq!(tfidf_preprocess("cats".to_string(), stops), strings(&["cat"]));
}

#[test]
fn rake_phrases_split_at_stop_words() {
    assert_eq!(
        rake_preprocess("Machine learning is fun".to_string(), english()),
        strings(&["machin learn", "fun"])
    );
}

#[test]
fn segment_phrases_excludes_stop_words() {
    let stops = strings(&["x", "y"]);
    assert_eq!(
        segment_phrases(&strings(&["x", "a", "b", "x", "y", "c", "x"]), &stops),
        strings(&["a b", "c"])
    );
    assert_eq!(segment_phrases(&strings(&["x", "y"]), &stops), Vec::<String>::new());
    assert_eq!(segment_phrases(&Vec::new(), &stops), Vec::<String>::new());
}

#[test]
fn segment_without_stop_words_is_one_phrase() {
    let stops = strings(&["the"]);
    assert_eq!(
        segment_phrases(&strings(&["deep", "neural", "network"]), &stops),
        strings(&["deep neural network"])
    );
}

#[test]
fn join_words_uses_single_spaces() {
    assert_eq!(join_with_spaces(&strings(&["a", "bc", "d"])), "a bc d");
    assert_eq!(join_with_spaces(&strings(&["a"])), "a");
    assert_eq!(join_with_spaces(&Vec::new()), "");
}

#[test]
fn stop_word_membership() {
    let stops = strings(&["is", "the"]);
    assert!(contains_word(&stops, &"the".to_string()));
    assert!(!contains_word(&stops, &"then".to_string()));
}

#[test]
fn learning_survives_stop_word_removal() {
    let corpus = strings(&["machine learning is fun", "deep learning is powerful"]);
    let docs = corpus_tfidf_preprocess(corpus, english());
    assert_eq!(docs.len(), 2);
    for doc in &docs {
        assert!(doc.contains(&"learn".to_string()));
        assert!(!doc.contains(&"is".to_string()));
    }
}

#[test]
fn corpus_rake_preprocess_keeps_document_order() {
    let corpus = strings(&["machine learning is fun", "the deep sea"]);
    let docs = corpus_rake_preprocess(corpus, english());
    assert_eq!(docs, vec![strings(&["machin learn", "fun"]), strings(&["deep sea"])]);
}
