//! Rows that the corpus store hands to the engine and takes back.
use vstd::prelude::*;

verus! {

/// A snippet of text filed under a document.
#[derive(Debug, Clone)]
pub struct Snippet {
    pub text: String,
    pub document: String,
}

/// A RAKE phrase of a document.
#[derive(Debug, Clone)]
pub struct Phrase {
    pub phrase: String,
    pub document_name: String,
}

/// A TF-IDF term of a document.
#[derive(Debug, Clone)]
pub struct Term {
    pub term: String,
    pub document_name: String,
}

/// The sample corpus: ten short documents keyed `doc1` to `doc10`.
pub open spec fn test_corpus() -> Seq<(Seq<char>, Seq<char>)> {
    seq![
        ("doc1"@, "machine learning is fun"@),
        ("doc2"@, "deep learning is powerful"@),
        ("doc3"@, "artificial intelligence is the future"@),
        ("doc4"@, "machine intelligence is rising"@),
        ("doc5"@, "rust programming is fast and safe"@),
        ("doc6"@, "python is great for data science"@),
        ("doc7"@, "data science requires statistics"@),
        ("doc8"@, "statistics is the backbone of ML"@),
        ("doc9"@, "deep neural networks are revolutionary"@),
        ("doc10"@, "rust and python are both awesome languages"@),
    ]
}

fn entry(id: &str, text: &str) -> (r: (String, String))
    ensures
        r.0@ == id@,
        r.1@ == text@,
{
    (id.to_string(), text.to_string())
}

/// The sample corpus, as (document, text) pairs.
pub fn get_test_corpus() -> (r: Vec<(String, String)>)
    ensures
        r@.map_values(|e: (String, String)| (e.0@, e.1@)) == test_corpus(),
{
    let mut corpus: Vec<(String, String)> = Vec::new();
    corpus.push(entry("doc1", "machine learning is fun"));
    corpus.push(entry("doc2", "deep learning is powerful"));
    corpus.push(entry("doc3", "artificial intelligence is the future"));
    corpus.push(entry("doc4", "machine intelligence is rising"));
    corpus.push(entry("doc5", "rust programming is fast and safe"));
    corpus.push(entry("doc6", "python is great for data science"));
    corpus.push(entry("doc7", "data science requires statistics"));
    corpus.push(entry("doc8", "statistics is the backbone of ML"));
    corpus.push(entry("doc9", "deep neural networks are revolutionary"));
    corpus.push(entry("doc10", "rust and python are both awesome languages"));
    assert(corpus@.map_values(|e: (String, String)| (e.0@, e.1@)) =~= test_corpus());
    corpus
}

} // verus!
