//! Similarity scoring of short texts against a corpus of documents: a
//! normaliser that turns text into tokens and phrases, the statistics of a
//! TF-IDF model and of a RAKE keyword extractor, and the alignment and ranking
//! steps of the similarity engine.
//!
//! All scores are kept as exact integer fractions; turning them into
//! floating-point values (and taking logarithms and square roots) is left to
//! the caller.

pub mod keys;
pub mod rake;
pub mod records;
pub mod similarity;
pub mod text;
pub mod tf_idf;

