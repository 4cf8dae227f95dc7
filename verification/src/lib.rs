//! A small full-text search library: an analysis pipeline (tokenize,
//! stopword-filter, stem) feeding an inverted index, and a query engine
//! that answers a multi-keyword query by intersecting the postings of the
//! query's stems.

pub mod analysis;
pub mod index;
pub mod scan;
