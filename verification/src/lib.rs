//! A full-text search engine for a fixed, multi-collection scripture corpus.
//!
//! The library builds a stemmed inverted index over the corpus, packs the
//! per-verse occurrence lists into fixed-width integers, and answers
//! multi-term queries against the packed index, reconstructing highlight
//! spans in the original verse text.
#![verifier::loop_isolation(false)]

pub mod packing;
pub mod preferences;
pub mod corpus;
pub mod text;
pub mod index;
pub mod encode;
pub mod render;
pub mod search;
