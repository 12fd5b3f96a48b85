//! Word-chain models of text: for every window of consecutive words, the
//! words that were seen to follow it and how often; with a similarity score
//! between two models and a merge of two models into one.
//!
//! Contracts speak of a model as a finite map from windows to count maps
//! (`WordChain::view`). `chain` builds a model from words, `merge` combines
//! two models, and `similarity` scores two models against each other.

pub mod assoc;
pub mod chain;
pub mod counts;
pub mod merge;
pub mod similarity;
pub mod tokens;

pub use crate::chain::{Entry, KeyLengthMismatch, WordChain, WordCount};
pub use crate::similarity::KeyScore;
