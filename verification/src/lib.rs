//! A character-level language-modeling toolkit over short text lines.
//!
//! The crate offers a bigram frequency model with weighted-random text
//! generation, and the graph-assembly steps (one-hot encoding, linear
//! layer, softmax, average negative log-likelihood) for training a
//! single linear layer through an external autodifferentiation engine.

use vstd::prelude::*;

pub mod bigrams;
pub mod corpus;
pub mod vocabulary;
pub mod nll;

verus! {

/// The boundary token that marks the start of every line.
pub const TOKEN_START: char = '.';

/// The boundary token that marks the end of every line.
pub const TOKEN_END: char = '.';

/// Upper bound on the number of distinct tokens the bigram table holds:
/// the lowercase alphabet plus the boundary token.
pub const VOCAB_SIZE: usize = 27;

} // verus!
