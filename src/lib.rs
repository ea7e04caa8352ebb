//! A Markov chain engine over word tokens.
//!
//! A chain of order N maps each window of N tokens to the counts of the tokens seen after it.
//! Feeding a sequence slides a window across it, padded with start markers in front and closed
//! by an end marker. Generation is a walk that draws each next token in proportion to its
//! count. A chain has a binary form that reads back to an equal chain.
use vstd::prelude::*;

verus! {

} // verus!

pub mod assoc;
pub mod chain;
pub mod codec;
pub mod generate;
pub mod laws;
pub mod token;
