//! A subword tokenizer built on byte pair encoding: it learns a dictionary of
//! merged symbols from a training corpus and tokenizes text with it.
use vstd::prelude::*;

pub mod byte_pair_encoding;
pub mod laws;
pub mod lemmas;
pub mod model;
mod symbols;
mod tables;

verus! {

} // verus!
