//! L-systems: a grammar of symbols, branches and rewrite rules, a rewriting
//! engine that grows generations from an initial word, and the turtle actions
//! that a word stands for.
use vstd::prelude::*;

pub mod instruction;
pub mod parser;
pub mod engine;
pub mod turtle;

verus! {

} // verus!
