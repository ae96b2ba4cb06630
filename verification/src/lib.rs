//! A regular-expression engine built as a verified pipeline: a recursive-descent
//! parser produces an abstract syntax tree, Thompson construction turns the tree
//! into a nondeterministic finite automaton with epsilon transitions, subset
//! construction determinises it, and a matcher runs the resulting automaton to
//! decide full-string acceptance and substring containment.

pub mod alphabet;
pub mod ast;
pub mod dfa;
pub mod nfa;
pub mod parse;
pub mod regex;
pub mod topo;
pub mod util;

pub use crate::regex::Regex;
