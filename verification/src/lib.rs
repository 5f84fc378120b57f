//! Lithium: a lexer and parser generator.
//!
//! Regular expressions are parsed into an AST, turned into an NFA
//! (Thompson construction), determinised by subset construction and
//! minimised; PEG grammars are parsed and lowered to recursive-descent code.

pub mod args;
pub mod base;
pub mod config;
pub mod parser;
pub mod scanner;

pub use base::regex::ast::{CharClass, CharClassItem, RegexType, RepeatType};
pub use scanner::dfa::DFA;
pub use scanner::nfa::NFA;
