pub mod grammar;
pub mod peg_parser;
pub mod generator;
