//! A small expression language for computing values and pixel colours:
//! a lexer, a single-pass compiler to bytecode and a stack machine that runs
//! it, together with the argument parser and the helpers of the utilities
//! built around them.

pub mod args;
pub mod balance;
pub mod chars;
pub mod compile;
pub mod flow;
pub mod interpret;
pub mod laws;
pub mod library;
pub mod list;
pub mod rng;
pub mod token;
pub mod types;
