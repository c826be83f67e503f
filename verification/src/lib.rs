//! A small regular-expression engine: a pattern is lexed, parsed into a syntax
//! tree, turned into a nondeterministic automaton, made deterministic, optionally
//! minimized, and then run against whole inputs.

pub mod ast;
pub mod bits;
pub mod compiler;
pub mod counting;
pub mod dfa;
pub mod error;
pub mod lexer;
pub mod minimize;
pub mod nfa;
pub mod parser;
pub mod partition;
pub mod render;
pub mod simulate;
pub mod splice;
pub mod subset;
pub mod thompson;
pub mod walk;
