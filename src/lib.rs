//! A small stack-based language: a lexer that turns whitespace-separated words
//! into instructions, a resolver that back-patches the jump targets of the
//! control-flow words, and an engine that executes the result one step at a time.
pub mod token;
pub mod lexer;
pub mod resolver;
pub mod engine;
