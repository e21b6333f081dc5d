//! Lexical-analysis front end for a small interpreted language: raw source
//! text goes in, an ordered sequence of typed tokens (terminated by a single
//! end-of-input sentinel) and a batch of line-tagged diagnostics come out.

pub mod laws;
pub mod lexing;
pub mod scanner;
pub mod token;
