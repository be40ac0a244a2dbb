//! A minimal concatenative (stack-based) language: a position-tracking
//! scanner turns source text into located tokens, a stack-effect checker
//! proves every operation has enough operands before anything runs, and a
//! stack-machine interpreter executes the accepted token sequence.

pub mod checker;
pub mod interp;
pub mod lexer;
