//! A single-step evaluator for the untyped lambda calculus.
//!
//! Terms are immutable trees of variables, applications and abstractions.
//! The evaluator advances a term by one beta-reduction or one free-variable
//! expansion at a time, so a caller can observe the whole reduction sequence.

pub mod ast;
pub mod eval;
pub mod parser;
