//! A small Lisp dialect with first-class continuations.
//!
//! The evaluation engine is a defunctionalized, stepwise evaluator paired
//! with an arena-backed mark-and-sweep garbage collector.  Evaluation
//! progresses as an explicit stack of pending steps, so the current
//! continuation can be reified as an ordinary value, stored, and re-invoked,
//! and object lifetime is decoupled from the host execution stack.

pub mod interpreter;
pub mod lex;
pub mod parse;
pub mod strutil;
