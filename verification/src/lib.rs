//! A combinator-graph runtime for an untyped lambda calculus.
//!
//! Source terms are compiled into a fixed set of combinators, reduced by a
//! stack machine with eager-evaluation markers, and stored in bump pages that
//! a copying collector compacts.  Every function comes with a contract over a
//! mathematical model: the tree that a term handle denotes.

pub mod symbol;
pub mod term;
pub mod heap;
pub mod compile;
pub mod eval;
pub mod task;
pub mod parser;
pub mod repl;
