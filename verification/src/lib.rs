//! An interactive arithmetic expression evaluator: numeric literals, named
//! variables, assignment, and the four binary operators. Values are exact
//! rationals over bounded integers. A line of text is tokenized by a
//! scanner that glues parentheses onto adjacent unspaced runs, built into
//! an expression tree by a two-pass operator split over the tokens at
//! parenthesis depth zero — additive operators first, so multiplication
//! binds tighter and chains group left — and evaluated against a mutable
//! variable store. Every step is specified by a spec function and the
//! executable code is proved to follow it exactly.

pub mod atom;
pub mod errors;
pub mod eval;
pub mod expr;
pub mod laws;
pub mod parse;
pub mod token;
pub mod value;

pub use crate::errors::CalculatorError;
pub use crate::eval::Calculator;
pub use crate::expr::Expr;
pub use crate::value::Value;
