//! The expression tree: the typed form a line of input is parsed into,
//! and its mathematical shadow for contracts.

use vstd::prelude::*;
use crate::value::{Value, valid_value};

verus! {

/// An owned, immutable expression tree. Identifiers and assignment targets
/// are sequences of characters.
pub enum Expr {
    Number(Value),
    Identifier(Vec<char>),
    Add(Box<Expr>, Box<Expr>),
    Subtract(Box<Expr>, Box<Expr>),
    Multiply(Box<Expr>, Box<Expr>),
    Divide(Box<Expr>, Box<Expr>),
    Assign(Vec<char>, Box<Expr>),
}

/// The spec-level form of an expression: numbers are unbounded rational
/// pairs, names are `Seq<char>`.
pub ghost enum ExprV {
    Number { n: int, d: int },
    Identifier(Seq<char>),
    Add(Box<ExprV>, Box<ExprV>),
    Subtract(Box<ExprV>, Box<ExprV>),
    Multiply(Box<ExprV>, Box<ExprV>),
    Divide(Box<ExprV>, Box<ExprV>),
    Assign(Seq<char>, Box<ExprV>),
}

/// The spec-level value of an expression tree.
pub open spec fn view_expr(e: Expr) -> ExprV
    decreases e,
{
    match e {
        Expr::Number(v) => ExprV::Number { n: v.num as int, d: v.den as int },
        Expr::Identifier(name) => ExprV::Identifier(name@),
        Expr::Add(l, r) => ExprV::Add(Box::new(view_expr(*l)), Box::new(view_expr(*r))),
        Expr::Subtract(l, r) => ExprV::Subtract(Box::new(view_expr(*l)), Box::new(view_expr(*r))),
        Expr::Multiply(l, r) => ExprV::Multiply(Box::new(view_expr(*l)), Box::new(view_expr(*r))),
        Expr::Divide(l, r) => ExprV::Divide(Box::new(view_expr(*l)), Box::new(view_expr(*r))),
        Expr::Assign(name, inner) => ExprV::Assign(name@, Box::new(view_expr(*inner))),
    }
}

/// Well-formedness of an expression tree: every number it holds satisfies
/// the value invariant. Parsing only builds well-formed trees; evaluation
/// requires one.
pub open spec fn wf_expr(e: Expr) -> bool
    decreases e,
{
    match e {
        Expr::Number(v) => valid_value(v),
        Expr::Identifier(_) => true,
        Expr::Add(l, r) => wf_expr(*l) && wf_expr(*r),
        Expr::Subtract(l, r) => wf_expr(*l) && wf_expr(*r),
        Expr::Multiply(l, r) => wf_expr(*l) && wf_expr(*r),
        Expr::Divide(l, r) => wf_expr(*l) && wf_expr(*r),
        Expr::Assign(_, inner) => wf_expr(*inner),
    }
}

} // verus!
