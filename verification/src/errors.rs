//! The error taxonomy. Every failure of parsing or evaluation is one of
//! these; each is terminal for the line that raised it.

use vstd::prelude::*;

verus! {

/// What a parse or an evaluation can fail with.
///
/// `ParseError` carries a human-readable message (a malformed token, or
/// mismatched parentheses). `VariableNotFound` carries the identifier that
/// was read before any assignment to it. `Overflow` reports a number that
/// left the representable range of the rational value type.
#[derive(Debug)]
pub enum CalculatorError {
    ParseError(Vec<char>),
    VariableNotFound(Vec<char>),
    DivisionByZero,
    MissingOperand,
    InvalidExpression,
    Overflow,
}

/// The mathematical shadow of `CalculatorError`: the same variants over
/// `Seq<char>`, for use in contracts.
pub ghost enum ErrV {
    ParseError(Seq<char>),
    VariableNotFound(Seq<char>),
    DivisionByZero,
    MissingOperand,
    InvalidExpression,
    Overflow,
}

impl View for CalculatorError {
    type V = ErrV;

    open spec fn view(&self) -> ErrV {
        match *self {
            CalculatorError::ParseError(m) => ErrV::ParseError(m@),
            CalculatorError::VariableNotFound(n) => ErrV::VariableNotFound(n@),
            CalculatorError::DivisionByZero => ErrV::DivisionByZero,
            CalculatorError::MissingOperand => ErrV::MissingOperand,
            CalculatorError::InvalidExpression => ErrV::InvalidExpression,
            CalculatorError::Overflow => ErrV::Overflow,
        }
    }
}

} // verus!
