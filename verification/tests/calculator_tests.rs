//! Behavioral tests: whole lines parsed and evaluated through the public
//! interface, with exact expected rationals and errors.

use calculator::{Calculator, CalculatorError, Value};
use calculator::value::value_eq;

/// Parses and evaluates one line.
fn eval_line(calc: &mut Calculator, line: &str) -> Result<Value, CalculatorError> {
    match calc.parse(line) {
        Ok(expr) => calc.evaluate(&expr),
        Err(e) => Err(e),
    }
}

/// Asserts that a line evaluates to exactly the rational `num / den`.
fn assert_value(calc: &mut Calculator, line: &str, num: i64, den: i64) {
    match eval_line(calc, line) {
        Ok(v) => {
            assert_eq!((v.num, v.den), (num, den), "line {:?}", line);
        }
        Err(e) => panic!("line {:?} failed: {:?}", line, e),
    }
}

fn chars(s: &str) -> Vec<char> {
    s.chars().collect()
}

#[test]
fn literal_integer_round_trips() {
    let mut calc = Calculator::new();
    assert_value(&mut calc, "5", 5, 1);
    assert_value(&mut calc, "0", 0, 1);
    assert_value(&mut calc, "+8", 8, 1);
    assert_value(&mut calc, "-2", -2, 1);
}

#[test]
fn literal_decimal_round_trips() {
    let mut calc = Calculator::new();
    assert_value(&mut calc, "3.25", 325, 100);
    assert_value(&mut calc, "0.5", 5, 10);
    assert_value(&mut calc, ".5", 5, 10);
    assert_value(&mut calc, "7.", 7, 1);
    assert_value(&mut calc, "-1.5", -15, 10);
}

#[test]
fn literal_out_of_range_is_rejected() {
    let mut calc = Calculator::new();
    // Twenty digits: past the value bound, so the token is refused.
    match eval_line(&mut calc, "99999999999999999999") {
        Err(CalculatorError::ParseError(msg)) => {
            assert_eq!(msg, chars("Invalid token: '99999999999999999999'"));
        }
        other => panic!("expected a parse error, got {:?}", other),
    }
}

#[test]
fn assignment_round_trip() {
    let mut calc = Calculator::new();
    assert_value(&mut calc, "x = 5", 5, 1);
    assert_value(&mut calc, "x", 5, 1);
}

#[test]
fn reassignment_overwrites() {
    let mut calc = Calculator::new();
    assert_value(&mut calc, "x = 1", 1, 1);
    assert_value(&mut calc, "x = 2", 2, 1);
    assert_value(&mut calc, "x", 2, 1);
}

#[test]
fn assignment_of_expression() {
    let mut calc = Calculator::new();
    assert_value(&mut calc, "x = 2 + 3", 5, 1);
    assert_value(&mut calc, "x * 2", 10, 1);
}

#[test]
fn multiplication_binds_tighter() {
    let mut calc = Calculator::new();
    assert_value(&mut calc, "2 + 3 * 4", 14, 1);
    assert_value(&mut calc, "2 * 3 + 4", 10, 1);
    assert_value(&mut calc, "10 - 8 / 2", 12, 2);
}

#[test]
fn additive_operators_group_left() {
    let mut calc = Calculator::new();
    assert_value(&mut calc, "10 - 2 - 3", 5, 1);
    assert_value(&mut calc, "1 + 2 + 3", 6, 1);
}

#[test]
fn division_is_exact() {
    let mut calc = Calculator::new();
    assert_value(&mut calc, "1 / 3", 1, 3);
    assert_value(&mut calc, "4 / 2", 4, 2);
    // 4/2 and 2/1 are the same rational.
    let v = eval_line(&mut calc, "4 / 2").unwrap();
    assert!(value_eq(&v, &Value::from_int(2)));
}

#[test]
fn division_chain_groups_left() {
    let mut calc = Calculator::new();
    // Split at the last `/`: (8 / 4) / 2 = 1.
    let v = eval_line(&mut calc, "8 / 4 / 2").unwrap();
    assert!(value_eq(&v, &Value::from_int(1)));
}

#[test]
fn spaced_parentheses_group() {
    let mut calc = Calculator::new();
    assert_value(&mut calc, "( 2 + 3 ) * 4", 20, 1);
    assert_value(&mut calc, "( 5 )", 5, 1);
    assert_value(&mut calc, "( ( 1 + 2 ) * 3 )", 9, 1);
    assert_value(&mut calc, "2 * ( 3 + 4 )", 14, 1);
}

#[test]
fn unspaced_parentheses_are_opaque() {
    let mut calc = Calculator::new();
    // Without internal spaces the parentheses glue onto the run, which
    // becomes a single token that is neither a number nor an identifier.
    match eval_line(&mut calc, "(2+3) * 4") {
        Err(CalculatorError::ParseError(msg)) => {
            assert_eq!(msg, chars("Invalid token: '(2+3)'"));
        }
        other => panic!("expected a parse error, got {:?}", other),
    }
}

#[test]
fn exponent_literals() {
    let mut calc = Calculator::new();
    assert_value(&mut calc, "1e3", 1000, 1);
    assert_value(&mut calc, "1E2", 100, 1);
    assert_value(&mut calc, "2.5e-2", 25, 1000);
    assert_value(&mut calc, ".5e1", 5, 1);
    assert_value(&mut calc, "5e0", 5, 1);
    assert_value(&mut calc, "-2e+1", -20, 1);
    // Zero stays exactly zero under any exponent.
    assert_value(&mut calc, "0e99999999999999999999999", 0, 1);
}

#[test]
fn exponent_out_of_range_or_malformed() {
    let mut calc = Calculator::new();
    match eval_line(&mut calc, "1e20") {
        Err(CalculatorError::ParseError(msg)) => {
            assert_eq!(msg, chars("Invalid token: '1e20'"));
        }
        other => panic!("expected a parse error, got {:?}", other),
    }
    match eval_line(&mut calc, "1e") {
        Err(CalculatorError::ParseError(msg)) => {
            assert_eq!(msg, chars("Invalid token: '1e'"));
        }
        other => panic!("expected a parse error, got {:?}", other),
    }
}

#[test]
fn unicode_whitespace_is_trimmed() {
    let mut calc = Calculator::new();
    assert_value(&mut calc, "\u{a0}5\u{a0}", 5, 1);
    assert_value(&mut calc, "\u{2009} 7 \u{3000}", 7, 1);
}

#[test]
fn unicode_identifiers() {
    let mut calc = Calculator::new();
    assert_value(&mut calc, "caf\u{e9} = 2", 2, 1);
    assert_value(&mut calc, "caf\u{e9}", 2, 1);
}

#[test]
fn inf_is_an_identifier_not_a_number() {
    let mut calc = Calculator::new();
    match eval_line(&mut calc, "inf") {
        Err(CalculatorError::VariableNotFound(name)) => {
            assert_eq!(name, chars("inf"));
        }
        other => panic!("expected VariableNotFound, got {:?}", other),
    }
}

#[test]
fn division_by_zero() {
    let mut calc = Calculator::new();
    match eval_line(&mut calc, "4 / 0") {
        Err(CalculatorError::DivisionByZero) => {}
        other => panic!("expected DivisionByZero, got {:?}", other),
    }
    // The right operand is evaluated first, so even an unknown left
    // operand reports the division by zero.
    match eval_line(&mut calc, "y / 0") {
        Err(CalculatorError::DivisionByZero) => {}
        other => panic!("expected DivisionByZero, got {:?}", other),
    }
    // A fractional zero is still exactly zero.
    match eval_line(&mut calc, "5 / 0.0") {
        Err(CalculatorError::DivisionByZero) => {}
        other => panic!("expected DivisionByZero, got {:?}", other),
    }
    assert_value(&mut calc, "0 / 5", 0, 5);
}

#[test]
fn unknown_identifier() {
    let mut calc = Calculator::new();
    match eval_line(&mut calc, "y") {
        Err(CalculatorError::VariableNotFound(name)) => {
            assert_eq!(name, chars("y"));
        }
        other => panic!("expected VariableNotFound, got {:?}", other),
    }
    match eval_line(&mut calc, "z + 1") {
        Err(CalculatorError::VariableNotFound(name)) => {
            assert_eq!(name, chars("z"));
        }
        other => panic!("expected VariableNotFound, got {:?}", other),
    }
}

#[test]
fn mismatched_parentheses() {
    let mut calc = Calculator::new();
    for line in ["( 1 + 2", "1 + 2 )"] {
        match eval_line(&mut calc, line) {
            Err(CalculatorError::ParseError(msg)) => {
                assert_eq!(msg, chars("Mismatched parentheses"), "line {:?}", line);
            }
            other => panic!("line {:?}: expected a parse error, got {:?}", line, other),
        }
    }
}

#[test]
fn empty_input_is_invalid() {
    let mut calc = Calculator::new();
    for line in ["", "   ", " \t "] {
        match eval_line(&mut calc, line) {
            Err(CalculatorError::InvalidExpression) => {}
            other => panic!("line {:?}: expected InvalidExpression, got {:?}", line, other),
        }
    }
}

#[test]
fn missing_operands() {
    let mut calc = Calculator::new();
    match eval_line(&mut calc, "x =") {
        Err(CalculatorError::MissingOperand) => {}
        other => panic!("expected MissingOperand, got {:?}", other),
    }
    match eval_line(&mut calc, "1 +") {
        Err(CalculatorError::MissingOperand) => {}
        other => panic!("expected MissingOperand, got {:?}", other),
    }
    match eval_line(&mut calc, "+ 1") {
        Err(CalculatorError::MissingOperand) => {}
        other => panic!("expected MissingOperand, got {:?}", other),
    }
}

#[test]
fn assignment_without_target_is_invalid() {
    let mut calc = Calculator::new();
    match eval_line(&mut calc, "= 5") {
        Err(CalculatorError::InvalidExpression) => {}
        other => panic!("expected InvalidExpression, got {:?}", other),
    }
}

#[test]
fn second_equals_fails_downstream() {
    let mut calc = Calculator::new();
    // Only the first `=` splits; the rest of the line fails to build.
    match eval_line(&mut calc, "x = y = 5") {
        Err(CalculatorError::InvalidExpression) => {}
        other => panic!("expected InvalidExpression, got {:?}", other),
    }
}

#[test]
fn adjacent_atoms_are_invalid() {
    let mut calc = Calculator::new();
    match eval_line(&mut calc, "1 2") {
        Err(CalculatorError::InvalidExpression) => {}
        other => panic!("expected InvalidExpression, got {:?}", other),
    }
}

#[test]
fn malformed_tokens_are_reported() {
    let mut calc = Calculator::new();
    match eval_line(&mut calc, "1..2") {
        Err(CalculatorError::ParseError(msg)) => {
            assert_eq!(msg, chars("Invalid token: '1..2'"));
        }
        other => panic!("expected a parse error, got {:?}", other),
    }
    match eval_line(&mut calc, "a1") {
        Err(CalculatorError::ParseError(msg)) => {
            assert_eq!(msg, chars("Invalid token: 'a1'"));
        }
        other => panic!("expected a parse error, got {:?}", other),
    }
}

#[test]
fn arithmetic_overflow_is_reported() {
    let mut calc = Calculator::new();
    match eval_line(&mut calc, "500000000000000000 * 500000000000000000") {
        Err(CalculatorError::Overflow) => {}
        other => panic!("expected Overflow, got {:?}", other),
    }
}

#[test]
fn failed_assignment_mutates_nothing() {
    let mut calc = Calculator::new();
    match eval_line(&mut calc, "q = 4 / 0") {
        Err(CalculatorError::DivisionByZero) => {}
        other => panic!("expected DivisionByZero, got {:?}", other),
    }
    match eval_line(&mut calc, "q") {
        Err(CalculatorError::VariableNotFound(name)) => {
            assert_eq!(name, chars("q"));
        }
        other => panic!("expected VariableNotFound, got {:?}", other),
    }
}

#[test]
fn fractions_add_exactly() {
    let mut calc = Calculator::new();
    let v = eval_line(&mut calc, "0.5 + 0.5").unwrap();
    assert!(value_eq(&v, &Value::from_int(1)));
    let v = eval_line(&mut calc, "0.1 + 0.2").unwrap();
    // Exactly three tenths: num/den == 3/10.
    assert_eq!(v.num * 10, 3 * v.den);
}

#[test]
fn third_times_three_is_one() {
    let mut calc = Calculator::new();
    assert_value(&mut calc, "x = 1 / 3", 1, 3);
    let v = eval_line(&mut calc, "x * 3").unwrap();
    assert!(value_eq(&v, &Value::from_int(1)));
}

#[test]
fn identifiers_are_alphabetic_words() {
    let mut calc = Calculator::new();
    assert_value(&mut calc, "total = 7", 7, 1);
    assert_value(&mut calc, "total", 7, 1);
    assert_value(&mut calc, "Total = 9", 9, 1);
    assert_value(&mut calc, "Total", 9, 1);
}
