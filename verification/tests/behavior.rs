//! Further behaviour of the evaluator: signs, precedence, the typographic
//! operator characters, the error taxonomy, and the session methods.

use std::str::FromStr;

use calcurus::{calculate, generate_key_layout, Dec, Operator, ParseErr, ShuntParser};
use rust_decimal::Decimal;

fn to_decimal(d: &Dec) -> Decimal {
    Decimal::from_i128_with_scale(d.mantissa(), d.scale())
}

fn expect(input: &str, value: &str) {
    let result = calculate(input.to_string()).unwrap();
    assert_eq!(to_decimal(&result), Decimal::from_str(value).unwrap());
}

#[test]
fn single_number() {
    expect("42", "42");
}

#[test]
fn single_decimal_number() {
    expect("3.25", "3.25");
}

#[test]
fn unary_minus_at_start() {
    expect("-5+10", "5");
}

#[test]
fn unary_plus_is_dropped() {
    expect("+5", "5");
}

#[test]
fn unary_minus_binds_like_subtraction_from_zero() {
    // `-5*3` is read as `0 - 5*3`.
    expect("-5*3", "-15");
}

#[test]
fn unary_minus_after_operator() {
    expect("5*-3", "-15");
}

#[test]
fn exponent_is_right_associative() {
    // Right association gives 2^(3^2) = 512; left association would give 64.
    expect("2^3^2", "512");
}

#[test]
fn exponent_of_zero() {
    expect("2^0", "1");
}

#[test]
fn exponent_binds_tighter_than_multiplication() {
    // 2*(3^2)+1, not (2*3)^2+1.
    expect("2*3^2+1", "19");
}

#[test]
fn unary_minus_before_exponent() {
    // `-2^2` is read as `0 - 2^2`.
    expect("-2^2", "-4");
}

#[test]
fn typographic_multiplication_sign() {
    expect("6\u{d7}7", "42");
}

#[test]
fn typographic_division_sign() {
    expect("10\u{f7}4", "2.5");
}

#[test]
fn exact_decimal_addition() {
    // Binary floating point would give 0.30000000000000004.
    expect("0.1+0.2", "0.3");
}

#[test]
fn precedence_mul_before_add() {
    expect("2+3*4", "14");
}

#[test]
fn precedence_div_before_sub() {
    expect("10-8/2", "6");
}

#[test]
fn empty_input_is_a_syntax_error() {
    let result = calculate(String::new()).unwrap_err();
    assert_eq!(result, ParseErr::SyntaxErr);
}

#[test]
fn trailing_operator_is_a_syntax_error() {
    let result = calculate("5+".to_string()).unwrap_err();
    assert_eq!(result, ParseErr::SyntaxErr);
}

#[test]
fn space_is_a_syntax_error() {
    let result = calculate("3 3".to_string()).unwrap_err();
    assert_eq!(result, ParseErr::SyntaxErr);
}

#[test]
fn parenthesis_is_a_syntax_error() {
    let result = calculate("(1+2)".to_string()).unwrap_err();
    assert_eq!(result, ParseErr::SyntaxErr);
}

#[test]
fn unparsable_number_is_an_invalid_symbol() {
    let result = calculate("1.2.3+1".to_string()).unwrap_err();
    assert_eq!(result, ParseErr::InvalidSymbol);
}

#[test]
fn square_root_key_is_not_accepted() {
    // The square-root operator is reserved: its character never tokenizes.
    let result = calculate("\u{221a}9".to_string()).unwrap_err();
    assert_eq!(result, ParseErr::SyntaxErr);
}

#[test]
fn factorial_char_is_not_accepted() {
    let result = calculate("5!".to_string()).unwrap_err();
    assert_eq!(result, ParseErr::SyntaxErr);
}

#[test]
fn operator_from_char() {
    assert_eq!(Operator::from_char(&'+'), Some(Operator::Add));
    assert_eq!(Operator::from_char(&'-'), Some(Operator::Sub));
    assert_eq!(Operator::from_char(&'*'), Some(Operator::Mul));
    assert_eq!(Operator::from_char(&'\u{d7}'), Some(Operator::Mul));
    assert_eq!(Operator::from_char(&'/'), Some(Operator::Div));
    assert_eq!(Operator::from_char(&'\u{f7}'), Some(Operator::Div));
    assert_eq!(Operator::from_char(&'^'), Some(Operator::Exp));
    assert_eq!(Operator::from_char(&'\u{221a}'), Some(Operator::Sqrt));
    assert_eq!(Operator::from_char(&'!'), Some(Operator::Not));
    assert_eq!(Operator::from_char(&'q'), None);
}

#[test]
fn error_messages() {
    assert_eq!(ParseErr::DivisionByZero.as_str(), "NaN");
    assert_eq!(ParseErr::OutOfBounds.as_str(), "Out of Bounds!");
    assert_eq!(ParseErr::SyntaxErr.as_str(), "Syntax Error!");
    assert_eq!(ParseErr::InvalidSymbol.as_str(), "Invalid Number!");
}

#[test]
fn reset_behaves_like_fresh() {
    let mut parser = ShuntParser::new();
    parser.set_input("3*3+r".to_string());
    let _ = parser.calculate_result();
    parser.reset();
    parser.set_input("2+3".to_string());
    let after_reset = parser.calculate_result().unwrap();
    let fresh = calculate("2+3".to_string()).unwrap();
    assert_eq!(to_decimal(&after_reset), to_decimal(&fresh));
    assert_eq!(to_decimal(&after_reset), Decimal::from_str("5").unwrap());
}

#[test]
fn failed_syntax_repeats_identically() {
    let mut parser = ShuntParser::new();
    parser.set_input("3*3+r".to_string());
    let first = parser.calculate_result().unwrap_err();
    let second = parser.calculate_result().unwrap_err();
    assert_eq!(first, second);
    assert_eq!(first, ParseErr::SyntaxErr);
}

#[test]
fn failed_division_repeats_identically() {
    let mut parser = ShuntParser::new();
    parser.set_input("2345/0".to_string());
    let first = parser.calculate_result().unwrap_err();
    let second = parser.calculate_result().unwrap_err();
    assert_eq!(first, second);
    assert_eq!(first, ParseErr::DivisionByZero);
}

#[test]
fn failed_exponentiation_repeats_identically() {
    let mut parser = ShuntParser::new();
    parser.set_input("2^2^2^2^2^2".to_string());
    let first = parser.calculate_result().unwrap_err();
    let second = parser.calculate_result().unwrap_err();
    assert_eq!(first, second);
    assert_eq!(first, ParseErr::OutOfBounds);
}

#[test]
fn set_input_replaces_the_expression() {
    let mut parser = ShuntParser::new();
    parser.set_input("1+1".to_string());
    parser.set_input("2*8".to_string());
    let result = parser.calculate_result().unwrap();
    assert_eq!(to_decimal(&result), Decimal::from_str("16").unwrap());
}

#[test]
fn decimal_representation_bounds() {
    assert!(Dec::new(15, 0).is_some());
    assert!(Dec::new(-15, 28).is_some());
    assert!(Dec::new(0, 29).is_none());
    assert!(Dec::new(i128::MAX, 0).is_none());
    let d = Dec::new(125, 2).unwrap();
    assert_eq!(d.mantissa(), 125);
    assert_eq!(d.scale(), 2);
    assert_eq!(to_decimal(&d), Decimal::from_str("1.25").unwrap());
}

#[test]
fn zero_decimal() {
    let z = Dec::zero();
    assert_eq!(z.mantissa(), 0);
    assert_eq!(z.scale(), 0);
    assert_eq!(to_decimal(&z), Decimal::ZERO);
}

#[test]
fn key_layout_has_twenty_keys() {
    let keys = generate_key_layout();
    assert_eq!(keys.len(), 20);
    assert_eq!(keys[0], "7");
    assert_eq!(keys[11], "\u{d7}");
    assert_eq!(keys[15], "\u{f7}");
    assert_eq!(keys[19], "=");
}
