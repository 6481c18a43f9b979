//! The evaluator exercised through its public entry points, with the results
//! compared as `rust_decimal` values.

use std::str::FromStr;

use calcurus::{calculate, Dec, ParseErr};
use rust_decimal::Decimal;

fn to_decimal(d: &Dec) -> Decimal {
    Decimal::from_i128_with_scale(d.mantissa(), d.scale())
}

fn expect(input: &str, value: &str) {
    let result = calculate(input.to_string()).unwrap();
    assert_eq!(to_decimal(&result), Decimal::from_str(value).unwrap());
}

#[test]
fn add_two_digits() {
    expect("10+5", "15");
}

#[test]
fn add_three_digits() {
    expect("10+5+5", "20");
}

#[test]
fn multiply_two_digits() {
    expect("22*8", "176");
}

#[test]
fn multiply_three_digits() {
    expect("10*5*5", "250");
}

#[test]
fn divide_two_digits() {
    expect("100/2", "50");
}

#[test]
fn divide_three_digits() {
    expect("100/2/2", "25");
}

#[test]
fn exponentiation_two_digits() {
    expect("100^2", "10000");
}

#[test]
fn exponentiation_three_digits() {
    expect("100^2^2", "100000000");
}

#[test]
fn exponentiation_four_digits() {
    expect("2^2^2^2", "65536");
}

#[test]
fn multiple_digits_multiple_operators() {
    expect("45*2/3+1", "31");
}

#[test]
fn multiple_digits_multiple_operators_2() {
    expect("789*3/5+145-66^4", "-18974117.6");
}

#[test]
fn multiple_digits_multiple_operators_3() {
    expect("139/3*8-269+66^2+55", "4512.6666666666666666666666667");
}

#[test]
fn multiple_digits_multiple_operators_4() {
    expect("2^2^2-6", "10");
}

#[test]
fn floating_point_numbers() {
    expect("55.2+78.1234-64.431+5.6893", "74.5817");
}

#[test]
fn divide_by_zero() {
    let input = "2345/0".to_string();
    let result = calculate(input).unwrap_err();
    assert_eq!(result, ParseErr::DivisionByZero);
}

#[test]
fn divide_zero_by_zero() {
    let input = "0/0".to_string();
    let result = calculate(input).unwrap_err();
    assert_eq!(result, ParseErr::DivisionByZero);
}

#[test]
fn out_of_bounds() {
    let input = "2^2^2^2^2^2".to_string();
    let result = calculate(input).unwrap_err();
    assert_eq!(result, ParseErr::OutOfBounds);
}

#[test]
fn syntax_error() {
    let input = "3*3+r".to_string();
    let result = calculate(input).unwrap_err();
    assert_eq!(result, ParseErr::SyntaxErr);
}
