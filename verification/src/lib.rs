//! An infix arithmetic expression evaluator over exact decimal numbers.
//!
//! The evaluator converts a character string made of digits, a decimal point
//! and the operators `+ - × ÷ ^` (with optional unary sign) into a single
//! decimal result, using the shunting-yard algorithm: one left-to-right pass
//! reorders the tokens into postfix order by operator precedence and
//! associativity, and a second pass reduces the postfix sequence with a value
//! stack. Malformed input, division by zero and numeric overflow are reported
//! as distinct, recoverable error values.

mod decimal;
mod keys;
mod laws;
mod parser;

pub use decimal::Dec;
pub use keys::generate_key_layout;
pub use parser::{calculate, Operator, ParseErr, ParseResult, ShuntParser, Token};
