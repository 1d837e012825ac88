//! An exact-rational expression calculator.
//!
//! The library evaluates arithmetic expressions over exact fractions:
//! integers, the four operators `+ - * /`, parentheses, and an optional
//! leading unary minus.  `eval_expression` is the entry point; the
//! `fraction` module holds the rational number type it computes with.

pub mod fraction;
pub mod parser;

pub use fraction::EvalError;
pub use fraction::Fraction;
pub use parser::eval_expression;
pub use parser::Token;
pub use parser::Tokenizer;
