//! Arithmetic on text: an expression in infix notation, with parentheses and
//! the operators `+ - * / %`, is checked for balanced parentheses, converted
//! to postfix notation and reduced to a single expression tree, which a
//! caller folds into a number.

pub mod arguments;
pub mod balance;
pub mod error;
pub mod evaluate;
pub mod expr;
pub mod grammar;
pub mod infix;
pub mod keeping;
pub mod operator;
pub mod postfix;
pub mod spacing;
pub mod symbol;
pub mod text;
pub mod token;

pub use arguments::flatten;
pub use balance::is_correctly_wrapped;
pub use error::EvaluationError;
pub use evaluate::{evaluate, is_vacant};
pub use expr::{Expr, Node, Reduction};
pub use infix::Infix;
pub use operator::{evalpriority, Operator};
pub use postfix::Postfix;
pub use symbol::{is_digit, is_whitespace};
pub use token::{is_number, Token};
