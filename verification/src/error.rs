//! What can go wrong between the text of an expression and its value.

use vstd::prelude::*;

verus! {

#[derive(Debug, PartialEq, Eq)]
pub enum EvaluationError {
    /// Some `)` has no `(` before it to match, or some `(` is never closed.
    UnbalancedParentheses,
    /// The expression holds nothing but parentheses and whitespace.
    EmptyExpression,
    /// The expression holds a character that is neither whitespace, nor a
    /// digit, nor an operator, nor a parenthesis; with the character comes
    /// its position, counted in characters from 0.
    UnknownSymbol(char, usize),
    /// A part of a postfix sequence is neither a number nor an operator.
    UnknownToken(String),
}

} // verus!
