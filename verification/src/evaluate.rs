//! From the text of an expression to its value.

use vstd::prelude::*;
use crate::balance::{balanced, is_correctly_wrapped};
use crate::error::EvaluationError;
use crate::expr::{outcome, Expr};
use crate::infix::{
    all_recognized, first_unknown, lemma_postfix_tokens_well_formed, postfix_tokens, Infix,
};
use crate::postfix::lemma_render_reads_back;
use crate::symbol::{blank, is_whitespace, parenthesis};

verus! {

/// `s` holds nothing but parentheses and whitespace.
pub open spec fn vacant(s: Seq<char>) -> bool {
    forall|i: int| 0 <= i < s.len() ==> blank(#[trigger] s[i]) || parenthesis(s[i])
}

/// Whether `expression` holds nothing but parentheses and whitespace.
pub fn is_vacant(expression: &str) -> (r: bool)
    ensures
        r == vacant(expression@),
{
    for c in it: expression.chars()
        invariant
            it.seq() == expression@,
            forall|i: int|
                0 <= i < it.index() ==> blank(#[trigger] expression@[i]) || parenthesis(
                    expression@[i],
                ),
    {
        if !(is_whitespace(c) || c == '(' || c == ')') {
            return false;
        }
    }
    true
}

/// The value of an infix expression, as an expression tree.
///
/// The expression is refused where its parentheses are not balanced, where
/// it holds nothing but parentheses and whitespace, and where it holds a
/// character that may not stand in an expression, in this order. Otherwise
/// it is converted to postfix notation, and the value is what its postfix
/// sequence comes to.
pub fn evaluate(expression: &String) -> (r: Result<Expr, EvaluationError>)
    ensures
        match r {
            Ok(tree) => {
                &&& tree.well_formed()
                &&& balanced(expression@)
                &&& !vacant(expression@)
                &&& all_recognized(expression@)
                &&& tree@ == outcome(postfix_tokens(expression@))
            },
            Err(EvaluationError::UnbalancedParentheses) => !balanced(expression@),
            Err(EvaluationError::EmptyExpression) => balanced(expression@) && vacant(
                expression@,
            ),
            Err(EvaluationError::UnknownSymbol(c, at)) => {
                &&& balanced(expression@)
                &&& !vacant(expression@)
                &&& first_unknown(expression@, at as int)
                &&& c == expression@[at as int]
            },
            Err(EvaluationError::UnknownToken(_)) => false,
        },
{
    if !is_correctly_wrapped(expression) {
        return Err(EvaluationError::UnbalancedParentheses);
    }
    if is_vacant(expression.as_str()) {
        return Err(EvaluationError::EmptyExpression);
    }
    let infix = Infix::new(expression);
    let postfix = match infix.to_postfix() {
        Ok(postfix) => postfix,
        Err(error) => {
            return Err(error);
        },
    };
    proof {
        lemma_postfix_tokens_well_formed(expression@);
        lemma_render_reads_back(postfix_tokens(expression@));
    }
    postfix.value()
}

} // verus!
