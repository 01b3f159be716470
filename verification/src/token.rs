//! The tokens of a postfix sequence: numbers and operators.

use vstd::prelude::*;
use vstd::string::StrSliceExecFns;
use crate::error::EvaluationError;
use crate::operator::Operator;
use crate::symbol::{digit, is_digit};

verus! {

/// Every character of `s` is a decimal digit.
pub open spec fn all_digits(s: Seq<char>) -> bool {
    forall|i: int| 0 <= i < s.len() ==> digit(#[trigger] s[i])
}

/// One or more decimal digits, and nothing else.
pub open spec fn numeral(s: Seq<char>) -> bool {
    s.len() > 0 && all_digits(s)
}

/// A token as contracts see it: a number by its digits, or an operator.
pub enum SpecToken {
    Number(Seq<char>),
    Operator(Operator),
}

impl SpecToken {
    /// The text that stands for the token in a postfix sequence.
    pub open spec fn text(self) -> Seq<char> {
        match self {
            SpecToken::Number(digits) => digits,
            SpecToken::Operator(operator) => seq![operator.symbol()],
        }
    }

    /// A number token holds a numeral.
    pub open spec fn well_formed(self) -> bool {
        self matches SpecToken::Number(digits) ==> numeral(digits)
    }

    /// The token that a part of a postfix sequence stands for, if it stands
    /// for one: a numeral is a number, a single operator symbol is that
    /// operator, and nothing else is a token.
    pub open spec fn read(part: Seq<char>) -> Option<SpecToken> {
        if numeral(part) {
            Some(SpecToken::Number(part))
        } else if part.len() == 1 && Operator::of(part[0]) is Some {
            Some(SpecToken::Operator(Operator::of(part[0]).unwrap()))
        } else {
            None
        }
    }
}

/// A token of a postfix sequence: a number by its digits, or an operator.
#[derive(Debug, PartialEq, Eq)]
pub enum Token {
    Number(String),
    Operator(Operator),
}

impl View for Token {
    type V = SpecToken;

    open spec fn view(&self) -> SpecToken {
        match self {
            Token::Number(digits) => SpecToken::Number(digits@),
            Token::Operator(operator) => SpecToken::Operator(*operator),
        }
    }
}

/// Whether `s` holds nothing but decimal digits. The empty text holds
/// nothing else.
pub fn is_number(s: &str) -> (r: bool)
    ensures
        r == all_digits(s@),
{
    for val in it: s.chars()
        invariant
            it.seq() == s@,
            forall|i: int| 0 <= i < it.index() ==> digit(#[trigger] s@[i]),
    {
        if !is_digit(val) {
            return false;
        }
    }
    true
}

impl Token {
    /// Reads one part of a postfix sequence: the token that it stands for,
    /// or the part itself as an unknown token.
    pub fn parse(part: String) -> (r: Result<Token, EvaluationError>)
        ensures
            match r {
                Ok(token) => SpecToken::read(part@) == Some(token@),
                Err(error) => {
                    &&& SpecToken::read(part@) is None
                    &&& error matches EvaluationError::UnknownToken(unknown)
                    &&& unknown@ == part@
                },
            },
    {
        if !part.as_str().is_empty() && is_number(part.as_str()) {
            return Ok(Token::Number(part));
        }
        if part.as_str().unicode_len() == 1 {
            match Operator::from_symbol(part.as_str().get_char(0)) {
                Some(operator) => {
                    return Ok(Token::Operator(operator));
                },
                None => {},
            }
        }
        Err(EvaluationError::UnknownToken(part))
    }
}

/// No character of `s` is a space.
pub open spec fn space_free(s: Seq<char>) -> bool {
    forall|i: int| 0 <= i < s.len() ==> #[trigger] s[i] != ' '
}

/// The text of a well-formed token is not empty, holds no space, and reads
/// back as that token.
pub proof fn lemma_read_text(token: SpecToken)
    requires
        token.well_formed(),
    ensures
        token.text().len() > 0,
        space_free(token.text()),
        SpecToken::read(token.text()) == Some(token),
{
    match token {
        SpecToken::Number(digits) => {},
        SpecToken::Operator(operator) => {
            assert(!digit(operator.symbol()));
            assert(token.text()[0] == operator.symbol());
        },
    }
}

} // verus!
