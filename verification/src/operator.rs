//! The five binary operators and their priorities.

use vstd::prelude::*;

verus! {

/// A binary operator: `+`, `-`, `*`, `/` or `%`.
#[derive(Clone, Copy, Debug, PartialEq, Eq, Structural)]
pub enum Operator {
    Add,
    Sub,
    Mul,
    Div,
    Rem,
}

impl Operator {
    /// The character that stands for the operator in an expression.
    pub open spec fn symbol(self) -> char {
        match self {
            Operator::Add => '+',
            Operator::Sub => '-',
            Operator::Mul => '*',
            Operator::Div => '/',
            Operator::Rem => '%',
        }
    }

    /// The operator that a character stands for, if it stands for one.
    pub open spec fn of(c: char) -> Option<Operator> {
        if c == '+' {
            Some(Operator::Add)
        } else if c == '-' {
            Some(Operator::Sub)
        } else if c == '*' {
            Some(Operator::Mul)
        } else if c == '/' {
            Some(Operator::Div)
        } else if c == '%' {
            Some(Operator::Rem)
        } else {
            None
        }
    }

    /// Addition and subtraction are additive; the other three are
    /// multiplicative.
    pub open spec fn additive(self) -> bool {
        self == Operator::Add || self == Operator::Sub
    }

    /// The character that stands for the operator.
    pub fn to_symbol(self) -> (c: char)
        ensures
            c == self.symbol(),
    {
        match self {
            Operator::Add => '+',
            Operator::Sub => '-',
            Operator::Mul => '*',
            Operator::Div => '/',
            Operator::Rem => '%',
        }
    }

    /// The operator that `c` stands for, if it stands for one.
    pub fn from_symbol(c: char) -> (r: Option<Operator>)
        ensures
            r == Operator::of(c),
    {
        if c == '+' {
            Some(Operator::Add)
        } else if c == '-' {
            Some(Operator::Sub)
        } else if c == '*' {
            Some(Operator::Mul)
        } else if c == '/' {
            Some(Operator::Div)
        } else if c == '%' {
            Some(Operator::Rem)
        } else {
            None
        }
    }

    /// Whether the operator is `+` or `-`.
    pub fn is_additive(self) -> (r: bool)
        ensures
            r == self.additive(),
    {
        match self {
            Operator::Add | Operator::Sub => true,
            _ => false,
        }
    }
}

/// How tightly a character binds as an operator: 2 for `* / %`, 1 for `+ -`,
/// and 0 for every character that is no operator.
pub open spec fn priority(c: char) -> int {
    if c == '*' || c == '/' || c == '%' {
        2
    } else if c == '+' || c == '-' {
        1
    } else {
        0
    }
}

/// One of the characters `+ - * / %`.
pub open spec fn operator_symbol(c: char) -> bool {
    priority(c) > 0
}

/// The priority of a character as an operator.
pub fn evalpriority(operator: char) -> (r: i8)
    ensures
        r == priority(operator),
{
    match operator {
        '*' | '/' | '%' => 2,
        '+' | '-' => 1,
        _ => 0,
    }
}

/// A character is an operator symbol exactly when it stands for an operator,
/// and that operator's symbol is the character.
pub proof fn lemma_operator_symbols(c: char)
    ensures
        operator_symbol(c) <==> Operator::of(c) is Some,
        Operator::of(c) matches Some(op) ==> op.symbol() == c,
{
}

/// Each operator is the one that its symbol stands for.
pub proof fn lemma_symbol_of_operator(op: Operator)
    ensures
        Operator::of(op.symbol()) == Some(op),
        operator_symbol(op.symbol()),
{
}

} // verus!
