//! What conversion keeps: the digits in their order, and every operator.

use vstd::prelude::*;
use crate::balance::balanced;
use crate::infix::{lemma_nothing_left_waiting, postfix_tokens, Conversion};
use crate::operator::{
    lemma_operator_symbols, lemma_symbol_of_operator, operator_symbol, priority, Operator,
};
use crate::symbol::digit;
use crate::token::SpecToken;

verus! {

/// The digits of `s`, in order.
pub open spec fn digits_of(s: Seq<char>) -> Seq<char>
    decreases s.len(),
{
    if s.len() == 0 {
        s
    } else if digit(s.last()) {
        digits_of(s.drop_last()).push(s.last())
    } else {
        digits_of(s.drop_last())
    }
}

/// How often `c` stands in `s`.
pub open spec fn count(s: Seq<char>, c: char) -> nat
    decreases s.len(),
{
    if s.len() == 0 {
        0
    } else if s.last() == c {
        count(s.drop_last(), c) + 1
    } else {
        count(s.drop_last(), c)
    }
}

/// The digits of the numbers among `tokens`, in order.
pub open spec fn digits_in(tokens: Seq<SpecToken>) -> Seq<char>
    decreases tokens.len(),
{
    if tokens.len() == 0 {
        Seq::empty()
    } else {
        match tokens.last() {
            SpecToken::Number(digits) => digits_in(tokens.drop_last()) + digits,
            SpecToken::Operator(_) => digits_in(tokens.drop_last()),
        }
    }
}

/// How often `operator` stands among `tokens`.
pub open spec fn count_in(tokens: Seq<SpecToken>, operator: Operator) -> nat
    decreases tokens.len(),
{
    if tokens.len() == 0 {
        0
    } else if tokens.last() == SpecToken::Operator(operator) {
        count_in(tokens.drop_last(), operator) + 1
    } else {
        count_in(tokens.drop_last(), operator)
    }
}

impl Conversion {
    /// Of the text `s` the conversion has all the digits in its numbers, and
    /// every `operator` either in its output or waiting.
    pub open spec fn keeps(self, s: Seq<char>, operator: Operator) -> bool {
        &&& self.orderly()
        &&& digits_in(self.emitted()) == digits_of(s)
        &&& count_in(self.emitted(), operator) + count(self.pending, operator.symbol()) == count(
            s,
            operator.symbol(),
        )
    }

    /// A number that is being read adds its digits and no operator to what
    /// the output holds.
    proof fn lemma_emitted(self, operator: Operator)
        ensures
            digits_in(self.emitted()) == digits_in(self.output) + self.literal,
            count_in(self.emitted(), operator) == count_in(self.output, operator),
    {
        if self.literal.len() > 0 {
            assert(self.emitted().drop_last() == self.output);
        } else {
            assert(digits_in(self.output) + self.literal == digits_in(self.output));
        }
    }

    /// `drain` loses nothing.
    proof fn lemma_drain_keeps(self, level: int, s: Seq<char>, operator: Operator)
        requires
            self.keeps(s, operator),
            level >= 1,
        ensures
            self.drain(level).keeps(s, operator),
        decreases self.pending.len(),
    {
        if self.pending.len() > 0 && priority(self.pending.last()) >= level {
            let top = self.pending.last();
            let next = self.pop();
            lemma_operator_symbols(top);
            lemma_symbol_of_operator(operator);
            assert(next.emitted() == next.output);
            assert(next.output.drop_last() == self.emitted());
            assert forall|i: int| 0 <= i < next.pending.len() implies #[trigger] next.pending[i]
                == '(' || operator_symbol(next.pending[i]) by {
                assert(next.pending[i] == self.pending[i]);
            }
            next.lemma_drain_keeps(level, s, operator);
        }
    }

    /// One step loses nothing.
    proof fn lemma_step_keeps(self, c: char, s: Seq<char>, operator: Operator)
        requires
            self.keeps(s, operator),
        ensures
            self.step(c).keeps(s.push(c), operator),
    {
        let next = self.step(c);
        let longer = s.push(c);
        assert(longer.drop_last() == s);
        assert(longer.last() == c);
        lemma_symbol_of_operator(operator);
        self.lemma_emitted(operator);
        next.lemma_emitted(operator);
        if c == '(' {
            assert(next.pending.drop_last() == self.pending);
        } else if c == ')' {
            let drained = self.drain(1);
            self.lemma_drain_keeps(1, s, operator);
            self.lemma_drain_stops_at_open(1);
            if drained.pending.len() > 0 {
                assert forall|i: int| 0 <= i < next.pending.len() implies #[trigger] next.pending[i]
                    == '(' || operator_symbol(next.pending[i]) by {
                    assert(next.pending[i] == drained.pending[i]);
                }
            }
        } else if digit(c) {
            assert(digits_in(self.output) + self.literal.push(c) == (digits_in(self.output)
                + self.literal).push(c));
        } else if operator_symbol(c) {
            let drained = self.drain(priority(c));
            self.lemma_drain_keeps(priority(c), s, operator);
            drained.lemma_emitted(operator);
            assert(next.pending.drop_last() == drained.pending);
            assert(digits_in(next.output) + next.literal == digits_in(next.output));
        }
    }

    /// A conversion loses nothing of what it has read.
    pub proof fn lemma_scan_keeps(s: Seq<char>, operator: Operator)
        ensures
            Conversion::scan(s).keeps(s, operator),
        decreases s.len(),
    {
        if s.len() > 0 {
            Conversion::lemma_scan_keeps(s.drop_last(), operator);
            Conversion::scan(s.drop_last()).lemma_step_keeps(s.last(), s.drop_last(), operator);
            assert(s.drop_last().push(s.last()) == s);
        } else {
            assert(digits_of(s) == Seq::<char>::empty());
        }
    }
}

/// Conversion rearranges and loses nothing: the numbers of the postfix
/// sequence of a balanced expression hold the digits of the expression, in
/// their order, and the sequence holds each operator as often as the
/// expression does.
pub proof fn lemma_conversion_keeps(s: Seq<char>, operator: Operator)
    requires
        balanced(s),
    ensures
        digits_in(postfix_tokens(s)) == digits_of(s),
        count_in(postfix_tokens(s), operator) == count(s, operator.symbol()),
{
    Conversion::lemma_scan_keeps(s, operator);
    Conversion::scan(s).lemma_drain_keeps(1, s, operator);
    lemma_nothing_left_waiting(s);
}

} // verus!
