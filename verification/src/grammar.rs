//! Well-formed expressions, and what conversion and reduction make of them.

use vstd::prelude::*;
use crate::balance::{
    balanced, lemma_balanced_concat, lemma_balanced_in_parentheses,
    lemma_balanced_without_parentheses,
};
use crate::evaluate::vacant;
use crate::expr::{below, operand, outcome, reduce, SpecExpr};
use crate::infix::{all_recognized, postfix_tokens, recognized, Conversion};
use crate::spacing::{
    lemma_whitespace_changes_nothing, lemma_without_blanks_balanced,
    lemma_without_blanks_symbols, without_blanks,
};
use crate::operator::{lemma_symbol_of_operator, priority, Operator};
use crate::symbol::digit;
use crate::token::{all_digits, numeral, SpecToken};

verus! {

/// An expression as it is written: numbers, operators between their
/// operands, and parentheses around whole expressions.
pub enum Syntax {
    /// A number by its decimal digits.
    Number(Seq<char>),
    /// An expression in parentheses.
    Group(Box<Syntax>),
    /// An operator between its left and its right operand.
    Binary(Operator, Box<Syntax>, Box<Syntax>),
}

impl Syntax {
    /// How tightly the expression holds together: as its operator where it
    /// is an operator with operands, and more tightly than any operator
    /// where it is a number or stands in parentheses.
    pub open spec fn level(self) -> int {
        match self {
            Syntax::Binary(operator, _, _) => priority(operator.symbol()),
            _ => 3,
        }
    }

    /// The expression needs no more parentheses than it has: each number is
    /// a numeral, the left operand of an operator holds together at least as
    /// tightly as the operator, and the right operand more tightly.
    pub open spec fn well_formed(self) -> bool
        decreases self,
    {
        match self {
            Syntax::Number(digits) => numeral(digits),
            Syntax::Group(inner) => inner.well_formed(),
            Syntax::Binary(operator, left, right) => {
                &&& left.well_formed()
                &&& right.well_formed()
                &&& left.level() >= priority(operator.symbol())
                &&& right.level() > priority(operator.symbol())
            },
        }
    }

    /// The expression as text, without whitespace.
    pub open spec fn text(self) -> Seq<char>
        decreases self,
    {
        match self {
            Syntax::Number(digits) => digits,
            Syntax::Group(inner) => seq!['('] + inner.text() + seq![')'],
            Syntax::Binary(operator, left, right) => left.text() + seq![operator.symbol()]
                + right.text(),
        }
    }

    /// The tree of the expression: the operators with their operands. The
    /// parentheses have done their work and are gone.
    pub open spec fn tree(self) -> SpecExpr
        decreases self,
    {
        match self {
            Syntax::Number(digits) => SpecExpr::Number(digits),
            Syntax::Group(inner) => inner.tree(),
            Syntax::Binary(operator, left, right) => SpecExpr::Apply(
                operator,
                Box::new(left.tree()),
                Box::new(right.tree()),
            ),
        }
    }
}

impl SpecExpr {
    /// The tokens of the tree in postfix order: the left operand, the right
    /// operand, the operator.
    pub open spec fn postorder(self) -> Seq<SpecToken>
        decreases self,
    {
        match self {
            SpecExpr::Zero => Seq::empty(),
            SpecExpr::One => Seq::empty(),
            SpecExpr::Number(digits) => seq![SpecToken::Number(digits)],
            SpecExpr::Apply(operator, left, right) => left.postorder() + right.postorder()
                + seq![SpecToken::Operator(operator)],
        }
    }

    /// The tree holds numbers and operators only.
    pub open spec fn plain(self) -> bool
        decreases self,
    {
        match self {
            SpecExpr::Zero => false,
            SpecExpr::One => false,
            SpecExpr::Number(_) => true,
            SpecExpr::Apply(_, left, right) => left.plain() && right.plain(),
        }
    }
}

/// The tree of an expression holds numbers and operators only.
pub proof fn lemma_tree_plain(x: Syntax)
    ensures
        x.tree().plain(),
    decreases x,
{
    match x {
        Syntax::Number(_) => {},
        Syntax::Group(inner) => {
            lemma_tree_plain(*inner);
        },
        Syntax::Binary(_, left, right) => {
            lemma_tree_plain(*left);
            lemma_tree_plain(*right);
        },
    }
}

/// The tokens of a tree in postfix order, behind any tokens, put the tree on
/// top of what those tokens leave on the stack.
pub proof fn lemma_reduce_postorder(tokens: Seq<SpecToken>, tree: SpecExpr)
    requires
        tree.plain(),
    ensures
        reduce(tokens + tree.postorder()) == reduce(tokens).push(tree),
    decreases tree,
{
    match tree {
        SpecExpr::Number(digits) => {
            let all = tokens + tree.postorder();
            assert(all.drop_last() == tokens);
            assert(all.last() == SpecToken::Number(digits));
        },
        SpecExpr::Apply(operator, left, right) => {
            let all = tokens + tree.postorder();
            lemma_reduce_postorder(tokens, *left);
            lemma_reduce_postorder(tokens + left.postorder(), *right);
            assert(all.drop_last() == tokens + left.postorder() + right.postorder());
            assert(all.last() == SpecToken::Operator(operator));
            let stack = reduce(tokens).push(*left).push(*right);
            assert(reduce(all.drop_last()) == stack);
            assert(below(stack) == reduce(tokens).push(*left));
            assert(below(below(stack)) == reduce(tokens));
            assert(operand(stack, operator) == *right);
            assert(operand(below(stack), operator) == *left);
        },
        _ => {},
    }
}

/// The tokens of a tree in postfix order come to the tree itself.
pub proof fn lemma_postorder_outcome(tree: SpecExpr)
    requires
        tree.plain(),
    ensures
        outcome(tree.postorder()) == tree,
{
    lemma_reduce_postorder(Seq::empty(), tree);
    assert(Seq::<SpecToken>::empty() + tree.postorder() == tree.postorder());
}

/// Every one of `symbols` has at least the priority `floor`.
pub open spec fn above(symbols: Seq<char>, floor: int) -> bool {
    forall|i: int| 0 <= i < symbols.len() ==> priority(#[trigger] symbols[i]) >= floor
}

/// The operators that `symbols` stand for, the last of them first.
pub open spec fn popped(symbols: Seq<char>) -> Seq<SpecToken>
    decreases symbols.len(),
{
    if symbols.len() == 0 {
        Seq::empty()
    } else {
        seq![SpecToken::Operator(Operator::of(symbols.last()).unwrap())] + popped(
            symbols.drop_last(),
        )
    }
}

/// The operator that waits longest is the last to go.
pub proof fn lemma_popped_first(c: char, symbols: Seq<char>)
    ensures
        popped(seq![c] + symbols) == popped(symbols).push(
            SpecToken::Operator(Operator::of(c).unwrap()),
        ),
    decreases symbols.len(),
{
    let all = seq![c] + symbols;
    if symbols.len() == 0 {
        assert(all.drop_last() == Seq::<char>::empty());
        assert(popped(all.drop_last()) == Seq::<SpecToken>::empty());
    } else {
        lemma_popped_first(c, symbols.drop_last());
        assert(all.drop_last() == seq![c] + symbols.drop_last());
        assert(all.last() == symbols.last());
    }
}

impl Conversion {
    /// Reading one text and then another is reading the two as one.
    pub proof fn lemma_run_concat(self, first: Seq<char>, second: Seq<char>)
        ensures
            self.run(first + second) == self.run(first).run(second),
        decreases second.len(),
    {
        if second.len() == 0 {
            assert(first + second == first);
        } else {
            self.lemma_run_concat(first, second.drop_last());
            assert((first + second).drop_last() == first + second.drop_last());
        }
    }

    /// Reading a text of one character is one step.
    pub proof fn lemma_run_one(self, c: char)
        ensures
            self.run(seq![c]) == self.step(c),
    {
        assert(seq![c].drop_last() == Seq::<char>::empty());
        assert(self.run(Seq::<char>::empty()) == self);
        assert(seq![c].last() == c);
    }

    /// Reading digits puts them on the number that is being read and changes
    /// nothing else.
    pub proof fn lemma_run_digits(self, digits: Seq<char>)
        requires
            all_digits(digits),
        ensures
            self.run(digits) == (Conversion { literal: self.literal + digits, ..self }),
        decreases digits.len(),
    {
        if digits.len() == 0 {
            assert(self.literal + digits == self.literal);
        } else {
            self.lemma_run_digits(digits.drop_last());
            assert(digit(digits.last()));
            assert((self.literal + digits.drop_last()).push(digits.last()) == self.literal
                + digits);
        }
    }

    /// Where the latest symbols that wait all have at least the priority
    /// `level`, and the one below them has less, `drain` moves exactly these
    /// to the output.
    pub proof fn lemma_drain_pops(self, base: Seq<char>, latest: Seq<char>, level: int)
        requires
            self.pending == base + latest,
            above(latest, level),
            base.len() > 0 ==> priority(base.last()) < level,
        ensures
            self.drain(level).pending == base,
            self.drain(level).emitted() == self.emitted() + popped(latest),
            latest.len() == 0 ==> self.drain(level) == self,
        decreases latest.len(),
    {
        if latest.len() == 0 {
            assert(self.pending == base);
            assert(self.emitted() + popped(latest) == self.emitted());
        } else {
            assert(self.pending.last() == latest.last());
            assert(self.pending.drop_last() == base + latest.drop_last());
            self.pop().lemma_drain_pops(base, latest.drop_last(), level);
            assert(self.pop().emitted() == self.pop().output);
            assert(self.pop().emitted() + popped(latest.drop_last()) == self.emitted() + popped(
                latest,
            ));
        }
    }

    /// `end` is where reading the expression `x` from here is to lead: what
    /// waited still waits; above it wait operators, each at least of the
    /// level of `x`; and these, moved to the output, complete the tokens of
    /// `x` in postfix order.
    pub open spec fn reads(self, x: Syntax, end: Conversion) -> bool {
        let n = self.pending.len() as int;
        &&& end.pending.len() >= n
        &&& end.pending.take(n) == self.pending
        &&& above(end.pending.skip(n), x.level())
        &&& end.emitted() + popped(end.pending.skip(n)) == self.output + x.tree().postorder()
    }

    proof fn lemma_reads_number(self, digits: Seq<char>)
        requires
            numeral(digits),
            self.literal.len() == 0,
        ensures
            self.reads(Syntax::Number(digits), self.run(digits)),
    {
        let n = self.pending.len() as int;
        let x = Syntax::Number(digits);
        self.lemma_run_digits(digits);
        let end = self.run(digits);
        assert(self.literal + digits == digits);
        assert(end.pending.take(n) == self.pending);
        assert(end.pending.skip(n) == Seq::<char>::empty());
        assert(end.emitted() == self.output.push(SpecToken::Number(digits)));
        assert(x.tree().postorder() == seq![SpecToken::Number(digits)]);
        assert(end.emitted() + popped(end.pending.skip(n)) == self.output
            + x.tree().postorder());
    }

    proof fn lemma_reads_group(self, inner: Syntax)
        requires
            self.literal.len() == 0,
            inner.level() >= 1,
            self.step('(').reads(inner, self.step('(').run(inner.text())),
        ensures
            self.reads(Syntax::Group(Box::new(inner)), self.step('(').run(inner.text()).step(')')),
    {
        let n = self.pending.len() as int;
        let x = Syntax::Group(Box::new(inner));
        let opened = self.step('(');
        let within = opened.run(inner.text());
        let end = within.step(')');
        assert(opened.pending == self.pending.push('('));
        assert(opened.output == self.output);
        let latest = within.pending.skip(n + 1);
        assert(within.pending == opened.pending + latest);
        within.lemma_drain_pops(opened.pending, latest, 1);
        let drained = within.drain(1);
        assert(drained.pending == self.pending.push('('));
        assert(end == drained.discard());
        assert(end.pending == self.pending);
        assert(end.pending.take(n) == self.pending);
        assert(end.pending.skip(n) == Seq::<char>::empty());
        assert(end.emitted() == drained.emitted());
        assert(x.tree() == inner.tree());
        assert(end.emitted() + popped(end.pending.skip(n)) == end.emitted());
    }

    proof fn lemma_reads_left(self, operator: Operator, left: Syntax)
        requires
            self.literal.len() == 0,
            left.level() >= priority(operator.symbol()),
            self.pending.len() > 0 ==> priority(self.pending.last()) < priority(
                operator.symbol(),
            ),
            self.reads(left, self.run(left.text())),
        ensures
            ({
                let between = self.run(left.text()).step(operator.symbol());
                &&& between.output == self.output + left.tree().postorder()
                &&& between.literal.len() == 0
                &&& between.pending == self.pending.push(operator.symbol())
            }),
    {
        let n = self.pending.len() as int;
        let c = operator.symbol();
        lemma_symbol_of_operator(operator);
        let first = self.run(left.text());
        let latest = first.pending.skip(n);
        assert(first.pending == self.pending + latest);
        first.lemma_drain_pops(self.pending, latest, priority(c));
    }

    proof fn lemma_reads_right(
        self,
        between: Conversion,
        end: Conversion,
        operator: Operator,
        left: Syntax,
        right: Syntax,
    )
        requires
            right.level() > priority(operator.symbol()),
            between.output == self.output + left.tree().postorder(),
            between.pending == self.pending.push(operator.symbol()),
            between.reads(right, end),
        ensures
            self.reads(Syntax::Binary(operator, Box::new(left), Box::new(right)), end),
    {
        let n = self.pending.len() as int;
        let c = operator.symbol();
        let x = Syntax::Binary(operator, Box::new(left), Box::new(right));
        lemma_symbol_of_operator(operator);
        let rest = end.pending.skip(n + 1);
        assert(end.pending.take(n + 1) == self.pending.push(c));
        assert(end.pending.take(n) == self.pending) by {
            assert(end.pending.take(n + 1).take(n) == end.pending.take(n));
            assert(self.pending.push(c).take(n) == self.pending);
        }
        assert(end.pending[n] == c) by {
            assert(end.pending.take(n + 1)[n] == c);
        }
        assert(end.pending.skip(n) == seq![c] + rest);
        assert(above(end.pending.skip(n), x.level())) by {
            assert forall|i: int| 0 <= i < end.pending.skip(n).len() implies priority(
                #[trigger] end.pending.skip(n)[i],
            ) >= x.level() by {
                if i > 0 {
                    assert(end.pending.skip(n)[i] == rest[i - 1]);
                }
            }
        }
        lemma_popped_first(c, rest);
        assert(x.tree().postorder() == left.tree().postorder() + right.tree().postorder()
            + seq![SpecToken::Operator(operator)]);
        assert(end.emitted() + popped(end.pending.skip(n)) == (end.emitted() + popped(
            rest,
        )).push(SpecToken::Operator(operator)));
        assert(end.emitted() + popped(end.pending.skip(n)) == self.output
            + x.tree().postorder());
    }

    /// Reading a well-formed expression, from between two numbers and with
    /// nothing waiting that the operators of the expression would move out,
    /// leads where `reads` says.
    pub proof fn lemma_run_syntax(self, x: Syntax)
        requires
            x.well_formed(),
            self.literal.len() == 0,
            self.pending.len() > 0 ==> priority(self.pending.last()) < x.level(),
        ensures
            self.reads(x, self.run(x.text())),
        decreases x,
    {
        match x {
            Syntax::Number(digits) => {
                self.lemma_reads_number(digits);
            },
            Syntax::Group(inner) => {
                let opened = self.step('(');
                let within = opened.run(inner.text());
                assert(self.run(x.text()) == within.step(')')) by {
                    self.lemma_run_concat(seq!['('] + inner.text(), seq![')']);
                    self.lemma_run_concat(seq!['('], inner.text());
                    self.lemma_run_one('(');
                    within.lemma_run_one(')');
                }
                assert(opened.pending.last() == '(');
                opened.lemma_run_syntax(*inner);
                self.lemma_reads_group(*inner);
            },
            Syntax::Binary(operator, left, right) => {
                let c = operator.symbol();
                let first = self.run(left.text());
                let between = first.step(c);
                let end = between.run(right.text());
                assert(self.run(x.text()) == end) by {
                    self.lemma_run_concat(left.text() + seq![c], right.text());
                    self.lemma_run_concat(left.text(), seq![c]);
                    first.lemma_run_one(c);
                }
                self.lemma_run_syntax(*left);
                self.lemma_reads_left(operator, *left);
                assert(between.pending.last() == c);
                between.lemma_run_syntax(*right);
                self.lemma_reads_right(between, end, operator, *left, *right);
            },
        }
    }
}

/// Conversion is right on well-formed expressions: the postfix sequence of
/// the text of such an expression is its tree in postfix order.
pub proof fn lemma_postfix_of_syntax(x: Syntax)
    requires
        x.well_formed(),
    ensures
        postfix_tokens(x.text()) == x.tree().postorder(),
{
    let start = Conversion::start();
    let end = Conversion::scan(x.text());
    start.lemma_run_syntax(x);
    assert(end.pending.skip(0) == end.pending);
    assert(Seq::<char>::empty() + end.pending == end.pending);
    end.lemma_drain_pops(Seq::empty(), end.pending, 1);
    assert(start.output + x.tree().postorder() == x.tree().postorder());
    let drained = end.drain(1);
    assert(drained.pending.len() == 0);
    assert(drained.drain(1) == drained);
}

/// Reduction undoes conversion on well-formed expressions: the postfix
/// sequence of the text of such an expression comes to the tree of the
/// expression.
pub proof fn lemma_value_of_syntax(x: Syntax)
    requires
        x.well_formed(),
    ensures
        outcome(postfix_tokens(x.text())) == x.tree(),
{
    lemma_postfix_of_syntax(x);
    lemma_tree_plain(x);
    lemma_postorder_outcome(x.tree());
}

/// Some character of `s` is a digit.
pub open spec fn has_digit(s: Seq<char>) -> bool {
    exists|i: int| 0 <= i < s.len() && digit(#[trigger] s[i])
}

/// The text of a well-formed expression is balanced, holds only what may
/// stand in an expression, and holds a digit.
pub proof fn lemma_text_of_syntax(x: Syntax)
    requires
        x.well_formed(),
    ensures
        balanced(x.text()),
        all_recognized(x.text()),
        has_digit(x.text()),
    decreases x,
{
    let text = x.text();
    match x {
        Syntax::Number(digits) => {
            assert forall|i: int| 0 <= i < digits.len() implies #[trigger] digits[i] != '('
                && digits[i] != ')' by {
                assert(digit(digits[i]));
            }
            lemma_balanced_without_parentheses(digits);
            assert(digit(digits[0]));
        },
        Syntax::Group(inner) => {
            let within = inner.text();
            lemma_text_of_syntax(*inner);
            lemma_balanced_in_parentheses(within);
            assert forall|i: int| 0 <= i < text.len() implies recognized(#[trigger] text[i]) by {
                if 1 <= i <= within.len() {
                    assert(text[i] == within[i - 1]);
                }
            }
            let k = choose|k: int| 0 <= k < within.len() && digit(within[k]);
            assert(digit(text[k + 1]));
        },
        Syntax::Binary(operator, left, right) => {
            let c = operator.symbol();
            let first = left.text();
            let second = right.text();
            lemma_text_of_syntax(*left);
            lemma_text_of_syntax(*right);
            lemma_symbol_of_operator(operator);
            lemma_balanced_without_parentheses(seq![c]);
            lemma_balanced_concat(first, seq![c]);
            lemma_balanced_concat(first + seq![c], second);
            assert forall|i: int| 0 <= i < text.len() implies recognized(#[trigger] text[i]) by {
                if i < first.len() {
                    assert(text[i] == first[i]);
                } else if i > first.len() {
                    assert(text[i] == second[i - first.len() - 1]);
                }
            }
            let k = choose|k: int| 0 <= k < first.len() && digit(first[k]);
            assert(digit(text[k]));
        },
    }
}

/// The library is right on well-formed expressions, however they are
/// spaced. Where a text without its whitespace is the text of a well-formed
/// expression, the text is accepted as an expression: it is balanced, holds
/// more than parentheses and whitespace, and holds nothing unknown. Its
/// postfix sequence is the tree of the expression in postfix order, and that
/// sequence comes to the tree of the expression.
pub proof fn lemma_value_of_expression(s: Seq<char>, x: Syntax)
    requires
        x.well_formed(),
        without_blanks(s) == x.text(),
    ensures
        balanced(s),
        !vacant(s),
        all_recognized(s),
        postfix_tokens(s) == x.tree().postorder(),
        outcome(postfix_tokens(s)) == x.tree(),
{
    lemma_text_of_syntax(x);
    let text = x.text();
    let k = choose|k: int| 0 <= k < text.len() && digit(text[k]);
    assert(!vacant(text)) by {
        assert(digit(text[k]));
    }
    lemma_without_blanks_balanced(s);
    lemma_without_blanks_symbols(s);
    lemma_whitespace_changes_nothing(s);
    lemma_postfix_of_syntax(x);
    lemma_value_of_syntax(x);
}

/// Parentheses that change no operand, and whitespace, change nothing: two
/// texts that, without their whitespace, are the texts of well-formed
/// expressions with the same tree have the same postfix sequence.
pub proof fn lemma_same_tree_same_postfix(s: Seq<char>, x: Syntax, t: Seq<char>, y: Syntax)
    requires
        x.well_formed(),
        y.well_formed(),
        without_blanks(s) == x.text(),
        without_blanks(t) == y.text(),
        x.tree() == y.tree(),
    ensures
        postfix_tokens(s) == postfix_tokens(t),
{
    lemma_value_of_expression(s, x);
    lemma_value_of_expression(t, y);
}

} // verus!
