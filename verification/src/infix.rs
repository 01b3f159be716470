//! Infix expressions and their conversion to postfix notation.

use vstd::prelude::*;
use crate::balance::{balanced, depth, never_overdrawn};
use crate::error::EvaluationError;
use crate::operator::{evalpriority, operator_symbol, priority, Operator};
use crate::postfix::{lemma_render_push, render, well_formed, Postfix};
use crate::symbol::{blank, digit, is_digit, is_whitespace, parenthesis};
use crate::text::{byte_length, push_char};
use crate::token::{all_digits, SpecToken};

verus! {

/// A character that may stand in an infix expression.
pub open spec fn recognized(c: char) -> bool {
    blank(c) || parenthesis(c) || digit(c) || operator_symbol(c)
}

/// Every character of `s` may stand in an infix expression.
pub open spec fn all_recognized(s: Seq<char>) -> bool {
    forall|i: int| 0 <= i < s.len() ==> recognized(#[trigger] s[i])
}

/// `at` is the position of the first character of `s` that may not stand in
/// an infix expression.
pub open spec fn first_unknown(s: Seq<char>, at: int) -> bool {
    &&& 0 <= at < s.len()
    &&& !recognized(s[at])
    &&& forall|i: int| 0 <= i < at ==> recognized(#[trigger] s[i])
}

/// Where a conversion stands after it has read some characters.
pub struct Conversion {
    /// The tokens that are complete.
    pub output: Seq<SpecToken>,
    /// The digits of the number that is being read; empty between numbers.
    pub literal: Seq<char>,
    /// The operators and opening parentheses that wait, the latest last.
    pub pending: Seq<char>,
}

impl Conversion {
    /// Nothing read, nothing put out, nothing waiting.
    pub open spec fn start() -> Conversion {
        Conversion { output: Seq::empty(), literal: Seq::empty(), pending: Seq::empty() }
    }

    /// The tokens so far, the number that is being read counted as the last
    /// of them.
    pub open spec fn emitted(self) -> Seq<SpecToken> {
        if self.literal.len() > 0 {
            self.output.push(SpecToken::Number(self.literal))
        } else {
            self.output
        }
    }

    /// Moves the latest waiting operator to the output, which ends the
    /// number that is being read.
    pub open spec fn pop(self) -> Conversion {
        Conversion {
            output: self.emitted().push(
                SpecToken::Operator(Operator::of(self.pending.last()).unwrap()),
            ),
            literal: Seq::empty(),
            pending: self.pending.drop_last(),
        }
    }

    /// Moves waiting operators to the output, the latest first, for as long
    /// as the latest has at least the priority `level`. An opening
    /// parenthesis has priority 0 and stops this at any level from 1 up.
    pub open spec fn drain(self, level: int) -> Conversion
        decreases self.pending.len(),
    {
        if self.pending.len() > 0 && priority(self.pending.last()) >= level {
            self.pop().drain(level)
        } else {
            self
        }
    }

    /// Takes the latest waiting symbol away, if there is one.
    pub open spec fn discard(self) -> Conversion {
        if self.pending.len() > 0 {
            Conversion { pending: self.pending.drop_last(), ..self }
        } else {
            self
        }
    }

    /// Reads one character.
    ///
    /// - Whitespace changes nothing; it does not even end a number.
    /// - `(` waits.
    /// - `)` moves the operators that wait above the latest `(` to the
    ///   output, and takes that `(` away.
    /// - A digit goes on the number that is being read.
    /// - An operator ends the number that is being read, moves the waiting
    ///   operators of its own priority or higher to the output, down to the
    ///   latest `(`, and then waits itself.
    /// - Any other character changes nothing.
    pub open spec fn step(self, c: char) -> Conversion {
        if c == '(' {
            Conversion { pending: self.pending.push(c), ..self }
        } else if c == ')' {
            self.drain(1).discard()
        } else if digit(c) {
            Conversion { literal: self.literal.push(c), ..self }
        } else if operator_symbol(c) {
            let drained = self.drain(priority(c));
            Conversion {
                output: drained.emitted(),
                literal: Seq::empty(),
                pending: drained.pending.push(c),
            }
        } else {
            self
        }
    }

    /// Where the conversion stands after it has read `s` from here.
    pub open spec fn run(self, s: Seq<char>) -> Conversion
        decreases s.len(),
    {
        if s.len() == 0 {
            self
        } else {
            self.run(s.drop_last()).step(s.last())
        }
    }

    /// Where a conversion stands after it has read all of `s`.
    pub open spec fn scan(s: Seq<char>) -> Conversion {
        Conversion::start().run(s)
    }
}

/// The postfix sequence of the infix expression `s`: what the conversion has
/// put out when it has read all of `s` and moved the operators that still
/// wait to the output.
pub open spec fn postfix_tokens(s: Seq<char>) -> Seq<SpecToken> {
    Conversion::scan(s).drain(1).emitted()
}

impl Conversion {
    /// The tokens put out are well formed, and the number that is being read
    /// is made of digits.
    pub open spec fn sound(self) -> bool {
        well_formed(self.output) && all_digits(self.literal)
    }

    /// `drain` keeps a conversion sound.
    pub proof fn lemma_drain_sound(self, level: int)
        requires
            self.sound(),
        ensures
            self.drain(level).sound(),
            well_formed(self.emitted()),
        decreases self.pending.len(),
    {
        if self.pending.len() > 0 && priority(self.pending.last()) >= level {
            self.pop().lemma_drain_sound(level);
        }
    }

    /// A conversion is sound, whatever it has read.
    pub proof fn lemma_scan_sound(s: Seq<char>)
        ensures
            Conversion::scan(s).sound(),
        decreases s.len(),
    {
        if s.len() > 0 {
            let before = Conversion::scan(s.drop_last());
            Conversion::lemma_scan_sound(s.drop_last());
            before.lemma_drain_sound(1);
            before.lemma_drain_sound(priority(s.last()));
            before.drain(priority(s.last())).lemma_drain_sound(1);
        }
    }
}

/// The tokens of a postfix sequence that a conversion gives are well formed:
/// each number is one or more digits.
pub proof fn lemma_postfix_tokens_well_formed(s: Seq<char>)
    ensures
        well_formed(postfix_tokens(s)),
{
    Conversion::lemma_scan_sound(s);
    Conversion::scan(s).lemma_drain_sound(1);
    Conversion::scan(s).drain(1).lemma_drain_sound(1);
}

/// The number of opening parentheses among the symbols that wait.
pub open spec fn opens(pending: Seq<char>) -> nat
    decreases pending.len(),
{
    if pending.len() == 0 {
        0
    } else if pending.last() == '(' {
        opens(pending.drop_last()) + 1
    } else {
        opens(pending.drop_last())
    }
}

impl Conversion {
    /// Nothing waits but opening parentheses and operators.
    pub open spec fn orderly(self) -> bool {
        forall|i: int|
            0 <= i < self.pending.len() ==> #[trigger] self.pending[i] == '(' || operator_symbol(
                self.pending[i],
            )
    }

    /// `drain` moves operators only: the opening parentheses that wait stay,
    /// and at level 1 it goes on until one of them is the latest to wait, or
    /// nothing waits.
    pub proof fn lemma_drain_stops_at_open(self, level: int)
        requires
            self.orderly(),
            level >= 1,
        ensures
            self.drain(level).orderly(),
            opens(self.drain(level).pending) == opens(self.pending),
            level == 1 && self.drain(level).pending.len() > 0 ==> self.drain(level).pending.last()
                == '(',
        decreases self.pending.len(),
    {
        if self.pending.len() > 0 && priority(self.pending.last()) >= level {
            self.pop().lemma_drain_stops_at_open(level);
        }
    }

    /// While no beginning of the text closes more parentheses than it has
    /// opened, as many opening parentheses wait as are open in the text.
    pub proof fn lemma_scan_opens(s: Seq<char>)
        requires
            never_overdrawn(s),
        ensures
            Conversion::scan(s).orderly(),
            opens(Conversion::scan(s).pending) == depth(s),
        decreases s.len(),
    {
        if s.len() > 0 {
            let before = Conversion::scan(s.drop_last());
            let c = s.last();
            assert forall|n: int| 0 <= n <= s.drop_last().len() implies depth(
                #[trigger] s.drop_last().take(n),
            ) >= 0 by {
                assert(s.drop_last().take(n) == s.take(n));
            }
            Conversion::lemma_scan_opens(s.drop_last());
            if c == '(' {
                assert(before.step(c).pending.drop_last() == before.pending);
            } else if c == ')' {
                before.lemma_drain_stops_at_open(1);
                assert(depth(s.take(s.len() as int)) >= 0);
                assert(s.take(s.len() as int) == s);
            } else if operator_symbol(c) {
                before.lemma_drain_stops_at_open(priority(c));
                let drained = before.drain(priority(c));
                assert(drained.pending.push(c).drop_last() == drained.pending);
            }
        }
    }
}

/// In a balanced expression every `)` finds the `(` that it closes: when a
/// `)` is read, the operators that wait are moved out and then an opening
/// parenthesis is the latest to wait.
pub proof fn lemma_close_finds_open(s: Seq<char>, n: int)
    requires
        balanced(s),
        0 <= n < s.len(),
        s[n] == ')',
    ensures
        Conversion::scan(s.take(n)).drain(1).pending.len() > 0,
        Conversion::scan(s.take(n)).drain(1).pending.last() == '(',
{
    let before = s.take(n);
    assert forall|k: int| 0 <= k <= before.len() implies depth(#[trigger] before.take(k)) >= 0 by {
        assert(before.take(k) == s.take(k));
    }
    Conversion::lemma_scan_opens(before);
    Conversion::scan(before).lemma_drain_stops_at_open(1);
    assert(s.take(n + 1).drop_last() == before);
    assert(depth(s.take(n + 1)) >= 0);
}

/// At the end of a balanced expression nothing is left waiting: every
/// operator of the expression has gone to the postfix sequence.
pub proof fn lemma_nothing_left_waiting(s: Seq<char>)
    requires
        balanced(s),
    ensures
        Conversion::scan(s).drain(1).pending.len() == 0,
{
    Conversion::lemma_scan_opens(s);
    Conversion::scan(s).lemma_drain_stops_at_open(1);
}

/// At most one position is that of the first unknown character, and there is
/// none where every character is recognized.
pub proof fn lemma_first_unknown_unique(s: Seq<char>, at: int, other: int)
    requires
        first_unknown(s, at),
    ensures
        !all_recognized(s),
        first_unknown(s, other) ==> other == at,
{
}

/// Conversion is deterministic: the text of an expression fixes what comes
/// of it. Two expressions with the same text are both converted or both
/// refused; converted, they give the same postfix sequence; refused, they
/// are refused for the same character at the same position.
pub proof fn lemma_conversion_deterministic(a: Infix, b: Infix)
    requires
        a@ == b@,
    ensures
        all_recognized(a@) == all_recognized(b@),
        render(postfix_tokens(a@)) == render(postfix_tokens(b@)),
        forall|i: int, j: int|
            first_unknown(a@, i) && first_unknown(b@, j) ==> i == j && a@[i] == b@[j],
        all_recognized(a@) ==> forall|j: int| !first_unknown(b@, j),
{
    assert forall|i: int, j: int| first_unknown(a@, i) && first_unknown(b@, j) implies i == j
        && a@[i] == b@[j] by {
        lemma_first_unknown_unique(a@, i, j);
    }
}

/// A conversion under way: the text of the tokens put out so far, the
/// symbols that wait, and the state that both stand for.
struct Converter {
    out: String,
    ops: Vec<char>,
    open: bool,
    started: bool,
    state: Ghost<Conversion>,
}

impl Converter {
    spec fn wf(&self) -> bool {
        &&& self.ops@ == self.state@.pending
        &&& self.out@ == render(self.state@.emitted())
        &&& self.open == (self.state@.literal.len() > 0)
        &&& self.started == (self.state@.emitted().len() > 0)
    }

    fn new() -> (r: Converter)
        ensures
            r.wf(),
            r.state@ == Conversion::start(),
    {
        Converter {
            out: String::new(),
            ops: Vec::new(),
            open: false,
            started: false,
            state: Ghost(Conversion::start()),
        }
    }

    fn wait(&mut self, c: char)
        requires
            old(self).wf(),
            c == '(',
        ensures
            final(self).wf(),
            final(self).state@ == old(self).state@.step(c),
    {
        self.ops.push(c);
        self.state = Ghost(self.state@.step(c));
    }

    fn write_digit(&mut self, c: char)
        requires
            old(self).wf(),
            digit(c),
        ensures
            final(self).wf(),
            final(self).state@ == old(self).state@.step(c),
    {
        let ghost before = self.state@;
        if self.started && !self.open {
            push_char(&mut self.out, ' ');
        }
        push_char(&mut self.out, c);
        self.open = true;
        self.started = true;
        self.state = Ghost(before.step(c));
        proof {
            lemma_render_push(before.output, SpecToken::Number(before.literal.push(c)));
            if before.literal.len() > 0 {
                lemma_render_push(before.output, SpecToken::Number(before.literal));
            }
            assert(self.out@ == render(self.state@.emitted()));
        }
    }

    fn pop(&mut self)
        requires
            old(self).wf(),
            old(self).ops@.len() > 0,
            operator_symbol(old(self).ops@.last()),
        ensures
            final(self).wf(),
            final(self).state@ == old(self).state@.pop(),
    {
        let ghost before = self.state@;
        let top = self.ops.pop();
        match top {
            Some(c) => {
                if self.started {
                    push_char(&mut self.out, ' ');
                }
                push_char(&mut self.out, c);
                proof {
                    let token = SpecToken::Operator(Operator::of(c).unwrap());
                    assert(token.text() == seq![c]);
                    lemma_render_push(before.emitted(), token);
                    assert(self.out@ =~= render(before.pop().emitted()));
                }
            },
            None => {},
        }
        self.open = false;
        self.started = true;
        self.state = Ghost(before.pop());
    }

    fn drain(&mut self, level: i8)
        requires
            old(self).wf(),
            level >= 1,
        ensures
            final(self).wf(),
            final(self).state@ == old(self).state@.drain(level as int),
    {
        let ghost before = self.state@;
        while self.ops.len() > 0 && evalpriority(self.ops[self.ops.len() - 1]) >= level
            invariant
                self.wf(),
                level >= 1,
                self.state@.drain(level as int) == before.drain(level as int),
            decreases self.ops.len(),
        {
            self.pop();
        }
    }

    /// Reads a `)` that finds the `(` that it closes.
    fn close(&mut self)
        requires
            old(self).wf(),
            old(self).state@.drain(1).pending.len() > 0,
            old(self).state@.drain(1).pending.last() == '(',
        ensures
            final(self).wf(),
            final(self).state@ == old(self).state@.step(')'),
    {
        self.drain(1);
        let open = self.ops.pop();
        assert(open == Some('('));
        self.state = Ghost(self.state@.discard());
    }

    fn operator(&mut self, c: char)
        requires
            old(self).wf(),
            operator_symbol(c),
        ensures
            final(self).wf(),
            final(self).state@ == old(self).state@.step(c),
    {
        self.drain(evalpriority(c));
        self.open = false;
        self.ops.push(c);
        self.state = Ghost(old(self).state@.step(c));
    }
}

/// An expression in infix notation, as text.
#[derive(Debug, PartialEq, Eq)]
pub struct Infix {
    content: String,
}

impl View for Infix {
    type V = Seq<char>;

    closed spec fn view(&self) -> Seq<char> {
        self.content@
    }
}

impl Infix {
    /// The expression with the given text.
    pub fn new(expression: &String) -> (r: Self)
        ensures
            r@ == expression@,
    {
        Infix { content: expression.clone() }
    }

    /// Converts the expression to postfix notation, or names the first
    /// character that may not stand in an expression.
    ///
    /// The parentheses of the expression are to be balanced. Then every `)`
    /// finds its `(` among the symbols that wait, and at the end every
    /// operator has gone to the sequence.
    pub fn to_postfix(&self) -> (r: Result<Postfix, EvaluationError>)
        requires
            balanced(self@),
        ensures
            match r {
                Ok(postfix) => all_recognized(self@) && postfix@ == render(postfix_tokens(self@)),
                Err(error) => {
                    &&& error matches EvaluationError::UnknownSymbol(c, at)
                    &&& first_unknown(self@, at as int)
                    &&& c == self@[at as int]
                },
            },
    {
        let ghost s = self@;
        let bound = byte_length(self.content.as_str());
        let mut converter = Converter::new();
        let mut position: usize = 0;
        for symbol in it: self.content.as_str().chars()
            invariant
                s == self@,
                it.seq() == s,
                s.len() <= bound,
                position == it.index(),
                converter.wf(),
                converter.state@ == Conversion::scan(s.take(it.index())),
                forall|i: int| 0 <= i < it.index() ==> recognized(#[trigger] s[i]),
                balanced(s),
        {
            proof {
                assert(s.take(it.index() + 1).drop_last() == s.take(it.index()));
            }
            if is_whitespace(symbol) {
            } else if symbol == '(' {
                converter.wait(symbol);
            } else if symbol == ')' {
                proof {
                    lemma_close_finds_open(s, it.index());
                }
                converter.close();
            } else if is_digit(symbol) {
                converter.write_digit(symbol);
            } else if evalpriority(symbol) > 0 {
                converter.operator(symbol);
            } else {
                return Err(EvaluationError::UnknownSymbol(symbol, position));
            }
            position += 1;
        }
        proof {
            assert(s.take(s.len() as int) == s);
            lemma_nothing_left_waiting(s);
        }
        converter.drain(1);
        assert(converter.ops@.len() == 0);
        Ok(Postfix { content: converter.out })
    }
}

} // verus!
