//! Expression trees: what a postfix sequence reduces to.

use vstd::prelude::*;
use crate::operator::Operator;
use crate::token::{SpecToken, Token};

verus! {

/// An expression tree as contracts see it.
pub enum SpecExpr {
    /// The number 0.
    Zero,
    /// The number 1.
    One,
    /// A number by its decimal digits.
    Number(Seq<char>),
    /// An operator with its left and its right operand.
    Apply(Operator, Box<SpecExpr>, Box<SpecExpr>),
}

/// One node of an expression tree. The operands of an operator are nodes of
/// the same tree, named by their places in it.
#[derive(Debug, PartialEq, Eq)]
pub enum Node {
    /// The number 0.
    Zero,
    /// The number 1.
    One,
    /// A number by its decimal digits.
    Number(String),
    /// An operator with the places of its left and its right operand.
    Apply(Operator, usize, usize),
}

/// Every operand stands before the operator that takes it.
pub open spec fn ordered(nodes: Seq<Node>) -> bool {
    forall|i: int|
        0 <= i < nodes.len() ==> (#[trigger] nodes[i] matches Node::Apply(_, left, right) ==> left
            < i && right < i)
}

/// The tree below the node at place `at`.
pub open spec fn tree_at(nodes: Seq<Node>, at: int) -> SpecExpr
    decreases at,
{
    if 0 <= at < nodes.len() {
        match nodes[at] {
            Node::Zero => SpecExpr::Zero,
            Node::One => SpecExpr::One,
            Node::Number(digits) => SpecExpr::Number(digits@),
            Node::Apply(operator, left, right) => if left < at && right < at {
                SpecExpr::Apply(
                    operator,
                    Box::new(tree_at(nodes, left as int)),
                    Box::new(tree_at(nodes, right as int)),
                )
            } else {
                SpecExpr::Zero
            },
        }
    } else {
        SpecExpr::Zero
    }
}

/// `longer` begins with all of `nodes`.
pub open spec fn extends(longer: Seq<Node>, nodes: Seq<Node>) -> bool {
    nodes.len() <= longer.len() && longer.take(nodes.len() as int) == nodes
}

/// Nodes behind a row change no tree below the nodes of the row.
pub proof fn lemma_tree_at_extends(longer: Seq<Node>, nodes: Seq<Node>, at: int)
    requires
        extends(longer, nodes),
        0 <= at < nodes.len(),
    ensures
        tree_at(longer, at) == tree_at(nodes, at),
    decreases at,
{
    assert(longer[at] == longer.take(nodes.len() as int)[at]);
    match nodes[at] {
        Node::Apply(_, left, right) => {
            if left < at && right < at {
                lemma_tree_at_extends(longer, nodes, left as int);
                lemma_tree_at_extends(longer, nodes, right as int);
            }
        },
        _ => {},
    }
}

/// An expression tree, held as its nodes in a row, every operand before the
/// operator that takes it, and the place of its root. The row may hold
/// nodes that are no part of the tree.
#[derive(Debug, PartialEq, Eq)]
pub struct Expr {
    nodes: Vec<Node>,
    root: usize,
}

impl Expr {
    /// The nodes in their row.
    pub closed spec fn row(&self) -> Seq<Node> {
        self.nodes@
    }

    /// The place of the root in the row.
    pub closed spec fn top(&self) -> int {
        self.root as int
    }

    /// The root is a node of the row, and every operand stands before the
    /// operator that takes it.
    pub open spec fn well_formed(&self) -> bool {
        0 <= self.top() < self.row().len() && ordered(self.row())
    }

    /// The nodes in their row.
    pub fn nodes(&self) -> (r: &Vec<Node>)
        ensures
            r@ == self.row(),
    {
        &self.nodes
    }

    /// The place of the root in the row.
    pub fn root(&self) -> (r: usize)
        ensures
            r == self.top(),
    {
        self.root
    }
}

impl View for Expr {
    type V = SpecExpr;

    /// The tree below the root.
    open spec fn view(&self) -> SpecExpr {
        tree_at(self.row(), self.top())
    }
}

/// What stands for an operand that an operator does not find: 0 for an
/// additive operator, 1 for a multiplicative one. An operator is never
/// refused for want of operands.
pub open spec fn missing_operand(operator: Operator) -> SpecExpr {
    if operator.additive() {
        SpecExpr::Zero
    } else {
        SpecExpr::One
    }
}

/// The operand that `operator` takes from the top of `stack`.
pub open spec fn operand(stack: Seq<SpecExpr>, operator: Operator) -> SpecExpr {
    if stack.len() > 0 {
        stack.last()
    } else {
        missing_operand(operator)
    }
}

/// `stack` without the operand that an operator takes from it.
pub open spec fn below(stack: Seq<SpecExpr>) -> Seq<SpecExpr> {
    if stack.len() > 0 {
        stack.drop_last()
    } else {
        stack
    }
}

/// The stack after one token: a number goes on top; an operator takes its
/// right operand from the top, then its left operand, and puts the tree of
/// the three on top.
pub open spec fn shift(stack: Seq<SpecExpr>, token: SpecToken) -> Seq<SpecExpr> {
    match token {
        SpecToken::Number(digits) => stack.push(SpecExpr::Number(digits)),
        SpecToken::Operator(operator) => below(below(stack)).push(
            SpecExpr::Apply(
                operator,
                Box::new(operand(below(stack), operator)),
                Box::new(operand(stack, operator)),
            ),
        ),
    }
}

/// The stack after all of `tokens`, taken from left to right, starting from
/// the empty stack.
pub open spec fn reduce(tokens: Seq<SpecToken>) -> Seq<SpecExpr>
    decreases tokens.len(),
{
    if tokens.len() == 0 {
        Seq::empty()
    } else {
        shift(reduce(tokens.drop_last()), tokens.last())
    }
}

/// What a sequence of tokens comes to: the top of the stack after all of
/// them, and 0 where the stack is empty.
pub open spec fn outcome(tokens: Seq<SpecToken>) -> SpecExpr {
    let stack = reduce(tokens);
    if stack.len() > 0 {
        stack.last()
    } else {
        SpecExpr::Zero
    }
}

/// What an additive operator takes where it does not find an operand. A
/// sequence with too few operands is reduced all the same, and this is what
/// makes up for them.
pub const MISSING_ADDITIVE_OPERAND: Node = Node::Zero;

/// What a multiplicative operator takes where it does not find an operand.
pub const MISSING_MULTIPLICATIVE_OPERAND: Node = Node::One;

/// The node that stands for an operand that `operator` does not find.
pub fn substitute(operator: Operator) -> (r: Node)
    ensures
        r == if operator.additive() {
            Node::Zero
        } else {
            Node::One
        },
{
    if operator.is_additive() {
        MISSING_ADDITIVE_OPERAND
    } else {
        MISSING_MULTIPLICATIVE_OPERAND
    }
}

/// The stack on which a postfix sequence is reduced: trees that share one
/// row of nodes, the stack holding the places of their roots.
pub struct Reduction {
    nodes: Vec<Node>,
    stack: Vec<usize>,
}

impl Reduction {
    /// Every operand stands before the operator that takes it, and the
    /// stack holds places of the row.
    pub closed spec fn well_formed(&self) -> bool {
        &&& ordered(self.nodes@)
        &&& forall|k: int| 0 <= k < self.stack@.len() ==> #[trigger] self.stack@[k] < self.nodes@.len()
    }

    /// The trees on the stack, the top last.
    pub closed spec fn trees(&self) -> Seq<SpecExpr> {
        Seq::new(self.stack@.len(), |k: int| tree_at(self.nodes@, self.stack@[k] as int))
    }

    /// A reduction with nothing on the stack.
    pub fn new() -> (r: Reduction)
        ensures
            r.well_formed(),
            r.trees() == Seq::<SpecExpr>::empty(),
    {
        Reduction { nodes: Vec::new(), stack: Vec::new() }
    }

    /// Puts a node on the row and the tree below it on the stack, and gives
    /// the place of the node in the row.
    fn push(&mut self, node: Node) -> (place: usize)
        requires
            old(self).well_formed(),
            node matches Node::Apply(_, left, right) ==> left < old(self).nodes@.len() && right
                < old(self).nodes@.len(),
        ensures
            final(self).well_formed(),
            place == old(self).nodes@.len(),
            extends(final(self).nodes@, old(self).nodes@),
            final(self).nodes@ == old(self).nodes@.push(node),
            final(self).stack@ == old(self).stack@.push(place),
            final(self).trees() == old(self).trees().push(tree_at(final(self).nodes@, place as int)),
    {
        let place = self.nodes.len();
        proof {
            assert(self.nodes@.push(node).take(self.nodes@.len() as int) == self.nodes@);
            assert forall|k: int| 0 <= k < self.stack@.len() implies tree_at(
                self.nodes@.push(node),
                #[trigger] self.stack@[k] as int,
            ) == tree_at(self.nodes@, self.stack@[k] as int) by {
                lemma_tree_at_extends(self.nodes@.push(node), self.nodes@, self.stack@[k] as int);
            }
        }
        self.nodes.push(node);
        self.stack.push(place);
        place
    }

    /// Takes the operand of `operator` from the top of the stack, and gives
    /// its place in the row.
    fn take_operand(&mut self, operator: Operator) -> (place: usize)
        requires
            old(self).well_formed(),
        ensures
            final(self).well_formed(),
            extends(final(self).nodes@, old(self).nodes@),
            place < final(self).nodes@.len(),
            tree_at(final(self).nodes@, place as int) == operand(old(self).trees(), operator),
            final(self).trees() == below(old(self).trees()),
    {
        let ghost before = self.trees();
        if self.stack.len() == 0 {
            let at = self.push(substitute(operator));
            assert(tree_at(self.nodes@, at as int) == missing_operand(operator));
        } else {
            assert(self.nodes@.take(self.nodes@.len() as int) == self.nodes@);
            assert(before.last() == tree_at(self.nodes@, self.stack@.last() as int));
        }
        let ghost full = self.trees();
        assert(full.len() > 0);
        assert(full.last() == operand(before, operator));
        assert(full.drop_last() == below(before));
        let place = self.stack.pop();
        assert(self.trees() == full.drop_last());
        match place {
            Some(place) => place,
            None => 0,
        }
    }

    /// Lets one token work on the stack.
    pub fn apply(&mut self, token: Token)
        requires
            old(self).well_formed(),
        ensures
            final(self).well_formed(),
            final(self).trees() == shift(old(self).trees(), token@),
    {
        match token {
            Token::Number(digits) => {
                let at = self.push(Node::Number(digits));
                assert(tree_at(self.nodes@, at as int) == SpecExpr::Number(digits@));
            },
            Token::Operator(operator) => {
                let ghost stack = self.trees();
                let right = self.take_operand(operator);
                let ghost middle = self.nodes@;
                let left = self.take_operand(operator);
                let ghost rest = self.trees();
                proof {
                    lemma_tree_at_extends(self.nodes@, middle, right as int);
                    assert(rest == below(below(stack)));
                }
                let ghost before = self.nodes@;
                let at = self.push(Node::Apply(operator, left, right));
                proof {
                    lemma_tree_at_extends(self.nodes@, before, left as int);
                    lemma_tree_at_extends(self.nodes@, before, right as int);
                    assert(self.nodes@[at as int] == Node::Apply(operator, left, right));
                    assert(tree_at(self.nodes@, at as int) == SpecExpr::Apply(
                        operator,
                        Box::new(operand(below(stack), operator)),
                        Box::new(operand(stack, operator)),
                    ));
                }
            },
        }
    }

    /// What the reduction comes to: the tree on top of the stack, and 0
    /// where the stack is empty.
    pub fn finish(self) -> (r: Expr)
        requires
            self.well_formed(),
        ensures
            r.well_formed(),
            r@ == if self.trees().len() > 0 {
                self.trees().last()
            } else {
                SpecExpr::Zero
            },
    {
        let mut reduction = self;
        if reduction.stack.len() == 0 {
            let at = reduction.push(Node::Zero);
            assert(tree_at(reduction.nodes@, at as int) == SpecExpr::Zero);
        }
        assert(reduction.trees().last() == tree_at(
            reduction.nodes@,
            reduction.stack@.last() as int,
        ));
        let root = match reduction.stack.pop() {
            Some(place) => place,
            None => 0,
        };
        Expr { nodes: reduction.nodes, root }
    }
}

} // verus!
