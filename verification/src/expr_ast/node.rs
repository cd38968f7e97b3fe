//! Syntax trees: the elements of a key, or the clauses of a condition.

use crate::expr_ast::token::literal::{Literal, LiteralView};
use crate::expr_ast::token::op::OpKind;
use vstd::prelude::*;

verus! {

/// One clause of a condition: an operator between two literals. A clause
/// comes out of the parser with its right side only; its left side is a
/// placeholder until a key is bound to it.
#[derive(PartialEq, Eq, Debug)]
pub struct BinOp {
    pub lhs: Literal,
    pub op: OpKind,
    pub rhs: Literal,
}

/// What a [`BinOp`] stands for in contracts.
pub struct BinOpView {
    pub lhs: LiteralView,
    pub op: OpKind,
    pub rhs: LiteralView,
}

impl View for BinOp {
    type V = BinOpView;

    open spec fn view(&self) -> BinOpView {
        BinOpView { lhs: self.lhs@, op: self.op, rhs: self.rhs@ }
    }
}

/// One element of a tree: an element of a key, or a clause of a condition.
#[derive(Debug, PartialEq, Eq)]
pub enum Node {
    Literal(Literal),
    BinOp(BinOp),
}

/// What a [`Node`] stands for in contracts.
pub enum NodeView {
    Literal(LiteralView),
    BinOp(BinOpView),
}

impl View for Node {
    type V = NodeView;

    open spec fn view(&self) -> NodeView {
        match self {
            Node::Literal(lit) => NodeView::Literal(lit@),
            Node::BinOp(bin_op) => NodeView::BinOp(bin_op@),
        }
    }
}

/// A parsed key (literals only) or a parsed condition (clauses only). Its
/// length is the arity of the key or of the condition.
#[derive(Debug, Default)]
pub struct Tree {
    pub root: Vec<Node>,
}

impl View for Tree {
    type V = Seq<NodeView>;

    open spec fn view(&self) -> Seq<NodeView> {
        Seq::new(self.root@.len(), |i: int| self.root@[i]@)
    }
}

impl Tree {
    /// The number of nodes.
    pub fn len(&self) -> (n: usize)
        ensures
            n == self@.len(),
    {
        self.root.len()
    }
}

} // verus!
