//! The tokens of keys and conditions.

pub mod literal;
pub mod op;

use literal::{Literal, LiteralView};
use op::OpKind;
use vstd::prelude::*;

verus! {

/// One token of a key or of a condition.
#[derive(Debug, PartialEq, Eq)]
pub enum Token {
    /// A numeric literal.
    Literal(Literal),
    /// A comparison operator.
    Op(OpKind),
    /// A run of characters that are neither numbers nor operators; it
    /// separates the elements of a list.
    Delim,
    /// The end of the text.
    Eof,
}

/// What a [`Token`] stands for in contracts.
pub enum TokenView {
    Literal(LiteralView),
    Op(OpKind),
    Delim,
    Eof,
}

impl View for Token {
    type V = TokenView;

    open spec fn view(&self) -> TokenView {
        match self {
            Token::Literal(lit) => TokenView::Literal(lit@),
            Token::Op(op) => TokenView::Op(*op),
            Token::Delim => TokenView::Delim,
            Token::Eof => TokenView::Eof,
        }
    }
}

impl Token {
    /// Whether the token is the end of the text.
    pub fn is_eof(&self) -> (r: bool)
        ensures
            r == (self@ is Eof),
    {
        match self {
            Token::Eof => true,
            _ => false,
        }
    }

    /// Whether the token is a separator.
    pub fn is_delim(&self) -> (r: bool)
        ensures
            r == (self@ is Delim),
    {
        match self {
            Token::Delim => true,
            _ => false,
        }
    }

    /// Whether the token is an operator.
    pub fn is_op(&self) -> (r: bool)
        ensures
            r == (self@ is Op),
    {
        match self {
            Token::Op(_) => true,
            _ => false,
        }
    }

    /// Whether the token is a literal.
    pub fn is_literal(&self) -> (r: bool)
        ensures
            r == (self@ is Literal),
    {
        match self {
            Token::Literal(_) => true,
            _ => false,
        }
    }
}

} // verus!
