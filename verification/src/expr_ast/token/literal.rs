//! Numeric literals.

use crate::expr_ast::charset::{all_digits, is_numeral};
use vstd::prelude::*;

verus! {

/// A numeric literal, kept as the text it was written with. The text is
/// read as a number only when a clause is evaluated.
#[derive(Debug, PartialEq, Eq)]
pub enum Literal {
    /// Digits only.
    Integer(String),
    /// Digits, a point, and the digits after it, if any.
    Float(String),
}

/// What a [`Literal`] stands for in contracts: the same tag over the text
/// as a sequence of characters.
pub enum LiteralView {
    Integer(Seq<char>),
    Float(Seq<char>),
}

impl LiteralView {
    /// The text of the literal, whatever its tag.
    pub open spec fn text(self) -> Seq<char> {
        match self {
            LiteralView::Integer(s) => s,
            LiteralView::Float(s) => s,
        }
    }

    /// The shape that the tokenizer gives a literal: an `Integer` is a
    /// non-empty run of digits, a `Float` is such a run, one point, and a
    /// run of digits that may be empty.
    pub open spec fn wf(self) -> bool {
        match self {
            LiteralView::Integer(s) => s.len() > 0 && all_digits(s),
            LiteralView::Float(s) => is_numeral(s) && !all_digits(s),
        }
    }

    /// The literal that fills the left side of a clause until a key is
    /// bound to it: an `Integer` without text.
    pub open spec fn placeholder() -> LiteralView {
        LiteralView::Integer(Seq::empty())
    }
}

impl View for Literal {
    type V = LiteralView;

    open spec fn view(&self) -> LiteralView {
        match self {
            Literal::Integer(s) => LiteralView::Integer(s@),
            Literal::Float(s) => LiteralView::Float(s@),
        }
    }
}

impl Literal {
    /// The text of the literal, whatever its tag.
    pub fn text(&self) -> (r: &str)
        ensures
            r@ == self@.text(),
    {
        match self {
            Literal::Integer(s) => s.as_str(),
            Literal::Float(s) => s.as_str(),
        }
    }

    /// The literal without text that stands on the left side of a clause
    /// until a key is bound to it.
    pub fn placeholder() -> (r: Literal)
        ensures
            r@ == LiteralView::placeholder(),
    {
        Literal::Integer(String::new())
    }
}

} // verus!
