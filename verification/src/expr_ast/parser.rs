//! The parser, with its two grammars: lists of literals, which keys are
//! written in, and lists of clauses, which conditions are written in.

use crate::expr_ast::lexer::{lemma_next_token, next_token, Lexer};
use crate::expr_ast::node::{BinOp, BinOpView, Node, NodeView, Tree};
use crate::expr_ast::token::literal::{Literal, LiteralView};
use crate::expr_ast::token::op::OpKind;
use crate::expr_ast::token::{Token, TokenView};
use vstd::prelude::*;

verus! {

/// Why a text could not be parsed. Both grammars fail with
/// `TokenMismatch` only; the other variants are kept for callers that
/// classify errors of their own.
#[derive(Debug, PartialEq)]
pub enum ParserErr {
    /// A piece of text that is no token.
    InvalidToken(String),
    /// An expression that cannot be evaluated.
    InvalidExpr,
    /// A token of the wrong kind at some point of a grammar.
    TokenMismatch,
    /// A failure of the tokenizer.
    Undefined,
}

/// The tokens of `s`, in order, without the final `Eof`.
pub open spec fn tokens(s: Seq<char>) -> Seq<TokenView>
    decreases s.len(),
    via tokens_decreases
{
    let (token, rest) = next_token(s);
    if token is Eof {
        Seq::empty()
    } else {
        seq![token] + tokens(rest)
    }
}

#[via_fn]
proof fn tokens_decreases(s: Seq<char>) {
    lemma_next_token(s);
}

/// The tokens that a parser has yet to read when `token` is its current
/// token and `rest` the text after it.
pub open spec fn tokens_from(token: TokenView, rest: Seq<char>) -> Seq<TokenView> {
    if token is Eof {
        Seq::empty()
    } else {
        seq![token] + tokens(rest)
    }
}

/// `ts` without the separator that it may begin with.
pub open spec fn after_separator(ts: Seq<TokenView>) -> Seq<TokenView> {
    if ts.len() > 0 && ts[0] is Delim {
        ts.skip(1)
    } else {
        ts
    }
}

/// `nodes` before the nodes of `tail`, where there are any.
pub open spec fn prepend(nodes: Seq<NodeView>, tail: Option<Seq<NodeView>>) -> Option<
    Seq<NodeView>,
> {
    match tail {
        Some(tail) => Some(nodes + tail),
        None => None,
    }
}

/// The literal grammar on a sequence of tokens: literals, each of which
/// one separator may precede, and one separator may end the sequence. The
/// result holds the literals in order; `None` where the sequence has
/// another form.
pub open spec fn literal_list(ts: Seq<TokenView>) -> Option<Seq<NodeView>>
    decreases ts.len(),
{
    let body = after_separator(ts);
    if body.len() == 0 {
        Some(Seq::empty())
    } else {
        match body[0] {
            TokenView::Literal(lit) => prepend(
                seq![NodeView::Literal(lit)],
                literal_list(body.skip(1)),
            ),
            _ => None,
        }
    }
}

/// The clause that the parser builds from an operator and the literal
/// after it. Its left side is the placeholder.
pub open spec fn clause(op: OpKind, rhs: LiteralView) -> NodeView {
    NodeView::BinOp(BinOpView { lhs: LiteralView::placeholder(), op, rhs })
}

/// The condition grammar on a sequence of tokens: clauses of one operator
/// and one literal, each of which one separator may precede, and one
/// separator may end the sequence. The result holds the clauses in order;
/// `None` where the sequence has another form.
pub open spec fn clause_list(ts: Seq<TokenView>) -> Option<Seq<NodeView>>
    decreases ts.len(),
{
    let body = after_separator(ts);
    if body.len() == 0 {
        Some(Seq::empty())
    } else if body.len() >= 2 {
        match (body[0], body[1]) {
            (TokenView::Op(op), TokenView::Literal(rhs)) => prepend(
                seq![clause(op, rhs)],
                clause_list(body.skip(2)),
            ),
            _ => None,
        }
    } else {
        None
    }
}

/// The parser's current token and the text after it, when the current
/// token is token `i` of `text`, counted from 0. After the last token the
/// current token is `Eof`.
pub open spec fn cursor(text: Seq<char>, i: nat) -> (TokenView, Seq<char>)
    decreases i,
{
    if i == 0 {
        next_token(text)
    } else {
        next_token(cursor(text, (i - 1) as nat).1)
    }
}

/// The parser moves from one token to the next by reading a token.
pub proof fn lemma_cursor_step(text: Seq<char>, i: nat)
    ensures
        cursor(text, i + 1) == next_token(cursor(text, i).1),
{
    assert((i + 1 - 1) as nat == i);
}

/// How many tokens of `ts` the literal grammar accepts before the first
/// token that breaks it; all of them where none does.
pub open spec fn literal_stop(ts: Seq<TokenView>) -> nat
    decreases ts.len(),
{
    let body = after_separator(ts);
    let skipped = (ts.len() - body.len()) as nat;
    if body.len() > 0 && body[0] is Literal {
        skipped + 1 + literal_stop(body.skip(1))
    } else {
        skipped
    }
}

/// How many tokens of `ts` the condition grammar accepts before the first
/// token that breaks it; all of them where none does. An operator at the
/// end of `ts` is accepted, and the end breaks the grammar.
pub open spec fn clause_stop(ts: Seq<TokenView>) -> nat
    decreases ts.len(),
{
    let body = after_separator(ts);
    let skipped = (ts.len() - body.len()) as nat;
    if body.len() > 0 && body[0] is Op {
        if body.len() >= 2 && body[1] is Literal {
            skipped + 2 + clause_stop(body.skip(2))
        } else {
            skipped + 1
        }
    } else {
        skipped
    }
}

/// What `Parser::parse` makes of a text: the literals of the text, or
/// `None` where the text does not follow the literal grammar.
pub open spec fn parse_spec(text: Seq<char>) -> Option<Seq<NodeView>> {
    literal_list(tokens(text))
}

/// What `Parser::parse_condition` makes of a text: the clauses of the
/// text, or `None` where the text does not follow the condition grammar.
pub open spec fn parse_condition_spec(text: Seq<char>) -> Option<Seq<NodeView>> {
    clause_list(tokens(text))
}

/// A parser for the two grammars, over one tokenizer.
#[derive(Debug)]
pub struct Parser<'a> {
    pub current_token: Token,
    lexer: Lexer<'a>,
}

impl<'a> Parser<'a> {
    /// The current token.
    pub closed spec fn token(&self) -> TokenView {
        self.current_token@
    }

    /// The text after the current token.
    pub closed spec fn rest(&self) -> Seq<char> {
        self.lexer.rest()
    }

    /// The tokens that the parser has yet to read, the current one first.
    pub open spec fn remaining(&self) -> Seq<TokenView> {
        tokens_from(self.token(), self.rest())
    }

    /// A parser at the end of an input.
    pub fn new() -> (parser: Self)
        ensures
            parser.token() is Eof,
            parser.rest() == seq!['\0'],
    {
        proof {
            reveal_strlit("\0");
            assert("\0"@ =~= seq!['\0']);
        }
        Parser { current_token: Token::Eof, lexer: Lexer::from("\0") }
    }

    /// Parses a key: the literals of `text`, in order. Separators between
    /// them are dropped. Any other token, or a second separator in a row,
    /// fails the whole text with `TokenMismatch`. A parse that succeeds
    /// leaves the parser at the end of the text, one that fails on the
    /// token that broke the grammar.
    pub fn parse(&mut self, text: &'a str) -> (r: Result<Tree, ParserErr>)
        ensures
            match r {
                Ok(tree) => {
                    &&& parse_spec(text@) == Some(tree@)
                    &&& final(self).token() is Eof
                    &&& final(self).rest().len() == 0
                },
                Err(e) => {
                    &&& parse_spec(text@) is None
                    &&& e == ParserErr::TokenMismatch
                    &&& (final(self).token(), final(self).rest()) == cursor(
                        text@,
                        literal_stop(tokens(text@)),
                    )
                },
            },
    {
        self.lexer.set(text);
        self.next_token()?;

        let mut tree = Tree { root: Vec::new() };
        let ghost mut at: nat = 0;
        assert(tree@ =~= Seq::empty());
        assert(tokens(text@) == self.remaining());

        while !self.current_token.is_eof()
            invariant
                parse_spec(text@) == prepend(tree@, literal_list(self.remaining())),
                self.token() is Eof ==> self.rest().len() == 0,
                (self.token(), self.rest()) == cursor(text@, at),
                literal_stop(tokens(text@)) == at + literal_stop(self.remaining()),
            ensures
                parse_spec(text@) == Some(tree@),
                self.token() is Eof,
                self.rest().len() == 0,
            decreases self.remaining().len(),
        {
            let ghost ahead = self.remaining();
            if self.current_token.is_delim() {
                self.next_token()?;
                assert(self.remaining() == ahead.skip(1));
                proof {
                    lemma_cursor_step(text@, at);
                    at = at + 1;
                }

                if self.current_token.is_eof() {
                    assert(tree@ + Seq::<NodeView>::empty() =~= tree@);
                    break ;
                }
            }
            let ghost body = self.remaining();
            let ghost before = tree@;
            assert(body == after_separator(ahead));

            let lit = self.literal()?;
            tree.root.push(Node::Literal(lit));

            self.next_token()?;
            proof {
                lemma_cursor_step(text@, at);
                at = at + 1;
                assert(self.remaining() == body.skip(1));
                assert(tree@ =~= before.push(NodeView::Literal(lit@)));
                match literal_list(self.remaining()) {
                    Some(tail) => {
                        assert(before + (seq![NodeView::Literal(lit@)] + tail) =~= tree@ + tail);
                    },
                    None => {},
                }
            }
            proof {
                if self.token() is Eof {
                    assert(tree@ + Seq::<NodeView>::empty() =~= tree@);
                }
            }
        }

        Ok(tree)
    }

    /// Parses a condition: the clauses of `text`, in order, each an
    /// operator and the literal after it. Separators between clauses are
    /// dropped. Any other sequence of tokens fails the whole text with
    /// `TokenMismatch`. A parse that succeeds leaves the parser at the end
    /// of the text, one that fails on the token that broke the grammar,
    /// which is the end of the text where a literal is missing there.
    pub fn parse_condition(&mut self, text: &'a str) -> (r: Result<Tree, ParserErr>)
        ensures
            match r {
                Ok(tree) => {
                    &&& parse_condition_spec(text@) == Some(tree@)
                    &&& final(self).token() is Eof
                    &&& final(self).rest().len() == 0
                },
                Err(e) => {
                    &&& parse_condition_spec(text@) is None
                    &&& e == ParserErr::TokenMismatch
                    &&& (final(self).token(), final(self).rest()) == cursor(
                        text@,
                        clause_stop(tokens(text@)),
                    )
                },
            },
    {
        self.lexer.set(text);
        self.next_token()?;

        let mut tree = Tree { root: Vec::new() };
        let ghost mut at: nat = 0;
        assert(tree@ =~= Seq::empty());
        assert(tokens(text@) == self.remaining());

        while !self.current_token.is_eof()
            invariant
                parse_condition_spec(text@) == prepend(tree@, clause_list(self.remaining())),
                self.token() is Eof ==> self.rest().len() == 0,
                (self.token(), self.rest()) == cursor(text@, at),
                clause_stop(tokens(text@)) == at + clause_stop(self.remaining()),
            ensures
                parse_condition_spec(text@) == Some(tree@),
                self.token() is Eof,
                self.rest().len() == 0,
            decreases self.remaining().len(),
        {
            let ghost ahead = self.remaining();
            if self.current_token.is_delim() {
                self.next_token()?;
                assert(self.remaining() == ahead.skip(1));
                proof {
                    lemma_cursor_step(text@, at);
                    at = at + 1;
                }

                if self.current_token.is_eof() {
                    assert(tree@ + Seq::<NodeView>::empty() =~= tree@);
                    break ;
                }
            }
            let ghost body = self.remaining();
            let ghost before = tree@;
            assert(body == after_separator(ahead));
            proof {
                lemma_cursor_step(text@, at);
                lemma_cursor_step(text@, at + 1);
            }

            let bin_op = self.bin_op()?;
            tree.root.push(Node::BinOp(bin_op));

            proof {
                at = at + 2;
                assert(self.remaining() == body.skip(2));
                assert(tree@ =~= before.push(NodeView::BinOp(bin_op@)));
                match clause_list(self.remaining()) {
                    Some(tail) => {
                        assert(before + (seq![NodeView::BinOp(bin_op@)] + tail) =~= tree@ + tail);
                    },
                    None => {},
                }
            }
            proof {
                if self.token() is Eof {
                    assert(tree@ + Seq::<NodeView>::empty() =~= tree@);
                }
            }
        }

        Ok(tree)
    }

    /// Makes the next token of the text the current one.
    fn next_token(&mut self) -> (r: Result<(), ParserErr>)
        ensures
            r is Ok,
            final(self).token() == next_token(old(self).rest()).0,
            final(self).rest() == next_token(old(self).rest()).1,
            final(self).remaining() == tokens(old(self).rest()),
            final(self).token() is Eof ==> final(self).rest().len() == 0,
    {
        proof {
            lemma_next_token(self.rest());
        }
        match self.lexer.next() {
            Ok(token) => {
                self.current_token = token;
                Ok(())
            },
            Err(_) => Err(ParserErr::Undefined),
        }
    }

    /// Reads one clause: the current token as its operator and the next
    /// one as its right side. The left side is the placeholder. Where the
    /// current token is no operator, the end of the text included, no
    /// token is read; where no literal follows the operator, the parser
    /// stays on what follows it. Both fail with `TokenMismatch`.
    fn bin_op(&mut self) -> (r: Result<BinOp, ParserErr>)
        ensures
            match r {
                Ok(bin_op) => {
                    &&& old(self).remaining().len() >= 2
                    &&& old(self).remaining()[0] matches TokenView::Op(op)
                    &&& old(self).remaining()[1] matches TokenView::Literal(rhs)
                    &&& NodeView::BinOp(bin_op@) == clause(op, rhs)
                    &&& final(self).remaining() == old(self).remaining().skip(2)
                    &&& final(self).token() is Eof ==> final(self).rest().len() == 0
                    &&& (final(self).token(), final(self).rest()) == next_token(
                        next_token(old(self).rest()).1,
                    )
                },
                Err(e) => {
                    &&& e == ParserErr::TokenMismatch
                    &&& !(old(self).remaining().len() >= 2 && old(self).remaining()[0] is Op
                        && old(self).remaining()[1] is Literal)
                    &&& (final(self).token(), final(self).rest()) == if old(self).token() is Op {
                        next_token(old(self).rest())
                    } else {
                        (old(self).token(), old(self).rest())
                    }
                },
            },
    {
        let ghost ahead = self.remaining();
        let op = match self.current_token {
            Token::Op(op) => op,
            _ => {
                return Err(ParserErr::TokenMismatch);
            },
        };

        self.next_token()?;
        let ghost second = self.remaining();
        assert(second == ahead.skip(1));

        let rhs = self.literal()?;

        self.next_token()?;
        assert(self.remaining() == second.skip(1));
        assert(second.skip(1) =~= ahead.skip(2));

        Ok(BinOp { lhs: Literal::placeholder(), op, rhs })
    }

    /// Takes the literal out of the current token and leaves the
    /// placeholder in its place.
    fn literal(&mut self) -> (r: Result<Literal, ParserErr>)
        ensures
            final(self).rest() == old(self).rest(),
            match r {
                Ok(lit) => {
                    &&& old(self).token() == TokenView::Literal(lit@)
                    &&& final(self).token() == TokenView::Literal(
                        LiteralView::placeholder(),
                    )
                },
                Err(e) => {
                    &&& e == ParserErr::TokenMismatch
                    &&& !(old(self).token() is Literal)
                    &&& final(self).token() == old(self).token()
                },
            },
    {
        match &mut self.current_token {
            Token::Literal(lit) => {
                let mut temp_lit = Literal::placeholder();
                core::mem::swap(&mut temp_lit, lit);

                Ok(temp_lit)
            },
            _ => Err(ParserErr::TokenMismatch),
        }
    }
}

impl Default for Parser<'_> {
    fn default() -> (parser: Self)
        ensures
            parser.token() is Eof,
            parser.rest() == seq!['\0'],
    {
        Parser::new()
    }
}

} // verus!
