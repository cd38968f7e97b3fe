//! The tokenizer.
//!
//! A text is read token by token: operators, numeric literals, and
//! separators, which are runs of any other characters. White space and
//! parentheses between tokens are dropped. No text fails.

use crate::expr_ast::charset::{
    is_digit, is_digit_char, is_ignore_char, is_separator_char, lemma_run_len_bound, run_len,
    CharClass,
};
use crate::expr_ast::stream::{advance, peek, pending, stream_of};
use crate::expr_ast::token::literal::{Literal, LiteralView};
use crate::expr_ast::token::op::OpKind;
use crate::expr_ast::token::{Token, TokenView};
use std::iter::Peekable;
use std::str::Chars;
use vstd::prelude::*;

verus! {

broadcast use vstd::string::group_string_axioms;

/// The tokenizer has no failure: `Lexer::next` returns `Ok` on every text.
/// The variant is never built.
#[derive(Debug)]
pub enum LexerErr {
    Never,
}

/// The numeric literal at the head of `s`, and what follows it: the longest
/// run of digits and, if a point follows the run, the point and the longest
/// run of digits after it.
pub open spec fn number_at(s: Seq<char>) -> (LiteralView, Seq<char>) {
    let d = run_len(s, CharClass::Digit) as int;
    if d < s.len() && s[d] == '.' {
        let f = run_len(s.skip(d + 1), CharClass::Digit) as int;
        (LiteralView::Float(s.take(d + 1 + f)), s.skip(d + 1 + f))
    } else {
        (LiteralView::Integer(s.take(d)), s.skip(d))
    }
}

/// The operator that begins with `ch`, and what is left of `s` after it,
/// when `ch` has been seen at the head of `s`; `None` where `ch` begins no
/// operator. The longest operator wins: `>=` before `>`, and `<=` and `<>`
/// before `<`.
pub open spec fn op_from(ch: char, s: Seq<char>) -> Option<(OpKind, Seq<char>)> {
    let t = if s.len() > 0 {
        s.skip(1)
    } else {
        s
    };
    if ch == '=' {
        Some((OpKind::Eq, t))
    } else if ch == '>' {
        if t.len() > 0 && t[0] == '=' {
            Some((OpKind::Ge, t.skip(1)))
        } else {
            Some((OpKind::Gt, t))
        }
    } else if ch == '<' {
        if t.len() > 0 && t[0] == '=' {
            Some((OpKind::Le, t.skip(1)))
        } else if t.len() > 0 && t[0] == '>' {
            Some((OpKind::Ne, t.skip(1)))
        } else {
            Some((OpKind::Lt, t))
        }
    } else {
        None
    }
}

/// The operator at the head of `s`, and what follows it; `None` where `s`
/// does not begin with an operator.
pub open spec fn op_at(s: Seq<char>) -> Option<(OpKind, Seq<char>)> {
    if s.len() == 0 {
        None
    } else {
        op_from(s[0], s)
    }
}

/// The first token of `s`, and the text that follows it. Ignored
/// characters before the token are dropped. A text without a token gives
/// `Eof` and nothing after it.
pub open spec fn next_token(s: Seq<char>) -> (TokenView, Seq<char>) {
    let t = s.skip(run_len(s, CharClass::Ignored) as int);
    if t.len() == 0 {
        (TokenView::Eof, t)
    } else {
        match op_at(t) {
            Some((op, after)) => (TokenView::Op(op), after),
            None => if is_digit(t[0]) {
                (TokenView::Literal(number_at(t).0), number_at(t).1)
            } else {
                (TokenView::Delim, t.skip(run_len(t, CharClass::Separator) as int))
            },
        }
    }
}

/// Every token but `Eof` takes at least one character, and the literals
/// among the tokens have the shape of a number.
pub proof fn lemma_next_token(s: Seq<char>)
    ensures
        next_token(s).1.len() <= s.len(),
        !(next_token(s).0 is Eof) ==> next_token(s).1.len() < s.len(),
        next_token(s).0 is Eof ==> next_token(s).1.len() == 0,
        next_token(s).0 matches TokenView::Literal(lit) ==> lit.wf(),
{
    let i = run_len(s, CharClass::Ignored) as int;
    lemma_run_len_bound(s, CharClass::Ignored);
    let t = s.skip(i);
    if t.len() > 0 && op_at(t) is None {
        if is_digit(t[0]) {
            lemma_number_at(t);
        } else {
            lemma_run_len_bound(t, CharClass::Separator);
            assert(CharClass::Separator.holds(t[0])) by {
                assert(t[0] == s[i]);
            }
        }
    }
}

/// A text that begins with a digit begins with a well-formed literal.
pub proof fn lemma_number_at(s: Seq<char>)
    requires
        s.len() > 0,
        is_digit(s[0]),
    ensures
        number_at(s).0.wf(),
        number_at(s).1.len() < s.len(),
        number_at(s).0.text() + number_at(s).1 == s,
{
    let d = run_len(s, CharClass::Digit) as int;
    lemma_run_len_bound(s, CharClass::Digit);
    if d < s.len() && s[d] == '.' {
        let rest = s.skip(d + 1);
        let f = run_len(rest, CharClass::Digit) as int;
        lemma_run_len_bound(rest, CharClass::Digit);
        let text = s.take(d + 1 + f);
        lemma_run_len_prefix(s, text, CharClass::Digit);
        assert(run_len(text, CharClass::Digit) == d);
        assert(text[d] == '.');
        assert forall|i: int| 0 <= i < text.skip(d + 1).len() implies is_digit(
            #[trigger] text.skip(d + 1)[i],
        ) by {
            assert(text.skip(d + 1)[i] == rest[i]);
        }
        assert(text + s.skip(d + 1 + f) =~= s);
    } else {
        assert(s.take(d) + s.skip(d) =~= s);
    }
}

/// A run that ends inside a prefix of a text is the run of that prefix.
pub proof fn lemma_run_len_prefix(s: Seq<char>, prefix: Seq<char>, class: CharClass)
    requires
        prefix.len() <= s.len(),
        prefix == s.take(prefix.len() as int),
        run_len(s, class) < prefix.len(),
    ensures
        run_len(prefix, class) == run_len(s, class),
    decreases s.len(),
{
    if s.len() > 0 && class.holds(s[0]) {
        assert(prefix[0] == s[0]);
        assert(prefix.skip(1) =~= s.skip(1).take(prefix.len() - 1));
        lemma_run_len_prefix(s.skip(1), prefix.skip(1), class);
    } else {
        assert(prefix[0] == s[0]);
    }
}

/// A tokenizer over a text, with one character of lookahead.
#[derive(Debug)]
pub struct Lexer<'a> {
    current_char: Peekable<Chars<'a>>,
}

impl<'a> Lexer<'a> {
    /// The text that has not been read yet.
    pub closed spec fn rest(&self) -> Seq<char> {
        pending(self.current_char)
    }

    /// A tokenizer at the beginning of `text`.
    pub fn from(text: &'a str) -> (lexer: Self)
        ensures
            lexer.rest() == text@,
    {
        Lexer { current_char: stream_of(text.chars()) }
    }

    /// Starts over, at the beginning of `text`.
    pub fn set(&mut self, text: &'a str)
        ensures
            final(self).rest() == text@,
    {
        self.current_char = stream_of(text.chars());
    }

    /// Reads the next token. After the last token it returns `Eof`, and
    /// goes on returning it.
    pub fn next(&mut self) -> (r: Result<Token, LexerErr>)
        ensures
            r matches Ok(token) && token@ == next_token(old(self).rest()).0,
            final(self).rest() == next_token(old(self).rest()).1,
    {
        self.skip();
        match peek(&mut self.current_char) {
            None => Ok(Token::Eof),
            Some(next_char) => {
                if let Some(op) = self.op_kind(next_char) {
                    Ok(Token::Op(op))
                } else if is_digit_char(next_char) {
                    Ok(Token::Literal(self.number()))
                } else {
                    self.skip_delim();
                    Ok(Token::Delim)
                }
            },
        }
    }

    /// Reads the literal at the head of the text.
    fn number(&mut self) -> (lit: Literal)
        ensures
            lit@ == number_at(old(self).rest()).0,
            final(self).rest() == number_at(old(self).rest()).1,
    {
        let ghost s = self.rest();
        let mut int_part = self.integer();
        let ghost d = run_len(s, CharClass::Digit) as int;
        proof {
            lemma_run_len_bound(s, CharClass::Digit);
        }
        match peek(&mut self.current_char) {
            Some('.') => {
                advance(&mut self.current_char);
                int_part.push('.');
                let ghost after = self.rest();
                let frac_part = self.integer();
                let text = int_part.concat(frac_part.as_str());
                proof {
                    assert(after =~= s.skip(d + 1));
                    let f = run_len(after, CharClass::Digit) as int;
                    lemma_run_len_bound(after, CharClass::Digit);
                    assert(text@ =~= s.take(d + 1 + f));
                    assert(self.rest() =~= s.skip(d + 1 + f));
                }
                Literal::Float(text)
            },
            _ => Literal::Integer(int_part),
        }
    }

    /// Reads the longest run of digits at the head of the text.
    fn integer(&mut self) -> (digits: String)
        ensures
            digits@ == old(self).rest().take(run_len(old(self).rest(), CharClass::Digit) as int),
            final(self).rest() == old(self).rest().skip(
                run_len(old(self).rest(), CharClass::Digit) as int,
            ),
    {
        let ghost s = self.rest();
        let ghost mut n: int = 0;
        let mut digits = String::new();
        loop
            invariant
                0 <= n <= s.len(),
                self.rest() == s.skip(n),
                digits@ == s.take(n),
                run_len(s, CharClass::Digit) == n + run_len(self.rest(), CharClass::Digit),
            ensures
                0 <= n <= s.len(),
                self.rest() == s.skip(n),
                digits@ == s.take(n),
                run_len(s, CharClass::Digit) == n,
            decreases s.len() - n,
        {
            match peek(&mut self.current_char) {
                Some(c) => {
                    if is_digit_char(c) {
                        advance(&mut self.current_char);
                        digits.push(c);
                        proof {
                            assert(s.skip(n).skip(1) =~= s.skip(n + 1));
                            assert(s.take(n).push(c) =~= s.take(n + 1));
                            n = n + 1;
                        }
                    } else {
                        break ;
                    }
                },
                None => {
                    break ;
                },
            }
        }
        digits
    }

    /// Drops the ignored characters at the head of the text.
    fn skip(&mut self)
        ensures
            final(self).rest() == old(self).rest().skip(
                run_len(old(self).rest(), CharClass::Ignored) as int,
            ),
    {
        let ghost s = self.rest();
        let ghost mut n: int = 0;
        proof {
            assert(s.skip(0) =~= s);
        }
        loop
            invariant
                0 <= n <= s.len(),
                self.rest() == s.skip(n),
                run_len(s, CharClass::Ignored) == n + run_len(self.rest(), CharClass::Ignored),
            ensures
                self.rest() == s.skip(n),
                run_len(s, CharClass::Ignored) == n,
            decreases s.len() - n,
        {
            match peek(&mut self.current_char) {
                Some(c) => {
                    if is_ignore_char(c) {
                        advance(&mut self.current_char);
                        proof {
                            assert(s.skip(n).skip(1) =~= s.skip(n + 1));
                            n = n + 1;
                        }
                    } else {
                        break ;
                    }
                },
                None => {
                    break ;
                },
            }
        }
    }

    /// Drops the longest run of separator characters at the head of the
    /// text.
    fn skip_delim(&mut self)
        ensures
            final(self).rest() == old(self).rest().skip(
                run_len(old(self).rest(), CharClass::Separator) as int,
            ),
    {
        let ghost s = self.rest();
        let ghost mut n: int = 0;
        proof {
            assert(s.skip(0) =~= s);
        }
        loop
            invariant
                0 <= n <= s.len(),
                self.rest() == s.skip(n),
                run_len(s, CharClass::Separator) == n + run_len(
                    self.rest(),
                    CharClass::Separator,
                ),
            ensures
                self.rest() == s.skip(n),
                run_len(s, CharClass::Separator) == n,
            decreases s.len() - n,
        {
            match peek(&mut self.current_char) {
                Some(c) => {
                    if is_separator_char(c) {
                        advance(&mut self.current_char);
                        proof {
                            assert(s.skip(n).skip(1) =~= s.skip(n + 1));
                            n = n + 1;
                        }
                    } else {
                        break ;
                    }
                },
                None => {
                    break ;
                },
            }
        }
    }

    /// Reads the operator that begins with `ch`, the character seen at the
    /// head of the text. Where `ch` begins no operator, nothing is read.
    fn op_kind(&mut self, ch: char) -> (r: Option<OpKind>)
        ensures
            match op_from(ch, old(self).rest()) {
                Some((op, after)) => r == Some(op) && final(self).rest() == after,
                None => r is None && final(self).rest() == old(self).rest(),
            },
    {
        match ch {
            '=' => {
                advance(&mut self.current_char);
                Some(OpKind::Eq)
            },
            '>' => {
                advance(&mut self.current_char);
                match peek(&mut self.current_char) {
                    Some('=') => {
                        advance(&mut self.current_char);
                        Some(OpKind::Ge)
                    },
                    _ => Some(OpKind::Gt),
                }
            },
            '<' => {
                advance(&mut self.current_char);
                match peek(&mut self.current_char) {
                    Some('=') => {
                        advance(&mut self.current_char);
                        Some(OpKind::Le)
                    },
                    Some('>') => {
                        advance(&mut self.current_char);
                        Some(OpKind::Ne)
                    },
                    _ => Some(OpKind::Lt),
                }
            },
            _ => None,
        }
    }
}

} // verus!
