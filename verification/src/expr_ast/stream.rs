//! The character stream under the tokenizer: the standard library's
//! `Peekable<Chars>`, which gives one character of lookahead.

use std::iter::Peekable;
use std::str::Chars;
use vstd::prelude::*;
use vstd::std_specs::iter::IteratorSpec;

verus! {

/// `std::iter::Peekable`, of which nothing but the pending characters is
/// known.
#[verifier::external_type_specification]
#[verifier::external_body]
#[verifier::reject_recursive_types(I)]
pub struct ExPeekable<I: Iterator>(Peekable<I>);

/// The characters that `stream` has yet to yield, in order, a peeked one
/// included.
pub uninterp spec fn pending(stream: Peekable<Chars<'_>>) -> Seq<char>;

/// `Iterator::peekable` on a `Chars`. Trusted: the stream yields exactly
/// what the iterator had left to yield.
#[verifier::external_body]
pub(crate) fn stream_of<'a>(chars: Chars<'a>) -> (stream: Peekable<Chars<'a>>)
    ensures
        pending(stream) == chars.remaining(),
{
    chars.peekable()
}

/// `Peekable::peek`. Trusted: it returns the first pending character, or
/// `None` where none is left, and leaves the pending characters as they
/// were.
#[verifier::external_body]
pub(crate) fn peek(stream: &mut Peekable<Chars<'_>>) -> (c: Option<char>)
    ensures
        pending(*final(stream)) == pending(*old(stream)),
        c == if pending(*old(stream)).len() > 0 {
            Some(pending(*old(stream))[0])
        } else {
            None
        },
{
    stream.peek().copied()
}

/// `Peekable::next`. Trusted: it returns the first pending character and
/// removes it, or returns `None` and changes nothing where none is left.
#[verifier::external_body]
pub(crate) fn advance(stream: &mut Peekable<Chars<'_>>) -> (c: Option<char>)
    ensures
        pending(*final(stream)) == if pending(*old(stream)).len() > 0 {
            pending(*old(stream)).skip(1)
        } else {
            pending(*old(stream))
        },
        c == if pending(*old(stream)).len() > 0 {
            Some(pending(*old(stream))[0])
        } else {
            None
        },
{
    stream.next()
}

/// `String::push` of the standard library. Trusted: the character is
/// appended to the text.
pub assume_specification[ String::push ](s: &mut String, c: char)
    ensures
        final(s)@ == old(s)@.push(c),
;

} // verus!
