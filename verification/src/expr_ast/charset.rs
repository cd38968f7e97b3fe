//! The character classes of the tokenizer.

use vstd::prelude::*;

verus! {

broadcast use vstd::string::group_string_axioms;

/// Whether `c` has the Unicode property `White_Space`: the controls from
/// tab to carriage return, the space, next line, the no-break space, and
/// the spaces and separators of the blocks from U+1680 on.
pub open spec fn is_white_space(c: char) -> bool {
    ||| '\u{9}' <= c <= '\u{d}'
    ||| c == ' '
    ||| c == '\u{85}'
    ||| c == '\u{a0}'
    ||| c == '\u{1680}'
    ||| '\u{2000}' <= c <= '\u{200a}'
    ||| c == '\u{2028}'
    ||| c == '\u{2029}'
    ||| c == '\u{202f}'
    ||| c == '\u{205f}'
    ||| c == '\u{3000}'
}

/// Whether `c` has the Unicode property `Alphabetic`.
pub uninterp spec fn unicode_alphabetic(c: char) -> bool;

/// Whether `c` is alphabetic. Up to U+007F the alphabetic characters are
/// the letters from `a` to `z` and from `A` to `Z`; beyond, the Unicode
/// property decides.
pub open spec fn is_letter(c: char) -> bool {
    if c <= '\u{7f}' {
        'a' <= c <= 'z' || 'A' <= c <= 'Z'
    } else {
        unicode_alphabetic(c)
    }
}

/// `char::is_whitespace` of the standard library. Trusted: the result is
/// the Unicode property `White_Space` of `c`, which the contract spells
/// out.
#[verifier::external_body]
pub(crate) fn is_whitespace(c: char) -> (r: bool)
    ensures
        r == is_white_space(c),
{
    c.is_whitespace()
}

/// `char::is_alphabetic` of the standard library. Trusted: the result is
/// the Unicode property `Alphabetic` of `c`. The contract spells it out up
/// to U+007F and names it beyond.
#[verifier::external_body]
pub(crate) fn is_alphabetic(c: char) -> (r: bool)
    ensures
        r == is_letter(c),
        c > '\u{7f}' ==> r == unicode_alphabetic(c),
{
    c.is_alphabetic()
}

/// An ASCII digit.
pub open spec fn is_digit(c: char) -> bool {
    '0' <= c <= '9'
}

/// A character with which an operator begins.
pub open spec fn is_op_char(c: char) -> bool {
    c == '<' || c == '>' || c == '='
}

/// Noise between tokens: white space and the two parentheses.
pub open spec fn is_ignored(c: char) -> bool {
    is_white_space(c) || c == '(' || c == ')'
}

/// The classes of characters of which the tokenizer reads maximal runs.
pub enum CharClass {
    /// White space and parentheses.
    Ignored,
    /// ASCII digits.
    Digit,
    /// Everything that is neither ignored, nor a digit, nor the beginning
    /// of an operator.
    Separator,
}

impl CharClass {
    /// Whether `c` belongs to the class.
    pub open spec fn holds(self, c: char) -> bool {
        match self {
            CharClass::Ignored => is_ignored(c),
            CharClass::Digit => is_digit(c),
            CharClass::Separator => !is_ignored(c) && !is_digit(c) && !is_op_char(c),
        }
    }
}

/// The length of the longest prefix of `s` whose characters all belong to
/// `class`.
pub open spec fn run_len(s: Seq<char>, class: CharClass) -> nat
    decreases s.len(),
{
    if s.len() > 0 && class.holds(s[0]) {
        1 + run_len(s.skip(1), class)
    } else {
        0
    }
}

/// Whether `s` holds digits only.
pub open spec fn all_digits(s: Seq<char>) -> bool {
    forall|i: int| 0 <= i < s.len() ==> is_digit(#[trigger] s[i])
}

/// Whether some character of `s` is alphabetic.
pub open spec fn has_alphabetic(s: Seq<char>) -> bool {
    exists|i: int| 0 <= i < s.len() && is_letter(#[trigger] s[i])
}

/// The texts that are read as numbers: a non-empty run of digits, after
/// which a point and a further run of digits, which may be empty, may
/// follow.
pub open spec fn is_numeral(s: Seq<char>) -> bool {
    let d = run_len(s, CharClass::Digit) as int;
    &&& d > 0
    &&& d == s.len() || (s[d] == '.' && all_digits(s.skip(d + 1)))
}

/// Whether `c` is noise between tokens.
pub fn is_ignore_char(c: char) -> (r: bool)
    ensures
        r == is_ignored(c),
{
    is_whitespace(c) || c == '(' || c == ')'
}

/// Whether `c` is an ASCII digit.
pub fn is_digit_char(c: char) -> (r: bool)
    ensures
        r == is_digit(c),
{
    '0' <= c && c <= '9'
}

/// Whether `c` can stand in a run of separator characters.
pub fn is_separator_char(c: char) -> (r: bool)
    ensures
        r == CharClass::Separator.holds(c),
{
    !is_ignore_char(c) && !is_digit_char(c) && !(c == '<' || c == '>' || c == '=')
}

/// Whether some character of `text` is alphabetic.
pub fn contains_alphabetic(text: &str) -> (found: bool)
    ensures
        found == has_alphabetic(text@),
{
    let mut found = false;
    for c in it: text.chars()
        invariant
            it.seq() == text@,
            found == has_alphabetic(text@.take(it.index() as int)),
    {
        proof {
            let i = it.index() as int;
            let shorter = text@.take(i);
            let longer = text@.take(i + 1);
            assert(longer[i] == c);
            if has_alphabetic(shorter) {
                let w = choose|w: int| 0 <= w < shorter.len() && is_letter(shorter[w]);
                assert(longer[w] == shorter[w]);
            }
            if has_alphabetic(longer) && !is_letter(c) {
                let w = choose|w: int| 0 <= w < longer.len() && is_letter(longer[w]);
                assert(shorter[w] == longer[w]);
            }
        }
        if is_alphabetic(c) {
            found = true;
        }
    }
    assert(text@.take(text@.len() as int) =~= text@);
    found
}

/// A run lies within its text, holds characters of its class only, and
/// ends before a character of another class.
pub proof fn lemma_run_len_bound(s: Seq<char>, class: CharClass)
    ensures
        run_len(s, class) <= s.len(),
        forall|i: int| 0 <= i < run_len(s, class) ==> class.holds(#[trigger] s[i]),
        run_len(s, class) < s.len() ==> !class.holds(s[run_len(s, class) as int]),
    decreases s.len(),
{
    if s.len() > 0 && class.holds(s[0]) {
        lemma_run_len_bound(s.skip(1), class);
        assert forall|i: int| 0 <= i < run_len(s, class) implies class.holds(#[trigger] s[i]) by {
            if i > 0 {
                assert(s[i] == s.skip(1)[i - 1]);
            }
        }
        if run_len(s, class) < s.len() {
            assert(s[run_len(s, class) as int] == s.skip(1)[run_len(s.skip(1), class) as int]);
        }
    }
}

} // verus!
