//! Decimal numerals as binary64 numbers.
//!
//! A clause compares two numerals as double-precision numbers: each is
//! rounded to the nearest number that binary64 can hold, ties to the even
//! neighbour, and the rounded numbers are compared. No floating-point
//! arithmetic is used for it. A numeral is turned into the bit pattern of
//! its binary64 number, an integer; among the non-negative numbers of
//! binary64, infinity included, the order of the bit patterns is the order
//! of the numbers they encode. The module `rounding` says what a pattern
//! encodes and proves both that order and that the pattern of a numeral is
//! the nearest one.

use crate::expr_ast::charset::{
    is_digit, is_digit_char, is_numeral, lemma_run_len_bound, run_len, CharClass,
};
use crate::natural::Natural;
use vstd::arithmetic::div_mod::{
    lemma_breakdown, lemma_div_denominator, lemma_div_multiples_vanish_quotient,
    lemma_fundamental_div_mod, lemma_fundamental_div_mod_converse,
};
use vstd::arithmetic::power2::{
    lemma2_to64, lemma_pow2_adds, lemma_pow2_pos, lemma_pow2_unfold, pow2,
};
use vstd::prelude::*;

verus! {

broadcast use vstd::string::group_string_axioms;

/// The bit pattern of positive infinity.
pub const INFINITY_BITS: u64 = 0x7FF0_0000_0000_0000;

/// The value of a digit.
pub open spec fn digit_of(c: char) -> nat {
    (c as nat - '0' as nat) as nat
}

/// The number that a run of digits denotes in base ten.
pub open spec fn digits_value(s: Seq<char>) -> nat
    decreases s.len(),
{
    if s.len() == 0 {
        0
    } else {
        10 * digits_value(s.drop_last()) + digit_of(s.last())
    }
}

/// Ten to the power `k`.
pub open spec fn pow10(k: nat) -> nat
    decreases k,
{
    if k == 0 {
        1
    } else {
        10 * pow10((k - 1) as nat)
    }
}

/// The digits of a numeral before its point.
pub open spec fn integer_digits(s: Seq<char>) -> Seq<char> {
    s.take(run_len(s, CharClass::Digit) as int)
}

/// The digits of a numeral after its point; none where it has no point.
pub open spec fn fraction_digits(s: Seq<char>) -> Seq<char> {
    let d = run_len(s, CharClass::Digit) as int;
    if d < s.len() {
        s.skip(d + 1)
    } else {
        Seq::empty()
    }
}

/// A numeral without its point, as a number. The numeral `s` denotes
/// `numerator(s) / pow10(scale(s))`.
pub open spec fn numerator(s: Seq<char>) -> nat {
    digits_value(integer_digits(s) + fraction_digits(s))
}

/// The number of digits after the point of a numeral.
pub open spec fn scale(s: Seq<char>) -> nat {
    fraction_digits(s).len()
}

/// How many binary digits `q` has beyond fifty-three.
pub open spec fn excess_bits(q: nat) -> nat
    decreases q,
{
    if q < 0x20_0000_0000_0000 {
        0
    } else {
        1 + excess_bits(q / 2)
    }
}

/// The integer nearest to `a / d`; of two that are equally near, the even
/// one.
pub open spec fn round_half_even(a: nat, d: nat) -> nat {
    let q = a / d;
    let r = a % d;
    if 2 * r < d {
        q
    } else if 2 * r > d {
        q + 1
    } else {
        q + q % 2
    }
}

/// The bit pattern of the binary64 number nearest to `n / pow10(k)`.
///
/// Binary64 numbers are multiples of 2^-1074, so the number is taken in
/// that unit: `a / b` below. Up to 2^53 units the numbers of binary64 are
/// one unit apart, and the distance doubles with each further binary digit:
/// it is `2^j` units. The number is rounded to a multiple `m` of that
/// distance, and the pattern of `m * 2^j` units is `j * 2^52 + m`: the
/// exponent field above the fraction field, a carry out of the fraction
/// moving on into the exponent. What lies at or above the pattern of
/// infinity is infinity.
pub open spec fn nearest_bits(n: nat, k: nat) -> nat {
    let a = n * pow2(1074);
    let b = pow10(k);
    let j = excess_bits(a / b);
    let bits = j * 0x10_0000_0000_0000 + round_half_even(a, b * pow2(j));
    if bits < INFINITY_BITS {
        bits
    } else {
        INFINITY_BITS as nat
    }
}

/// The bit pattern of the binary64 number that the numeral `s` is read as.
pub open spec fn numeral_bits(s: Seq<char>) -> nat {
    nearest_bits(numerator(s), scale(s))
}

pub proof fn lemma_pow10_pos(k: nat)
    ensures
        pow10(k) > 0,
    decreases k,
{
    if k > 0 {
        lemma_pow10_pos((k - 1) as nat);
    }
}

/// Dividing a quotient once more is dividing by the product, and the
/// division by the product is exact where both steps are.
proof fn lemma_divide_further(t: nat, d: nat, c: nat)
    requires
        d > 0,
        c > 0,
    ensures
        d * c > 0,
        (t / d) / c == t / (d * c),
        (t % (d * c) != 0) == (t % d != 0 || (t / d) % c != 0),
{
    lemma_div_denominator(t as int, d as int, c as int);
    lemma_breakdown(t as int, d as int, c as int);
    let h = (t / d) % c;
    assert(h == 0 ==> d * h == 0) by (nonlinear_arith);
    assert(h > 0 ==> d * h > 0) by (nonlinear_arith)
        requires
            d > 0,
    ;
}

/// Rounding `a / d` from the quotient of `2 * a` by `d`: its last binary
/// digit says whether `a / d` is at least half way to the next integer,
/// and `exact` whether it is a multiple of one half.
proof fn lemma_round(a: nat, d: nat, q: nat, exact: bool)
    requires
        d > 0,
        q == (2 * a) / d,
        exact == ((2 * a) % d == 0),
    ensures
        round_half_even(a, d) == q / 2 + if q % 2 == 1 && (!exact || (q / 2) % 2 == 1) {
            1nat
        } else {
            0nat
        },
{
    let m = a / d;
    let r = a % d;
    lemma_fundamental_div_mod(a as int, d as int);
    if 2 * r < d {
        assert(2 * a == d * (2 * m) + 2 * r) by (nonlinear_arith)
            requires
                a == d * m + r,
        ;
        lemma_fundamental_div_mod_converse((2 * a) as int, d as int, (2 * m) as int, (2 * r) as int);
    } else {
        assert(2 * a == d * (2 * m + 1) + (2 * r - d)) by (nonlinear_arith)
            requires
                a == d * m + r,
        ;
        lemma_fundamental_div_mod_converse(
            (2 * a) as int,
            d as int,
            (2 * m + 1) as int,
            (2 * r - d) as int,
        );
    }
}

/// The value of a digit.
fn digit_value(c: char) -> (v: u32)
    requires
        is_digit(c),
    ensures
        v == digit_of(c),
{
    c as u32 - '0' as u32
}

/// The characters of `text`.
fn chars_of(text: &str) -> (chars: Vec<char>)
    ensures
        chars@ == text@,
{
    let mut chars: Vec<char> = Vec::new();
    for c in it: text.chars()
        invariant
            chars@ == text@.take(it.index() as int),
            it.seq() == text@,
    {
        chars.push(c);
    }
    chars
}

/// Reads the digits of `chars` from `from` on into `number`, up to the
/// first character that is no digit. Returns the number and the position
/// of that character.
fn read_digits(chars: &Vec<char>, from: usize, number: Natural, Ghost(read): Ghost<Seq<char>>) -> (r:
    (Natural, usize))
    requires
        from <= chars@.len(),
        number@ == digits_value(read),
    ensures
        from <= r.1 <= chars@.len(),
        r.1 - from == run_len(chars@.skip(from as int), CharClass::Digit),
        r.0@ == digits_value(read + chars@.subrange(from as int, r.1 as int)),
{
    let mut number = number;
    let mut i: usize = from;
    let ghost s = chars@;
    proof {
        assert(read + s.subrange(from as int, from as int) =~= read);
    }
    while i < chars.len() && is_digit_char(chars[i])
        invariant
            s == chars@,
            from <= i <= s.len(),
            number@ == digits_value(read + s.subrange(from as int, i as int)),
            run_len(s.skip(from as int), CharClass::Digit) == (i - from) + run_len(
                s.skip(i as int),
                CharClass::Digit,
            ),
        decreases s.len() - i,
    {
        let c = chars[i];
        proof {
            let before = read + s.subrange(from as int, i as int);
            let after = read + s.subrange(from as int, i + 1);
            assert(after.drop_last() =~= before);
            assert(after.last() == c);
            assert(s.skip(i as int)[0] == c);
            assert(s.skip(i as int).skip(1) =~= s.skip(i + 1));
        }
        number = number.mul_add(10, digit_value(c));
        i = i + 1;
    }
    proof {
        if i < s.len() {
            assert(s.skip(i as int)[0] == s[i as int]);
        }
    }
    (number, i)
}

/// Splits a numeral into its numerator and its scale. `None` where
/// `chars` is no numeral.
fn read_numeral(chars: &Vec<char>) -> (r: Option<(Natural, usize)>)
    ensures
        match r {
            Some((n, k)) => is_numeral(chars@) && n@ == numerator(chars@) && k == scale(chars@),
            None => !is_numeral(chars@),
        },
{
    let ghost s = chars@;
    proof {
        assert(s.skip(0) =~= s);
        lemma_run_len_bound(s, CharClass::Digit);
    }
    let (whole, d) = read_digits(chars, 0, Natural::zero(), Ghost(Seq::empty()));
    proof {
        assert(Seq::<char>::empty() + s.subrange(0, d as int) =~= s.take(d as int));
    }
    if d == 0 {
        return None;
    }
    if d == chars.len() {
        proof {
            assert(integer_digits(s) + fraction_digits(s) =~= s.take(d as int));
        }
        return Some((whole, 0));
    }
    if chars[d] != '.' {
        return None;
    }
    let ghost tail = s.skip(d + 1);
    proof {
        lemma_run_len_bound(tail, CharClass::Digit);
    }
    let (all, end) = read_digits(chars, d + 1, whole, Ghost(s.take(d as int)));
    if end < chars.len() {
        proof {
            assert(!is_digit(tail[end - d - 1]));
        }
        return None;
    }
    proof {
        assert(s.subrange(d + 1, end as int) =~= tail);
        assert forall|i: int| 0 <= i < tail.len() implies is_digit(#[trigger] tail[i]) by {}
    }
    Some((all, end - d - 1))
}

/// A number with at least `s` binary digits beyond fifty-three has `s`
/// more of them than it has after `s` halvings.
proof fn lemma_excess_bits_shift(q: nat, s: nat)
    requires
        q >= 0x20_0000_0000_0000 * pow2(s),
    ensures
        excess_bits(q) == s + excess_bits(q / pow2(s)),
    decreases s,
{
    lemma2_to64();
    if s == 0 {
        assert(q / pow2(0) == q);
    } else {
        let less = (s - 1) as nat;
        lemma_pow2_unfold(s);
        lemma_pow2_pos(less);
        lemma_pow2_pos(s);
        assert(q >= 0x20_0000_0000_0000) by (nonlinear_arith)
            requires
                q >= 0x20_0000_0000_0000 * pow2(s),
                pow2(s) >= 1,
        ;
        assert(q >= 2 * (0x20_0000_0000_0000 * pow2(less))) by (nonlinear_arith)
            requires
                q >= 0x20_0000_0000_0000 * pow2(s),
                pow2(s) == 2 * pow2(less),
        ;
        lemma_excess_bits_shift(q / 2, less);
        lemma_div_denominator(q as int, 2, pow2(less) as int);
        assert(q / 2 / pow2(less) == q / pow2(s));
    }
}

/// The bit pattern of the binary64 number nearest to `n / pow10(k)`.
fn nearest(n: Natural, k: usize) -> (bits: u64)
    ensures
        bits == nearest_bits(n@, k as nat),
{
    let ghost value = n@;
    let ghost a = value * pow2(1074);
    let ghost b = pow10(k as nat);
    let ghost t = 2 * a;
    proof {
        lemma_pow10_pos(k as nat);
        lemma2_to64();
        assert(value * pow2(0) == value) by (nonlinear_arith)
            requires
                pow2(0) == 1,
        ;
    }

    // t, the number in halves of a unit
    let mut cur = n;
    let mut step: usize = 0;
    while step < 43
        invariant
            step <= 43,
            cur@ == value * pow2(25 * step as nat),
        decreases 43 - step,
    {
        proof {
            lemma2_to64();
            lemma_pow2_adds(25 * step as nat, 25);
            assert(value * pow2(25 * step as nat) * 0x200_0000 == value * (pow2(
                25 * step as nat,
            ) * 0x200_0000)) by (nonlinear_arith);
        }
        cur = cur.mul_add(0x200_0000, 0);
        step = step + 1;
    }
    proof {
        lemma_pow2_unfold(1075);
        assert(value * (2 * pow2(1074)) == 2 * (value * pow2(1074))) by (nonlinear_arith);
    }

    // t / b, and whether the division was exact
    let mut exact = true;
    let mut done: usize = 0;
    let ghost mut den: nat = 1;
    while done < k
        invariant
            done <= k,
            den == pow10(done as nat),
            den > 0,
            cur@ == t / den,
            exact == (t % den == 0),
        decreases k - done,
    {
        proof {
            lemma_divide_further(t, den, 10);
            den = den * 10;
        }
        let (quotient, rem) = cur.div_rem(10);
        cur = quotient;
        exact = exact && rem == 0;
        done = done + 1;
    }

    // halved until fifty-four binary digits are left
    let mut j: u64 = 0;
    proof {
        assert(b * pow2(0) == b) by (nonlinear_arith)
            requires
                pow2(0) == 1,
        ;
        lemma_divide_further(t, b, 2);
        lemma_div_multiples_vanish_quotient(2, a as int, b as int);
    }
    loop
        invariant
            value == n@,
            a == value * pow2(1074),
            b == pow10(k as nat),
            t == 2 * a,
            j <= 2046,
            b > 0,
            b * pow2(j as nat) > 0,
            cur@ == t / (b * pow2(j as nat)),
            exact == (t % (b * pow2(j as nat)) == 0),
            excess_bits(a / b) == j + excess_bits(cur@ / 2),
        decreases 2046 - j,
    {
        let small = cur.to_u64();
        let fits = match small {
            Some(q) => q < 0x40_0000_0000_0000,
            None => false,
        };
        if fits {
            let q = small.unwrap();
            proof {
                lemma_round(a, b * pow2(j as nat), q as nat, exact);
                assert(excess_bits(cur@ / 2) == 0);
            }
            let up: u64 = if q % 2 == 1 && (!exact || (q / 2) % 2 == 1) {
                1
            } else {
                0
            };
            let bits: u64 = j * 0x10_0000_0000_0000 + (q / 2 + up);
            return if bits < INFINITY_BITS {
                bits
            } else {
                INFINITY_BITS
            };
        }
        assert(cur@ >= 0x40_0000_0000_0000);
        assert(excess_bits(cur@ / 2) == 1 + excess_bits(cur@ / 2 / 2));
        if j == 2046 {
            assert(excess_bits(a / b) >= 2047);
            return INFINITY_BITS;
        }
        let ghost den = b * pow2(j as nat);
        if small.is_none() && j <= 2036 {
            // more than ten binary digits too many: ten halvings at once
            proof {
                lemma2_to64();
                lemma_excess_bits_shift(cur@ / 2, 10);
                lemma_divide_further(t, den, 1024);
                lemma_pow2_adds(j as nat, 10);
                assert(den * 1024 == b * (pow2(j as nat) * 1024)) by (nonlinear_arith)
                    requires
                        den == b * pow2(j as nat),
                ;
            }
            let (less, rem) = cur.div_rem(1024);
            assert(less@ / 2 == cur@ / 2 / 1024);
            cur = less;
            exact = exact && rem == 0;
            j = j + 10;
        } else {
            proof {
                lemma_divide_further(t, den, 2);
                lemma_pow2_unfold((j + 1) as nat);
                assert(den * 2 == b * (2 * pow2(j as nat))) by (nonlinear_arith)
                    requires
                        den == b * pow2(j as nat),
                ;
            }
            let (half, rem) = cur.div_rem(2);
            assert(half@ / 2 == cur@ / 2 / 2);
            cur = half;
            exact = exact && rem == 0;
            j = j + 1;
        }
    }
}

/// The bit pattern of the binary64 number that `text` is read as: the
/// number nearest to what the numeral denotes, ties to even, and infinity
/// where the numeral is too large. `None` where `text` is no numeral.
pub fn numeral_bits_of(text: &str) -> (r: Option<u64>)
    ensures
        match r {
            Some(bits) => is_numeral(text@) && bits == numeral_bits(text@),
            None => !is_numeral(text@),
        },
{
    let chars = chars_of(text);
    match read_numeral(&chars) {
        Some((n, k)) => Some(nearest(n, k)),
        None => None,
    }
}

} // verus!
