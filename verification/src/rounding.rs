//! What the bit patterns of `binary64` mean, and that the pattern given to
//! a numeral is that of the nearest number.

use crate::binary64::{
    excess_bits, lemma_pow10_pos, nearest_bits, pow10, round_half_even, INFINITY_BITS,
};
use vstd::arithmetic::div_mod::{
    lemma_div_denominator, lemma_fundamental_div_mod, lemma_fundamental_div_mod_converse,
};
use vstd::arithmetic::power2::{
    lemma2_to64, lemma_pow2_adds, lemma_pow2_pos, lemma_pow2_strictly_increases,
    lemma_pow2_unfold, pow2,
};
use vstd::prelude::*;

verus! {

/// The number that a bit pattern of binary64 encodes, in units of
/// 2^-1074. The pattern is an exponent field above a fraction field of 52
/// binary digits. With exponent 0 the number is the fraction; with
/// exponent `e` above 0 it is the fraction and an implicit digit above it,
/// times `2^(e - 1)`. The pattern of infinity counts as 2^2098 units, the
/// first power of two that binary64 cannot hold.
pub open spec fn units_of(bits: nat) -> nat {
    if bits < 0x20_0000_0000_0000 {
        bits
    } else {
        (0x10_0000_0000_0000 + bits % 0x10_0000_0000_0000) * pow2(
            (bits / 0x10_0000_0000_0000 - 1) as nat,
        )
    }
}

/// How far the number `u`, in units of 2^-1074, lies from `a / b` units,
/// times `b`.
pub open spec fn distance(a: nat, b: nat, u: nat) -> nat {
    if a >= u * b {
        (a - u * b) as nat
    } else {
        (u * b - a) as nat
    }
}

proof fn lemma_pow2_monotone(e1: nat, e2: nat)
    requires
        e1 <= e2,
    ensures
        pow2(e1) <= pow2(e2),
        pow2(e1) > 0,
{
    lemma_pow2_pos(e1);
    if e1 < e2 {
        lemma_pow2_strictly_increases(e1, e2);
    }
}

/// After `excess_bits(q)` halvings `q` has at most fifty-three binary
/// digits, and exactly fifty-three where it was halved at all.
pub proof fn lemma_excess_bits(q: nat)
    ensures
        q / pow2(excess_bits(q)) < 0x20_0000_0000_0000,
        excess_bits(q) > 0 ==> q / pow2(excess_bits(q)) >= 0x10_0000_0000_0000,
    decreases q,
{
    lemma2_to64();
    if q >= 0x20_0000_0000_0000 {
        let j = excess_bits(q / 2);
        lemma_excess_bits(q / 2);
        lemma_pow2_pos(j);
        lemma_pow2_unfold(j + 1);
        lemma_div_denominator(q as int, 2, pow2(j) as int);
    }
}

/// The pattern with `j` in the exponent field above the rounded
/// significand `m` encodes `m * 2^j` units, a carry out of the fraction
/// field included.
pub proof fn lemma_units_of_pattern(j: nat, m: nat)
    requires
        m <= 0x20_0000_0000_0000,
        j > 0 ==> m >= 0x10_0000_0000_0000,
    ensures
        units_of(j * 0x10_0000_0000_0000 + m) == m * pow2(j),
{
    lemma2_to64();
    let bits = j * 0x10_0000_0000_0000 + m;
    if j == 0 {
        assert(m * pow2(0) == m) by (nonlinear_arith)
            requires
                pow2(0) == 1,
        ;
        if m == 0x20_0000_0000_0000 {
            assert(bits / 0x10_0000_0000_0000 == 2);
            assert(bits % 0x10_0000_0000_0000 == 0);
            assert(units_of(bits) == 0x10_0000_0000_0000 * pow2(1));
        }
    } else {
        lemma_pow2_unfold(j + 1);
        lemma_pow2_pos(j);
        if m < 0x20_0000_0000_0000 {
            lemma_fundamental_div_mod_converse(
                bits as int,
                0x10_0000_0000_0000,
                (j + 1) as int,
                (m - 0x10_0000_0000_0000) as int,
            );
            assert(bits / 0x10_0000_0000_0000 == j + 1);
            assert(bits % 0x10_0000_0000_0000 == m - 0x10_0000_0000_0000);
            assert((bits / 0x10_0000_0000_0000 - 1) as nat == j);
            assert(units_of(bits) == (0x10_0000_0000_0000 + (m - 0x10_0000_0000_0000)) * pow2(j));
        } else {
            lemma_fundamental_div_mod_converse(
                bits as int,
                0x10_0000_0000_0000,
                (j + 2) as int,
                0,
            );
            assert(bits / 0x10_0000_0000_0000 == j + 2);
            assert(bits % 0x10_0000_0000_0000 == 0);
            assert((bits / 0x10_0000_0000_0000 - 1) as nat == j + 1);
            assert(units_of(bits) == 0x10_0000_0000_0000 * pow2(j + 1));
            assert(0x10_0000_0000_0000 * (2 * pow2(j)) == 0x20_0000_0000_0000 * pow2(j))
                by (nonlinear_arith);
        }
    }
}

/// The order of the patterns is the order of the numbers they encode.
pub proof fn lemma_units_of_ascends(x: nat, y: nat)
    requires
        x < y,
    ensures
        units_of(x) < units_of(y),
{
    lemma2_to64();
    if y >= 0x20_0000_0000_0000 {
        let ey = (y / 0x10_0000_0000_0000 - 1) as nat;
        let fy = y % 0x10_0000_0000_0000;
        lemma_pow2_monotone(1, ey);
        if x < 0x20_0000_0000_0000 {
            assert((0x10_0000_0000_0000 + fy) * pow2(ey) >= 0x10_0000_0000_0000 * 2)
                by (nonlinear_arith)
                requires
                    pow2(ey) >= 2,
            ;
        } else {
            let ex = (x / 0x10_0000_0000_0000 - 1) as nat;
            let fx = x % 0x10_0000_0000_0000;
            if ex == ey {
                assert((0x10_0000_0000_0000 + fx) * pow2(ex) < (0x10_0000_0000_0000 + fy) * pow2(
                    ey,
                )) by (nonlinear_arith)
                    requires
                        fx < fy,
                        ex == ey,
                        pow2(ey) > 0,
                ;
            } else {
                lemma_pow2_monotone(ex + 1, ey);
                lemma_pow2_unfold(ex + 1);
                assert((0x10_0000_0000_0000 + fx) * pow2(ex) < (0x10_0000_0000_0000 + fy) * pow2(
                    ey,
                )) by (nonlinear_arith)
                    requires
                        fx < 0x10_0000_0000_0000,
                        2 * pow2(ex) <= pow2(ey),
                        pow2(ex) > 0,
                ;
            }
        }
    }
}

/// The significand before rounding lies where the spacing says.
proof fn lemma_significand(a: nat, b: nat)
    requires
        b > 0,
    ensures
        b * pow2(excess_bits(a / b)) > 0,
        a / (b * pow2(excess_bits(a / b))) < 0x20_0000_0000_0000,
        excess_bits(a / b) > 0 ==> a / (b * pow2(excess_bits(a / b))) >= 0x10_0000_0000_0000,
        round_half_even(a, b * pow2(excess_bits(a / b))) == a / (b * pow2(excess_bits(a / b)))
            || round_half_even(a, b * pow2(excess_bits(a / b))) == a / (b * pow2(
            excess_bits(a / b),
        )) + 1,
{
    let j = excess_bits(a / b);
    lemma_excess_bits(a / b);
    lemma_pow2_pos(j);
    lemma_div_denominator(a as int, b as int, pow2(j) as int);
}

/// What the pattern of a numeral encodes: the multiple of the spacing
/// that is nearest to the numeral, or 2^2098 units, which stand for
/// infinity, where that multiple is as large or larger.
pub proof fn lemma_nearest_units(n: nat, k: nat)
    ensures
        ({
            let a = n * pow2(1074);
            let b = pow10(k);
            let j = excess_bits(a / b);
            let rounded = round_half_even(a, b * pow2(j)) * pow2(j);
            units_of(nearest_bits(n, k)) == if rounded < units_of(INFINITY_BITS as nat) {
                rounded
            } else {
                units_of(INFINITY_BITS as nat)
            }
        }),
{
    let a = n * pow2(1074);
    let b = pow10(k);
    let j = excess_bits(a / b);
    let m = round_half_even(a, b * pow2(j));
    lemma_pow10_pos(k);
    lemma_significand(a, b);
    lemma_units_of_pattern(j, m);
    let bits = j * 0x10_0000_0000_0000 + m;
    if bits < INFINITY_BITS {
        lemma_units_of_ascends(bits, INFINITY_BITS as nat);
    } else if bits > INFINITY_BITS {
        lemma_units_of_ascends(INFINITY_BITS as nat, bits);
    }
}

/// A number of binary64 is a multiple of the spacing `2^j`, or it lies
/// below all numbers with that spacing.
proof fn lemma_units_of_grid(y: nat, j: nat) -> (c: nat)
    ensures
        units_of(y) == c * pow2(j) || (j > 0 && units_of(y) < 0x10_0000_0000_0000 * pow2(j)),
{
    lemma2_to64();
    let u = units_of(y);
    if y < 0x20_0000_0000_0000 {
        if j == 0 {
            assert(u == u * pow2(0)) by (nonlinear_arith)
                requires
                    pow2(0) == 1,
            ;
            u
        } else {
            lemma_pow2_monotone(1, j);
            assert(0x10_0000_0000_0000 * pow2(j) >= 0x20_0000_0000_0000) by (nonlinear_arith)
                requires
                    pow2(j) >= 2,
            ;
            0
        }
    } else {
        let e = (y / 0x10_0000_0000_0000 - 1) as nat;
        let s = 0x10_0000_0000_0000 + y % 0x10_0000_0000_0000;
        if e >= j {
            lemma_pow2_adds((e - j) as nat, j);
            let c = s * pow2((e - j) as nat);
            assert(s * (pow2((e - j) as nat) * pow2(j)) == c * pow2(j)) by (nonlinear_arith)
                requires
                    c == s * pow2((e - j) as nat),
            ;
            assert(units_of(y) == c * pow2(j));
            c
        } else {
            lemma_pow2_monotone(e + 1, j);
            lemma_pow2_unfold(e + 1);
            assert(s * pow2(e) < 0x10_0000_0000_0000 * pow2(j)) by (nonlinear_arith)
                requires
                    s < 0x20_0000_0000_0000,
                    2 * pow2(e) <= pow2(j),
                    pow2(e) > 0,
            ;
            0
        }
    }
}

/// No multiple of `d` is nearer to `a` than `round_half_even(a, d)` times
/// `d`, and one that is as near exists only where the rounded multiple is
/// even.
proof fn lemma_round_is_nearest(a: nat, d: nat, c: nat)
    requires
        d > 0,
    ensures
        distance(a, d, round_half_even(a, d)) <= distance(a, d, c),
        c != round_half_even(a, d) && distance(a, d, round_half_even(a, d)) == distance(a, d, c)
            ==> round_half_even(a, d) % 2 == 0,
        round_half_even(a, d) == a / d || round_half_even(a, d) == a / d + 1,
        distance(a, d, round_half_even(a, d)) <= a % d,
{
    let q = a / d;
    let r = a % d;
    let m = round_half_even(a, d);
    lemma_fundamental_div_mod(a as int, d as int);
    assert(d * q == q * d) by (nonlinear_arith);
    assert((q + 1) * d == q * d + d) by (nonlinear_arith);
    assert(a == q * d + r);
    assert(distance(a, d, q) == r);
    assert(distance(a, d, q + 1) == d - r);
    if c < q {
        assert(c * d + (q - c) * d == q * d) by (nonlinear_arith);
        assert((q - c) * d >= d) by (nonlinear_arith)
            requires
                c < q,
        ;
        assert(distance(a, d, c) >= d + r);
    } else if c > q + 1 {
        assert(c * d == q * d + d + (c - q - 1) * d) by (nonlinear_arith);
        assert((c - q - 1) * d >= d) by (nonlinear_arith)
            requires
                c > q + 1,
        ;
        assert(distance(a, d, c) >= d + d - r);
    }
}

/// Round to nearest, ties to even. The pattern of the numeral
/// `n / pow10(k)`, where it is not that of infinity, encodes a number of
/// binary64 from which the numeral is no farther than from any other: the
/// number encoded by any pattern `other` is as far or farther. Where
/// another number is exactly as far, the pattern chosen is the even one.
pub proof fn lemma_nearest(n: nat, k: nat, other: nat)
    requires
        nearest_bits(n, k) < INFINITY_BITS,
    ensures
        ({
            let a = n * pow2(1074);
            let b = pow10(k);
            let chosen = units_of(nearest_bits(n, k));
            &&& distance(a, b, chosen) <= distance(a, b, units_of(other))
            &&& units_of(other) != chosen && distance(a, b, chosen) == distance(
                a,
                b,
                units_of(other),
            ) ==> nearest_bits(n, k) % 2 == 0
        }),
{
    let a = n * pow2(1074);
    let b = pow10(k);
    let j = excess_bits(a / b);
    let d = b * pow2(j);
    let m = round_half_even(a, d);
    let q = a / d;
    let u = units_of(other);
    let p = pow2(j);
    lemma_pow10_pos(k);
    lemma_significand(a, b);
    lemma_units_of_pattern(j, m);
    lemma_pow2_pos(j);
    let chosen = m * p;
    assert(units_of(nearest_bits(n, k)) == chosen);
    assert(chosen * b == m * d) by (nonlinear_arith)
        requires
            chosen == m * p,
            d == b * p,
    ;
    assert(distance(a, b, chosen) == distance(a, d, m));
    assert(nearest_bits(n, k) % 2 == m % 2) by {
        assert((j * 0x10_0000_0000_0000 + m) % 2 == m % 2) by (nonlinear_arith);
    }
    let c = lemma_units_of_grid(other, j);
    if u == c * p {
        lemma_round_is_nearest(a, d, c);
        assert(u * b == c * d) by (nonlinear_arith)
            requires
                u == c * p,
                d == b * p,
        ;
        assert(distance(a, b, u) == distance(a, d, c));
        if c == m {
            assert(u == chosen);
        }
    } else {
        lemma_round_is_nearest(a, d, q);
        lemma_fundamental_div_mod(a as int, d as int);
        assert(u * b < q * d) by (nonlinear_arith)
            requires
                u < 0x10_0000_0000_0000 * p,
                q >= 0x10_0000_0000_0000,
                d == b * p,
                b > 0,
                p > 0,
        ;
        assert(d * q == q * d) by (nonlinear_arith);
    }
}

} // verus!
