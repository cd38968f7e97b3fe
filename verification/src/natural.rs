//! Natural numbers of any size, with the two operations that reading a
//! decimal numeral needs: multiplying by a small factor and dividing by a
//! small divisor.

use vstd::arithmetic::div_mod::lemma_fundamental_div_mod;
use vstd::arithmetic::div_mod::lemma_fundamental_div_mod_converse;
use vstd::prelude::*;

verus! {

/// The number that `limbs` holds in base 2^32, the lowest digit first.
pub open spec fn limbs_value(limbs: Seq<u32>) -> nat
    decreases limbs.len(),
{
    if limbs.len() == 0 {
        0
    } else {
        limbs[0] as nat + 0x1_0000_0000 * limbs_value(limbs.skip(1))
    }
}

/// The digits of `limbs_value(limbs) * factor + carry`.
pub open spec fn scaled(limbs: Seq<u32>, factor: u32, carry: u32) -> Seq<u32>
    decreases limbs.len(),
{
    if limbs.len() == 0 {
        seq![carry]
    } else {
        let x = limbs[0] as nat * factor as nat + carry as nat;
        seq![(x % 0x1_0000_0000) as u32] + scaled(
            limbs.skip(1),
            factor,
            (x / 0x1_0000_0000) as u32,
        )
    }
}

/// `scaled` multiplies and adds, and the result has one digit more.
pub proof fn lemma_scaled(limbs: Seq<u32>, factor: u32, carry: u32)
    ensures
        limbs_value(scaled(limbs, factor, carry)) == limbs_value(limbs) * factor + carry,
        scaled(limbs, factor, carry).len() == limbs.len() + 1,
    decreases limbs.len(),
{
    let out = scaled(limbs, factor, carry);
    if limbs.len() == 0 {
        assert(out.skip(1) =~= Seq::<u32>::empty());
        assert(limbs_value(out) == carry as nat + 0x1_0000_0000 * limbs_value(out.skip(1)));
        assert(limbs_value(limbs) * factor == 0) by (nonlinear_arith)
            requires
                limbs_value(limbs) == 0,
        ;
    } else {
        let x = limbs[0] as nat * factor as nat + carry as nat;
        assert(x <= 0xffff_ffff * 0xffff_ffff + 0xffff_ffff) by (nonlinear_arith)
            requires
                x == limbs[0] as nat * factor as nat + carry as nat,
                limbs[0] <= 0xffff_ffff,
                factor <= 0xffff_ffff,
                carry <= 0xffff_ffff,
        ;
        let up = (x / 0x1_0000_0000) as u32;
        let low = (x % 0x1_0000_0000) as u32;
        assert(up as nat == x / 0x1_0000_0000);
        assert(x == 0x1_0000_0000 * up as nat + low as nat);
        let tail = scaled(limbs.skip(1), factor, up);
        lemma_scaled(limbs.skip(1), factor, up);
        assert(out =~= seq![low] + tail);
        assert(out.skip(1) =~= tail);
        assert(out[0] == low);
        let v = limbs_value(limbs.skip(1));
        assert(limbs_value(tail) == v * factor + up);
        assert(limbs_value(out) == low as nat + 0x1_0000_0000 * (v * factor + up as nat));
        assert(limbs_value(limbs) == limbs[0] as nat + 0x1_0000_0000 * v);
        assert((limbs[0] as nat + 0x1_0000_0000 * v) * factor == limbs[0] as nat * factor
            + 0x1_0000_0000 * (v * factor)) by (nonlinear_arith);
    }
}

/// A number whose highest digit is zero is the number without that digit.
pub proof fn lemma_drop_zero(limbs: Seq<u32>)
    requires
        limbs.len() > 0,
        limbs.last() == 0,
    ensures
        limbs_value(limbs.drop_last()) == limbs_value(limbs),
    decreases limbs.len(),
{
    if limbs.len() == 1 {
        assert(limbs.skip(1) =~= Seq::<u32>::empty());
        assert(limbs.drop_last() =~= Seq::<u32>::empty());
    } else {
        lemma_drop_zero(limbs.skip(1));
        assert(limbs.drop_last().skip(1) =~= limbs.skip(1).drop_last());
    }
}

/// A number whose highest digit is not zero is at least 1, at least 2^32
/// with a second digit, and at least 2^64 with a third.
pub proof fn lemma_limbs_at_least(limbs: Seq<u32>)
    requires
        limbs.len() > 0,
        limbs.last() != 0,
    ensures
        limbs_value(limbs) >= 1,
        limbs.len() >= 2 ==> limbs_value(limbs) >= 0x1_0000_0000,
        limbs.len() >= 3 ==> limbs_value(limbs) >= 0x1_0000_0000_0000_0000,
    decreases limbs.len(),
{
    if limbs.len() == 1 {
        assert(limbs.skip(1) =~= Seq::<u32>::empty());
    } else {
        lemma_limbs_at_least(limbs.skip(1));
    }
}

/// A natural number of any size.
pub struct Natural {
    limbs: Vec<u32>,
}

impl View for Natural {
    type V = nat;

    closed spec fn view(&self) -> nat {
        limbs_value(self.limbs@)
    }
}

impl Natural {
    /// The highest digit is not zero.
    #[verifier::type_invariant]
    closed spec fn canonical(&self) -> bool {
        self.limbs@.len() > 0 ==> self.limbs@.last() != 0
    }

    /// Zero.
    pub fn zero() -> (r: Natural)
        ensures
            r@ == 0,
    {
        Natural { limbs: Vec::new() }
    }

    /// Takes the zero digits off the top of `limbs`.
    fn trimmed(limbs: Vec<u32>) -> (r: Natural)
        ensures
            r@ == limbs_value(limbs@),
    {
        let mut limbs = limbs;
        let ghost value = limbs_value(limbs@);
        while limbs.len() > 0 && limbs[limbs.len() - 1] == 0
            invariant
                limbs_value(limbs@) == value,
            decreases limbs.len(),
        {
            proof {
                lemma_drop_zero(limbs@);
            }
            limbs.pop();
        }
        Natural { limbs }
    }

    /// `self * factor + carry`.
    pub fn mul_add(&self, factor: u32, carry: u32) -> (r: Natural)
        ensures
            r@ == self@ * factor + carry,
    {
        let mut out: Vec<u32> = Vec::new();
        let mut up: u32 = carry;
        let mut i: usize = 0;
        let ghost all = scaled(self.limbs@, factor, carry);
        proof {
            assert(self.limbs@.skip(0) =~= self.limbs@);
            assert(out@ + all =~= all);
            lemma_scaled(self.limbs@, factor, carry);
        }
        while i < self.limbs.len()
            invariant
                i <= self.limbs@.len(),
                all == out@ + scaled(self.limbs@.skip(i as int), factor, up),
            decreases self.limbs@.len() - i,
        {
            let limb = self.limbs[i];
            assert(limb as nat * factor as nat + up as nat <= 0xffff_ffff * 0xffff_ffff
                + 0xffff_ffff) by (nonlinear_arith)
                requires
                    limb <= 0xffff_ffff,
                    factor <= 0xffff_ffff,
                    up <= 0xffff_ffff,
            ;
            let x: u64 = limb as u64 * factor as u64 + up as u64;
            let low = (x % 0x1_0000_0000) as u32;
            let high = (x / 0x1_0000_0000) as u32;
            proof {
                let rest = self.limbs@.skip(i as int);
                assert(rest[0] == limb);
                assert(rest.skip(1) =~= self.limbs@.skip(i + 1));
                assert(out@ + (seq![low] + scaled(rest.skip(1), factor, high)) =~= out@.push(low)
                    + scaled(rest.skip(1), factor, high));
            }
            out.push(low);
            up = high;
            i = i + 1;
        }
        proof {
            assert(self.limbs@.skip(i as int) =~= Seq::<u32>::empty());
            assert(out@ + seq![up] =~= out@.push(up));
        }
        out.push(up);
        Natural::trimmed(out)
    }

    /// The quotient and the remainder of `self` by `divisor`.
    pub fn div_rem(&self, divisor: u32) -> (r: (Natural, u32))
        requires
            divisor > 0,
        ensures
            r.0@ == self@ / (divisor as nat),
            r.1 == self@ % (divisor as nat),
    {
        let n = self.limbs.len();
        let mut out: Vec<u32> = Vec::new();
        let mut k: usize = 0;
        while k < n
            invariant
                k <= n,
                out@.len() == k,
            decreases n - k,
        {
            out.push(0);
            k = k + 1;
        }
        let mut rem: u32 = 0;
        let mut i: usize = n;
        proof {
            assert(self.limbs@.skip(n as int) =~= Seq::<u32>::empty());
            assert(out@.skip(n as int) =~= Seq::<u32>::empty());
            assert(limbs_value(out@.skip(n as int)) * divisor == 0) by (nonlinear_arith)
                requires
                    limbs_value(out@.skip(n as int)) == 0,
            ;
        }
        while i > 0
            invariant
                n == self.limbs@.len(),
                out@.len() == n,
                i <= n,
                divisor > 0,
                rem < divisor,
                limbs_value(self.limbs@.skip(i as int)) == limbs_value(out@.skip(i as int))
                    * divisor + rem,
            decreases i,
        {
            let ghost high = out@.skip(i as int);
            let ghost above = limbs_value(self.limbs@.skip(i as int));
            i = i - 1;
            let limb = self.limbs[i];
            let x: u64 = rem as u64 * 0x1_0000_0000 + limb as u64;
            let q: u64 = x / (divisor as u64);
            let r: u64 = x % (divisor as u64);
            proof {
                lemma_fundamental_div_mod(x as int, divisor as int);
                assert(q < 0x1_0000_0000) by (nonlinear_arith)
                    requires
                        x == divisor * q + r,
                        x < divisor * 0x1_0000_0000,
                        r >= 0,
                        divisor > 0,
                ;
            }
            out.set(i, q as u32);
            proof {
                let src = self.limbs@.skip(i as int);
                assert(src[0] == limb);
                assert(src.skip(1) =~= self.limbs@.skip(i + 1));
                let dst = out@.skip(i as int);
                assert(dst[0] == q);
                assert(dst.skip(1) =~= high);
                let hv = limbs_value(high);
                assert((q + 0x1_0000_0000 * hv) * divisor + r == limb + 0x1_0000_0000 * (hv
                    * divisor + rem)) by (nonlinear_arith)
                    requires
                        rem * 0x1_0000_0000 + limb == divisor * q + r,
                ;
            }
            rem = r as u32;
        }
        proof {
            assert(self.limbs@.skip(0) =~= self.limbs@);
            assert(out@.skip(0) =~= out@);
            lemma_fundamental_div_mod_converse(
                limbs_value(self.limbs@) as int,
                divisor as int,
                limbs_value(out@) as int,
                rem as int,
            );
        }
        (Natural::trimmed(out), rem)
    }

    /// The number as a `u64`, where it is one.
    pub fn to_u64(&self) -> (r: Option<u64>)
        ensures
            match r {
                Some(v) => v == self@,
                None => self@ > u64::MAX,
            },
    {
        proof {
            use_type_invariant(self);
            let s = self.limbs@;
            if s.len() > 0 {
                lemma_limbs_at_least(s);
                if s.len() <= 2 {
                    assert(s.skip(1).len() == 0 ==> limbs_value(s.skip(1)) == 0);
                    if s.len() == 2 {
                        assert(s.skip(1).skip(1) =~= Seq::<u32>::empty());
                        assert(limbs_value(s.skip(1)) == s[1] as nat + 0x1_0000_0000
                            * limbs_value(s.skip(1).skip(1)));
                    }
                }
            }
        }
        let n = self.limbs.len();
        if n == 0 {
            Some(0)
        } else if n == 1 {
            Some(self.limbs[0] as u64)
        } else if n == 2 {
            Some(self.limbs[0] as u64 + 0x1_0000_0000 * (self.limbs[1] as u64))
        } else {
            None
        }
    }
}

} // verus!
