//! The extended greatest-common-divisor engine: Euclidean reduction with
//! remainders from the division kernel, tracking the running linear
//! combination of the original operands that produces each intermediate
//! remainder.
use vstd::prelude::*;

use crate::error::Error;
use crate::sign::IBig;
use crate::ubig::UBig;
use vstd::arithmetic::div_mod::{lemma_basic_div, lemma_fundamental_div_mod, lemma_small_mod};

verus! {

/// `d` divides `n`.
pub open spec fn divides(d: nat, n: nat) -> bool {
    exists|k: int| n == #[trigger] (k * d)
}

/// The greatest common divisor, by Euclidean recursion.
pub open spec fn gcd_nat(a: nat, b: nat) -> nat
    decreases b,
{
    if b == 0 {
        a
    } else {
        gcd_nat(b, a % b)
    }
}

/// The Bezout coefficient pair `(x, y)` with `x*a + y*b == gcd_nat(a, b)`,
/// as the Euclidean recursion constructs it.
pub open spec fn bezout_pair(a: nat, b: nat) -> (int, int)
    decreases b,
{
    if b == 0 {
        (1int, 0int)
    } else {
        let p = bezout_pair(b, a % b);
        (p.1, p.0 - (a as int / b as int) * p.1)
    }
}

/// The gcd divides both of its arguments.
pub proof fn lemma_gcd_divides(a: nat, b: nat)
    ensures
        divides(gcd_nat(a, b), a),
        divides(gcd_nat(a, b), b),
    decreases b,
{
    if b == 0 {
        assert(a == 1 * a) by (nonlinear_arith);
        assert(0 * gcd_nat(a, b) == 0) by (nonlinear_arith);
    } else {
        lemma_gcd_divides(b, a % b);
        let g = gcd_nat(b, a % b) as int;
        let k1 = choose|k: int| b == #[trigger] (k * g);
        let k2 = choose|k: int| a % b == #[trigger] (k * g);
        lemma_fundamental_div_mod(a as int, b as int);
        let q = a as int / b as int;
        assert(a == (q * k1 + k2) * g) by (nonlinear_arith)
            requires
                a == b * q + a % b,
                b == k1 * g,
                a % b == k2 * g,
        ;
    }
}

/// Every common divisor of the arguments divides the gcd.
pub proof fn lemma_gcd_greatest(a: nat, b: nat, d: nat)
    requires
        divides(d, a),
        divides(d, b),
    ensures
        divides(d, gcd_nat(a, b)),
    decreases b,
{
    if b == 0 {
    } else {
        let k1 = choose|k: int| a == #[trigger] (k * d);
        let k2 = choose|k: int| b == #[trigger] (k * d);
        lemma_fundamental_div_mod(a as int, b as int);
        let q = a as int / b as int;
        assert(a % b == (k1 - q * k2) * d) by (nonlinear_arith)
            requires
                a == b * q + a % b,
                a == k1 * d,
                b == k2 * d,
        ;
        lemma_gcd_greatest(b, a % b, d);
    }
}

/// Two naturals that divide each other are equal.
pub proof fn lemma_divides_antisym(a: nat, b: nat)
    requires
        divides(a, b),
        divides(b, a),
    ensures
        a == b,
{
    let k1 = choose|k: int| b == #[trigger] (k * a);
    let k2 = choose|k: int| a == #[trigger] (k * b);
    assert(a == k2 * (k1 * a)) by (nonlinear_arith)
        requires
            b == k1 * a,
            a == k2 * b,
    ;
    if a == 0 {
        assert(b == k1 * 0 == 0) by (nonlinear_arith)
            requires
                b == k1 * a,
                a == 0,
        ;
    } else {
        assert(k2 * k1 == 1) by (nonlinear_arith)
            requires
                a == k2 * (k1 * a),
                a != 0,
        ;
        assert(k1 == 1 || k1 == -1) by (nonlinear_arith)
            requires
                k2 * k1 == 1,
        ;
        if k1 == -1 {
            assert(b + a == 0);
        }
        assert(b == a);
    }
}

/// The gcd is symmetric in its arguments.
pub proof fn lemma_gcd_comm(a: nat, b: nat)
    ensures
        gcd_nat(a, b) == gcd_nat(b, a),
{
    lemma_gcd_divides(a, b);
    lemma_gcd_divides(b, a);
    lemma_gcd_greatest(b, a, gcd_nat(a, b));
    lemma_gcd_greatest(a, b, gcd_nat(b, a));
    lemma_divides_antisym(gcd_nat(a, b), gcd_nat(b, a));
}

/// Bezout's identity: the coefficient pair combines the arguments into
/// their gcd, exactly.
pub proof fn lemma_bezout_identity(a: nat, b: nat)
    ensures
        bezout_pair(a, b).0 * a + bezout_pair(a, b).1 * b == gcd_nat(a, b),
    decreases b,
{
    if b == 0 {
        assert(1 * a + 0 * 0 == a) by (nonlinear_arith);
        assert(bezout_pair(a, b).1 * b == 0) by (nonlinear_arith)
            requires
                b == 0,
        ;
    } else {
        lemma_bezout_identity(b, a % b);
        let p = bezout_pair(b, a % b);
        let q = a as int / b as int;
        lemma_fundamental_div_mod(a as int, b as int);
        assert(a % b == a - q * b);
        assert(p.1 * a + (p.0 - q * p.1) * b == p.0 * b + p.1 * (a - q * b)) by (nonlinear_arith);
    }
}

/// Swapping the arguments swaps the coefficient pair, whenever the
/// arguments differ.
pub proof fn lemma_bezout_swap(a: nat, b: nat)
    requires
        a != b,
    ensures
        bezout_pair(b, a) == (bezout_pair(a, b).1, bezout_pair(a, b).0),
{
    if a < b {
        lemma_basic_div(a as int, b as int);
        lemma_small_mod(a, b);
        assert(bezout_pair(a, b) == (bezout_pair(b, a).1, bezout_pair(b, a).0 - 0
            * bezout_pair(b, a).1));
        assert(0 * bezout_pair(b, a).1 == 0) by (nonlinear_arith);
    } else {
        lemma_basic_div(b as int, a as int);
        lemma_small_mod(b, a);
        assert(bezout_pair(b, a) == (bezout_pair(a, b).1, bezout_pair(a, b).0 - 0
            * bezout_pair(a, b).1));
        assert(0 * bezout_pair(a, b).1 == 0) by (nonlinear_arith);
    }
}

impl UBig {
    /// The unique non-negative magnitude dividing both arguments that every
    /// common divisor divides. `gcd(0, 0)` is undefined and fails: no such
    /// maximal value exists.
    pub fn gcd(&self, other: &UBig) -> (res: Result<UBig, Error>)
        requires
            self.wf(),
            other.wf(),
        ensures
            match res {
                Ok(g) => (self.val() > 0 || other.val() > 0) && g.wf() && g.val() == gcd_nat(
                    self.val(),
                    other.val(),
                ),
                Err(e) => self.val() == 0 && other.val() == 0 && e == Error::UndefinedGcd,
            },
    {
        if self.is_zero() && other.is_zero() {
            return Err(Error::UndefinedGcd);
        }
        let mut r0 = self.duplicate();
        let mut r1 = other.duplicate();
        while !r1.is_zero()
            invariant
                r0.wf(),
                r1.wf(),
                gcd_nat(r0.val(), r1.val()) == gcd_nat(self.val(), other.val()),
            decreases r1.val(),
        {
            let qr = match r0.div_rem(&r1) {
                Ok(p) => p,
                Err(_) => {
                    proof {
                        assert(false);
                    }
                    (UBig::zero(), UBig::zero())
                },
            };
            proof {
                assert(gcd_nat(r0.val(), r1.val()) == gcd_nat(r1.val(), r0.val() % r1.val()));
            }
            r0 = r1;
            r1 = qr.1;
        }
        Ok(r0)
    }

    /// The gcd together with signed Bezout coefficients `(x, y)` satisfying
    /// `x*self + y*other == gcd` exactly.
    pub fn gcd_ext(&self, other: &UBig) -> (res: Result<(UBig, IBig, IBig), Error>)
        requires
            self.wf(),
            other.wf(),
        ensures
            match res {
                Ok(t) => (self.val() > 0 || other.val() > 0) && t.0.wf() && t.1.wf() && t.2.wf()
                    && t.0.val() == gcd_nat(self.val(), other.val()) && t.1.ival() == bezout_pair(
                    self.val(),
                    other.val(),
                ).0 && t.2.ival() == bezout_pair(self.val(), other.val()).1,
                Err(e) => self.val() == 0 && other.val() == 0 && e == Error::UndefinedGcd,
            },
    {
        if self.is_zero() && other.is_zero() {
            return Err(Error::UndefinedGcd);
        }
        let ghost av = self.val() as int;
        let ghost bv = other.val() as int;
        let mut r0 = self.duplicate();
        let mut r1 = other.duplicate();
        let mut s0 = IBig::from_i64(1);
        let mut s1 = IBig::from_i64(0);
        let mut t0 = IBig::from_i64(0);
        let mut t1 = IBig::from_i64(1);
        proof {
            let p = bezout_pair(r0.val(), r1.val());
            assert(p.0 * 1 + p.1 * 0 == p.0 && p.0 * 0 + p.1 * 1 == p.1 && 1 * av + 0 * bv == av
                && 0 * av + 1 * bv == bv) by (nonlinear_arith);
        }
        while !r1.is_zero()
            invariant
                r0.wf(),
                r1.wf(),
                s0.wf(),
                s1.wf(),
                t0.wf(),
                t1.wf(),
                av == self.val(),
                bv == other.val(),
                gcd_nat(r0.val(), r1.val()) == gcd_nat(self.val(), other.val()),
                s0.ival() * av + t0.ival() * bv == r0.val(),
                s1.ival() * av + t1.ival() * bv == r1.val(),
                bezout_pair(self.val(), other.val()).0 == bezout_pair(r0.val(), r1.val()).0
                    * s0.ival() + bezout_pair(r0.val(), r1.val()).1 * s1.ival(),
                bezout_pair(self.val(), other.val()).1 == bezout_pair(r0.val(), r1.val()).0
                    * t0.ival() + bezout_pair(r0.val(), r1.val()).1 * t1.ival(),
            decreases r1.val(),
        {
            let qr = match r0.div_rem(&r1) {
                Ok(p) => p,
                Err(_) => {
                    proof {
                        assert(false);
                    }
                    (UBig::zero(), UBig::zero())
                },
            };
            let q = qr.0;
            let r2 = qr.1;
            let qi = IBig::from_ubig(q.duplicate());
            let s2 = s0.sub(&s1.mul(&qi));
            let t2 = t0.sub(&t1.mul(&qi));
            proof {
                let qv = r0.val() as int / r1.val() as int;
                let x = bezout_pair(r1.val(), r2.val()).0;
                let y = bezout_pair(r1.val(), r2.val()).1;
                assert(bezout_pair(r0.val(), r1.val()) == (y, x - qv * y));
                lemma_fundamental_div_mod(r0.val() as int, r1.val() as int);
                // the linear combinations carry over to the new remainder
                assert((s0.ival() - s1.ival() * qv) * av + (t0.ival() - t1.ival() * qv) * bv == (
                s0.ival() * av + t0.ival() * bv) - qv * (s1.ival() * av + t1.ival() * bv))
                    by (nonlinear_arith);
                assert(r0.val() - qv * r1.val() == r2.val());
                // the pending Bezout combination re-associates one step down
                assert(y * s0.ival() + (x - qv * y) * s1.ival() == x * s1.ival() + y * (s0.ival()
                    - s1.ival() * qv)) by (nonlinear_arith);
                assert(y * t0.ival() + (x - qv * y) * t1.ival() == x * t1.ival() + y * (t0.ival()
                    - t1.ival() * qv)) by (nonlinear_arith);
                assert(gcd_nat(r0.val(), r1.val()) == gcd_nat(r1.val(), r0.val() % r1.val()));
            }
            r0 = r1;
            r1 = r2;
            s0 = s1;
            s1 = s2;
            t0 = t1;
            t1 = t2;
        }
        proof {
            let p = bezout_pair(r0.val(), r1.val());
            assert(p == (1int, 0int));
            assert(1 * s0.ival() + 0 * s1.ival() == s0.ival() && 1 * t0.ival() + 0 * t1.ival()
                == t0.ival()) by (nonlinear_arith);
        }
        Ok((r0, s0, t0))
    }
}

} // verus!
