//! Multiplication of magnitudes. The single-limb multiply-accumulate kernel
//! drives the schoolbook row-by-row product; multiplying by one limb is its
//! degenerate fast path.
use vstd::prelude::*;

use crate::limbs::{
    lemma_val_pre_full, lemma_val_pre_step, lemma_val_pre_zero, lemma_val_push, limb_base,
    limbs_val, pow_b, val_pre,
};
use crate::ubig::UBig;

verus! {

/// Operands at least this many limbs long on both sides take the
/// divide-and-conquer multiplication path; the threshold is an engineering
/// tuning constant, not a correctness invariant.
const KARATSUBA_THRESHOLD: usize = 32;

/// A sequence of zero limbs denotes zero.
proof fn lemma_val_zero_seq(s: Seq<u64>)
    requires
        forall|i: int| 0 <= i < s.len() ==> s[i] == 0,
    ensures
        limbs_val(s) == 0,
    decreases s.len(),
{
    if s.len() > 0 {
        lemma_val_zero_seq(s.drop_first());
    }
}

/// Splitting a canonical magnitude strictly between its ends leaves both
/// halves strictly below the whole, and a positive high half.
proof fn lemma_split_parts_smaller(x: &UBig, m: usize)
    requires
        x.wf(),
        1 <= m < x.limbs@.len(),
    ensures
        limbs_val(x.limbs@.skip(m as int)) >= 1,
        limbs_val(x.limbs@.take(m as int)) < x.val(),
        limbs_val(x.limbs@.skip(m as int)) < x.val(),
        pow_b(m as nat) >= 2,
{
    let s = x.limbs@;
    let hi = s.skip(m as int);
    let lo = s.take(m as int);
    assert(hi.len() > 0);
    assert(hi[hi.len() - 1] == s[s.len() - 1]);
    crate::limbs::lemma_val_norm_lower(hi);
    crate::limbs::lemma_pow_b_pos((hi.len() - 1) as nat);
    crate::limbs::lemma_val_split(s, m as int);
    crate::limbs::lemma_pow_b_le(1, m as nat);
    assert(pow_b(1) == limb_base() * pow_b(0));
    let p = pow_b(m as nat) as int;
    assert(p * limbs_val(hi) >= p * 1 && p * limbs_val(hi) >= 2 * limbs_val(hi))
        by (nonlinear_arith)
        requires
            limbs_val(hi) >= 1,
            p >= 2,
    ;
}

/// The three half-size products recombine into the full product.
proof fn lemma_karatsuba_algebra(x0: int, x1: int, y0: int, y1: int, pp: int)
    ensures
        (x0 + pp * x1) * (y0 + pp * y1) == x0 * y0 + (x0 * y1 + x1 * y0) * pp + (x1 * y1) * (pp
            * pp),
{
    let s = y0 + pp * y1;
    assert((x0 + pp * x1) * s == x0 * s + (pp * x1) * s) by (nonlinear_arith);
    assert(x0 * s == x0 * y0 + x0 * (pp * y1)) by (nonlinear_arith)
        requires
            s == y0 + pp * y1,
    ;
    assert((pp * x1) * s == (pp * x1) * y0 + (pp * x1) * (pp * y1)) by (nonlinear_arith)
        requires
            s == y0 + pp * y1,
    ;
    assert(x0 * (pp * y1) == (x0 * y1) * pp) by (nonlinear_arith);
    assert((pp * x1) * y0 == (x1 * y0) * pp) by (nonlinear_arith);
    assert((pp * x1) * (pp * y1) == (x1 * y1) * (pp * pp)) by (nonlinear_arith);
    assert((x0 * y1) * pp + (x1 * y0) * pp == (x0 * y1 + x1 * y0) * pp) by (nonlinear_arith);
}

/// `b` raised to `e` over the naturals.
pub open spec fn pow_nat(b: nat, e: nat) -> nat
    decreases e,
{
    if e == 0 {
        1
    } else {
        b * pow_nat(b, (e - 1) as nat)
    }
}

impl UBig {
    /// Fused multiply-add by machine words: `self * m + a` in one carry pass.
    pub fn mul_add_word(&self, m: u64, a: u64) -> (r: UBig)
        requires
            self.wf(),
        ensures
            r.wf(),
            r.val() == self.val() * m + a,
    {
        let s = &self.limbs;
        let n = s.len();
        let mut out: Vec<u64> = Vec::new();
        let mut carry: u64 = a;
        let mut i: usize = 0;
        proof {
            lemma_val_pre_zero(s@);
            assert(val_pre(s@, 0) * m == 0) by (nonlinear_arith)
                requires
                    val_pre(s@, 0) == 0,
            ;
            assert(limbs_val(out@) == 0);
            assert(pow_b(0) == 1);
        }
        while i < n
            invariant
                i <= n,
                n == s@.len(),
                out@.len() == i,
                self.limbs == *s,
                limbs_val(out@) + carry * pow_b(i as nat) == val_pre(s@, i as int) * m + a,
            decreases n - i,
        {
            proof {
                assert((s@[i as int] as u128) * (m as u128) + (carry as u128)
                    < 0xffff_ffff_ffff_ffff_ffff_ffff_ffff_ffffu128) by (nonlinear_arith)
                    requires
                        s@[i as int] < 0x1_0000_0000_0000_0000u128,
                        m < 0x1_0000_0000_0000_0000u128,
                        carry < 0x1_0000_0000_0000_0000u128,
                ;
            }
            let t: u128 = (s[i] as u128) * (m as u128) + carry as u128;
            let lo: u64 = (t % 0x1_0000_0000_0000_0000u128) as u64;
            let hi: u64 = (t / 0x1_0000_0000_0000_0000u128) as u64;
            proof {
                let bb = limb_base() as int;
                let p = pow_b(i as nat) as int;
                assert(t == s@[i as int] * m + carry);
                vstd::arithmetic::div_mod::lemma_fundamental_div_mod(t as int, bb);
                assert(t < bb * bb) by (nonlinear_arith)
                    requires
                        t == s@[i as int] * m + carry,
                        s@[i as int] < bb,
                        m < bb,
                        carry < bb,
                        bb > 1,
                ;
                assert(hi < bb) by (nonlinear_arith)
                    requires
                        t < bb * bb,
                        hi == t as int / bb,
                        bb > 1,
                ;
                lemma_val_push(out@, lo);
                lemma_val_pre_step(s@, i as int);
                let sv = s@[i as int] as int;
                assert((val_pre(s@, i as int) + sv * p) * m == val_pre(s@, i as int) * m + sv * m
                    * p) by (nonlinear_arith);
                assert((hi * bb + lo) * p == hi * (bb * p) + lo * p) by (nonlinear_arith);
                assert((sv * m + carry) * p == sv * m * p + carry * p) by (nonlinear_arith);
                assert(pow_b((i + 1) as nat) == bb * p);
            }
            out.push(lo);
            carry = hi;
            i = i + 1;
        }
        proof {
            lemma_val_pre_full(s@, n as int);
            if carry > 0 {
                lemma_val_push(out@, carry);
            }
        }
        if carry > 0 {
            out.push(carry);
        }
        UBig::from_limbs(out)
    }

    /// Product with a single limb: the degenerate fast path of the schoolbook
    /// kernel.
    pub fn mul_word(&self, m: u64) -> (r: UBig)
        requires
            self.wf(),
        ensures
            r.wf(),
            r.val() == self.val() * m,
    {
        self.mul_add_word(m, 0)
    }

    /// Sum with a single limb.
    pub fn add_word(&self, a: u64) -> (r: UBig)
        requires
            self.wf(),
        ensures
            r.wf(),
            r.val() == self.val() + a,
    {
        proof {
            assert(self.val() * 1 == self.val()) by (nonlinear_arith);
        }
        self.mul_add_word(1, a)
    }

    /// Shift up by one whole limb: multiplies the value by the limb base.
    pub fn shl_limb(&self) -> (r: UBig)
        requires
            self.wf(),
        ensures
            r.wf(),
            r.val() == self.val() * limb_base(),
    {
        if self.limbs.len() == 0 {
            proof {
                assert(self.val() * limb_base() == 0) by (nonlinear_arith)
                    requires
                        self.val() == 0,
                ;
            }
            return UBig::zero();
        }
        let mut out: Vec<u64> = Vec::new();
        out.push(0);
        let mut i: usize = 0;
        while i < self.limbs.len()
            invariant
                i <= self.limbs@.len(),
                out@.len() == i + 1,
                out@[0] == 0,
                forall|j: int| 0 <= j < i ==> out@[j + 1] == self.limbs@[j],
            decreases self.limbs@.len() - i,
        {
            out.push(self.limbs[i]);
            i = i + 1;
        }
        proof {
            assert(out@.drop_first() =~= self.limbs@);
            assert(limbs_val(out@) == 0 + limb_base() * limbs_val(self.limbs@));
            assert(limb_base() * self.val() == self.val() * limb_base()) by (nonlinear_arith);
            assert(out@[out@.len() - 1] == self.limbs@[self.limbs@.len() - 1]);
        }
        UBig { limbs: out }
    }

    /// Shift up by whole limbs: multiplies the value by `pow_b(k)`.
    pub fn shl_limbs(&self, k: usize) -> (r: UBig)
        requires
            self.wf(),
        ensures
            r.wf(),
            r.val() == self.val() * pow_b(k as nat),
    {
        if self.limbs.len() == 0 {
            proof {
                assert(0 * pow_b(k as nat) == 0) by (nonlinear_arith);
            }
            return UBig::zero();
        }
        let mut out: Vec<u64> = Vec::new();
        let mut i: usize = 0;
        while i < k
            invariant
                i <= k,
                out@.len() == i,
                forall|j: int| 0 <= j < i ==> out@[j] == 0,
            decreases k - i,
        {
            out.push(0);
            i = i + 1;
        }
        let mut j: usize = 0;
        while j < self.limbs.len()
            invariant
                j <= self.limbs@.len(),
                out@.len() == k + j,
                forall|m: int| 0 <= m < k ==> out@[m] == 0,
                forall|m: int| 0 <= m < j ==> out@[k + m] == self.limbs@[m],
            decreases self.limbs@.len() - j,
        {
            out.push(self.limbs[j]);
            j = j + 1;
        }
        proof {
            assert(out@.take(k as int) =~= Seq::new(k as nat, |m: int| 0u64));
            assert(out@.skip(k as int) =~= self.limbs@);
            lemma_val_zero_seq(out@.take(k as int));
            crate::limbs::lemma_val_split(out@, k as int);
            assert(out@[out@.len() - 1] == self.limbs@[self.limbs@.len() - 1]);
            assert(pow_b(k as nat) * self.val() == self.val() * pow_b(k as nat))
                by (nonlinear_arith);
        }
        UBig { limbs: out }
    }

    /// Splits off the low `m` limbs: `self == low + pow_b(m) * high`, with
    /// both halves canonical.
    fn split_at(&self, m: usize) -> (r: (UBig, UBig))
        requires
            self.wf(),
            m as int <= self.limbs@.len(),
        ensures
            r.0.wf(),
            r.1.wf(),
            r.0.val() == limbs_val(self.limbs@.take(m as int)),
            r.1.val() == limbs_val(self.limbs@.skip(m as int)),
            self.val() == r.0.val() + pow_b(m as nat) * r.1.val(),
            r.0.val() < pow_b(m as nat),
    {
        let mut lo: Vec<u64> = Vec::new();
        let mut i: usize = 0;
        while i < m
            invariant
                i <= m,
                m as int <= self.limbs@.len(),
                lo@ =~= self.limbs@.take(m as int).take(i as int),
            decreases m - i,
        {
            lo.push(self.limbs[i]);
            proof {
                assert(lo@ =~= self.limbs@.take(m as int).take(i + 1));
            }
            i = i + 1;
        }
        let mut hi: Vec<u64> = Vec::new();
        let mut j: usize = m;
        while j < self.limbs.len()
            invariant
                m <= j <= self.limbs@.len(),
                hi@ =~= self.limbs@.skip(m as int).take(j - m),
            decreases self.limbs@.len() - j,
        {
            hi.push(self.limbs[j]);
            proof {
                assert(hi@ =~= self.limbs@.skip(m as int).take(j + 1 - m));
            }
            j = j + 1;
        }
        proof {
            assert(lo@ =~= self.limbs@.take(m as int));
            assert(hi@ =~= self.limbs@.skip(m as int));
            crate::limbs::lemma_val_split(self.limbs@, m as int);
            crate::limbs::lemma_val_bound(self.limbs@.take(m as int));
            assert(self.limbs@.take(m as int).len() == m);
        }
        (UBig::from_limbs(lo), UBig::from_limbs(hi))
    }

    /// Product of two magnitudes. Below the length threshold the schoolbook
    /// kernel runs; above it, each operand splits into high and low halves
    /// and three recursive half-size products replace four.
    pub fn mul(&self, other: &UBig) -> (r: UBig)
        requires
            self.wf(),
            other.wf(),
        ensures
            r.wf(),
            r.val() == self.val() * other.val(),
        decreases self.val() + other.val(),
    {
        let alen = self.limbs.len();
        let blen = other.limbs.len();
        if alen < KARATSUBA_THRESHOLD || blen < KARATSUBA_THRESHOLD {
            return self.mul_schoolbook(other);
        }
        let min_len = if alen < blen {
            alen
        } else {
            blen
        };
        let m = min_len / 2;
        let ghost p = pow_b(m as nat);
        let asplit = self.split_at(m);
        let bsplit = other.split_at(m);
        let a0 = asplit.0;
        let a1 = asplit.1;
        let b0 = bsplit.0;
        let b1 = bsplit.1;
        proof {
            lemma_split_parts_smaller(self, m);
            lemma_split_parts_smaller(other, m);
        }
        let z0 = a0.mul(&b0);
        let z2 = a1.mul(&b1);
        let sa = a0.add(&a1);
        let sb = b0.add(&b1);
        proof {
            // the combined halves stay strictly below the whole operands
            assert(sa.val() < self.val() && sb.val() < other.val()) by (nonlinear_arith)
                requires
                    self.val() == a0.val() + p * a1.val(),
                    other.val() == b0.val() + p * b1.val(),
                    sa.val() == a0.val() + a1.val(),
                    sb.val() == b0.val() + b1.val(),
                    a1.val() >= 1,
                    b1.val() >= 1,
                    p >= 2,
            ;
        }
        let z1 = sa.mul(&sb);
        proof {
            // (a0+a1)(b0+b1) = a0 b0 + a1 b1 + (a0 b1 + a1 b0)
            assert(z1.val() == z0.val() + z2.val() + (a0.val() * b1.val() + a1.val() * b0.val()))
                by (nonlinear_arith)
                requires
                    z1.val() == (a0.val() + a1.val()) * (b0.val() + b1.val()),
                    z0.val() == a0.val() * b0.val(),
                    z2.val() == a1.val() * b1.val(),
            ;
        }
        let mid = z1.sub(&z0).sub(&z2);
        let r = z0.add(&mid.shl_limbs(m)).add(&z2.shl_limbs(m + m));
        proof {
            crate::limbs::lemma_pow_b_adds(m as nat, m as nat);
            let x0 = a0.val() as int;
            let x1 = a1.val() as int;
            let y0 = b0.val() as int;
            let y1 = b1.val() as int;
            let pp = p as int;
            lemma_karatsuba_algebra(x0, x1, y0, y1, pp);
            assert(r.val() == x0 * y0 + (x0 * y1 + x1 * y0) * pp + (x1 * y1) * (pp * pp));
        }
        r
    }

    /// Product of two magnitudes, accumulated row by row from the most
    /// significant limb of `self` downward: a single-pass O(m*n) kernel.
    fn mul_schoolbook(&self, other: &UBig) -> (r: UBig)
        requires
            self.wf(),
            other.wf(),
        ensures
            r.wf(),
            r.val() == self.val() * other.val(),
    {
        let a = &self.limbs;
        let mut r = UBig::zero();
        let mut i: usize = a.len();
        proof {
            assert(a@.skip(a@.len() as int) =~= Seq::<u64>::empty());
            assert(other.val() * 0 == 0) by (nonlinear_arith);
        }
        while i > 0
            invariant
                i <= a@.len(),
                self.limbs == *a,
                self.wf(),
                other.wf(),
                r.wf(),
                r.val() == other.val() * limbs_val(a@.skip(i as int)),
            decreases i,
        {
            i = i - 1;
            let row = other.mul_word(a[i]);
            let shifted = r.shl_limb();
            proof {
                let bb = limb_base() as int;
                let vb = other.val() as int;
                let hi = limbs_val(a@.skip(i + 1)) as int;
                let av = a@[i as int] as int;
                assert(a@.skip(i as int).drop_first() =~= a@.skip(i + 1));
                assert(a@.skip(i as int)[0] == a@[i as int]);
                assert(limbs_val(a@.skip(i as int)) == av + limb_base() * hi);
                assert((vb * hi) * bb + vb * av == vb * (av + bb * hi)) by (nonlinear_arith);
            }
            r = shifted.add(&row);
        }
        proof {
            assert(a@.skip(0) =~= a@);
            assert(other.val() * self.val() == self.val() * other.val()) by (nonlinear_arith);
        }
        r
    }

    /// `self` raised to `e` by repeated multiplication.
    pub fn pow(&self, e: usize) -> (r: UBig)
        requires
            self.wf(),
        ensures
            r.wf(),
            r.val() == pow_nat(self.val(), e as nat),
    {
        let mut r = UBig::from_word(1);
        let mut i: usize = 0;
        while i < e
            invariant
                i <= e,
                self.wf(),
                r.wf(),
                r.val() == pow_nat(self.val(), i as nat),
            decreases e - i,
        {
            proof {
                assert(pow_nat(self.val(), (i + 1) as nat) == self.val() * pow_nat(
                    self.val(),
                    i as nat,
                ));
            }
            r = self.mul(&r);
            i = i + 1;
        }
        r
    }
}

} // verus!
