//! Addition and subtraction of magnitudes: ripple carry and borrow across
//! limbs, linear in the longer operand's limb count.
use vstd::prelude::*;

use crate::cmp::lemma_norm_len_lt;
use crate::limbs::{
    lemma_val_bound, lemma_val_pre_full, lemma_val_pre_step, lemma_val_pre_zero, lemma_val_push,
    limb_base, limbs_val, pow_b, val_pre,
};
use crate::ubig::UBig;

verus! {

impl UBig {
    /// Sum of two magnitudes; exact and total.
    pub fn add(&self, other: &UBig) -> (r: UBig)
        requires
            self.wf(),
            other.wf(),
        ensures
            r.wf(),
            r.val() == self.val() + other.val(),
    {
        let a = &self.limbs;
        let b = &other.limbs;
        let n = if a.len() >= b.len() {
            a.len()
        } else {
            b.len()
        };
        let mut out: Vec<u64> = Vec::new();
        let mut carry: u64 = 0;
        let mut i: usize = 0;
        proof {
            lemma_val_pre_zero(a@);
            lemma_val_pre_zero(b@);
        }
        while i < n
            invariant
                i <= n,
                n >= a@.len(),
                n >= b@.len(),
                carry <= 1,
                out@.len() == i,
                self.limbs == *a,
                other.limbs == *b,
                limbs_val(out@) + carry * pow_b(i as nat) == val_pre(a@, i as int) + val_pre(
                    b@,
                    i as int,
                ),
            decreases n - i,
        {
            let av: u64 = if i < a.len() {
                a[i]
            } else {
                0
            };
            let bv: u64 = if i < b.len() {
                b[i]
            } else {
                0
            };
            let t: u128 = av as u128 + bv as u128 + carry as u128;
            assert(t < 0x2_0000_0000_0000_0000u128);
            let lo: u64 = (t % 0x1_0000_0000_0000_0000u128) as u64;
            let hi: u64 = (t / 0x1_0000_0000_0000_0000u128) as u64;
            proof {
                let bb = limb_base() as int;
                let p = pow_b(i as nat) as int;
                vstd::arithmetic::div_mod::lemma_fundamental_div_mod(t as int, bb);
                assert(hi <= 1);
                assert(av + bv + carry == hi * bb + lo);
                lemma_val_push(out@, lo);
                lemma_val_pre_step(a@, i as int);
                lemma_val_pre_step(b@, i as int);
                assert((av + bv + carry) * p == av * p + bv * p + carry * p) by (nonlinear_arith);
                assert((hi * bb + lo) * p == hi * (bb * p) + lo * p) by (nonlinear_arith);
                assert(pow_b((i + 1) as nat) == bb * p);
            }
            out.push(lo);
            carry = hi;
            i = i + 1;
        }
        proof {
            lemma_val_pre_full(a@, n as int);
            lemma_val_pre_full(b@, n as int);
        }
        if carry > 0 {
            proof {
                lemma_val_push(out@, carry);
            }
            out.push(carry);
        }
        UBig::from_limbs(out)
    }

    /// Difference of magnitudes. Subtracting a larger magnitude from a
    /// smaller one is an error at this layer: sign resolution belongs to the
    /// signed-integer layer, which compares magnitudes first.
    pub fn sub(&self, other: &UBig) -> (r: UBig)
        requires
            self.wf(),
            other.wf(),
            other.val() <= self.val(),
        ensures
            r.wf(),
            r.val() + other.val() == self.val(),
    {
        let a = &self.limbs;
        let b = &other.limbs;
        proof {
            if b@.len() > a@.len() {
                lemma_norm_len_lt(a@, b@);
                assert(false);
            }
        }
        let n = a.len();
        let mut out: Vec<u64> = Vec::new();
        let mut borrow: u64 = 0;
        let mut i: usize = 0;
        proof {
            lemma_val_pre_zero(a@);
            lemma_val_pre_zero(b@);
        }
        while i < n
            invariant
                i <= n,
                n == a@.len(),
                b@.len() <= n,
                borrow <= 1,
                out@.len() == i,
                self.limbs == *a,
                other.limbs == *b,
                val_pre(a@, i as int) - val_pre(b@, i as int) == limbs_val(out@) - borrow * pow_b(
                    i as nat,
                ),
            decreases n - i,
        {
            let av: u64 = a[i];
            let bv: u64 = if i < b.len() {
                b[i]
            } else {
                0
            };
            let t: u128 = (0x1_0000_0000_0000_0000u128 + av as u128) - bv as u128 - borrow as u128;
            assert(t < 0x2_0000_0000_0000_0000u128);
            let lo: u64 = (t % 0x1_0000_0000_0000_0000u128) as u64;
            let q: u64 = (t / 0x1_0000_0000_0000_0000u128) as u64;
            let nb: u64 = 1 - q;
            proof {
                let bb = limb_base() as int;
                let p = pow_b(i as nat) as int;
                vstd::arithmetic::div_mod::lemma_fundamental_div_mod(t as int, bb);
                assert(q <= 1);
                assert(av - bv - borrow == lo - nb * bb);
                lemma_val_push(out@, lo);
                lemma_val_pre_step(a@, i as int);
                lemma_val_pre_step(b@, i as int);
                assert((av - bv - borrow) * p == av * p - bv * p - borrow * p) by (nonlinear_arith);
                assert((lo - nb * bb) * p == lo * p - nb * (bb * p)) by (nonlinear_arith);
                assert(pow_b((i + 1) as nat) == bb * p);
            }
            out.push(lo);
            borrow = nb;
            i = i + 1;
        }
        proof {
            lemma_val_pre_full(a@, n as int);
            lemma_val_pre_full(b@, n as int);
            if borrow == 1 {
                lemma_val_bound(out@);
                assert(false);
            }
        }
        UBig::from_limbs(out)
    }
}

} // verus!
