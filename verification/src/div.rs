//! Division with remainder. Dividing by a single limb is a direct linear
//! long-division pass; dividing by a multi-limb divisor walks the dividend's
//! bits from the top, doubling quotient and remainder at every step.
use vstd::prelude::*;

use crate::error::Error;
use crate::limbs::{
    lemma_pow2n_adds, lemma_pow2n_limb, lemma_pow2n_pos, lemma_pow_b_pow2n, lemma_val_bound,
    lemma_val_split, lemma_val_suf_empty, lemma_val_suf_step, limb_base, limbs_val, pow2n, pow_b,
    val_suf,
};
use crate::ubig::UBig;
use vstd::arithmetic::div_mod::{
    lemma_basic_div, lemma_div_denominator, lemma_fundamental_div_mod,
    lemma_fundamental_div_mod_converse,
};

verus! {

/// `pow2n(m) <= pow2n(n)` whenever `m <= n`.
proof fn lemma_pow2n_le(m: nat, n: nat)
    requires
        m <= n,
    ensures
        pow2n(m) <= pow2n(n),
{
    lemma_pow2n_adds(m, (n - m) as nat);
    lemma_pow2n_pos(m);
    lemma_pow2n_pos((n - m) as nat);
    assert(pow2n(m) * 1 <= pow2n(m) * pow2n((n - m) as nat)) by (nonlinear_arith)
        requires
            pow2n(m) >= 1,
            pow2n((n - m) as nat) >= 1,
    ;
}

/// The power of two fitting one machine word.
fn word_pow2(r: usize) -> (p: u64)
    requires
        r < 64,
    ensures
        p == pow2n(r as nat),
{
    let mut p: u64 = 1;
    let mut j: usize = 0;
    while j < r
        invariant
            j <= r,
            r < 64,
            p == pow2n(j as nat),
        decreases r - j,
    {
        proof {
            lemma_pow2n_le((j + 1) as nat, 63);
            lemma_pow2n_limb();
            lemma_pow2n_le(63, 64);
        }
        p = p * 2;
        j = j + 1;
    }
    p
}

/// The number of binary digits of a number; zero has none.
pub open spec fn bit_len_nat(n: nat) -> nat
    decreases n,
{
    if n == 0 {
        0
    } else {
        1 + bit_len_nat(n / 2)
    }
}

/// A positive number sits between consecutive powers of two named by its
/// bit length.
pub proof fn lemma_bit_len_bounds(n: nat)
    requires
        n > 0,
    ensures
        bit_len_nat(n) >= 1,
        pow2n((bit_len_nat(n) - 1) as nat) <= n < pow2n(bit_len_nat(n)),
    decreases n,
{
    if n / 2 == 0 {
        assert(n == 1);
        assert(bit_len_nat(0) == 0);
        assert(pow2n(0) == 1 && pow2n(1) == 2);
    } else {
        lemma_bit_len_bounds(n / 2);
        let k = bit_len_nat(n / 2);
        lemma_fundamental_div_mod(n as int, 2);
        assert(pow2n(k) == 2 * pow2n((k - 1) as nat));
        assert(pow2n(k + 1) == 2 * pow2n(k));
    }
}

/// The bounds determine the bit length.
pub proof fn lemma_bit_len_unique(n: nat, k: nat)
    requires
        k >= 1,
        pow2n((k - 1) as nat) <= n < pow2n(k),
    ensures
        bit_len_nat(n) == k,
{
    lemma_pow2n_pos((k - 1) as nat);
    lemma_bit_len_bounds(n);
    let bl = bit_len_nat(n);
    if bl < k {
        lemma_pow2n_le(bl, (k - 1) as nat);
        assert(false);
    }
    if bl > k {
        lemma_pow2n_le(k, (bl - 1) as nat);
        assert(false);
    }
}

impl UBig {
    /// The exact number of binary digits of this magnitude.
    pub fn bit_len(&self) -> (r: u128)
        requires
            self.wf(),
        ensures
            r == bit_len_nat(self.val()),
    {
        let n = self.limbs.len();
        if n == 0 {
            return 0;
        }
        let top = self.limbs[n - 1];
        let mut t: u64 = top;
        let mut c: u64 = 0;
        proof {
            assert(pow2n(0) == 1);
            assert(1 * (top as int) == top as int);
        }
        while t > 0
            invariant
                c <= 64,
                bit_len_nat(top as nat) == c + bit_len_nat(t as nat),
                t > 0 ==> pow2n(c as nat) * t <= top,
            decreases t,
        {
            proof {
                assert(bit_len_nat(t as nat) == 1 + bit_len_nat((t as nat) / 2));
                assert((t as nat) / 2 == (t / 2) as nat);
                if t / 2 > 0 {
                    assert(pow2n((c + 1) as nat) == 2 * pow2n(c as nat));
                    assert(pow2n(c as nat) * t >= (2 * pow2n(c as nat)) * (t / 2))
                        by (nonlinear_arith)
                        requires
                            t >= 2 * (t / 2),
                            pow2n(c as nat) >= 0,
                    ;
                }
                if c == 64 {
                    lemma_pow2n_limb();
                    assert(pow2n(64) * t > 0xffff_ffff_ffff_ffffu64) by (nonlinear_arith)
                        requires
                            pow2n(64) == 0x1_0000_0000_0000_0000,
                            t >= 1,
                    ;
                    assert(false);
                }
                lemma_pow2n_pos(c as nat);
            }
            t = t / 2;
            c = c + 1;
        }
        let ghost bt = bit_len_nat(top as nat);
        proof {
            assert(bit_len_nat(0) == 0);
            assert(bt == c);
            lemma_bit_len_bounds(top as nat);
            let len1 = (n - 1) as nat;
            lemma_val_split(self.limbs@, n - 1);
            crate::limbs::lemma_val_one(self.limbs@.skip(n - 1));
            assert(self.limbs@.skip(n - 1)[0] == top);
            lemma_val_bound(self.limbs@.take(n - 1));
            assert(self.limbs@.take(n - 1).len() == len1);
            lemma_pow_b_pow2n(len1);
            let p = pow_b(len1);
            let low = limbs_val(self.limbs@.take(n - 1));
            assert(self.val() == low + p * top);
            lemma_pow2n_adds(64 * len1, (bt - 1) as nat);
            lemma_pow2n_adds(64 * len1, bt);
            assert(p * top >= p * pow2n((bt - 1) as nat)) by (nonlinear_arith)
                requires
                    top >= pow2n((bt - 1) as nat),
                    p >= 0,
            ;
            assert(low + p * top < p * pow2n(bt)) by (nonlinear_arith)
                requires
                    low < p,
                    top < pow2n(bt),
                    p >= 1,
                    top + 1 <= pow2n(bt),
            ;
            lemma_bit_len_unique(self.val(), 64 * len1 + bt);
        }
        (n as u128 - 1) * 64 + c as u128
    }
}

impl UBig {
    /// Long division by a single limb: one linear pass from the top limb.
    pub fn div_mod_word(&self, d: u64) -> (res: (UBig, u64))
        requires
            self.wf(),
            d > 0,
        ensures
            res.0.wf(),
            res.0.val() == self.val() / (d as nat),
            res.1 == self.val() % (d as nat),
            res.1 < d,
    {
        let s = &self.limbs;
        let n = s.len();
        let mut out: Vec<u64> = Vec::new();
        while out.len() < n
            invariant
                out@.len() <= n,
            decreases n - out@.len(),
        {
            out.push(0);
        }
        let mut rem: u64 = 0;
        let mut i: usize = n;
        proof {
            lemma_val_suf_empty(s@);
            lemma_val_suf_empty(out@);
            assert(val_suf(out@, n as int) * d == 0) by (nonlinear_arith)
                requires
                    val_suf(out@, n as int) == 0,
            ;
        }
        while i > 0
            invariant
                i <= n,
                n == s@.len(),
                out@.len() == n,
                self.limbs == *s,
                rem < d,
                val_suf(s@, i as int) == val_suf(out@, i as int) * d + rem,
            decreases i,
        {
            i = i - 1;
            proof {
                assert((rem as u128) * 0x1_0000_0000_0000_0000u128 + (s@[i as int] as u128)
                    <= 0xffff_ffff_ffff_ffff_ffff_ffff_ffff_ffffu128) by (nonlinear_arith)
                    requires
                        rem < 0x1_0000_0000_0000_0000u128,
                        s@[i as int] < 0x1_0000_0000_0000_0000u128,
                ;
            }
            let cur: u128 = (rem as u128) * 0x1_0000_0000_0000_0000u128 + s[i] as u128;
            let qi_wide: u128 = cur / (d as u128);
            let r2: u64 = (cur % (d as u128)) as u64;
            proof {
                let bb = limb_base() as int;
                lemma_fundamental_div_mod(cur as int, d as int);
                assert(cur < d * bb) by (nonlinear_arith)
                    requires
                        cur == rem * bb + s@[i as int],
                        rem + 1 <= d,
                        s@[i as int] < bb,
                        bb > 0,
                ;
                assert(qi_wide < bb) by (nonlinear_arith)
                    requires
                        cur < d * bb,
                        d > 0,
                        qi_wide == cur as int / d as int,
                        qi_wide * d + (cur as int % d as int) == cur,
                        cur as int % d as int >= 0,
                ;
            }
            let qi: u64 = qi_wide as u64;
            let ghost old_out = out@;
            out.set(i, qi);
            proof {
                let bb = limb_base() as int;
                assert(out@.skip(i + 1) =~= old_out.skip(i + 1));
                lemma_val_suf_step(s@, i as int);
                lemma_val_suf_step(out@, i as int);
                let vso = val_suf(out@, i + 1) as int;
                assert(s@[i as int] + bb * (vso * d + rem) == (qi + bb * vso) * d + r2)
                    by (nonlinear_arith)
                    requires
                        rem * bb + s@[i as int] == qi * d + r2,
                ;
            }
            rem = r2;
        }
        proof {
            assert(s@.skip(0) =~= s@);
            assert(out@.skip(0) =~= out@);
            lemma_fundamental_div_mod_converse(
                self.val() as int,
                d as int,
                limbs_val(out@) as int,
                rem as int,
            );
        }
        (UBig::from_limbs(out), rem)
    }

    /// Division with remainder: the unique pair with
    /// `self == q * other + r` and `r < other`. A zero divisor is a dedicated
    /// error, never silently defined as any value.
    pub fn div_rem(&self, other: &UBig) -> (res: Result<(UBig, UBig), Error>)
        requires
            self.wf(),
            other.wf(),
        ensures
            match res {
                Ok(qr) => other.val() > 0 && qr.0.wf() && qr.1.wf() && qr.0.val() == self.val()
                    / other.val() && qr.1.val() == self.val() % other.val(),
                Err(e) => other.val() == 0 && e == Error::DivisionByZero,
            },
    {
        if other.is_zero() {
            return Err(Error::DivisionByZero);
        }
        let a = &self.limbs;
        let ghost bv = other.val() as int;
        let mut q = UBig::zero();
        let mut rem = UBig::zero();
        let mut i: usize = a.len();
        proof {
            lemma_val_suf_empty(a@);
            assert(0 * bv == 0) by (nonlinear_arith);
        }
        while i > 0
            invariant
                i <= a@.len(),
                self.limbs == *a,
                self.wf(),
                other.wf(),
                other.val() > 0,
                bv == other.val(),
                q.wf(),
                rem.wf(),
                q.val() * bv + rem.val() == val_suf(a@, i as int),
                rem.val() < bv,
            decreases i,
        {
            i = i - 1;
            let a_i: u64 = a[i];
            let mut rc: usize = 0;
            let mut pw: u64 = 0x8000_0000_0000_0000;
            proof {
                lemma_pow2n_limb();
                lemma_basic_div(a_i as int, pow2n(64) as int);
                assert(pw == pow2n(63)) by {
                    assert(pow2n(0) == 1);
                    lemma_pow2n_adds(32, 31);
                    lemma_pow2n_adds(16, 15);
                    lemma_pow2n_adds(8, 7);
                    lemma_pow2n_adds(4, 3);
                    lemma_pow2n_adds(2, 1);
                    lemma_pow2n_adds(1, 1);
                    lemma_pow2n_adds(16, 16);
                    lemma_pow2n_adds(8, 8);
                    lemma_pow2n_adds(4, 4);
                    lemma_pow2n_adds(2, 2);
                    assert(pow2n(1) == 2);
                }
                assert(q.val() * bv + rem.val() == val_suf(a@, i + 1) * pow2n(0) + (a_i as nat) / pow2n(
                    64,
                )) by {
                    assert(pow2n(0) == 1);
                    assert(val_suf(a@, i + 1) * 1 == val_suf(a@, i + 1));
                }
            }
            while rc < 64
                invariant
                    rc <= 64,
                    rc < 64 ==> pw == pow2n((63 - rc) as nat),
                    self.wf(),
                    other.wf(),
                    other.val() > 0,
                    bv == other.val(),
                    q.wf(),
                    rem.wf(),
                    q.val() * bv + rem.val() == val_suf(a@, i + 1) * pow2n(rc as nat) + (a_i as nat)
                        / pow2n((64 - rc) as nat),
                    rem.val() < bv,
                decreases 64 - rc,
            {
                proof {
                    lemma_pow2n_pos((63 - rc) as nat);
                }
                let bit: u64 = (a_i / pw) % 2;
                let ghost old_q = q.val() as int;
                let ghost old_rem = rem.val() as int;
                let ghost vs = val_suf(a@, i + 1) as int;
                let ghost y = a_i as int / pow2n((63 - rc) as nat) as int;
                proof {
                    let p_lo = pow2n((63 - rc) as nat) as int;
                    let p_hi = pow2n((64 - rc) as nat) as int;
                    assert(p_hi == 2 * p_lo);
                    lemma_div_denominator(a_i as int, p_lo, 2);
                    lemma_fundamental_div_mod(y, 2);
                    assert(y == 2 * (a_i as int / p_hi) + bit);
                    assert(vs * pow2n((rc + 1) as nat) == 2 * (vs * pow2n(rc as nat)))
                        by (nonlinear_arith)
                        requires
                            pow2n((rc + 1) as nat) == 2 * pow2n(rc as nat),
                    ;
                }
                rem = rem.mul_add_word(2, bit);
                let qbit: u64 = if other.le(&rem) {
                    1
                } else {
                    0
                };
                if qbit == 1 {
                    rem = rem.sub(other);
                }
                proof {
                    assert(rem.val() == 2 * old_rem + bit - qbit * bv);
                    assert((2 * old_q + qbit) * bv == 2 * (old_q * bv) + qbit * bv)
                        by (nonlinear_arith);
                }
                q = q.mul_add_word(2, qbit);
                pw = pw / 2;
                rc = rc + 1;
                proof {
                    if rc < 64 {
                        assert(pow2n((64 - rc) as nat) == 2 * pow2n((63 - rc) as nat));
                    }
                }
            }
            proof {
                lemma_pow2n_limb();
                lemma_val_suf_step(a@, i as int);
                assert(a_i as int / pow2n(0) as int == a_i) by {
                    assert(pow2n(0) == 1);
                    lemma_basic_div(0, 1);
                    vstd::arithmetic::div_mod::lemma_div_basics_1(a_i as int);
                }
                assert(val_suf(a@, i + 1) * pow2n(64) == limb_base() * val_suf(a@, i + 1))
                    by (nonlinear_arith)
                    requires
                        pow2n(64) == limb_base(),
                ;
            }
        }
        proof {
            assert(a@.skip(0) =~= a@);
            lemma_fundamental_div_mod_converse(
                self.val() as int,
                bv,
                q.val() as int,
                rem.val() as int,
            );
        }
        Ok((q, rem))
    }

    /// Shift left by `k` bits: multiplies the value by `2^k`.
    pub fn shl(&self, k: usize) -> (r: UBig)
        requires
            self.wf(),
        ensures
            r.wf(),
            r.val() == self.val() * pow2n(k as nat),
    {
        let ql: usize = k / 64;
        let rl: usize = k % 64;
        let pw = word_pow2(rl);
        let mut res = self.mul_word(pw);
        let mut j: usize = 0;
        proof {
            assert(pow_b(0) == 1);
            assert(self.val() * pow2n(rl as nat) * 1 == self.val() * pow2n(rl as nat));
        }
        while j < ql
            invariant
                j <= ql,
                self.wf(),
                res.wf(),
                res.val() == self.val() * pow2n(rl as nat) * pow_b(j as nat),
            decreases ql - j,
        {
            proof {
                assert(pow_b((j + 1) as nat) == limb_base() * pow_b(j as nat));
                assert(res.val() * limb_base() == self.val() * pow2n(rl as nat) * pow_b(
                    (j + 1) as nat,
                )) by (nonlinear_arith)
                    requires
                        res.val() == self.val() * pow2n(rl as nat) * pow_b(j as nat),
                        pow_b((j + 1) as nat) == limb_base() * pow_b(j as nat),
                ;
            }
            res = res.shl_limb();
            j = j + 1;
        }
        proof {
            lemma_pow_b_pow2n(ql as nat);
            lemma_pow2n_adds(rl as nat, (64 * ql) as nat);
            assert(k == rl + 64 * ql) by {
                lemma_fundamental_div_mod(k as int, 64);
            }
            assert(self.val() * pow2n(rl as nat) * pow2n((64 * ql) as nat) == self.val() * (pow2n(
                rl as nat,
            ) * pow2n((64 * ql) as nat))) by (nonlinear_arith);
        }
        res
    }
}

} // verus!
