//! Exact, total conversion between magnitudes and byte sequences in both
//! byte orders; no overflow path exists since a magnitude is unbounded.
use vstd::prelude::*;

use crate::ubig::UBig;

verus! {

/// The number a little-endian byte sequence denotes.
pub open spec fn bytes_val_le(s: Seq<u8>) -> nat
    decreases s.len(),
{
    if s.len() == 0 {
        0
    } else {
        (s[0] + 256 * bytes_val_le(s.drop_first())) as nat
    }
}

/// The number a big-endian byte sequence denotes.
pub open spec fn bytes_val_be(s: Seq<u8>) -> nat
    decreases s.len(),
{
    if s.len() == 0 {
        0
    } else {
        (bytes_val_be(s.drop_last()) * 256 + s[s.len() - 1]) as nat
    }
}

/// Appending a byte at the most-significant end adds its weighted value.
proof fn lemma_bytes_le_push(s: Seq<u8>, b: u8)
    ensures
        bytes_val_le(s.push(b)) == bytes_val_le(s) + b * crate::mul::pow_nat(256, s.len()),
    decreases s.len(),
{
    if s.len() == 0 {
        assert(s.push(b).drop_first() =~= Seq::<u8>::empty());
        assert(bytes_val_le(Seq::<u8>::empty()) == 0);
        assert(bytes_val_le(s.push(b)) == b + 256 * 0);
        assert(crate::mul::pow_nat(256, 0) == 1);
        assert(b * 1 == b) by (nonlinear_arith);
    } else {
        let d = s.drop_first();
        assert(s.push(b).drop_first() =~= d.push(b));
        lemma_bytes_le_push(d, b);
        let p = crate::mul::pow_nat(256, (s.len() - 1) as nat);
        assert(crate::mul::pow_nat(256, s.len()) == 256 * p);
        assert(bytes_val_le(s.push(b)) == s.push(b)[0] + 256 * bytes_val_le(d.push(b)));
        assert(s.push(b)[0] == s[0]);
        assert(bytes_val_le(s) == s[0] + 256 * bytes_val_le(d));
        assert(256 * (bytes_val_le(d) + b * p) == 256 * bytes_val_le(d) + b * (256 * p))
            by (nonlinear_arith);
    }
}

/// The two byte orders read reversed sequences to the same number.
pub proof fn lemma_bytes_le_be(s: Seq<u8>)
    ensures
        bytes_val_be(s.reverse()) == bytes_val_le(s),
    decreases s.len(),
{
    if s.len() > 0 {
        lemma_bytes_le_be(s.drop_first());
        let r = s.reverse();
        assert(r =~= s.drop_first().reverse().push(s[0]));
        assert(r.drop_last() =~= s.drop_first().reverse());
        assert(r[r.len() - 1] == s[0]);
        assert(bytes_val_le(s.drop_first()) * 256 == 256 * bytes_val_le(s.drop_first()))
            by (nonlinear_arith);
    }
}

impl UBig {
    /// The little-endian bytes of this magnitude, without trailing zeros;
    /// exact and total.
    pub fn to_le_bytes(&self) -> (out: Vec<u8>)
        requires
            self.wf(),
        ensures
            bytes_val_le(out@) == self.val(),
            out@.len() == 0 || out@[out@.len() - 1] != 0,
    {
        let mut out: Vec<u8> = Vec::new();
        let mut cur = self.duplicate();
        proof {
            assert(crate::mul::pow_nat(256, 0) == 1);
            assert(cur.val() * 1 == cur.val()) by (nonlinear_arith);
        }
        while !cur.is_zero()
            invariant
                cur.wf(),
                bytes_val_le(out@) + cur.val() * crate::mul::pow_nat(256, out@.len())
                    == self.val(),
                cur.val() == 0 ==> out@.len() == 0 || out@[out@.len() - 1] != 0,
            decreases cur.val(),
        {
            let ghost c0 = cur.val();
            let ghost out0 = out@;
            let qr = cur.div_mod_word(256);
            cur = qr.0;
            out.push(qr.1 as u8);
            proof {
                vstd::arithmetic::div_mod::lemma_div_decreases(c0 as int, 256);
                vstd::arithmetic::div_mod::lemma_fundamental_div_mod(c0 as int, 256);
                lemma_bytes_le_push(out0, (c0 % 256) as u8);
                let p = crate::mul::pow_nat(256, out0.len());
                assert(crate::mul::pow_nat(256, out0.len() + 1) == 256 * p);
                assert(c0 * p == (c0 / 256) * (256 * p) + (c0 % 256) * p) by (nonlinear_arith)
                    requires
                        c0 == 256 * (c0 / 256) + c0 % 256,
                ;
                if c0 / 256 == 0 {
                    assert(c0 < 256 && c0 > 0);
                    assert(out@[out@.len() - 1] == (c0 % 256) as u8);
                }
            }
        }
        proof {
            assert(cur.val() * crate::mul::pow_nat(256, out@.len()) == 0) by (nonlinear_arith)
                requires
                    cur.val() == 0,
            ;
        }
        out
    }

    /// The big-endian bytes of this magnitude, without leading zeros; exact
    /// and total.
    pub fn to_be_bytes(&self) -> (out: Vec<u8>)
        requires
            self.wf(),
        ensures
            bytes_val_be(out@) == self.val(),
            out@.len() == 0 || out@[0] != 0,
    {
        let le = self.to_le_bytes();
        let n = le.len();
        let mut out: Vec<u8> = Vec::new();
        let mut i: usize = 0;
        while i < n
            invariant
                i <= n,
                n == le@.len(),
                out@.len() == i,
                forall|m: int| 0 <= m < i ==> out@[m] == le@[n - 1 - m],
            decreases n - i,
        {
            out.push(le[n - 1 - i]);
            i = i + 1;
        }
        proof {
            assert(out@ =~= le@.reverse());
            lemma_bytes_le_be(le@);
        }
        out
    }

    /// A magnitude from big-endian bytes; exact and total.
    pub fn from_be_bytes(bytes: &[u8]) -> (r: UBig)
        ensures
            r.wf(),
            r.val() == bytes_val_be(bytes@),
    {
        let n = bytes.len();
        let mut v = UBig::zero();
        let mut i: usize = 0;
        proof {
            assert(bytes@.take(0) =~= Seq::<u8>::empty());
        }
        while i < n
            invariant
                i <= n,
                n == bytes@.len(),
                v.wf(),
                v.val() == bytes_val_be(bytes@.take(i as int)),
            decreases n - i,
        {
            let b = bytes[i];
            proof {
                let u = bytes@.take(i + 1);
                assert(u.drop_last() =~= bytes@.take(i as int));
                assert(u[u.len() - 1] == bytes@[i as int]);
            }
            v = v.mul_add_word(256, b as u64);
            i = i + 1;
        }
        proof {
            assert(bytes@.take(n as int) =~= bytes@);
        }
        v
    }

    /// A magnitude from little-endian bytes; exact and total.
    pub fn from_le_bytes(bytes: &[u8]) -> (r: UBig)
        ensures
            r.wf(),
            r.val() == bytes_val_le(bytes@),
    {
        let n = bytes.len();
        let mut v = UBig::zero();
        let mut i: usize = n;
        proof {
            assert(bytes@.skip(n as int) =~= Seq::<u8>::empty());
        }
        while i > 0
            invariant
                i <= n,
                n == bytes@.len(),
                v.wf(),
                v.val() == bytes_val_le(bytes@.skip(i as int)),
            decreases i,
        {
            i = i - 1;
            let b = bytes[i];
            proof {
                let u = bytes@.skip(i as int);
                assert(u.drop_first() =~= bytes@.skip(i + 1));
                assert(u[0] == bytes@[i as int]);
            }
            v = v.mul_add_word(256, b as u64);
            proof {
                assert(v.val() == bytes_val_le(bytes@.skip(i as int))) by (nonlinear_arith)
                    requires
                        v.val() == bytes_val_le(bytes@.skip(i + 1)) * 256 + bytes@[i as int],
                        bytes_val_le(bytes@.skip(i as int)) == bytes@[i as int] + 256
                            * bytes_val_le(bytes@.skip(i + 1)),
                ;
            }
        }
        proof {
            assert(bytes@.skip(0) =~= bytes@);
        }
        v
    }
}

} // verus!
