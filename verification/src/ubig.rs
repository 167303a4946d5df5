//! Unsigned arbitrary-precision integers: a bare magnitude held as a
//! normalized vector of 64-bit limbs, least-significant limb first.
use vstd::prelude::*;

use crate::limbs::{
    is_norm, lemma_norm_unique, lemma_pow_b_pos, lemma_val_drop_last_zero, lemma_val_norm_lower,
    limb_base, limbs_val,
};

verus! {

/// A non-negative integer of unbounded magnitude.
///
/// Invariant (`wf`): the limb vector carries no trailing zero limb, so every
/// value has exactly one representation and zero is the empty vector.
#[derive(Clone, Debug)]
pub struct UBig {
    pub limbs: Vec<u64>,
}

impl UBig {
    /// The canonical-representation invariant.
    pub open spec fn wf(&self) -> bool {
        is_norm(self.limbs@)
    }

    /// The non-negative integer this magnitude denotes.
    pub open spec fn val(&self) -> nat {
        limbs_val(self.limbs@)
    }

    /// The zero magnitude: the canonical empty limb sequence.
    pub fn zero() -> (r: UBig)
        ensures
            r.wf(),
            r.val() == 0,
    {
        UBig { limbs: Vec::new() }
    }

    /// Strips trailing zero limbs; the sole way a magnitude is made canonical.
    pub fn from_limbs(limbs: Vec<u64>) -> (r: UBig)
        ensures
            r.wf(),
            r.val() == limbs_val(limbs@),
    {
        let mut v = limbs;
        let ghost orig = v@;
        while v.len() > 0 && v[v.len() - 1] == 0
            invariant
                limbs_val(v@) == limbs_val(orig),
            decreases v.len(),
        {
            proof {
                lemma_val_drop_last_zero(v@);
            }
            v.pop();
        }
        UBig { limbs: v }
    }

    /// A magnitude from a single machine word; exact and total.
    pub fn from_word(w: u64) -> (r: UBig)
        ensures
            r.wf(),
            r.val() == w,
    {
        let mut limbs: Vec<u64> = Vec::new();
        if w != 0 {
            limbs.push(w);
        }
        proof {
            if w != 0 {
                crate::limbs::lemma_val_one(limbs@);
            }
        }
        UBig { limbs }
    }

    /// A magnitude from a double word; exact and total.
    pub fn from_double_word(w: u128) -> (r: UBig)
        ensures
            r.wf(),
            r.val() == w,
    {
        let lo: u64 = (w % 0x1_0000_0000_0000_0000u128) as u64;
        let hi: u64 = (w / 0x1_0000_0000_0000_0000u128) as u64;
        let mut limbs: Vec<u64> = Vec::new();
        limbs.push(lo);
        limbs.push(hi);
        proof {
            let s = limbs@;
            crate::limbs::lemma_val_two(s);
            assert(limbs_val(s) == lo + limb_base() * hi);
            assert(w == limb_base() * hi + lo) by (nonlinear_arith)
                requires
                    lo == w % 0x1_0000_0000_0000_0000u128,
                    hi == w / 0x1_0000_0000_0000_0000u128,
            ;
        }
        UBig::from_limbs(limbs)
    }

    /// True exactly when this magnitude is zero.
    pub fn is_zero(&self) -> (r: bool)
        requires
            self.wf(),
        ensures
            r <==> self.val() == 0,
    {
        proof {
            if self.limbs@.len() > 0 {
                lemma_val_norm_lower(self.limbs@);
                lemma_pow_b_pos((self.limbs@.len() - 1) as nat);
            }
        }
        self.limbs.len() == 0
    }

    /// An identical, independently owned magnitude.
    pub fn duplicate(&self) -> (r: UBig)
        ensures
            r.limbs@ == self.limbs@,
            r.wf() == self.wf(),
            r.val() == self.val(),
    {
        let mut v: Vec<u64> = Vec::new();
        let mut i: usize = 0;
        while i < self.limbs.len()
            invariant
                i <= self.limbs@.len(),
                v@ =~= self.limbs@.take(i as int),
            decreases self.limbs@.len() - i,
        {
            v.push(self.limbs[i]);
            proof {
                assert(v@ =~= self.limbs@.take(i + 1));
            }
            i = i + 1;
        }
        proof {
            assert(v@ =~= self.limbs@);
        }
        UBig { limbs: v }
    }

    /// Canonical representations are unique: equal values mean equal limbs.
    pub proof fn lemma_canonical(a: &UBig, b: &UBig)
        requires
            a.wf(),
            b.wf(),
            a.val() == b.val(),
        ensures
            a.limbs@ == b.limbs@,
    {
        lemma_norm_unique(a.limbs@, b.limbs@);
    }
}

/// Limb-vector equality, the ground for `==` on magnitudes.
fn eq_limbs(a: &Vec<u64>, b: &Vec<u64>) -> (r: bool)
    ensures
        r <==> a@ == b@,
{
    if a.len() != b.len() {
        proof {
            assert(a@.len() != b@.len());
        }
        return false;
    }
    let mut i: usize = 0;
    while i < a.len()
        invariant
            i <= a@.len(),
            a@.len() == b@.len(),
            forall|j: int| 0 <= j < i ==> a@[j] == b@[j],
        decreases a@.len() - i,
    {
        if a[i] != b[i] {
            return false;
        }
        i = i + 1;
    }
    proof {
        assert(a@ =~= b@);
    }
    true
}

impl PartialEq for UBig {
    /// Magnitudes are equal exactly when their canonical limb vectors are.
    fn eq(&self, other: &UBig) -> (r: bool) {
        eq_limbs(&self.limbs, &other.limbs)
    }
}

impl vstd::std_specs::cmp::PartialEqSpecImpl for UBig {
    open spec fn obeys_eq_spec() -> bool {
        true
    }

    open spec fn eq_spec(&self, other: &UBig) -> bool {
        self.limbs@ == other.limbs@
    }
}

} // verus!
