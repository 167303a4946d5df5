//! Comparison of magnitudes: once normalized, shorter means smaller, and
//! equal-length sequences compare lexicographically from the most significant
//! limb — the sole admissible implementation.
use vstd::prelude::*;

use crate::limbs::{
    is_norm, lemma_pow_b_le, lemma_pow_b_pos, lemma_val_bound, lemma_val_norm_lower,
    lemma_val_split, limb_base, limbs_val, pow_b,
};
use crate::ubig::UBig;

verus! {

/// A normalized longer sequence denotes a strictly larger value.
pub proof fn lemma_norm_len_lt(a: Seq<u64>, b: Seq<u64>)
    requires
        is_norm(b),
        a.len() < b.len(),
    ensures
        limbs_val(a) < limbs_val(b),
{
    lemma_val_bound(a);
    lemma_val_norm_lower(b);
    lemma_pow_b_le(a.len(), (b.len() - 1) as nat);
}

/// With equal lengths and equal limbs above position `i`, the limb at `i`
/// decides the order.
pub proof fn lemma_val_lex(a: Seq<u64>, b: Seq<u64>, i: int)
    requires
        a.len() == b.len(),
        0 <= i < a.len(),
        a[i] < b[i],
        forall|j: int| i < j < a.len() ==> a[j] == b[j],
    ensures
        limbs_val(a) < limbs_val(b),
{
    lemma_val_split(a, i);
    lemma_val_split(b, i);
    let p = pow_b(i as nat);
    let sa = a.skip(i);
    let sb = b.skip(i);
    assert(sa.drop_first() =~= sb.drop_first());
    assert(sa[0] == a[i] && sb[0] == b[i]);
    assert(limbs_val(sa) == sa[0] + limb_base() * limbs_val(sa.drop_first()));
    assert(limbs_val(sb) == sb[0] + limb_base() * limbs_val(sb.drop_first()));
    assert(limbs_val(sa) + 1 <= limbs_val(sb));
    lemma_val_bound(a.take(i));
    assert(a.take(i).len() == i);
    lemma_pow_b_pos(i as nat);
    assert(p * (limbs_val(sa) + 1) == p * limbs_val(sa) + p) by (nonlinear_arith);
    assert(limbs_val(a) < p * (limbs_val(sa) + 1));
    assert(p * (limbs_val(sa) + 1) <= p * limbs_val(sb)) by (nonlinear_arith)
        requires
            limbs_val(sa) + 1 <= limbs_val(sb),
            p >= 1,
    ;
    assert(limbs_val(b) >= p * limbs_val(sb));
}

impl UBig {
    /// Strict order on magnitudes.
    pub fn lt(&self, other: &UBig) -> (r: bool)
        requires
            self.wf(),
            other.wf(),
        ensures
            r <==> self.val() < other.val(),
    {
        let a = &self.limbs;
        let b = &other.limbs;
        if a.len() != b.len() {
            proof {
                if a.len() < b.len() {
                    lemma_norm_len_lt(a@, b@);
                } else {
                    lemma_norm_len_lt(b@, a@);
                }
            }
            return a.len() < b.len();
        }
        let mut i: usize = a.len();
        while i > 0
            invariant
                i <= a@.len(),
                a@.len() == b@.len(),
                self.limbs == *a,
                other.limbs == *b,
                forall|j: int| i <= j < a@.len() ==> a@[j] == b@[j],
            decreases i,
        {
            i = i - 1;
            if a[i] < b[i] {
                proof {
                    lemma_val_lex(a@, b@, i as int);
                }
                return true;
            }
            if a[i] > b[i] {
                proof {
                    lemma_val_lex(b@, a@, i as int);
                }
                return false;
            }
            proof {
                assert(a@[i as int] == b@[i as int]);
            }
        }
        proof {
            assert(a@ =~= b@);
        }
        false
    }

    /// Non-strict order on magnitudes.
    pub fn le(&self, other: &UBig) -> (r: bool)
        requires
            self.wf(),
            other.wf(),
        ensures
            r <==> self.val() <= other.val(),
    {
        !other.lt(self)
    }
}

} // verus!
