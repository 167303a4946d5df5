//! General properties of the arithmetic, stated once over the values the
//! operations' contracts speak of.
use vstd::prelude::*;

use crate::ubig::UBig;
use vstd::arithmetic::div_mod::lemma_fundamental_div_mod;

verus! {

/// Multiplication of magnitudes is commutative: `a.mul(&b)` and `b.mul(&a)`
/// return the same value, whichever path computed them.
pub proof fn lemma_mul_comm(a: &UBig, b: &UBig)
    requires
        a.wf(),
        b.wf(),
    ensures
        a.val() * b.val() == b.val() * a.val(),
{
    assert(a.val() * b.val() == b.val() * a.val()) by (nonlinear_arith);
}

/// Multiplication of magnitudes is associative.
pub proof fn lemma_mul_assoc(a: &UBig, b: &UBig, c: &UBig)
    requires
        a.wf(),
        b.wf(),
        c.wf(),
    ensures
        (a.val() * b.val()) * c.val() == a.val() * (b.val() * c.val()),
{
    assert((a.val() * b.val()) * c.val() == a.val() * (b.val() * c.val())) by (nonlinear_arith);
}

/// Division identity: the quotient and remainder that `div_rem` returns
/// rebuild the dividend exactly, and the remainder stays below the divisor.
pub proof fn lemma_div_identity(a: &UBig, b: &UBig)
    requires
        a.wf(),
        b.wf(),
        b.val() > 0,
    ensures
        (a.val() / b.val()) * b.val() + a.val() % b.val() == a.val(),
        a.val() % b.val() < b.val(),
{
    lemma_fundamental_div_mod(a.val() as int, b.val() as int);
    assert((a.val() / b.val()) * (b.val() as int) == (b.val() as int) * (a.val() / b.val()))
        by (nonlinear_arith);
}

} // verus!
