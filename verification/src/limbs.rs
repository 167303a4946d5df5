//! Mathematical model of limb sequences: the value they denote, the
//! normalization invariant, and the lemmas the arithmetic kernels rest on.
use vstd::prelude::*;

verus! {

/// Numeric base of one limb: `2^64`.
pub open spec fn limb_base() -> nat {
    0x1_0000_0000_0000_0000
}

/// `limb_base()` raised to `n`: the weight of the limb at position `n`.
pub open spec fn pow_b(n: nat) -> nat
    decreases n,
{
    if n == 0 {
        1
    } else {
        limb_base() * pow_b((n - 1) as nat)
    }
}

/// Value of a limb sequence, least-significant limb first, in base `2^64`.
pub open spec fn limbs_val(s: Seq<u64>) -> nat
    decreases s.len(),
{
    if s.len() == 0 {
        0
    } else {
        (s[0] + limb_base() * limbs_val(s.drop_first())) as nat
    }
}

/// Canonical form: no trailing (most-significant) zero limb.
pub open spec fn is_norm(s: Seq<u64>) -> bool {
    s.len() == 0 || s[s.len() - 1] != 0
}

/// Value of a one-limb sequence.
pub proof fn lemma_val_one(s: Seq<u64>)
    requires
        s.len() == 1,
    ensures
        limbs_val(s) == s[0],
{
    assert(s.drop_first() =~= Seq::<u64>::empty());
    assert(limbs_val(Seq::<u64>::empty()) == 0);
}

/// Value of a two-limb sequence.
pub proof fn lemma_val_two(s: Seq<u64>)
    requires
        s.len() == 2,
    ensures
        limbs_val(s) == s[0] + limb_base() * s[1],
{
    lemma_val_one(s.drop_first());
    assert(s.drop_first()[0] == s[1]);
}

pub proof fn lemma_pow_b_pos(n: nat)
    ensures
        pow_b(n) >= 1,
    decreases n,
{
    if n > 0 {
        lemma_pow_b_pos((n - 1) as nat);
    }
}

pub proof fn lemma_pow_b_adds(a: nat, b: nat)
    ensures
        pow_b(a + b) == pow_b(a) * pow_b(b),
    decreases a,
{
    if a == 0 {
        assert(pow_b(0) == 1);
        assert(1 * pow_b(b) == pow_b(b));
    } else {
        lemma_pow_b_adds((a - 1) as nat, b);
        assert((a + b - 1) as nat == (a - 1) as nat + b);
        assert(limb_base() * (pow_b((a - 1) as nat) * pow_b(b)) == (limb_base() * pow_b(
            (a - 1) as nat,
        )) * pow_b(b)) by (nonlinear_arith);
    }
}

/// Appending a limb at the most-significant end adds its weighted value.
pub proof fn lemma_val_push(s: Seq<u64>, x: u64)
    ensures
        limbs_val(s.push(x)) == limbs_val(s) + x * pow_b(s.len()),
    decreases s.len(),
{
    if s.len() == 0 {
        lemma_val_one(s.push(x));
        assert(limbs_val(s) == 0);
        assert(pow_b(0) == 1);
    } else {
        let d = s.drop_first();
        assert(s.push(x).drop_first() =~= d.push(x));
        lemma_val_push(d, x);
        let p = pow_b((s.len() - 1) as nat);
        assert(limbs_val(s.push(x)) == s.push(x)[0] + limb_base() * limbs_val(d.push(x)));
        assert(s.push(x)[0] == s[0]);
        assert(limb_base() * (limbs_val(d) + x * p) == limb_base() * limbs_val(d) + x * (
        limb_base() * p)) by (nonlinear_arith);
        assert(pow_b(s.len()) == limb_base() * p);
        assert(limbs_val(s) == s[0] + limb_base() * limbs_val(d));
    }
}

/// A sequence of `n` limbs denotes a value below `pow_b(n)`.
pub proof fn lemma_val_bound(s: Seq<u64>)
    ensures
        limbs_val(s) < pow_b(s.len()),
    decreases s.len(),
{
    if s.len() == 0 {
    } else {
        lemma_val_bound(s.drop_first());
        let rest = limbs_val(s.drop_first());
        let p = pow_b((s.len() - 1) as nat);
        assert(rest + 1 <= p);
        assert(limb_base() * rest + limb_base() <= limb_base() * p) by (nonlinear_arith)
            requires
                rest + 1 <= p,
        ;
        assert(s[0] < limb_base());
    }
}

/// Splitting a sequence at `i` splits its value.
pub proof fn lemma_val_split(s: Seq<u64>, i: int)
    requires
        0 <= i <= s.len(),
    ensures
        limbs_val(s) == limbs_val(s.take(i)) + pow_b(i as nat) * limbs_val(s.skip(i)),
    decreases i,
{
    if i == 0 {
        assert(s.take(0) =~= Seq::<u64>::empty());
        assert(s.skip(0) =~= s);
        assert(limbs_val(Seq::<u64>::empty()) == 0);
        assert(pow_b(0) == 1);
        assert(1 * limbs_val(s) == limbs_val(s));
    } else {
        let d = s.drop_first();
        lemma_val_split(d, i - 1);
        assert(s.take(i).drop_first() =~= d.take(i - 1));
        assert(s.skip(i) =~= d.skip(i - 1));
        assert(s.take(i).len() == i);
        assert(s.take(i)[0] == s[0]);
        let p = pow_b((i - 1) as nat);
        let hi = limbs_val(d.skip(i - 1));
        assert(limbs_val(s.take(i)) == s[0] + limb_base() * limbs_val(d.take(i - 1)));
        assert(limbs_val(s) == s[0] + limb_base() * limbs_val(d));
        assert(limb_base() * (limbs_val(d.take(i - 1)) + p * hi) == limb_base() * limbs_val(
            d.take(i - 1),
        ) + (limb_base() * p) * hi) by (nonlinear_arith);
        assert(pow_b(i as nat) == limb_base() * p);
    }
}

/// Weights never shrink as the position grows.
pub proof fn lemma_pow_b_le(m: nat, n: nat)
    requires
        m <= n,
    ensures
        pow_b(m) <= pow_b(n),
{
    lemma_pow_b_adds(m, (n - m) as nat);
    lemma_pow_b_pos(m);
    lemma_pow_b_pos((n - m) as nat);
    assert(pow_b(m) * 1 <= pow_b(m) * pow_b((n - m) as nat)) by (nonlinear_arith)
        requires
            pow_b(m) >= 1,
            pow_b((n - m) as nat) >= 1,
    ;
}

/// Value of the first `i` limbs; the whole value once `i` passes the end.
pub open spec fn val_pre(s: Seq<u64>, i: int) -> nat {
    if i <= s.len() {
        limbs_val(s.take(i))
    } else {
        limbs_val(s)
    }
}

pub proof fn lemma_val_pre_zero(s: Seq<u64>)
    ensures
        val_pre(s, 0) == 0,
{
    assert(s.take(0) =~= Seq::<u64>::empty());
}

pub proof fn lemma_val_pre_full(s: Seq<u64>, i: int)
    requires
        i >= s.len(),
    ensures
        val_pre(s, i) == limbs_val(s),
{
    if i <= s.len() {
        assert(s.take(i) =~= s);
    }
}

/// Extending a prefix by one limb adds that limb's weighted value.
pub proof fn lemma_val_pre_step(s: Seq<u64>, i: int)
    requires
        0 <= i,
    ensures
        val_pre(s, i + 1) == val_pre(s, i) + (if i < s.len() {
            (s[i] * pow_b(i as nat)) as int
        } else {
            0
        }),
{
    if i < s.len() {
        assert(s.take(i + 1) =~= s.take(i).push(s[i]));
        lemma_val_push(s.take(i), s[i]);
        assert(s.take(i).len() == i);
    } else if i == s.len() {
        assert(s.take(i) =~= s);
    }
}

/// Value of the limbs from position `i` upward.
pub open spec fn val_suf(s: Seq<u64>, i: int) -> nat {
    limbs_val(s.skip(i))
}

pub proof fn lemma_val_suf_empty(s: Seq<u64>)
    ensures
        val_suf(s, s.len() as int) == 0,
{
    assert(s.skip(s.len() as int) =~= Seq::<u64>::empty());
}

/// One step of the most-significant-first expansion of a suffix value.
pub proof fn lemma_val_suf_step(s: Seq<u64>, i: int)
    requires
        0 <= i < s.len(),
    ensures
        val_suf(s, i) == s[i] + limb_base() * val_suf(s, i + 1),
{
    assert(s.skip(i).drop_first() =~= s.skip(i + 1));
    assert(s.skip(i)[0] == s[i]);
}

/// Powers of two.
pub open spec fn pow2n(n: nat) -> nat
    decreases n,
{
    if n == 0 {
        1
    } else {
        2 * pow2n((n - 1) as nat)
    }
}

pub proof fn lemma_pow2n_pos(n: nat)
    ensures
        pow2n(n) >= 1,
    decreases n,
{
    if n > 0 {
        lemma_pow2n_pos((n - 1) as nat);
    }
}

pub proof fn lemma_pow2n_adds(a: nat, b: nat)
    ensures
        pow2n(a + b) == pow2n(a) * pow2n(b),
    decreases a,
{
    if a == 0 {
        assert(pow2n(0) == 1);
        assert(1 * pow2n(b) == pow2n(b));
    } else {
        lemma_pow2n_adds((a - 1) as nat, b);
        assert((a + b - 1) as nat == (a - 1) as nat + b);
        assert(2 * (pow2n((a - 1) as nat) * pow2n(b)) == (2 * pow2n((a - 1) as nat)) * pow2n(b))
            by (nonlinear_arith);
    }
}

/// Sixty-four doublings make one limb weight.
pub proof fn lemma_pow2n_limb()
    ensures
        pow2n(64) == limb_base(),
{
    assert(pow2n(0) == 1);
    assert(pow2n(1) == 2);
    assert(pow2n(2) == 4);
    lemma_pow2n_adds(2, 2);
    assert(pow2n(4) == 16);
    lemma_pow2n_adds(4, 4);
    assert(pow2n(8) == 256);
    lemma_pow2n_adds(8, 8);
    assert(pow2n(16) == 0x1_0000);
    lemma_pow2n_adds(16, 16);
    assert(pow2n(32) == 0x1_0000_0000);
    lemma_pow2n_adds(32, 32);
}

/// Limb weights are powers of two.
pub proof fn lemma_pow_b_pow2n(q: nat)
    ensures
        pow_b(q) == pow2n(64 * q),
    decreases q,
{
    if q == 0 {
    } else {
        lemma_pow_b_pow2n((q - 1) as nat);
        lemma_pow2n_limb();
        lemma_pow2n_adds(64, 64 * ((q - 1) as nat));
        assert(64 * q == 64 + 64 * ((q - 1) as nat));
    }
}

/// A normalized, non-empty sequence denotes at least the weight of its top limb.
pub proof fn lemma_val_norm_lower(s: Seq<u64>)
    requires
        is_norm(s),
        s.len() > 0,
    ensures
        limbs_val(s) >= pow_b((s.len() - 1) as nat),
{
    let i = s.len() - 1;
    lemma_val_split(s, i);
    let tail = s.skip(i);
    assert(tail.len() == 1);
    assert(tail[0] == s[i]);
    lemma_val_one(tail);
    let p = pow_b(i as nat);
    assert(s[i] >= 1);
    assert(p * limbs_val(tail) >= p * 1) by (nonlinear_arith)
        requires
            limbs_val(tail) >= 1,
            p >= 0,
    ;
}

/// Dropping a trailing zero limb keeps the value.
pub proof fn lemma_val_drop_last_zero(s: Seq<u64>)
    requires
        s.len() > 0,
        s[s.len() - 1] == 0,
    ensures
        limbs_val(s.drop_last()) == limbs_val(s),
{
    assert(s =~= s.drop_last().push(s[s.len() - 1]));
    lemma_val_push(s.drop_last(), s[s.len() - 1]);
}

/// Two normalized sequences with the same value are the same sequence.
pub proof fn lemma_norm_unique(s: Seq<u64>, t: Seq<u64>)
    requires
        is_norm(s),
        is_norm(t),
        limbs_val(s) == limbs_val(t),
    ensures
        s == t,
    decreases s.len(),
{
    if s.len() == 0 {
        if t.len() > 0 {
            lemma_val_norm_lower(t);
            lemma_pow_b_pos((t.len() - 1) as nat);
            assert(false);
        }
        assert(s =~= t);
    } else if t.len() == 0 {
        lemma_val_norm_lower(s);
        lemma_pow_b_pos((s.len() - 1) as nat);
        assert(false);
    } else {
        let b = limb_base() as int;
        let v = limbs_val(s) as int;
        let sd = s.drop_first();
        let td = t.drop_first();
        assert(v == s[0] + b * limbs_val(sd));
        assert(v == t[0] + b * limbs_val(td));
        vstd::arithmetic::div_mod::lemma_fundamental_div_mod_converse(
            v,
            b,
            limbs_val(sd) as int,
            s[0] as int,
        );
        vstd::arithmetic::div_mod::lemma_fundamental_div_mod_converse(
            v,
            b,
            limbs_val(td) as int,
            t[0] as int,
        );
        assert(s[0] == t[0]);
        assert(limbs_val(sd) == limbs_val(td));
        assert(is_norm(sd) && is_norm(td)) by {
            if sd.len() > 0 {
                assert(sd[sd.len() - 1] == s[s.len() - 1]);
            }
            if td.len() > 0 {
                assert(td[td.len() - 1] == t[t.len() - 1]);
            }
        }
        lemma_norm_unique(sd, td);
        assert forall|j: int| 0 <= j < s.len() implies s[j] == t[j] by {
            if j > 0 {
                assert(s[j] == sd[j - 1]);
                assert(t[j] == td[j - 1]);
            }
        }
        assert(s =~= t);
    }
}

} // verus!
