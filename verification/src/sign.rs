//! The sign of a number and signed arbitrary-precision integers: a
//! (sign, magnitude) pair with a single canonical representation of zero.
use vstd::prelude::*;

use crate::ubig::UBig;

verus! {

/// An enum representing the sign of a number.
///
/// Zero is conventionally `Positive`. `Sign` forms a multiplicative group
/// isomorphic to `{+1, -1}`; it has no "zero" member.
#[derive(Clone, Copy, Debug, Eq, Hash, PartialEq, Structural)]
pub enum Sign {
    Positive,
    Negative,
}

impl Sign {
    /// The opposite sign.
    pub open spec fn spec_neg(self) -> Sign {
        match self {
            Sign::Positive => Sign::Negative,
            Sign::Negative => Sign::Positive,
        }
    }

    /// The group product of two signs.
    pub open spec fn spec_mul(self, rhs: Sign) -> Sign {
        match (self, rhs) {
            (Sign::Positive, Sign::Positive) => Sign::Positive,
            (Sign::Positive, Sign::Negative) => Sign::Negative,
            (Sign::Negative, Sign::Positive) => Sign::Negative,
            (Sign::Negative, Sign::Negative) => Sign::Positive,
        }
    }

    /// Negation flips the sign.
    pub fn neg(self) -> (r: Sign)
        ensures
            r == self.spec_neg(),
    {
        match self {
            Sign::Positive => Sign::Negative,
            Sign::Negative => Sign::Positive,
        }
    }

    /// The multiplication table of the sign group: like signs give
    /// `Positive`, unlike signs give `Negative`.
    pub fn mul(self, rhs: Sign) -> (r: Sign)
        ensures
            r == self.spec_mul(rhs),
    {
        match (self, rhs) {
            (Sign::Positive, Sign::Positive) => Sign::Positive,
            (Sign::Positive, Sign::Negative) => Sign::Negative,
            (Sign::Negative, Sign::Positive) => Sign::Negative,
            (Sign::Negative, Sign::Negative) => Sign::Positive,
        }
    }

    /// Replaces this sign with its product with `rhs`.
    pub fn mul_assign(&mut self, rhs: Sign)
        ensures
            *final(self) == old(self).spec_mul(rhs),
    {
        *self = self.mul(rhs);
    }
}

/// A signed integer of unbounded magnitude.
///
/// Invariant (`wf`): a zero magnitude carries the `Positive` sign, so zero
/// has a single representation and there is no signed zero.
#[derive(Clone, Debug)]
pub struct IBig {
    pub sign: Sign,
    pub mag: UBig,
}

impl IBig {
    /// Canonical representation: normalized magnitude, and no negative zero.
    pub open spec fn wf(&self) -> bool {
        self.mag.wf() && (self.mag.val() == 0 ==> self.sign == Sign::Positive)
    }

    /// The integer this value denotes.
    pub open spec fn ival(&self) -> int {
        match self.sign {
            Sign::Positive => self.mag.val() as int,
            Sign::Negative => -(self.mag.val() as int),
        }
    }

    /// The signed zero-free pairing of a sign with a magnitude.
    pub fn from_sign_mag(sign: Sign, mag: UBig) -> (r: IBig)
        requires
            mag.wf(),
        ensures
            r.wf(),
            r.ival() == if sign == Sign::Negative {
                -(mag.val() as int)
            } else {
                mag.val() as int
            },
    {
        if mag.is_zero() {
            IBig { sign: Sign::Positive, mag }
        } else {
            IBig { sign, mag }
        }
    }

    /// A non-negative integer from a bare magnitude.
    pub fn from_ubig(mag: UBig) -> (r: IBig)
        requires
            mag.wf(),
        ensures
            r.wf(),
            r.ival() == mag.val(),
    {
        IBig { sign: Sign::Positive, mag }
    }

    /// A signed integer from a machine integer; exact and total.
    pub fn from_i64(v: i64) -> (r: IBig)
        ensures
            r.wf(),
            r.ival() == v,
    {
        if v >= 0 {
            IBig::from_ubig(UBig::from_word(v as u64))
        } else {
            let m: u64 = ((-1 - v) as u64) + 1;
            IBig::from_sign_mag(Sign::Negative, UBig::from_word(m))
        }
    }

    /// An identical, independently owned value.
    pub fn duplicate(&self) -> (r: IBig)
        ensures
            r.sign == self.sign,
            r.mag.limbs@ == self.mag.limbs@,
            r.wf() == self.wf(),
            r.ival() == self.ival(),
    {
        IBig { sign: self.sign, mag: self.mag.duplicate() }
    }

    /// A number representing the sign of `self`: -1, 0 or 1.
    pub fn signum(&self) -> (r: IBig)
        requires
            self.wf(),
        ensures
            r.wf(),
            r.ival() == if self.ival() < 0 {
                -1int
            } else if self.ival() > 0 {
                1int
            } else {
                0int
            },
    {
        if self.mag.is_zero() {
            IBig::from_ubig(UBig::zero())
        } else {
            IBig::from_sign_mag(self.sign, UBig::from_word(1))
        }
    }

    /// The additive inverse.
    pub fn neg(&self) -> (r: IBig)
        requires
            self.wf(),
        ensures
            r.wf(),
            r.ival() == -self.ival(),
    {
        IBig::from_sign_mag(self.sign.neg(), self.mag.duplicate())
    }

    /// The absolute value, kept signed.
    pub fn abs(&self) -> (r: IBig)
        requires
            self.wf(),
        ensures
            r.wf(),
            r.ival() == if self.ival() < 0 {
                -self.ival()
            } else {
                self.ival()
            },
    {
        IBig::from_ubig(self.mag.duplicate())
    }

    /// The absolute value as a bare magnitude: the sign is discarded.
    pub fn unsigned_abs(&self) -> (r: UBig)
        requires
            self.wf(),
        ensures
            r.wf(),
            r.val() == if self.ival() < 0 {
                -self.ival()
            } else {
                self.ival()
            },
    {
        self.mag.duplicate()
    }

    /// The magnitude of a non-negative integer; a negative one has no
    /// unsigned form, and the conversion says so.
    pub fn to_ubig(&self) -> (r: Option<UBig>)
        requires
            self.wf(),
        ensures
            match r {
                Some(u) => self.ival() >= 0 && u.wf() && u.val() == self.ival(),
                None => self.ival() < 0,
            },
    {
        match self.sign {
            Sign::Positive => Some(self.mag.duplicate()),
            Sign::Negative => None,
        }
    }

    /// Signed sum: like signs add magnitudes; unlike signs subtract the
    /// smaller magnitude from the larger, which also lends the result its
    /// sign.
    pub fn add(&self, other: &IBig) -> (r: IBig)
        requires
            self.wf(),
            other.wf(),
        ensures
            r.wf(),
            r.ival() == self.ival() + other.ival(),
    {
        if (self.sign == Sign::Positive) == (other.sign == Sign::Positive) {
            IBig::from_sign_mag(self.sign, self.mag.add(&other.mag))
        } else if self.mag.lt(&other.mag) {
            IBig::from_sign_mag(other.sign, other.mag.sub(&self.mag))
        } else {
            IBig::from_sign_mag(self.sign, self.mag.sub(&other.mag))
        }
    }

    /// Signed difference.
    pub fn sub(&self, other: &IBig) -> (r: IBig)
        requires
            self.wf(),
            other.wf(),
        ensures
            r.wf(),
            r.ival() == self.ival() - other.ival(),
    {
        self.add(&other.neg())
    }

    /// Signed product: the sign group acts on the magnitude product.
    pub fn mul(&self, other: &IBig) -> (r: IBig)
        requires
            self.wf(),
            other.wf(),
        ensures
            r.wf(),
            r.ival() == self.ival() * other.ival(),
    {
        let r = IBig::from_sign_mag(self.sign.mul(other.sign), self.mag.mul(&other.mag));
        proof {
            let a = self.mag.val() as int;
            let b = other.mag.val() as int;
            assert((-a) * b == -(a * b) && a * (-b) == -(a * b) && (-a) * (-b) == a * b)
                by (nonlinear_arith);
        }
        r
    }
}

impl PartialEq for IBig {
    /// Signed integers are equal exactly when sign and canonical magnitude
    /// agree.
    fn eq(&self, other: &IBig) -> (r: bool) {
        self.sign == other.sign && self.mag == other.mag
    }
}

impl vstd::std_specs::cmp::PartialEqSpecImpl for IBig {
    open spec fn obeys_eq_spec() -> bool {
        true
    }

    open spec fn eq_spec(&self, other: &IBig) -> bool {
        self.sign == other.sign && self.mag.limbs@ == other.mag.limbs@
    }
}

} // verus!
