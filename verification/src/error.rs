//! The error taxonomy of the core: every kernel operation reports failure as
//! one of these explicit outcomes, never as a silently coerced default value.
use vstd::prelude::*;

verus! {

/// Failure outcomes of the arithmetic and conversion operations.
#[derive(Clone, Copy, Debug, PartialEq, Eq, Structural)]
pub enum Error {
    /// Text to parse contains no digit characters after sign/prefix stripping.
    NoDigits,
    /// A character outside the declared base's alphabet, or a malformed
    /// separator or sign placement.
    InvalidDigit,
    /// Division or remainder requested with a zero divisor.
    DivisionByZero,
    /// Greatest common divisor requested on the pair (0, 0).
    UndefinedGcd,
    /// A base outside 2..=36, or a prefix-implied base that conflicts with an
    /// explicitly requested one.
    InvalidBase,
}

impl Error {
    /// Short human-readable description of the failure.
    pub fn message(&self) -> (r: String)
        ensures
            r@ == self.spec_message(),
    {
        match self {
            Error::NoDigits => String::from_str("no digits"),
            Error::InvalidDigit => String::from_str("invalid digit"),
            Error::DivisionByZero => String::from_str("division by zero"),
            Error::UndefinedGcd => String::from_str("gcd of zero and zero is undefined"),
            Error::InvalidBase => String::from_str("invalid base"),
        }
    }

    /// The characters `message` returns.
    pub open spec fn spec_message(&self) -> Seq<char> {
        match self {
            Error::NoDigits => "no digits"@,
            Error::InvalidDigit => "invalid digit"@,
            Error::DivisionByZero => "division by zero"@,
            Error::UndefinedGcd => "gcd of zero and zero is undefined"@,
            Error::InvalidBase => "invalid base"@,
        }
    }
}

} // verus!
