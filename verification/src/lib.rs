//! Arbitrary-precision integer arithmetic: sign-magnitude numbers stored as
//! sequences of 64-bit limbs, with verified kernels for addition, subtraction,
//! multiplication, division with remainder, extended greatest common divisor,
//! and radix conversion between text and limb storage.
pub mod add;
pub mod bytes;
pub mod cmp;
pub mod div;
pub mod error;
pub mod fmt;
pub mod gcd;
pub mod laws;
pub mod limbs;
pub mod mul;
pub mod radix;
pub mod sign;
pub mod ubig;

pub use error::Error;
pub use fmt::Align;
pub use fmt::FmtOptions;
pub use sign::IBig;
pub use sign::Sign;
pub use ubig::UBig;
