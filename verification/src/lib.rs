//! Shamir secret sharing over the prime field of order
//! 2^256 - 2^32 - 977, the base field prime of the secp256k1 curve.
//!
//! A secret field element is split into `n` shares, points on a random
//! polynomial of degree `t - 1` whose constant term is the secret; any `t`
//! of the shares recover the secret by Lagrange interpolation at zero.

use vstd::prelude::*;

pub mod trusted;
pub mod field;
pub mod shamir;

verus! {

/// The failures the library reports.
#[derive(Clone, Copy, Debug, PartialEq, Eq, Structural)]
pub enum Error {
    /// The sharing parameters are out of range: `t <= 1` or `t > n`.
    InvalidArgument,
    /// An inversion of a field element with no inverse was attempted,
    /// in particular an inversion of zero.
    DivisionByZero,
    /// A hex record at the boundary could not be parsed.
    MalformedInput,
    /// The operating system's entropy source failed to supply data.
    RandomnessUnavailable,
}

} // verus!
