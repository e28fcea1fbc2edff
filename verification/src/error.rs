//! The ways in which an operation of this library can fail.

use vstd::prelude::*;

verus! {

/// Why an operation failed.
#[derive(Clone, Copy, Debug, PartialEq, Eq, Structural)]
pub enum IdaError {
    /// The share count and the threshold do not satisfy `1 <= k <= n <= 255`.
    ConfigurationError,
    /// Fewer shares than the threshold were supplied.
    InsufficientShares,
    /// The supplied shares cannot stem from one dispersal.
    InconsistentShares,
    /// The matrix to invert has a zero pivot.
    SingularMatrix,
    /// The zero element has no multiplicative inverse.
    DomainError,
}

} // verus!
