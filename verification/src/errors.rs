//! The ways in which key generation and its parts can fail.

use vstd::prelude::*;

verus! {

/// Why no key, prime or inverse came back.
#[derive(Clone, Copy, Debug, PartialEq, Eq, Structural)]
pub enum RsaError {
    /// The number has no inverse for the modulus: the two share a divisor, or
    /// the modulus is zero.
    NoInverseExists,
    /// No prime turned up within the allowed number of random draws.
    GenerationTimeout,
}

} // verus!
