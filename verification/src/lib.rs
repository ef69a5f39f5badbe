//! Textbook RSA signatures over arbitrary-precision integers: key generation,
//! message digesting, signing and verification, each with a verified contract.

pub mod numbers;
pub mod errors;
pub mod bigint;
pub mod random;
pub mod prime;
pub mod inverse;
pub mod keygen;
pub mod digest;
pub mod signature;
pub mod theory;
