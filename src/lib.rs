//! Learning-With-Errors public-key encryption and a threshold variant in
//! which a committee of parties holds the secret key as Shamir shares.

pub mod lagrange;
pub mod laws;
pub mod lwe;
pub mod mask;
pub mod pke;
pub mod random;
pub mod threshold;
pub mod ring;
