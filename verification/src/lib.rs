//! Sumcheck over a prime field: field arithmetic, multilinear extensions, the
//! round-by-round prover and verifier, and a few small companions (primality
//! search, a modular matrix product, polynomial encoding and extension).

pub mod error;
pub mod fermat;
pub mod field;
pub mod freivald;
pub mod lagrange;
pub mod mle;
pub mod modular;
pub mod prime;
mod random;
pub mod reed_solomon;
pub mod soundness;
pub mod sumcheck;
pub mod sums;
