//! RNS polynomial ring arithmetic: `Z_Q[X]/(X^N + 1)` with `Q` a product of
//! word-sized moduli, each polynomial held as one residue row per modulus.

pub mod arith;
pub mod poly;
pub mod rns;
pub mod conversion;
pub mod automorphism;
pub mod encoding;
pub mod algebra;
pub mod convolution;
pub mod rescale;
