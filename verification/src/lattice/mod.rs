//! Scheme-agnostic RLWE and RGSW primitives.

pub mod error;
pub mod noise;
pub mod rgsw;
pub mod rlwe;
pub mod security;
pub mod serialization;
