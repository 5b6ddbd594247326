//! Generic RLWE primitives.

pub mod ciphertext;
pub mod decryptor;
pub mod encryptor;
pub mod evaluation_key;
pub mod evaluator;
pub mod keygen;
pub mod keys;
pub mod keyswitch;
pub mod params;
pub mod repacking;
pub mod homomorphism;
pub mod switch_phase;
pub mod noise_growth;
pub mod packing_noise;
