//! Multiparty CKKS protocols: collective key generation, partial
//! decryption, re-encryption and interactive bootstrapping, each over the
//! ring of the ciphertext's level.

pub mod ciphertext;
pub mod params;
pub mod partial_decrypt;
pub mod reencryption;
pub mod interactive_bootstrap;
pub mod gkg;
pub mod ckg;
pub mod rkg;
