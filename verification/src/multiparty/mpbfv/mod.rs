//! Multiparty BFV protocols: re-encryption, interactive bootstrapping, and
//! the placeholder key generation and partial decryption of the scheme.

pub mod params;
pub mod reencryption;
pub mod interactive_bootstrap;
pub mod ckg;
pub mod partial_decrypt;
pub mod rkg;
