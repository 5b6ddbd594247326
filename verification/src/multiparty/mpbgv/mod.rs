//! Multiparty BGV protocols: collective key generation, partial
//! decryption, re-encryption and interactive bootstrapping.

pub mod accumulate;
pub mod ckg;
pub mod gkg;
pub mod interactive_bootstrap;
pub mod params;
pub mod partial_decrypt;
pub mod reencryption;
pub mod relinearization_key;
pub mod rkg;
pub mod wire;
