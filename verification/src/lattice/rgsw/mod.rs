//! RGSW ciphertexts, gadget decomposition and the external product.

pub mod ciphertext;
pub mod decomposition;
pub mod external_product;
pub mod key;
pub mod params;
pub mod product_noise;
pub mod recomposition;
