//! Distributed and threshold protocol building blocks.

pub mod common;
pub mod error;
pub mod mpbgv;
pub mod mpbfv;
pub mod mpckks;
