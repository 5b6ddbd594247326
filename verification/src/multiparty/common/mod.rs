//! Scheme-independent multiparty protocol building blocks.

pub mod hybrid;
pub mod masking;
pub mod participant;
pub mod randomness;
pub mod replay_guard;
pub mod session;
pub mod reader;
pub mod shares;
pub mod transcript;
