//! RLWE/RGSW lattice primitives over RNS polynomial rings, and the
//! scheme-independent building blocks of multiparty (threshold) protocols.

pub mod codec;
pub mod lattice;
pub mod multiparty;
pub mod ring;

