//! Verified data logic of Filecoin's SHA-256 hasher, its Halo2 gadgets and the
//! Window PoSt public inputs.

pub mod bits;
pub mod select;
pub mod compression;
pub mod uint32;
pub mod sha256_domain;
pub mod sha256;
pub mod sha256_bits;
pub mod window;
pub mod election;
