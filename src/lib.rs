//! Threshold secret sharing of byte strings over GF(2^64).

pub mod field;
pub mod field_laws;
pub mod shamir_secret;
pub mod io;
pub mod reed_solomon;
pub mod reorder;
