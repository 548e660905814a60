//! The Double Ratchet: key derivation and the symmetric chains.
pub mod dh;
pub mod symmetric;
pub mod dh_ratchet;
pub mod session;
