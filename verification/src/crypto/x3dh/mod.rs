//! X3DH session establishment: signed prekeys and the three-DH handshake
//! that gives both sides the root key of their ratchet.
pub mod prekey;
pub mod handshake;
