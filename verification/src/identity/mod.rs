//! Device identity, contacts and connection requests.
pub mod keypair;
pub mod contact;
pub mod connection;
