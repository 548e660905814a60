//! The privacy-first web service layer: service registry, tracker blocking,
//! spoken commands, encrypted credentials and proxy sessions.
pub mod registry;

pub use registry::{ServiceCategory, ServiceEntry, ServiceRegistry};
pub mod blocklist;

pub use blocklist::TrackerBlockList;
pub mod command;

pub use command::{AICommand, ScrollDirection};
pub mod credentials;

pub use credentials::{CredentialEntry, CredentialStore};
pub mod session;

pub use session::{BandwidthStats, ProxySession, ProxySessionState};
pub mod manager;

pub use manager::{ProxyManager, XCredential, XLoginState};
