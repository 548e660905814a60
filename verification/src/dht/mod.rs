//! The distributed hash table layer: handles, node ids and contact lookup.
pub mod bootstrap;
pub mod handle;
pub mod node;
pub mod resolver;
