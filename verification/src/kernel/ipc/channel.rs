//! IPC message and endpoint types (shared with the host-side model).
pub use crate::kernel_ipc_tests::{IpcEndpoint, IpcError, KernelMessage, MAX_PAYLOAD};
