//! The kernel: processes and capabilities, IPC, scheduling, memory, hardware
//! description and drivers.
pub mod drivers;
pub mod hal;
pub mod ipc;
pub mod memory;
pub mod process;
pub mod scheduler;
