//! Verified core of a phone operating system: the page allocator, kernel IPC
//! and scheduling, capabilities, and the device-side services above them.
pub mod buddy_allocator;
pub mod kernel_ipc_tests;
pub mod kernel_scheduler_tests;
pub mod kernel;
pub mod text;
pub mod clock;
pub mod push_notification;
pub mod web_proxy;
pub mod primitives;
pub mod identity;
pub mod messenger;
pub mod wake_word;
pub mod camera;
pub mod crypto;
pub mod sorting;
pub mod message_store;
pub mod signal_bridge;
pub mod dht;
pub mod power;
pub mod ntp;
pub mod ai_fallback;
pub mod display_backend;
pub mod ipc_protocol;
pub mod stt_engine;
