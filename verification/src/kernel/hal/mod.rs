//! Hardware description: memory regions and devices found in the device tree.
pub mod dtb;
pub mod uart;
pub mod gic;
