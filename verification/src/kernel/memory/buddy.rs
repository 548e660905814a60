//! The buddy page allocator.
pub use crate::buddy_allocator::{BuddyAllocator, MAX_ORDER, PAGE_SHIFT, PAGE_SIZE};
