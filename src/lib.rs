//! An early-boot dual-end bump allocator, and a small separate-chaining hash map.
pub mod align;
pub mod early;
pub mod hashmap;
