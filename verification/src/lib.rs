//! A free-list heap allocator for a single contiguous memory region.
//!
//! The allocator keeps a table of free-block descriptors ordered by address
//! and services `(size, align)` requests by first-fit search, either consuming
//! a block exactly or splitting off its tail as a new free block. A busy-wait
//! lock wrapper serializes access from concurrent execution contexts.

pub mod allocator;
pub mod uart;
