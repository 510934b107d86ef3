//! A buddy allocator over a fixed region whose free blocks are indexed by a
//! segment tree of free levels.
pub mod adapter;
pub mod geometry;
pub mod heap;
pub mod laws;

pub use adapter::SegTreeAllocator;
pub use heap::SegTreeAlloc;
