//! A generational slot map: a container that hands out opaque, copyable keys
//! to stored values, with O(1) insertion, lookup and removal, staleness
//! detection through per-slot generation counters, and storage grouped into
//! fixed-size pages.

pub mod packing;
pub mod slotmap;

pub use slotmap::Key;
pub use slotmap::NotFound;
pub use slotmap::Slotmap;
