//! A pool of equally sized slots that defers the release of freed slots.
//!
//! Freed slots are coalesced into maximal runs of dirty slots; a run is
//! released back to the operating system in one call only when a slot is
//! needed and no clean slot is left.

mod outside;
pub mod pool;

pub use pool::{Allocation, LazyPool, Region, SlotId};
