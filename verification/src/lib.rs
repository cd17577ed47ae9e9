//! Compact pointer compression for `u64` keys: a map from keys to handles
//! whose slots are found through tiny pointers into a hierarchy of
//! load-balancing tables and overflow arrays.
use vstd::prelude::*;

pub mod container;
pub mod handle;
pub mod hashing;
pub mod map;
pub mod sizing;
pub mod slots;

pub use container::{Container, ContainerConfig, ContainerView, LevelView};
pub use handle::Handle;
pub use map::TinyPtrMap;

verus! {

/// Tiny pointer: where a key's slot lies inside its container.
#[derive(Clone, Copy, Debug, PartialEq, Eq, Structural)]
#[allow(inconsistent_fields)]
pub enum TinyPointer {
    /// Allocated in a load-balancing table at (level, slot).
    LoadBalancer {
        /// Level index in the container hierarchy.
        level: u8,
        /// Slot index within the key's bucket.
        slot: u16,
    },
    /// Allocated in an overflow array at (level counted from the back, slot).
    Overflow {
        /// Level index counted from the back of the hierarchy.
        level_from_back: u8,
        /// Slot index within the overflow array.
        slot: u32,
    },
}

/// Errors of tiny pointer operations.
#[derive(Debug, Clone, Copy, PartialEq, Eq, Structural)]
pub enum Error {
    /// The container is at capacity.
    ContainerFull,
    /// No level had a free slot for the key.
    AllocationFailed,
    /// A pointer did not resolve to the key.
    InvalidPointer,
}

} // verus!
