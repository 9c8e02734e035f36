//! Tiered kernel memory allocation: a bump region for early boot, a page pool,
//! a buddy byte heap, and the allocator that routes every request between them.
//!
//! Addresses and sizes are plain machine words; nothing here touches the
//! memory that they describe. Every allocator takes `&mut self`: who shares
//! one between threads puts it behind a lock.

use vstd::prelude::*;

pub mod bitmap;
pub mod block;
pub mod buddy;
pub mod config;
pub mod early;
pub mod global;
pub mod region;

pub use bitmap::BitmapPageAllocator;
pub use buddy::BuddyByteAllocator;
pub use config::PAGE_SIZE;
pub use early::EarlyAllocator;
pub use global::{
    early_init, final_init, grow_size, is_page_request, GlobalAllocator, MIN_HEAP_SIZE,
};

verus! {

/// Why an allocator request was turned down.
#[derive(Debug, Clone, Copy, PartialEq, Eq, Structural)]
pub enum AllocError {
    /// Malformed size, alignment or region.
    InvalidParam,
    /// A region to register collides with one that is already registered.
    MemoryOverlap,
    /// The request cannot be satisfied at present.
    NoMemory,
    /// The address to free is no live allocation of the tier that was asked.
    NotAllocated,
}

/// Result of an allocator request.
pub type AllocResult<T = ()> = Result<T, AllocError>;

} // verus!
