//! Heap allocation strategies for a freestanding kernel, with their
//! bookkeeping proved correct.
//!
//! Three allocators manage one contiguous heap region each: a bump
//! allocator, a first-fit linked-list allocator and a fixed-size-block
//! allocator that draws fresh blocks from a general-purpose fallback heap.
//!
//! Addresses are plain `usize` values: the allocators decide which address
//! ranges are handed out and which are free, and never touch the memory
//! behind them. The nodes of their free lists, which a kernel keeps in the
//! free memory itself, are values here that record the address at which
//! they would lie.

pub mod allocator;
