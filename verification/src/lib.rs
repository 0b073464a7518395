//! Memory management for a small multicore kernel booted through a
//! protocol that hands over a physical memory map at a fixed address.
//!
//! The crate covers the path from the boot-provided memory map to a
//! general-purpose heap: decoding map entries, building a free list of
//! physical page frames, mapping frames into contiguous virtual ranges,
//! and bridging those ranges to an allocator interface.

pub mod bootboot;
pub mod interrupts;
pub mod math;
pub mod memory;
pub mod screen;
