//! Physical and virtual memory management: the free-list node format,
//! the frame allocator that owns a chain of such nodes, and the mapper
//! that turns frames into contiguous virtual ranges.

use vstd::prelude::*;

verus! {

/// Sentinel written into every free-list node; a node whose marker
/// differs is not trusted.
pub const FREE_MARKER: u64 = 0x1C31C3BABEEEEEEE;

/// Size in bytes of one page, the unit of mapping and of frame allocation.
pub const PAGE_SIZE: u64 = 4096;

/// Header of a free run of pages, stored at the start of the run itself.
///
/// `size` counts the whole run in bytes and is kept a multiple of the
/// page size; `next` is the physical address of the next node, if any.
#[derive(Debug, Copy, Clone)]
pub struct LinkedListNode {
    pub magic: u64,
    pub size: u64,
    pub next: Option<u64>,
}

impl LinkedListNode {
    /// A node describing a single free page.
    pub fn new(next: Option<u64>) -> (n: LinkedListNode)
        ensures
            n.magic == FREE_MARKER,
            n.size == PAGE_SIZE,
            n.next == next,
    {
        LinkedListNode { magic: FREE_MARKER, size: PAGE_SIZE, next }
    }

    /// A node describing a run of `size` bytes, rounded down to a whole
    /// number of pages.
    pub fn new_size(next: Option<u64>, size: u64) -> (n: LinkedListNode)
        ensures
            n.magic == FREE_MARKER,
            n.size == size & !0xfffu64,
            n.size % PAGE_SIZE == 0,
            n.size <= size,
            size % PAGE_SIZE == 0 ==> n.size == size,
            n.next == next,
    {
        proof {
            assert((size & !0xfffu64) % 4096 == 0 && size & !0xfffu64 <= size
                && (size % 4096 == 0 ==> size & !0xfffu64 == size)) by (bit_vector);
        }
        let size = size & !(PAGE_SIZE - 1);
        LinkedListNode { magic: FREE_MARKER, size, next }
    }

    /// Points this node at a successor.
    pub fn set_next(&mut self, next: u64)
        ensures
            final(self).magic == old(self).magic,
            final(self).size == old(self).size,
            final(self).next == Some(next),
    {
        self.next = Some(next);
    }

    /// Makes this node the end of the chain.
    pub fn clear_next(&mut self)
        ensures
            final(self).magic == old(self).magic,
            final(self).size == old(self).size,
            final(self).next is None,
    {
        self.next = None;
    }

    /// Checks the sentinel before any field of the node is trusted.
    pub fn verify(&self) -> (ok: bool)
        ensures
            ok == (self.magic == FREE_MARKER),
    {
        self.magic == FREE_MARKER
    }
}

} // verus!

pub mod frame;
pub mod model;
pub mod allocator;
