//! The heap allocator bridge: the virtual memory mapper exposed under
//! the conventional allocate/deallocate surface the rest of the kernel
//! consumes. The kernel wraps one mapper in a lock and hands every heap
//! request through here.

use vstd::prelude::*;
use crate::memory::PAGE_SIZE;
use crate::memory::frame::{
    maps_extended, maps_shrunk, page_at, spec_min_frames, spec_pages_for, PageAllocator,
    STARTING_MEM_OFFSET, VIRT_CANONICAL_LIMIT,
};
use crate::memory::model::{fl_frames, fl_total};

verus! {

/// The kernel's general-purpose allocator, bridging to a mapper.
pub struct GlobalAllocator;

impl GlobalAllocator {
    /// Allocates `size` bytes, returning the virtual address of the
    /// range or zero when no memory is available. A zero-byte request
    /// returns zero at once, without touching the mapper. Alignment is
    /// honored only to page granularity: requests for more receive no
    /// error and no stricter guarantee.
    pub fn allocate(&self, pa: &mut PageAllocator, size: usize, _align: usize) -> (r: u64)
        requires
            old(pa).wf(),
            old(pa).vm_fresh(),
            size > 0 ==> old(pa).cursor() + spec_pages_for(size as int) * PAGE_SIZE
                <= VIRT_CANONICAL_LIMIT,
        ensures
            final(pa).wf(),
            final(pa).vm_fresh(),
            size == 0 ==> r == 0 && *final(pa) == *old(pa),
            size > 0 ==> ({
                let n = spec_pages_for(size as int);
                &&& (r != 0 <==> fl_total(old(pa).free_ranges()) >= n * PAGE_SIZE)
                &&& (r != 0 ==> {
                    &&& r == old(pa).cursor()
                    &&& r >= STARTING_MEM_OFFSET
                    &&& maps_extended(old(pa).mappings(), final(pa).mappings(), r, n)
                    &&& fl_total(final(pa).free_ranges()) == fl_total(old(pa).free_ranges()) - n
                        * PAGE_SIZE
                })
                &&& (r == 0 ==> {
                    &&& final(pa).mappings() == old(pa).mappings()
                    &&& fl_frames(final(pa).free_ranges()) == fl_frames(old(pa).free_ranges())
                    &&& fl_total(final(pa).free_ranges()) == fl_total(old(pa).free_ranges())
                })
            }),
    {
        if size > 0 {
            match pa.allocate(size) {
                Ok(addr) => {
                    proof {
                        // The cursor starts at the fixed offset and only
                        // grows, so a granted address is never null.
                        assert(addr >= STARTING_MEM_OFFSET);
                    }
                    addr
                },
                Err(_) => 0,
            }
        } else {
            0
        }
    }

    /// Returns `size` bytes at `ptr` to the mapper. The range must be
    /// one this allocator handed out and not yet freed: failing to
    /// reclaim memory the kernel knows it owns is not survivable, so
    /// that case is ruled out rather than reported. A zero-byte free
    /// does nothing.
    pub fn deallocate(&self, pa: &mut PageAllocator, ptr: u64, size: usize, _align: usize)
        requires
            old(pa).wf(),
            size > 0 ==> ptr % PAGE_SIZE == 0 && ptr + spec_min_frames(size as int) * PAGE_SIZE
                <= u64::MAX + 1 && (forall|k: int|
                0 <= k < spec_min_frames(size as int) ==> old(pa).mappings().contains_key(
                    #[trigger] page_at(ptr, k),
                )),
        ensures
            final(pa).wf(),
            old(pa).vm_fresh() ==> final(pa).vm_fresh(),
            final(pa).cursor() == old(pa).cursor(),
            size == 0 ==> *final(pa) == *old(pa),
            size > 0 ==> ({
                let n = spec_min_frames(size as int);
                &&& maps_shrunk(old(pa).mappings(), final(pa).mappings(), ptr, n)
                &&& (forall|k: int|
                    0 <= k < n ==> fl_frames(final(pa).free_ranges()).contains(
                        old(pa).mappings()[#[trigger] page_at(ptr, k)],
                    ))
                &&& fl_total(final(pa).free_ranges()) == fl_total(old(pa).free_ranges()) + n
                    * PAGE_SIZE
            }),
    {
        if size > 0 {
            match pa.deallocate(ptr, size) {
                Ok(_) => {},
                Err(_) => {
                    proof {
                        // Every page of the range is mapped, so the
                        // mapper cannot report a failure here.
                        assert(false);
                    }
                },
            }
        }
    }
}

} // verus!
