//! The physical frame allocator and the virtual memory mapper.
//!
//! The allocator owns a singly linked free list of page runs, built once
//! from the boot memory map. Each run is described by a [`LinkedListNode`]
//! held in a node store keyed by physical address, the in-memory image of
//! the intrusive list the kernel keeps inside the free pages themselves.

use vstd::prelude::*;
use vstd::arithmetic::div_mod::lemma_mod_multiples_vanish;
use vstd::arithmetic::mul::{lemma_mul_inequality, lemma_mul_strict_inequality};
use std::collections::HashMap;
use crate::bootboot::{BootBootUnpacked, MMapEnt, MMapType};
use crate::memory::{LinkedListNode, FREE_MARKER, PAGE_SIZE};
use crate::memory::model::{
    built_list, corrected, fl_alloc, fl_alloc_result, fl_dealloc, fl_frames, fl_total, fl_wf,
    lemma_align_up_props, lemma_aligned_gap, lemma_built_list_props, lemma_fl_alloc_props,
    lemma_fl_dealloc_props, lemma_mmap_wf_prefix, mmap_wf, range_wf, ranges_disjoint,
    spec_align_up_page, PHYS_ADDR_LIMIT,
};

verus! {

/// First virtual address the mapper hands out: a fixed one-terabyte
/// offset, clear of the kernel image and of every boot-reserved window.
pub const STARTING_MEM_OFFSET: u64 = 1099511627776;

/// Failure of an allocation: no physical frame was available.
#[derive(Debug, Copy, Clone, PartialEq, Eq, Structural)]
pub enum FrameAllocateError {
    Oom,
}

/// Failure at boot: the memory map held no usable free region.
#[derive(Debug, Copy, Clone, PartialEq, Eq, Structural)]
pub enum MemoryInitError {
    NoUsableMemory,
}

/// Relies on `x86_64::PhysAddr::is_aligned` (and `PhysAddr::new` to build
/// the address): whether a physical address is a multiple of the page size.
#[verifier::external_body]
fn is_page_aligned(addr: u64) -> (r: bool)
    requires
        addr < PHYS_ADDR_LIMIT,
    ensures
        r == (addr % PAGE_SIZE == 0),
{
    x86_64::PhysAddr::new(addr).is_aligned(PAGE_SIZE)
}

/// Relies on `x86_64::PhysAddr::align_up` (and `PhysAddr::new` /
/// `PhysAddr::as_u64` to convert): the smallest page-aligned address at
/// or above the given one.
#[verifier::external_body]
fn page_align_up(addr: u64) -> (r: u64)
    requires
        addr < PHYS_ADDR_LIMIT,
        spec_align_up_page(addr as int) < PHYS_ADDR_LIMIT,
    ensures
        r as int == spec_align_up_page(addr as int),
{
    x86_64::PhysAddr::new(addr).align_up(PAGE_SIZE).as_u64()
}

/// Lowest virtual address the canonical low half cannot express: the
/// mapper's cursor must stay below it.
pub const VIRT_CANONICAL_LIMIT: u64 = 0x8000_0000_0000;

/// The set of addresses a sequence holds.
pub open spec fn addr_set(ns: Seq<u64>) -> Set<u64> {
    Set::new(|a: u64| ns.contains(a))
}

/// Number of whole pages needed to hold `size` bytes.
pub open spec fn spec_min_frames(size: int) -> int {
    if size % (PAGE_SIZE as int) == 0 {
        size / (PAGE_SIZE as int)
    } else {
        size / (PAGE_SIZE as int) + 1
    }
}

/// Number of pages one `allocate` call touches: at least one, even for
/// a zero-byte request.
pub open spec fn spec_pages_for(size: int) -> int {
    if spec_min_frames(size) == 0 {
        1
    } else {
        spec_min_frames(size)
    }
}

/// Whether `v` is one of the `n` page addresses starting at `base`.
pub open spec fn in_page_range(v: u64, base: u64, n: int) -> bool {
    &&& v % PAGE_SIZE == 0
    &&& base <= v
    &&& v < base + n * PAGE_SIZE
}

/// The `k`-th page address after `base`.
pub open spec fn page_at(base: u64, k: int) -> u64 {
    (base + k * PAGE_SIZE) as u64
}

/// The pages of a range split off one at a time: the first `k + 1`
/// pages after an aligned `base` are the first `k` pages plus the
/// `k`-th page address, and nothing else.
pub proof fn lemma_page_range_split(base: u64, k: int, v: u64)
    requires
        base % PAGE_SIZE == 0,
        0 <= k,
        base + (k + 1) * PAGE_SIZE <= u64::MAX + 1,
    ensures
        page_at(base, k) % PAGE_SIZE == 0,
        page_at(base, k) == base + k * PAGE_SIZE,
        in_page_range(v, base, k + 1) <==> (in_page_range(v, base, k) || v == page_at(base, k)),
{
    lemma_mod_multiples_vanish(k, base as int, PAGE_SIZE as int);
    assert((PAGE_SIZE as int) * k == k * PAGE_SIZE) by (nonlinear_arith);
    assert((k + 1) * PAGE_SIZE == k * PAGE_SIZE + PAGE_SIZE) by (nonlinear_arith);
    assert(k * PAGE_SIZE >= 0) by (nonlinear_arith)
        requires
            k >= 0,
    ;
    let pa = base + k * (PAGE_SIZE as int);
    if in_page_range(v, base, k + 1) && !in_page_range(v, base, k) && v as int != pa {
        lemma_aligned_gap(pa, v as int);
        assert(false);
    }
    if v as int == pa {
        assert(in_page_range(v, base, k + 1));
    }
}

/// `m` extends `m0` by exactly the `n` pages starting at `base`: old
/// entries are untouched, and the new keys are those pages and no more.
pub open spec fn maps_extended(m0: Map<u64, u64>, m: Map<u64, u64>, base: u64, n: int) -> bool {
    &&& forall|v: u64| #[trigger] m0.contains_key(v) ==> m.contains_key(v) && m[v] == m0[v]
    &&& forall|v: u64| #[trigger] m.contains_key(v) ==> m0.contains_key(v) || in_page_range(
        v,
        base,
        n,
    )
    &&& forall|v: u64| #[trigger] in_page_range(v, base, n) ==> m.contains_key(v)
}

/// The physical frame allocator: a free list of page runs threaded
/// through a node store keyed by physical address.
pub struct FrameAllocator {
    /// Image of raw memory at the node addresses: which node is written
    /// where. A frame's node is removed the instant the frame is handed
    /// out, as the kernel zeroes the node's storage.
    mem: HashMap<u64, LinkedListNode>,
    /// Physical address of the head node, if the list is not empty.
    first_free_node: Option<u64>,
    /// The node addresses in list order.
    nodes: Ghost<Seq<u64>>,
}

impl FrameAllocator {
    /// The free list as a sequence of runs, head first.
    pub closed spec fn ranges(&self) -> Seq<(u64, u64)> {
        Seq::new(self.nodes@.len(), |i: int| (self.nodes@[i], self.mem@[self.nodes@[i]].size))
    }

    /// The allocator's invariant: the runs form a well-formed free list,
    /// the head pointer names the first node, the store holds exactly
    /// the list's nodes, and each node carries the sentinel, its run's
    /// size and the address of its successor.
    pub closed spec fn wf(&self) -> bool {
        &&& fl_wf(self.ranges())
        &&& self.first_free_node == (if self.nodes@.len() == 0 {
            None::<u64>
        } else {
            Some(self.nodes@[0])
        })
        &&& self.mem@.dom() == addr_set(self.nodes@)
        &&& forall|i: int|
            0 <= i < self.nodes@.len() ==> {
                let a = #[trigger] self.nodes@[i];
                &&& self.mem@.contains_key(a)
                &&& self.mem@[a].magic == FREE_MARKER
                &&& self.mem@[a].next == (if i + 1 < self.nodes@.len() {
                    Some(self.nodes@[i + 1])
                } else {
                    None::<u64>
                })
            }
    }

    /// Every node address lies in its own run's frame cover.
    proof fn lemma_addrs_covered(&self)
        requires
            self.wf(),
        ensures
            forall|i: int|
                0 <= i < self.nodes@.len() ==> fl_frames(self.ranges()).contains(
                    #[trigger] self.nodes@[i],
                ),
    {
        assert forall|i: int|
            0 <= i < self.nodes@.len() implies fl_frames(self.ranges()).contains(
            #[trigger] self.nodes@[i],
        ) by {
            crate::memory::model::lemma_fl_frames_membership(self.ranges(), self.nodes@[i]);
            assert(crate::memory::model::range_frames(self.ranges()[i]).contains(self.nodes@[i]));
        }
    }

    /// Takes one page off the front of the free list.
    ///
    /// Returns the head run's first frame, or nothing when the list is
    /// empty or the head node fails its sentinel check. The frame's node
    /// storage is cleared before the frame is handed out; when the head
    /// run was longer than one page, a node describing the rest of the
    /// run is written one page further on and becomes the new head.
    pub fn allocate_frame(&mut self) -> (r: Option<u64>)
        requires
            old(self).wf(),
        ensures
            final(self).wf(),
            r == fl_alloc_result(old(self).ranges()),
            final(self).ranges() == fl_alloc(old(self).ranges()),
            match r {
                Some(f) => {
                    &&& f % PAGE_SIZE == 0
                    &&& f >= PAGE_SIZE
                    &&& fl_frames(old(self).ranges()).contains(f)
                    &&& !fl_frames(final(self).ranges()).contains(f)
                    &&& fl_frames(final(self).ranges()) == fl_frames(old(self).ranges()).remove(f)
                    &&& fl_total(final(self).ranges()) == fl_total(old(self).ranges()) - PAGE_SIZE
                },
                None => *final(self) == *old(self) && old(self).ranges().len() == 0,
            },
    {
        let ghost fl0 = self.ranges();
        match self.first_free_node {
            None => {
                assert(fl0.len() == 0);
                None
            },
            Some(node_ptr) => {
                proof {
                    assert(self.nodes@.len() > 0);
                    assert(node_ptr == self.nodes@[0]);
                    lemma_fl_alloc_props(fl0);
                }
                let node = match self.mem.get(&node_ptr) {
                    Some(n) => *n,
                    None => {
                        proof {
                            assert(false);
                        }
                        LinkedListNode { magic: 0, size: 0, next: None }
                    },
                };
                if !node.verify() {
                    // A sentinel mismatch would mean the list is corrupt; it is
                    // reported like an empty list. The invariant rules it out.
                    return None;
                }
                proof {
                    assert(range_wf(fl0[0]));
                    if node.size > PAGE_SIZE {
                        lemma_aligned_gap(PAGE_SIZE as int, node.size as int);
                        vstd::arithmetic::div_mod::lemma_mod_sub_multiples_vanish(
                            node.size as int,
                            PAGE_SIZE as int,
                        );
                    }
                    self.lemma_addrs_covered();
                }
                if node.size > PAGE_SIZE {
                    // Carve the first page off the run: write a node for the
                    // remainder one page on, clear the old node.
                    let next_addr = node_ptr + PAGE_SIZE;
                    let new_node = LinkedListNode::new_size(node.next, node.size - PAGE_SIZE);
                    self.mem.insert(next_addr, new_node);
                    self.mem.remove(&node_ptr);
                    self.first_free_node = Some(next_addr);
                    proof {
                        let ghost ns0 = self.nodes@;
                        self.nodes@ = self.nodes@.update(0, next_addr);
                        // No other node sits at the old head or one page in:
                        // both lie in the head run, disjoint from the rest.
                        assert forall|i: int| 1 <= i < ns0.len() implies ns0[i] != node_ptr
                            && ns0[i] != next_addr by {
                            assert(ranges_disjoint(fl0[0], fl0[i]));
                            assert(crate::memory::model::range_frames(fl0[i]).contains(ns0[i]));
                        }
                        assert(self.ranges() =~= fl_alloc(fl0));
                        assert(self.mem@.dom() =~= addr_set(self.nodes@)) by {
                            assert(ns0.contains(node_ptr));
                            assert forall|a: u64| self.nodes@.contains(a) implies self.mem@.dom()
                                .contains(a) by {
                                let i = choose|i: int|
                                    0 <= i < self.nodes@.len() && self.nodes@[i] == a;
                                if i > 0 {
                                    assert(ns0.contains(a));
                                }
                            }
                            assert forall|a: u64| self.mem@.dom().contains(a) implies self.nodes@
                                .contains(a) by {
                                if a != next_addr {
                                    let i = choose|i: int| 0 <= i < ns0.len() && ns0[i] == a;
                                    assert(i > 0);
                                    assert(self.nodes@[i] == a);
                                } else {
                                    assert(self.nodes@[0] == a);
                                }
                            }
                        }
                        assert(self.wf());
                    }
                    Some(node_ptr)
                } else {
                    // The run is exactly one page: consume the whole node.
                    self.mem.remove(&node_ptr);
                    self.first_free_node = node.next;
                    proof {
                        let ghost ns0 = self.nodes@;
                        self.nodes@ = self.nodes@.drop_first();
                        assert forall|i: int| 1 <= i < ns0.len() implies ns0[i] != node_ptr by {
                            assert(ranges_disjoint(fl0[0], fl0[i]));
                            assert(crate::memory::model::range_frames(fl0[i]).contains(ns0[i]));
                        }
                        assert(self.ranges() =~= fl_alloc(fl0));
                        assert(self.mem@.dom() =~= addr_set(self.nodes@)) by {
                            assert(ns0.contains(node_ptr));
                            assert forall|a: u64| self.nodes@.contains(a) implies self.mem@.dom()
                                .contains(a) by {
                                let i = choose|i: int|
                                    0 <= i < self.nodes@.len() && self.nodes@[i] == a;
                                assert(ns0[i + 1] == a);
                            }
                            assert forall|a: u64| self.mem@.dom().contains(a) implies self.nodes@
                                .contains(a) by {
                                let i = choose|i: int| 0 <= i < ns0.len() && ns0[i] == a;
                                assert(i > 0);
                                assert(self.nodes@[i - 1] == a);
                            }
                        }
                        assert(self.wf());
                    }
                    Some(node_ptr)
                }
            },
        }
    }

    /// Appends a run at the tail of the free list: writes its node at
    /// the run's start address and points the previous tail at it.
    /// `last` must name the current tail node, if any.
    fn push_region(&mut self, last: Option<u64>, start: u64, size: u64)
        requires
            old(self).wf(),
            range_wf((start, size)),
            forall|i: int|
                0 <= i < old(self).ranges().len() ==> ranges_disjoint(
                    #[trigger] old(self).ranges()[i],
                    (start, size),
                ),
            last == (if old(self).ranges().len() == 0 {
                None::<u64>
            } else {
                Some(old(self).ranges().last().0)
            }),
        ensures
            final(self).wf(),
            final(self).ranges() == old(self).ranges().push((start, size)),
    {
        let ghost fl0 = self.ranges();
        let ghost ns0 = self.nodes@;
        proof {
            self.lemma_addrs_covered();
            // The new run's start is covered by no existing run, so no
            // node sits there yet.
            assert forall|i: int| 0 <= i < ns0.len() implies ns0[i] != start by {
                assert(crate::memory::model::range_frames(fl0[i]).contains(ns0[i]));
                assert(ranges_disjoint(fl0[i], (start, size)));
            }
        }
        let node = LinkedListNode::new_size(None, size);
        self.mem.insert(start, node);
        match last {
            None => {
                self.first_free_node = Some(start);
            },
            Some(la) => {
                proof {
                    assert(la == ns0[ns0.len() - 1]);
                    assert(la != start);
                }
                let mut prev = match self.mem.get(&la) {
                    Some(n) => *n,
                    None => {
                        proof {
                            assert(false);
                        }
                        LinkedListNode { magic: 0, size: 0, next: None }
                    },
                };
                prev.set_next(start);
                self.mem.insert(la, prev);
            },
        }
        proof {
            self.nodes@ = self.nodes@.push(start);
            assert(self.ranges() =~= fl0.push((start, size))) by {
                assert forall|i: int| 0 <= i < self.nodes@.len() implies self.ranges()[i] == fl0
                    .push((start, size))[i] by {
                    if i < ns0.len() {
                        assert(self.nodes@[i] == ns0[i]);
                        assert(ns0[i] != start);
                        if ns0.len() > 0 && i < ns0.len() - 1 {
                            crate::memory::model::lemma_fl_distinct_starts(
                                fl0,
                                i,
                                ns0.len() - 1,
                            );
                        }
                    }
                }
            }
            assert(self.mem@.dom() =~= addr_set(self.nodes@)) by {
                assert(self.nodes@[self.nodes@.len() - 1] == start);
                assert forall|a: u64| self.nodes@.contains(a) implies self.mem@.dom().contains(
                    a,
                ) by {
                    let i = choose|i: int| 0 <= i < self.nodes@.len() && self.nodes@[i] == a;
                    if i < ns0.len() {
                        assert(ns0.contains(a));
                    }
                }
                assert forall|a: u64| self.mem@.dom().contains(a) implies self.nodes@.contains(
                    a,
                ) by {
                    if a != start {
                        let i = choose|i: int| 0 <= i < ns0.len() && ns0[i] == a;
                        assert(self.nodes@[i] == a);
                    }
                }
            }
            assert forall|i: int, j: int|
                0 <= i < self.ranges().len() && 0 <= j < self.ranges().len() && i
                    != j implies ranges_disjoint(
                #[trigger] self.ranges()[i],
                #[trigger] self.ranges()[j],
            ) by {
                if i < ns0.len() && j < ns0.len() {
                    assert(ranges_disjoint(fl0[i], fl0[j]));
                } else if i < ns0.len() {
                    assert(ranges_disjoint(fl0[i], (start, size)));
                } else {
                    assert(ranges_disjoint(fl0[j], (start, size)));
                }
            }
            assert forall|i: int| 0 <= i < self.nodes@.len() implies {
                let a = #[trigger] self.nodes@[i];
                &&& self.mem@.contains_key(a)
                &&& self.mem@[a].magic == FREE_MARKER
                &&& self.mem@[a].next == (if i + 1 < self.nodes@.len() {
                    Some(self.nodes@[i + 1])
                } else {
                    None::<u64>
                })
            } by {
                if i < ns0.len() {
                    assert(ns0[i] != start);
                    if i < ns0.len() - 1 {
                        crate::memory::model::lemma_fl_distinct_starts(fl0, i, ns0.len() - 1);
                    }
                }
            }
            assert(self.wf());
        }
    }

    /// Builds the free list from the boot memory map, in encounter
    /// order: every region of kind Free is aligned up to a page
    /// boundary, stripped of physical page zero, and linked when a
    /// whole number of pages, more than one, remains. Fails when no
    /// region survives.
    pub fn mark_free(bb: &BootBootUnpacked) -> (r: Result<FrameAllocator, MemoryInitError>)
        requires
            mmap_wf(bb.mmio@),
        ensures
            match r {
                Ok(fa) => {
                    &&& fa.wf()
                    &&& fa.ranges() == built_list(bb.mmio@)
                    &&& fa.ranges().len() > 0
                },
                Err(e) => {
                    &&& e == MemoryInitError::NoUsableMemory
                    &&& built_list(bb.mmio@).len() == 0
                },
            },
    {
        let mut fa = FrameAllocator {
            mem: HashMap::new(),
            first_free_node: None,
            nodes: Ghost(Seq::empty()),
        };
        let mut last: Option<u64> = None;
        let mut i: usize = 0;
        proof {
            assert(fa.ranges() =~= built_list(bb.mmio@.take(0)));
            assert(fa.mem@.dom() =~= addr_set(fa.nodes@));
            assert(fa.wf());
        }
        while i < bb.mmio.len()
            invariant
                mmap_wf(bb.mmio@),
                i <= bb.mmio@.len(),
                fa.wf(),
                fa.ranges() == built_list(bb.mmio@.take(i as int)),
                last == (if fa.ranges().len() == 0 {
                    None::<u64>
                } else {
                    Some(fa.ranges().last().0)
                }),
            decreases bb.mmio@.len() - i,
        {
            let entry = bb.mmio[i];
            let ghost es1 = bb.mmio@.take(i as int + 1);
            proof {
                assert(bb.mmio@[i as int].kind_valid());
                lemma_mmap_wf_prefix(bb.mmio@, i as int + 1);
                lemma_built_list_props(es1);
                assert(es1.drop_last() =~= bb.mmio@.take(i as int));
                assert(es1.last() == entry);
            }
            if entry.entry_type() == MMapType::Free {
                let mut size = entry.size();
                let mut start = entry.ptr();
                let mut keep = true;
                if !is_page_aligned(start) {
                    proof {
                        lemma_align_up_props(start as int);
                    }
                    let offset = PAGE_SIZE - start % PAGE_SIZE;
                    if offset >= size {
                        keep = false;
                    } else {
                        let aligned = page_align_up(start);
                        start = aligned;
                        size = size - offset;
                    }
                }
                if keep && start == 0 {
                    if size < PAGE_SIZE {
                        keep = false;
                    } else {
                        start = PAGE_SIZE;
                        size = size - PAGE_SIZE;
                    }
                }
                if keep && size % PAGE_SIZE == 0 && size > PAGE_SIZE {
                    proof {
                        assert(corrected(entry) == Some((start, size)));
                        let bl1 = built_list(es1);
                        assert(bl1 == fa.ranges().push((start, size)));
                        assert(range_wf((start, size))) by {
                            assert(bl1[bl1.len() - 1] == (start, size));
                        }
                        assert forall|k: int|
                            0 <= k < fa.ranges().len() implies ranges_disjoint(
                            #[trigger] fa.ranges()[k],
                            (start, size),
                        ) by {
                            assert(bl1[k] == fa.ranges()[k]);
                            assert(bl1[bl1.len() - 1] == (start, size));
                            assert(ranges_disjoint(bl1[k], bl1[bl1.len() - 1]));
                        }
                    }
                    fa.push_region(last, start, size);
                    last = Some(start);
                } else {
                    proof {
                        assert(corrected(entry) is None);
                        assert(built_list(es1) == fa.ranges());
                    }
                }
            } else {
                proof {
                    assert(corrected(entry) is None);
                    assert(built_list(es1) == fa.ranges());
                }
            }
            i += 1;
        }
        proof {
            assert(bb.mmio@.take(bb.mmio@.len() as int) =~= bb.mmio@);
        }
        match fa.first_free_node {
            Some(_) => Ok(fa),
            None => Err(MemoryInitError::NoUsableMemory),
        }
    }

    /// A frame allocator over the boot map's free regions; fails when
    /// the map holds no usable free memory.
    pub fn new(bb: &BootBootUnpacked) -> (r: Result<FrameAllocator, MemoryInitError>)
        requires
            mmap_wf(bb.mmio@),
        ensures
            match r {
                Ok(fa) => {
                    &&& fa.wf()
                    &&& fa.ranges() == built_list(bb.mmio@)
                    &&& fa.ranges().len() > 0
                },
                Err(e) => {
                    &&& e == MemoryInitError::NoUsableMemory
                    &&& built_list(bb.mmio@).len() == 0
                },
            },
    {
        Self::mark_free(bb)
    }

    /// Same construction as [`FrameAllocator::new`]; kept as a separate
    /// entry point for callers that build the allocator by address.
    pub fn new_addr(bb: &BootBootUnpacked) -> (r: Result<FrameAllocator, MemoryInitError>)
        requires
            mmap_wf(bb.mmio@),
        ensures
            match r {
                Ok(fa) => {
                    &&& fa.wf()
                    &&& fa.ranges() == built_list(bb.mmio@)
                    &&& fa.ranges().len() > 0
                },
                Err(e) => {
                    &&& e == MemoryInitError::NoUsableMemory
                    &&& built_list(bb.mmio@).len() == 0
                },
            },
    {
        Self::mark_free(bb)
    }

    /// Physical address of the head node: the frame the next allocation
    /// would hand out.
    pub fn first_free(&self) -> (r: Option<u64>)
        requires
            self.wf(),
        ensures
            r == fl_alloc_result(self.ranges()),
    {
        self.first_free_node
    }

    /// The node written at `addr`, when a free run starts there.
    pub fn node_at(&self, addr: u64) -> (r: Option<LinkedListNode>)
        requires
            self.wf(),
        ensures
            match r {
                Some(n) => exists|i: int|
                    0 <= i < self.ranges().len() && (#[trigger] self.ranges()[i]) == (addr, n.size)
                        && n.magic == FREE_MARKER && n.next == (if i + 1 < self.ranges().len() {
                        Some(self.ranges()[i + 1].0)
                    } else {
                        None::<u64>
                    }),
                None => forall|i: int|
                    0 <= i < self.ranges().len() ==> (#[trigger] self.ranges()[i]).0 != addr,
            },
    {
        let r = match self.mem.get(&addr) {
            Some(n) => Some(*n),
            None => None,
        };
        proof {
            match r {
                Some(n) => {
                    assert(self.nodes@.contains(addr));
                    let i = choose|i: int| 0 <= i < self.nodes@.len() && self.nodes@[i] == addr;
                    assert(self.ranges()[i] == (addr, n.size));
                },
                None => {
                    assert forall|i: int| 0 <= i < self.ranges().len() implies (
                    #[trigger] self.ranges()[i]).0 != addr by {
                        if self.nodes@[i] == addr {
                            assert(self.nodes@.contains(addr));
                        }
                    }
                },
            }
        }
        r
    }

    /// Pushes a frame back as a fresh single-page run at the front of
    /// the free list. The frame must be page-aligned, must not be page
    /// zero, and must not already be free.
    pub fn deallocate_frame(&mut self, frame: u64)
        requires
            old(self).wf(),
            frame % PAGE_SIZE == 0,
            frame >= PAGE_SIZE,
            !fl_frames(old(self).ranges()).contains(frame),
        ensures
            final(self).wf(),
            final(self).ranges() == fl_dealloc(old(self).ranges(), frame),
            fl_frames(final(self).ranges()) == fl_frames(old(self).ranges()).insert(frame),
            fl_total(final(self).ranges()) == fl_total(old(self).ranges()) + PAGE_SIZE,
    {
        let ghost fl0 = self.ranges();
        proof {
            lemma_fl_dealloc_props(fl0, frame);
            self.lemma_addrs_covered();
        }
        let node = LinkedListNode::new(self.first_free_node);
        self.mem.insert(frame, node);
        self.first_free_node = Some(frame);
        proof {
            let ghost ns0 = self.nodes@;
            self.nodes@ = seq![frame] + self.nodes@;
            assert(forall|i: int| 0 <= i < ns0.len() ==> #[trigger] ns0[i] != frame);
            assert(self.ranges() =~= fl_dealloc(fl0, frame)) by {
                assert forall|i: int| 0 <= i < self.nodes@.len() implies self.ranges()[i]
                    == fl_dealloc(fl0, frame)[i] by {
                    if i > 0 {
                        assert(self.nodes@[i] == ns0[i - 1]);
                        assert(ns0[i - 1] != frame);
                    }
                }
            }
            assert(self.mem@.dom() =~= addr_set(self.nodes@)) by {
                assert(self.nodes@[0] == frame);
                assert forall|a: u64| self.nodes@.contains(a) implies self.mem@.dom().contains(
                    a,
                ) by {
                    let i = choose|i: int| 0 <= i < self.nodes@.len() && self.nodes@[i] == a;
                    if i > 0 {
                        assert(ns0.contains(a));
                    }
                }
                assert forall|a: u64| self.mem@.dom().contains(a) implies self.nodes@.contains(
                    a,
                ) by {
                    if a != frame {
                        let i = choose|i: int| 0 <= i < ns0.len() && ns0[i] == a;
                        assert(self.nodes@[i + 1] == a);
                    }
                }
            }
            assert forall|i: int| 0 <= i < self.nodes@.len() implies {
                let a = #[trigger] self.nodes@[i];
                &&& self.mem@.contains_key(a)
                &&& self.mem@[a].magic == FREE_MARKER
                &&& self.mem@[a].next == (if i + 1 < self.nodes@.len() {
                    Some(self.nodes@[i + 1])
                } else {
                    None::<u64>
                })
            } by {
                if i > 0 {
                    assert(self.nodes@[i] == ns0[i - 1]);
                    assert(ns0[i - 1] != frame);
                }
            }
            assert(self.wf());
        }
    }
}

/// `m` is `m0` with exactly the `n` pages starting at `base` removed:
/// entries outside those pages are untouched.
pub open spec fn maps_shrunk(m0: Map<u64, u64>, m: Map<u64, u64>, base: u64, n: int) -> bool {
    &&& forall|v: u64|
        #[trigger] m.contains_key(v) ==> m0.contains_key(v) && m[v] == m0[v] && !in_page_range(
            v,
            base,
            n,
        )
    &&& forall|v: u64|
        #[trigger] m0.contains_key(v) && !in_page_range(v, base, n) ==> m.contains_key(v)
}

/// Whether the map entries from `last` on are laid out in address
/// order, each region starting at or after the previous region's end.
pub open spec fn mmap_sorted(es: Seq<MMapEnt>, last: int) -> bool
    decreases es.len(),
{
    if es.len() == 0 {
        true
    } else {
        es[0].ptr >= last && mmap_sorted(es.drop_first(), es[0].ptr + es[0].spec_size())
    }
}

/// Bytes of RAM the map accounts for from `last` on: every region's
/// size, plus the gap before a region of kind Used or Free, which is
/// memory the firmware holds back.
pub open spec fn spec_ram_total(es: Seq<MMapEnt>, last: int) -> int
    decreases es.len(),
{
    if es.len() == 0 {
        0
    } else {
        let e = es[0];
        let gap: int = if e.spec_entry_type() == MMapType::Used || e.spec_entry_type()
            == MMapType::Free {
            e.ptr - last
        } else {
            0
        };
        e.spec_size() + gap + spec_ram_total(es.drop_first(), e.ptr + e.spec_size())
    }
}

/// Total bytes of RAM the boot map accounts for, for diagnostics: the
/// regions' sizes plus the firmware-reserved gaps before RAM regions.
pub fn mmap_ram_total(bb: &BootBootUnpacked) -> (r: u64)
    requires
        forall|i: int| 0 <= i < bb.mmio@.len() ==> (#[trigger] bb.mmio@[i]).kind_valid(),
        forall|i: int|
            0 <= i < bb.mmio@.len() ==> (#[trigger] bb.mmio@[i]).ptr + bb.mmio@[i].spec_size()
                <= PHYS_ADDR_LIMIT,
        mmap_sorted(bb.mmio@, 0),
    ensures
        r == spec_ram_total(bb.mmio@, 0),
{
    let ghost es = bb.mmio@;
    let mut ram: u64 = 0;
    let mut last_ptr: u64 = 0;
    let mut i: usize = 0;
    proof {
        assert(es.skip(0) =~= es);
    }
    while i < bb.mmio.len()
        invariant
            i <= es.len(),
            es == bb.mmio@,
            forall|t: int| 0 <= t < es.len() ==> (#[trigger] es[t]).kind_valid(),
            forall|t: int|
                0 <= t < es.len() ==> (#[trigger] es[t]).ptr + es[t].spec_size()
                    <= PHYS_ADDR_LIMIT,
            mmap_sorted(es.skip(i as int), last_ptr as int),
            spec_ram_total(es, 0) == ram + spec_ram_total(es.skip(i as int), last_ptr as int),
            ram <= last_ptr,
            last_ptr <= PHYS_ADDR_LIMIT,
        decreases es.len() - i,
    {
        let entry = bb.mmio[i];
        proof {
            assert(es.skip(i as int)[0] == entry);
            assert(es.skip(i as int).drop_first() =~= es.skip(i as int + 1));
        }
        let diff = entry.ptr() - last_ptr;
        let kind = entry.entry_type();
        ram += entry.size();
        if kind == MMapType::Used || kind == MMapType::Free {
            ram += diff;
        }
        last_ptr = entry.ptr() + entry.size();
        i += 1;
    }
    proof {
        assert(es.skip(es.len() as int).len() == 0);
    }
    ram
}

/// A translation-cache invalidation still owed for one virtual page.
/// The caller must apply it before relying on the new mapping.
#[must_use]
pub struct MapperFlush {
    addr: u64,
}

impl MapperFlush {
    /// The virtual page this token is owed for.
    pub closed spec fn target(&self) -> u64 {
        self.addr
    }

    /// Applies the owed invalidation. On hardware this flushes the
    /// translation cache for the page; the mapping model carries no
    /// cache, so consuming the token is all that remains.
    pub fn flush(self) {
    }
}

/// The virtual memory mapper: owns the frame allocator, the installed
/// leaf page-table entries, and a monotonically increasing virtual
/// address cursor. Virtual ranges are never reused; only physical
/// frames return to the free list.
pub struct PageAllocator {
    frame: FrameAllocator,
    /// The leaf entries this subsystem has installed: virtual page
    /// address to physical frame address.
    page: HashMap<u64, u64>,
    /// Next virtual address the mapper will hand out.
    memory_allocate_offset: u64,
}

impl PageAllocator {
    /// The free list of the owned frame allocator.
    pub closed spec fn free_ranges(&self) -> Seq<(u64, u64)> {
        self.frame.ranges()
    }

    /// The installed mappings, virtual page to physical frame.
    pub closed spec fn mappings(&self) -> Map<u64, u64> {
        self.page@
    }

    /// The virtual address cursor.
    pub closed spec fn cursor(&self) -> u64 {
        self.memory_allocate_offset
    }

    /// The mapper's invariant: the frame allocator is well formed, the
    /// cursor is page-aligned and at or above its fixed start, every
    /// mapped virtual page is aligned and holds an aligned, non-zero
    /// physical frame that is not simultaneously free, and no two
    /// virtual pages share a frame.
    pub closed spec fn wf(&self) -> bool {
        &&& self.frame.wf()
        &&& self.memory_allocate_offset % PAGE_SIZE == 0
        &&& self.memory_allocate_offset >= STARTING_MEM_OFFSET
        &&& forall|v: u64|
            #[trigger] self.page@.contains_key(v) ==> v % PAGE_SIZE == 0 && self.page@[v]
                % PAGE_SIZE == 0 && self.page@[v] >= PAGE_SIZE && !fl_frames(
                self.frame.ranges(),
            ).contains(self.page@[v])
        &&& forall|v1: u64, v2: u64|
            #[trigger] self.page@.contains_key(v1) && #[trigger] self.page@.contains_key(v2) && v1
                != v2 ==> self.page@[v1] != self.page@[v2]
    }

    /// Every mapped virtual page lies below the cursor, so addresses
    /// the cursor will hand out are never already mapped.
    pub closed spec fn vm_fresh(&self) -> bool {
        forall|v: u64|
            #[trigger] self.page@.contains_key(v) ==> v < self.memory_allocate_offset
    }

    /// A mapper over the boot map's free regions, with no mappings
    /// installed and the cursor at its fixed starting offset; fails
    /// when the map holds no usable free memory.
    pub fn new(bb: &BootBootUnpacked) -> (r: Result<PageAllocator, MemoryInitError>)
        requires
            mmap_wf(bb.mmio@),
        ensures
            match r {
                Ok(pa) => {
                    &&& pa.wf()
                    &&& pa.vm_fresh()
                    &&& pa.free_ranges() == built_list(bb.mmio@)
                    &&& pa.free_ranges().len() > 0
                    &&& pa.mappings() == Map::<u64, u64>::empty()
                    &&& pa.cursor() == STARTING_MEM_OFFSET
                },
                Err(e) => {
                    &&& e == MemoryInitError::NoUsableMemory
                    &&& built_list(bb.mmio@).len() == 0
                },
            },
    {
        match FrameAllocator::new(bb) {
            Ok(frame) => Ok(
                PageAllocator {
                    frame,
                    page: HashMap::new(),
                    memory_allocate_offset: STARTING_MEM_OFFSET,
                },
            ),
            Err(e) => Err(e),
        }
    }

    /// Number of whole pages needed to hold `size` bytes.
    pub fn min_frames_from_size(size: usize) -> (frames: usize)
        ensures
            frames == spec_min_frames(size as int),
    {
        let mut frames = size / (PAGE_SIZE as usize);
        if size % (PAGE_SIZE as usize) > 0 {
            frames += 1;
        }
        frames
    }

    /// Takes one page off the free list through the owned allocator.
    pub fn allocate_frame(&mut self) -> (r: Option<u64>)
        requires
            old(self).wf(),
        ensures
            final(self).wf(),
            final(self).mappings() == old(self).mappings(),
            final(self).cursor() == old(self).cursor(),
            old(self).vm_fresh() ==> final(self).vm_fresh(),
            r == fl_alloc_result(old(self).free_ranges()),
            final(self).free_ranges() == fl_alloc(old(self).free_ranges()),
            match r {
                Some(f) => {
                    &&& f % PAGE_SIZE == 0
                    &&& f >= PAGE_SIZE
                    &&& fl_frames(old(self).free_ranges()).contains(f)
                    &&& !fl_frames(final(self).free_ranges()).contains(f)
                    &&& fl_frames(final(self).free_ranges()) == fl_frames(
                        old(self).free_ranges(),
                    ).remove(f)
                    &&& fl_total(final(self).free_ranges()) == fl_total(old(self).free_ranges())
                        - PAGE_SIZE
                },
                None => old(self).free_ranges().len() == 0,
            },
    {
        self.frame.allocate_frame()
    }

    /// Returns a frame to the free list through the owned allocator.
    /// The frame must be aligned, above page zero, not free, and not
    /// currently mapped anywhere.
    pub fn deallocate_frame(&mut self, frame: u64)
        requires
            old(self).wf(),
            frame % PAGE_SIZE == 0,
            frame >= PAGE_SIZE,
            !fl_frames(old(self).free_ranges()).contains(frame),
            forall|v: u64|
                #[trigger] old(self).mappings().contains_key(v) ==> old(self).mappings()[v]
                    != frame,
        ensures
            final(self).wf(),
            final(self).mappings() == old(self).mappings(),
            final(self).cursor() == old(self).cursor(),
            old(self).vm_fresh() ==> final(self).vm_fresh(),
            final(self).free_ranges() == fl_dealloc(old(self).free_ranges(), frame),
            fl_frames(final(self).free_ranges()) == fl_frames(old(self).free_ranges()).insert(
                frame,
            ),
            fl_total(final(self).free_ranges()) == fl_total(old(self).free_ranges()) + PAGE_SIZE,
    {
        let ghost fl0 = self.frame.ranges();
        self.frame.deallocate_frame(frame);
        proof {
            assert forall|v: u64| #[trigger] self.page@.contains_key(v) implies v % PAGE_SIZE == 0
                && self.page@[v] % PAGE_SIZE == 0 && self.page@[v] >= PAGE_SIZE && !fl_frames(
                self.frame.ranges(),
            ).contains(self.page@[v]) by {
                assert(old(self).mappings().contains_key(v));
                assert(self.page@[v] != frame);
                assert(!fl_frames(fl0).contains(self.page@[v]));
            }
        }
    }

    /// Installs one leaf entry mapping a virtual page to `frame`.
    ///
    /// With no explicit address, the page is drawn from the cursor and
    /// the cursor advances one page. An explicit address must be page
    /// aligned and not already mapped, or the call reports a mapping
    /// error and leaves the mapper unchanged. The returned token owes a
    /// translation-cache flush for the mapped page.
    pub fn map_frame(&mut self, frame: u64, virt: Option<u64>) -> (r: Result<
        (u64, MapperFlush),
        (),
    >)
        requires
            old(self).wf(),
            frame % PAGE_SIZE == 0,
            frame >= PAGE_SIZE,
            !fl_frames(old(self).free_ranges()).contains(frame),
            forall|v: u64|
                #[trigger] old(self).mappings().contains_key(v) ==> old(self).mappings()[v]
                    != frame,
            virt is None ==> old(self).cursor() < VIRT_CANONICAL_LIMIT,
        ensures
            final(self).wf(),
            final(self).free_ranges() == old(self).free_ranges(),
            (match virt {
                Some(v) => v % PAGE_SIZE == 0 && !old(self).mappings().contains_key(v),
                None => !old(self).mappings().contains_key(old(self).cursor()),
            }) <==> r is Ok,
            match r {
                Ok((addr, flush)) => {
                    &&& flush.target() == addr
                    &&& addr % PAGE_SIZE == 0
                    &&& !old(self).mappings().contains_key(addr)
                    &&& final(self).mappings() == old(self).mappings().insert(addr, frame)
                    &&& (virt matches Some(v) ==> addr == v && final(self).cursor() == old(
                        self,
                    ).cursor())
                    &&& (virt is None ==> addr == old(self).cursor() && final(self).cursor() == old(
                        self,
                    ).cursor() + PAGE_SIZE)
                },
                Err(_) => *final(self) == *old(self),
            },
            old(self).vm_fresh() && (virt is None || r is Err || (virt matches Some(v) && v < old(
                self,
            ).cursor())) ==> final(self).vm_fresh(),
    {
        let ghost m0 = self.page@;
        proof {
            assert forall|v: u64| #[trigger] m0.contains_key(v) implies m0[v] != frame by {
                assert(old(self).mappings().contains_key(v));
            }
        }
        match virt {
            Some(v) => {
                if v % PAGE_SIZE != 0 {
                    return Err(());
                }
                if self.page.contains_key(&v) {
                    return Err(());
                }
                self.page.insert(v, frame);
                proof {
                    self.lemma_wf_after_insert(m0, v, frame);
                }
                Ok((v, MapperFlush { addr: v }))
            },
            None => {
                let addr = self.memory_allocate_offset;
                if self.page.contains_key(&addr) {
                    return Err(());
                }
                self.memory_allocate_offset = addr + PAGE_SIZE;
                self.page.insert(addr, frame);
                proof {
                    self.lemma_wf_after_insert(m0, addr, frame);
                }
                Ok((addr, MapperFlush { addr }))
            },
        }
    }

    /// Inserting an aligned, unmapped page over a fresh frame keeps the
    /// page table's per-entry conditions.
    proof fn lemma_wf_after_insert(&self, m0: Map<u64, u64>, addr: u64, frame: u64)
        requires
            self.page@ == m0.insert(addr, frame),
            !m0.contains_key(addr),
            addr % PAGE_SIZE == 0,
            frame % PAGE_SIZE == 0,
            frame >= PAGE_SIZE,
            !fl_frames(self.frame.ranges()).contains(frame),
            forall|v: u64|
                #[trigger] m0.contains_key(v) ==> v % PAGE_SIZE == 0 && m0[v] % PAGE_SIZE == 0
                    && m0[v] >= PAGE_SIZE && !fl_frames(self.frame.ranges()).contains(m0[v]),
            forall|v1: u64, v2: u64|
                #[trigger] m0.contains_key(v1) && #[trigger] m0.contains_key(v2) && v1 != v2
                    ==> m0[v1] != m0[v2],
            forall|v: u64| #[trigger] m0.contains_key(v) ==> m0[v] != frame,
        ensures
            forall|v: u64|
                #[trigger] self.page@.contains_key(v) ==> v % PAGE_SIZE == 0 && self.page@[v]
                    % PAGE_SIZE == 0 && self.page@[v] >= PAGE_SIZE && !fl_frames(
                    self.frame.ranges(),
                ).contains(self.page@[v]),
            forall|v1: u64, v2: u64|
                #[trigger] self.page@.contains_key(v1) && #[trigger] self.page@.contains_key(v2)
                    && v1 != v2 ==> self.page@[v1] != self.page@[v2],
    {
        assert forall|v: u64| #[trigger] self.page@.contains_key(v) implies v % PAGE_SIZE == 0
            && self.page@[v] % PAGE_SIZE == 0 && self.page@[v] >= PAGE_SIZE && !fl_frames(
            self.frame.ranges(),
        ).contains(self.page@[v]) by {
            if v != addr {
                assert(m0.contains_key(v));
            }
        }
        assert forall|v1: u64, v2: u64|
            #[trigger] self.page@.contains_key(v1) && #[trigger] self.page@.contains_key(v2) && v1
                != v2 implies self.page@[v1] != self.page@[v2] by {
            if v1 != addr && v2 != addr {
                assert(m0.contains_key(v1));
                assert(m0.contains_key(v2));
            } else if v1 == addr {
                assert(m0.contains_key(v2));
            } else {
                assert(m0.contains_key(v1));
            }
        }
    }

    /// Allocates `size` bytes as a contiguous virtual range.
    ///
    /// Computes the number of whole pages needed, then allocates one
    /// physical frame per page and maps each at the next cursor
    /// address, so the pages are virtually contiguous whatever frames
    /// the allocator hands out. All or nothing: if a frame runs out
    /// midway, every frame and mapping this call created is unwound,
    /// newest first, before the out-of-memory error is reported — the
    /// free list's cover and the installed mappings are then exactly
    /// what they were before the call. On success the translation
    /// flush for the last mapped page is applied once; the earlier
    /// per-page flushes are elided, as nothing reads the range before
    /// the call returns.
    #[verifier::loop_isolation(false)]
    pub fn allocate(&mut self, size: usize) -> (r: Result<u64, FrameAllocateError>)
        requires
            old(self).wf(),
            old(self).vm_fresh(),
            old(self).cursor() + spec_pages_for(size as int) * PAGE_SIZE <= VIRT_CANONICAL_LIMIT,
        ensures
            final(self).wf(),
            final(self).vm_fresh(),
            final(self).cursor() >= old(self).cursor(),
            ({
                let n = spec_pages_for(size as int);
                match r {
                    Ok(base) => {
                        &&& base == old(self).cursor()
                        &&& base >= STARTING_MEM_OFFSET
                        &&& final(self).cursor() == old(self).cursor() + n * PAGE_SIZE
                        &&& maps_extended(old(self).mappings(), final(self).mappings(), base, n)
                        &&& forall|v: u64|
                            #[trigger] final(self).mappings().contains_key(v) && !old(
                                self,
                            ).mappings().contains_key(v) ==> fl_frames(
                                old(self).free_ranges(),
                            ).contains(final(self).mappings()[v]) && !fl_frames(
                                final(self).free_ranges(),
                            ).contains(final(self).mappings()[v])
                        &&& fl_total(final(self).free_ranges()) == fl_total(
                            old(self).free_ranges(),
                        ) - n * PAGE_SIZE
                        &&& fl_total(old(self).free_ranges()) >= n * PAGE_SIZE
                    },
                    Err(e) => {
                        &&& e == FrameAllocateError::Oom
                        &&& final(self).mappings() == old(self).mappings()
                        &&& fl_frames(final(self).free_ranges()) == fl_frames(
                            old(self).free_ranges(),
                        )
                        &&& fl_total(final(self).free_ranges()) == fl_total(
                            old(self).free_ranges(),
                        )
                        &&& fl_total(old(self).free_ranges()) < n * PAGE_SIZE
                    },
                }
            }),
    {
        let ghost fl0 = self.free_ranges();
        let ghost m0 = self.mappings();
        let ghost n = spec_pages_for(size as int);
        let base = self.memory_allocate_offset;
        let frames = Self::min_frames_from_size(size);
        proof {
            lemma_mul_inequality(1, n, PAGE_SIZE as int);
        }
        match self.allocate_frame() {
            None => {
                proof {
                    assert(fl_total(fl0) == 0);
                }
                Err(FrameAllocateError::Oom)
            },
            Some(first_frame) => {
                proof {
                    assert forall|v: u64|
                        #[trigger] self.mappings().contains_key(v) implies self.mappings()[v]
                        != first_frame by {
                        assert(m0.contains_key(v));
                        assert(!fl_frames(fl0).contains(m0[v]));
                    }
                }
                let first_map = self.map_frame(first_frame, None);
                match first_map {
                    Err(_) => {
                        proof {
                            // The cursor page is never mapped, so this
                            // mapping cannot be rejected.
                            assert(false);
                        }
                        Err(FrameAllocateError::Oom)
                    },
                    Ok((addr, first_flush)) => {
                        let mut flush = first_flush;
                        let ghost mut allocated: Seq<u64> = seq![first_frame];
                        let mut frame_idx: usize = 1;
                        proof {
                            assert forall|v: u64| #[trigger] m0.contains_key(v) implies v
                                < base by {
                                assert(old(self).mappings().contains_key(v));
                                assert(old(self).page@.contains_key(v));
                            }
                            lemma_page_range_split(base, 0, base);
                            assert forall|v: u64| #[trigger]
                                in_page_range(v, base, 1) implies self.mappings().contains_key(
                                v,
                            ) by {
                                lemma_page_range_split(base, 0, v);
                            }
                            assert forall|v: u64|
                                #[trigger] self.mappings().contains_key(v) implies m0.contains_key(
                                v,
                            ) || in_page_range(v, base, 1) by {
                                if v == base {
                                    lemma_page_range_split(base, 0, v);
                                }
                            }
                            assert(maps_extended(m0, self.mappings(), base, 1));
                            assert(self.mappings()[page_at(base, 0)] == allocated[0]);
                            assert(fl_frames(self.free_ranges()) =~= fl_frames(fl0).difference(
                                addr_set(allocated),
                            )) by {
                                assert(allocated[0] == first_frame);
                                assert forall|p: u64|
                                    addr_set(allocated).contains(p) implies p == first_frame by {
                                    let i = choose|i: int|
                                        0 <= i < allocated.len() && allocated[i] == p;
                                }
                            }
                        }
                        while frame_idx < frames
                            invariant
                                self.wf(),
                                self.vm_fresh(),
                                1 <= frame_idx,
                                frame_idx <= frames || frame_idx == 1,
                                frames == spec_min_frames(size as int),
                                n == spec_pages_for(size as int),
                                frame_idx <= n,
                                base % PAGE_SIZE == 0,
                                base >= STARTING_MEM_OFFSET,
                                base + n * PAGE_SIZE <= VIRT_CANONICAL_LIMIT,
                                self.cursor() == base + frame_idx * PAGE_SIZE,
                                allocated.len() == frame_idx,
                                maps_extended(m0, self.mappings(), base, frame_idx as int),
                                forall|k: int|
                                    0 <= k < frame_idx ==> self.mappings().contains_key(
                                        #[trigger] page_at(base, k),
                                    ) && self.mappings()[page_at(base, k)] == allocated[k],
                                forall|k: int|
                                    0 <= k < frame_idx ==> fl_frames(fl0).contains(
                                        #[trigger] allocated[k],
                                    ),
                                forall|v: u64|
                                    #[trigger] self.mappings().contains_key(v)
                                        && !m0.contains_key(v) ==> fl_frames(fl0).contains(
                                        self.mappings()[v],
                                    ),
                                forall|v: u64|
                                    #[trigger] m0.contains_key(v) ==> !fl_frames(fl0).contains(
                                        m0[v],
                                    ),
                                forall|v: u64| #[trigger] m0.contains_key(v) ==> v < base,
                                forall|t1: int, t2: int|
                                    0 <= t1 < frame_idx && 0 <= t2 < frame_idx && t1 != t2
                                        ==> allocated[t1] != allocated[t2],
                                fl_frames(self.free_ranges()) == fl_frames(fl0).difference(
                                    addr_set(allocated),
                                ),
                                fl_total(self.free_ranges()) == fl_total(fl0) - frame_idx
                                    * PAGE_SIZE,
                            decreases frames - frame_idx,
                        {
                            proof {
                                assert(frame_idx < n);
                                lemma_mul_strict_inequality(
                                    frame_idx as int,
                                    n,
                                    PAGE_SIZE as int,
                                );
                            }
                            let ghost fl_before = self.free_ranges();
                            match self.allocate_frame() {
                                Some(frame) => {
                                    proof {
                                        assert(fl_frames(fl_before).contains(frame));
                                        assert(fl_frames(fl0).contains(frame));
                                        assert(!addr_set(allocated).contains(frame));
                                        assert forall|v: u64|
                                            #[trigger] self.mappings().contains_key(
                                            v,
                                        ) implies self.mappings()[v] != frame by {
                                            if m0.contains_key(v) {
                                                assert(!fl_frames(fl0).contains(m0[v]));
                                            } else {
                                                let i = choose|i: int|
                                                    0 <= i < allocated.len() && allocated[i]
                                                        == self.mappings()[v];
                                                assert(addr_set(allocated).contains(
                                                    self.mappings()[v],
                                                ));
                                            }
                                        }
                                    }
                                    let ghost m_pre = self.mappings();
                                    let ghost fl_pre = self.free_ranges();
                                    match self.map_frame(frame, None) {
                                        Ok((_addr2, fl2)) => {
                                            flush = fl2;
                                            proof {
                                                let ghost alloc0 = allocated;
                                                allocated = allocated.push(frame);
                                                let gi = frame_idx as int;
                                                lemma_page_range_split(base, gi, base);
                                                assert(page_at(base, gi) == base + gi
                                                    * PAGE_SIZE);
                                                assert forall|v: u64| #[trigger]
                                                    in_page_range(
                                                    v,
                                                    base,
                                                    gi + 1,
                                                ) implies self.mappings().contains_key(v) by {
                                                    lemma_page_range_split(base, gi, v);
                                                }
                                                assert forall|v: u64|
                                                    #[trigger] self.mappings().contains_key(
                                                    v,
                                                ) implies m0.contains_key(v) || in_page_range(
                                                    v,
                                                    base,
                                                    gi + 1,
                                                ) by {
                                                    lemma_page_range_split(base, gi, v);
                                                }
                                                assert(maps_extended(
                                                    m0,
                                                    self.mappings(),
                                                    base,
                                                    gi + 1,
                                                ));
                                                assert forall|k: int|
                                                    0 <= k < frame_idx
                                                        + 1 implies self.mappings().contains_key(
                                                    #[trigger] page_at(base, k),
                                                ) && self.mappings()[page_at(base, k)]
                                                    == allocated[k] by {
                                                    if k < gi {
                                                        assert(m_pre.contains_key(
                                                            page_at(base, k),
                                                        ));
                                                        assert(allocated[k] == alloc0[k]);
                                                    }
                                                }
                                                assert(fl_frames(self.free_ranges())
                                                    =~= fl_frames(fl0).difference(
                                                    addr_set(allocated),
                                                )) by {
                                                    assert(fl_frames(self.free_ranges())
                                                        == fl_frames(fl_before).remove(frame));
                                                    assert forall|p: u64|
                                                        addr_set(allocated).contains(
                                                        p,
                                                    ) implies p == frame || addr_set(
                                                        alloc0,
                                                    ).contains(p) by {
                                                        let i = choose|i: int|
                                                            0 <= i < allocated.len()
                                                                && allocated[i] == p;
                                                        if i < alloc0.len() {
                                                            assert(alloc0[i] == p);
                                                        }
                                                    }
                                                    assert forall|p: u64|
                                                        addr_set(alloc0).contains(
                                                        p,
                                                    ) implies addr_set(allocated).contains(
                                                        p,
                                                    ) by {
                                                        let i = choose|i: int|
                                                            0 <= i < alloc0.len() && alloc0[i]
                                                                == p;
                                                        assert(allocated[i] == p);
                                                    }
                                                    assert(addr_set(allocated).contains(
                                                        frame,
                                                    )) by {
                                                        assert(allocated[alloc0.len() as int]
                                                            == frame);
                                                    }
                                                }
                                                assert((frame_idx + 1) * PAGE_SIZE == frame_idx
                                                    * PAGE_SIZE + PAGE_SIZE)
                                                    by (nonlinear_arith);
                                                assert forall|t1: int, t2: int|
                                                    0 <= t1 < allocated.len() && 0 <= t2
                                                        < allocated.len() && t1 != t2
                                                        implies allocated[t1] != allocated[t2] by {
                                                    if t1 == alloc0.len() {
                                                        if alloc0[t2] == frame {
                                                            assert(addr_set(alloc0).contains(
                                                                frame,
                                                            ));
                                                        }
                                                    } else if t2 == alloc0.len() {
                                                        if alloc0[t1] == frame {
                                                            assert(addr_set(alloc0).contains(
                                                                frame,
                                                            ));
                                                        }
                                                    } else {
                                                        assert(allocated[t1] == alloc0[t1]
                                                            && allocated[t2] == alloc0[t2]);
                                                    }
                                                }
                                            }
                                            frame_idx += 1;
                                        },
                                        Err(_) => {
                                            proof {
                                                // The cursor page is never mapped, so this
                                                // mapping cannot be rejected.
                                                assert(false);
                                            }
                                            return Err(FrameAllocateError::Oom);
                                        },
                                    }
                                },
                                None => {
                                    // Out of physical frames: unwind everything this
                                    // call built, newest first, then report the error.
                                    proof {
                                        assert(fl_total(fl0) == frame_idx * PAGE_SIZE);
                                        assert(fl_total(fl0) < n * PAGE_SIZE);
                                        assert(allocated.take(frame_idx as int) =~= allocated);
                                    }
                                    let mut k = frame_idx;
                                    while k > 0
                                        invariant
                                            self.wf(),
                                            self.vm_fresh(),
                                            0 <= k <= frame_idx,
                                            allocated.len() == frame_idx,
                                            base % PAGE_SIZE == 0,
                                            frame_idx <= n,
                                            base + n * PAGE_SIZE <= VIRT_CANONICAL_LIMIT,
                                            self.cursor() == base + frame_idx * PAGE_SIZE,
                                            maps_extended(m0, self.mappings(), base, k as int),
                                            forall|v: u64| #[trigger] m0.contains_key(v) ==> v < base,
                                            forall|t: int|
                                                0 <= t < k ==> self.mappings().contains_key(
                                                    #[trigger] page_at(base, t),
                                                ) && self.mappings()[page_at(base, t)]
                                                    == allocated[t],
                                            forall|t: int|
                                                0 <= t < frame_idx ==> fl_frames(fl0).contains(
                                                    #[trigger] allocated[t],
                                                ),
                                            forall|t1: int, t2: int|
                                                0 <= t1 < frame_idx && 0 <= t2 < frame_idx && t1
                                                    != t2 ==> allocated[t1] != allocated[t2],
                                            fl_frames(self.free_ranges()) == fl_frames(
                                                fl0,
                                            ).difference(addr_set(allocated.take(k as int))),
                                            fl_total(self.free_ranges()) == fl_total(fl0) - k
                                                * PAGE_SIZE,
                                        decreases k,
                                    {
                                        k -= 1;
                                        proof {
                                            lemma_mul_inequality(
                                                k as int + 1,
                                                n,
                                                PAGE_SIZE as int,
                                            );
                                            lemma_mul_inequality(k as int, n, PAGE_SIZE as int);
                                            lemma_page_range_split(base, k as int, base);
                                        }
                                        let addr2 = base + (k as u64) * PAGE_SIZE;
                                        proof {
                                            assert(addr2 == page_at(base, k as int));
                                            assert(self.mappings().contains_key(addr2));
                                        }
                                        let ghost m_pre = self.mappings();
                                        let ghost fl_pre = self.free_ranges();
                                        let popped = self.page.remove(&addr2);
                                        match popped {
                                            Some(f) => {
                                                proof {
                                                    assert(f == allocated[k as int]);
                                                    assert(self.page@ == m_pre.remove(addr2));
                                                    assert forall|v: u64|
                                                        #[trigger] self.page@.contains_key(
                                                        v,
                                                    ) implies v % PAGE_SIZE == 0 && self.page@[v]
                                                        % PAGE_SIZE == 0 && self.page@[v]
                                                        >= PAGE_SIZE && !fl_frames(
                                                        self.frame.ranges(),
                                                    ).contains(self.page@[v]) by {
                                                        assert(m_pre.contains_key(v));
                                                    }
                                                    assert forall|v1: u64, v2: u64|
                                                        #[trigger] self.page@.contains_key(v1)
                                                            && #[trigger] self.page@.contains_key(
                                                            v2,
                                                        ) && v1 != v2 implies self.page@[v1]
                                                        != self.page@[v2] by {
                                                        assert(m_pre.contains_key(v1));
                                                        assert(m_pre.contains_key(v2));
                                                    }
                                                    assert(self.wf());
                                                    assert forall|v: u64|
                                                        #[trigger] self.mappings().contains_key(
                                                        v,
                                                    ) implies self.mappings()[v] != f by {
                                                        assert(m_pre.contains_key(v));
                                                        assert(v != addr2);
                                                        assert(m_pre[v] != m_pre[addr2]);
                                                    }
                                                    assert(f % PAGE_SIZE == 0 && f >= PAGE_SIZE)
                                                        by {
                                                        assert(m_pre.contains_key(addr2));
                                                    }
                                                    assert(!fl_frames(
                                                        self.free_ranges(),
                                                    ).contains(f)) by {
                                                        assert(m_pre.contains_key(addr2));
                                                    }
                                                }
                                                self.frame.deallocate_frame(f);
                                                proof {
                                                    assert forall|v: u64|
                                                        #[trigger] self.page@.contains_key(
                                                        v,
                                                    ) implies !fl_frames(
                                                        self.frame.ranges(),
                                                    ).contains(self.page@[v]) by {
                                                        assert(m_pre.contains_key(v));
                                                        assert(self.page@[v] != f);
                                                        assert(!fl_frames(fl_pre).contains(
                                                            self.page@[v],
                                                        ));
                                                    }
                                                    assert(self.wf());
                                                    assert forall|v: u64| #[trigger]
                                                        m0.contains_key(
                                                        v,
                                                    ) implies self.mappings().contains_key(v)
                                                        && self.mappings()[v] == m0[v] by {
                                                        assert(m_pre.contains_key(v));
                                                        assert(v != addr2);
                                                    }
                                                    assert forall|v: u64| #[trigger]
                                                        in_page_range(
                                                        v,
                                                        base,
                                                        k as int,
                                                    ) implies self.mappings().contains_key(
                                                        v,
                                                    ) by {
                                                        lemma_page_range_split(base, k as int, v);
                                                        assert(in_page_range(
                                                            v,
                                                            base,
                                                            k as int + 1,
                                                        ));
                                                        assert(v != addr2) by {
                                                            if v == page_at(base, k as int) {
                                                                assert(!in_page_range(
                                                                    v,
                                                                    base,
                                                                    k as int,
                                                                ));
                                                            }
                                                        }
                                                    }
                                                    assert forall|v: u64|
                                                        #[trigger] self.mappings().contains_key(
                                                        v,
                                                    ) implies m0.contains_key(v) || in_page_range(
                                                        v,
                                                        base,
                                                        k as int,
                                                    ) by {
                                                        assert(m_pre.contains_key(v));
                                                        if !m0.contains_key(v) {
                                                            assert(in_page_range(
                                                                v,
                                                                base,
                                                                k as int + 1,
                                                            ));
                                                            lemma_page_range_split(
                                                                base,
                                                                k as int,
                                                                v,
                                                            );
                                                            assert(v != page_at(base, k as int));
                                                        }
                                                    }
                                                    assert(maps_extended(
                                                        m0,
                                                        self.mappings(),
                                                        base,
                                                        k as int,
                                                    ));
                                                    assert(fl_frames(self.free_ranges())
                                                        =~= fl_frames(fl0).difference(
                                                        addr_set(allocated.take(k as int)),
                                                    )) by {
                                                        assert(fl_frames(self.free_ranges())
                                                            == fl_frames(fl_pre).insert(f));
                                                        assert(fl_frames(fl_pre) == fl_frames(
                                                            fl0,
                                                        ).difference(
                                                            addr_set(
                                                                allocated.take(k as int + 1),
                                                            ),
                                                        ));
                                                        assert forall|p: u64|
                                                            addr_set(
                                                            allocated.take(k as int + 1),
                                                        ).contains(p) implies p == f || addr_set(
                                                            allocated.take(k as int),
                                                        ).contains(p) by {
                                                            let t = allocated.take(k as int + 1);
                                                            let i = choose|i: int|
                                                                0 <= i < t.len() && t[i] == p;
                                                            if i < k {
                                                                assert(allocated.take(
                                                                    k as int,
                                                                )[i] == p);
                                                            } else {
                                                                assert(t[k as int]
                                                                    == allocated[k as int]);
                                                            }
                                                        }
                                                        assert forall|p: u64|
                                                            addr_set(
                                                            allocated.take(k as int),
                                                        ).contains(p) implies p != f && addr_set(
                                                            allocated.take(k as int + 1),
                                                        ).contains(p) by {
                                                            let t = allocated.take(k as int);
                                                            let i = choose|i: int|
                                                                0 <= i < t.len() && t[i] == p;
                                                            assert(allocated[i] == p);
                                                            let ghost ki = k as int;
                                                            assert(allocated[i] != allocated[ki]);
                                                            assert(allocated.take(
                                                                k as int + 1,
                                                            )[i] == p);
                                                        }
                                                        assert(fl_frames(fl0).contains(f));
                                                    }
                                                    assert((k + 1) as int * PAGE_SIZE == k as int
                                                        * PAGE_SIZE + PAGE_SIZE)
                                                        by (nonlinear_arith);
                                                }
                                            },
                                            None => {
                                                proof {
                                                    assert(false);
                                                }
                                            },
                                        }
                                    }
                                    proof {
                                        assert(frame_idx as int * PAGE_SIZE >= 0)
                                            by (nonlinear_arith)
                                            requires
                                                frame_idx as int >= 0,
                                        ;
                                        assert(k as int * PAGE_SIZE == 0) by (nonlinear_arith)
                                            requires
                                                k as int == 0,
                                        ;
                                        assert(self.mappings() =~= m0) by {
                                            assert forall|v: u64|
                                                #[trigger] self.mappings().contains_key(
                                                v,
                                            ) implies m0.contains_key(v) by {
                                                if in_page_range(v, base, 0) {
                                                    assert(v < base);
                                                }
                                            }
                                        }
                                        assert(fl_frames(self.free_ranges()) =~= fl_frames(fl0))
                                            by {
                                            assert(allocated.take(0).len() == 0);
                                            assert forall|p: u64|
                                                fl_frames(fl0).contains(p) implies fl_frames(
                                                self.free_ranges(),
                                            ).contains(p) by {
                                                if addr_set(allocated.take(0)).contains(p) {
                                                    let i = choose|i: int|
                                                        0 <= i < allocated.take(0).len()
                                                            && allocated.take(0)[i] == p;
                                                }
                                            }
                                        }
                                    }
                                    return Err(FrameAllocateError::Oom);
                                },
                            }
                        }
                        flush.flush();
                        proof {
                            assert(frame_idx == n);
                            crate::memory::model::lemma_fl_total_bounds(self.free_ranges());
                            assert forall|v: u64|
                                #[trigger] self.mappings().contains_key(v) && !m0.contains_key(
                                v,
                            ) implies fl_frames(fl0).contains(self.mappings()[v]) && !fl_frames(
                                self.free_ranges(),
                            ).contains(self.mappings()[v]) by {
                                assert(self.page@.contains_key(v));
                            }
                        }
                        Ok(addr)
                    },
                }
            },
        }
    }

    /// Releases a contiguous virtual range: unmaps each of its pages
    /// and returns the backing physical frame to the free list. The
    /// virtual range itself is never reused; only frames come back.
    ///
    /// Fail fast, not all or nothing: the first page found unmapped
    /// stops the call with an error, leaving earlier pages of the same
    /// call already reclaimed and later ones untouched.
    #[verifier::loop_isolation(false)]
    pub fn deallocate(&mut self, ptr: u64, size: usize) -> (r: Result<(), ()>)
        requires
            old(self).wf(),
            ptr % PAGE_SIZE == 0,
            ptr + spec_min_frames(size as int) * PAGE_SIZE <= u64::MAX + 1,
        ensures
            final(self).wf(),
            final(self).cursor() == old(self).cursor(),
            old(self).vm_fresh() ==> final(self).vm_fresh(),
            ({
                let n = spec_min_frames(size as int);
                &&& ((forall|k: int|
                    0 <= k < n ==> old(self).mappings().contains_key(#[trigger] page_at(ptr, k)))
                    <==> r is Ok)
                &&& match r {
                    Ok(_) => {
                        &&& maps_shrunk(old(self).mappings(), final(self).mappings(), ptr, n)
                        &&& (forall|k: int|
                            0 <= k < n ==> fl_frames(final(self).free_ranges()).contains(
                                old(self).mappings()[#[trigger] page_at(ptr, k)],
                            ))
                        &&& fl_total(final(self).free_ranges()) == fl_total(
                            old(self).free_ranges(),
                        ) + n * PAGE_SIZE
                    },
                    Err(_) => exists|j: int|
                        {
                            &&& 0 <= j < n
                            &&& !old(self).mappings().contains_key(#[trigger] page_at(ptr, j))
                            &&& (forall|k: int|
                                0 <= k < j ==> old(self).mappings().contains_key(
                                    #[trigger] page_at(ptr, k),
                                ))
                            &&& maps_shrunk(old(self).mappings(), final(self).mappings(), ptr, j)
                            &&& (forall|k: int|
                                0 <= k < j ==> fl_frames(final(self).free_ranges()).contains(
                                    old(self).mappings()[#[trigger] page_at(ptr, k)],
                                ))
                            &&& fl_total(final(self).free_ranges()) == fl_total(
                                old(self).free_ranges(),
                            ) + j * PAGE_SIZE
                        },
                }
            }),
    {
        let ghost m0 = self.mappings();
        let ghost fl0 = self.free_ranges();
        let ghost n = spec_min_frames(size as int);
        let frames = Self::min_frames_from_size(size);
        let mut k: usize = 0;
        proof {
            assert(0 as int * PAGE_SIZE == 0) by (nonlinear_arith);
        }
        while k < frames
            invariant
                self.wf(),
                old(self).vm_fresh() ==> self.vm_fresh(),
                k <= frames,
                self.cursor() == old(self).cursor(),
                forall|t: int|
                    0 <= t < k ==> m0.contains_key(#[trigger] page_at(ptr, t)),
                forall|t: int|
                    0 <= t < k ==> fl_frames(self.free_ranges()).contains(
                        m0[#[trigger] page_at(ptr, t)],
                    ),
                maps_shrunk(m0, self.mappings(), ptr, k as int),
                fl_total(self.free_ranges()) == fl_total(fl0) + k * PAGE_SIZE,
            decreases frames - k,
        {
            proof {
                lemma_mul_inequality(k as int + 1, frames as int, PAGE_SIZE as int);
                lemma_mul_inequality(k as int, frames as int, PAGE_SIZE as int);
                lemma_page_range_split(ptr, k as int, ptr);
                assert(k as int * PAGE_SIZE >= 0) by (nonlinear_arith)
                    requires
                        k as int >= 0,
                ;
            }
            let addr = ptr + (k as u64) * PAGE_SIZE;
            proof {
                assert(addr == page_at(ptr, k as int));
            }
            let ghost m_pre = self.mappings();
            let popped = self.page.remove(&addr);
            match popped {
                Some(f) => {
                    proof {
                        assert(m_pre.contains_key(addr));
                        assert(m0.contains_key(addr)) by {
                            assert(!in_page_range(addr, ptr, k as int));
                        }
                        assert(self.page@ == m_pre.remove(addr));
                        assert forall|v: u64| #[trigger] self.page@.contains_key(v) implies v
                            % PAGE_SIZE == 0 && self.page@[v] % PAGE_SIZE == 0 && self.page@[v]
                            >= PAGE_SIZE && !fl_frames(self.frame.ranges()).contains(
                            self.page@[v],
                        ) by {
                            assert(m_pre.contains_key(v));
                        }
                        assert forall|v1: u64, v2: u64|
                            #[trigger] self.page@.contains_key(v1)
                                && #[trigger] self.page@.contains_key(v2) && v1
                                != v2 implies self.page@[v1] != self.page@[v2] by {
                            assert(m_pre.contains_key(v1));
                            assert(m_pre.contains_key(v2));
                        }
                        assert(self.wf());
                        assert forall|v: u64|
                            #[trigger] self.mappings().contains_key(v) implies self.mappings()[v]
                            != f by {
                            assert(m_pre.contains_key(v));
                            assert(v != addr);
                            assert(m_pre[v] != m_pre[addr]);
                        }
                        assert(f % PAGE_SIZE == 0 && f >= PAGE_SIZE && !fl_frames(
                            self.free_ranges(),
                        ).contains(f)) by {
                            assert(m_pre.contains_key(addr));
                        }
                    }
                    self.deallocate_frame(f);
                    proof {
                        assert forall|v: u64| #[trigger]
                            self.mappings().contains_key(v) implies m0.contains_key(v)
                            && self.mappings()[v] == m0[v] && !in_page_range(
                            v,
                            ptr,
                            k as int + 1,
                        ) by {
                            assert(m_pre.contains_key(v));
                            lemma_page_range_split(ptr, k as int, v);
                        }
                        assert forall|v: u64|
                            #[trigger] m0.contains_key(v) && !in_page_range(
                            v,
                            ptr,
                            k as int + 1,
                        ) implies self.mappings().contains_key(v) by {
                            lemma_page_range_split(ptr, k as int, v);
                            assert(!in_page_range(v, ptr, k as int));
                            assert(v != addr);
                            assert(m_pre.contains_key(v));
                        }
                        assert(maps_shrunk(m0, self.mappings(), ptr, k as int + 1));
                        assert((k + 1) as int * PAGE_SIZE == k as int * PAGE_SIZE + PAGE_SIZE)
                            by (nonlinear_arith);
                    }
                },
                None => {
                    proof {
                        assert(self.page@ == m_pre);
                        assert(!m_pre.contains_key(addr));
                        assert(!m0.contains_key(addr)) by {
                            assert(!in_page_range(addr, ptr, k as int));
                        }
                        let gj = k as int;
                        assert({
                            &&& 0 <= gj < n
                            &&& !m0.contains_key(page_at(ptr, gj))
                            &&& (forall|t: int|
                                0 <= t < gj ==> m0.contains_key(#[trigger] page_at(ptr, t)))
                            &&& maps_shrunk(m0, self.mappings(), ptr, gj)
                            &&& fl_total(self.free_ranges()) == fl_total(fl0) + gj * PAGE_SIZE
                        });
                    }
                    return Err(());
                },
            }
            k += 1;
        }
        proof {
            assert forall|t: int| 0 <= t < n implies m0.contains_key(
                #[trigger] page_at(ptr, t),
            ) by {
            }
        }
        Ok(())
    }

    /// Whether a leaf entry is installed for the virtual page `v`.
    pub fn is_mapped(&self, v: u64) -> (r: bool)
        ensures
            r == self.mappings().contains_key(v),
    {
        self.page.contains_key(&v)
    }

    /// The physical frame the virtual page `v` maps to, if any.
    pub fn translate(&self, v: u64) -> (r: Option<u64>)
        ensures
            match r {
                Some(f) => self.mappings().contains_key(v) && f == self.mappings()[v],
                None => !self.mappings().contains_key(v),
            },
    {
        match self.page.get(&v) {
            Some(f) => Some(*f),
            None => None,
        }
    }

    /// The next virtual address the cursor will hand out.
    pub fn next_virtual_offset(&self) -> (r: u64)
        ensures
            r == self.cursor(),
    {
        self.memory_allocate_offset
    }

    /// Physical address of the free list's head node, if any.
    pub fn first_free(&self) -> (r: Option<u64>)
        requires
            self.wf(),
        ensures
            r == fl_alloc_result(self.free_ranges()),
    {
        self.frame.first_free()
    }

    /// The free-list node written at `addr`, when a free run starts there.
    pub fn node_at(&self, addr: u64) -> (r: Option<LinkedListNode>)
        requires
            self.wf(),
        ensures
            match r {
                Some(n) => exists|i: int|
                    0 <= i < self.free_ranges().len() && (#[trigger] self.free_ranges()[i]) == (
                        addr,
                        n.size,
                    ) && n.magic == FREE_MARKER && n.next == (if i + 1
                        < self.free_ranges().len() {
                        Some(self.free_ranges()[i + 1].0)
                    } else {
                        None::<u64>
                    }),
                None => forall|i: int|
                    0 <= i < self.free_ranges().len() ==> (#[trigger] self.free_ranges()[i]).0
                        != addr,
            },
    {
        let r = self.frame.node_at(addr);
        proof {
            if let Some(n) = r {
                let i = choose|i: int|
                    0 <= i < self.frame.ranges().len() && (#[trigger] self.frame.ranges()[i]) == (
                        addr,
                        n.size,
                    ) && n.magic == FREE_MARKER && n.next == (if i + 1
                        < self.frame.ranges().len() {
                        Some(self.frame.ranges()[i + 1].0)
                    } else {
                        None::<u64>
                    });
                assert(0 <= i < self.free_ranges().len() && (self.free_ranges()[i]) == (
                    addr,
                    n.size,
                ) && n.magic == FREE_MARKER && n.next == (if i + 1 < self.free_ranges().len() {
                    Some(self.free_ranges()[i + 1].0)
                } else {
                    None::<u64>
                }));
            }
        }
        r
    }
}

} // verus!
