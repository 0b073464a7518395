//! Mathematical model of the physical free list.
//!
//! The allocator's observable state is a sequence of free runs, each a
//! pair of physical start address and size in bytes. The functions here
//! say which sequences are well formed, which page frames a sequence
//! covers, and how allocation, deallocation and the boot-time build
//! step transform it. The allocator's executable code is specified
//! against these functions, and the list-level laws are proved about
//! them once, independent of the in-memory representation.

use vstd::prelude::*;
use vstd::arithmetic::div_mod::{
    lemma_fundamental_div_mod, lemma_mod_add_multiples_vanish, lemma_mod_sub_multiples_vanish,
};
use vstd::arithmetic::mul::lemma_mul_inequality;
use crate::bootboot::{MMapEnt, MMapType};
use crate::memory::PAGE_SIZE;

verus! {

/// Highest physical address the machine can express: fifty-two address bits.
pub const PHYS_ADDR_LIMIT: u64 = 0x10_0000_0000_0000;

/// A well-formed run: a whole number of pages, at least one, at a
/// page-aligned start above page zero, fitting the address space.
pub open spec fn range_wf(r: (u64, u64)) -> bool {
    &&& r.0 % PAGE_SIZE == 0
    &&& r.0 >= PAGE_SIZE
    &&& r.1 % PAGE_SIZE == 0
    &&& r.1 >= PAGE_SIZE
    &&& r.0 + r.1 <= u64::MAX + 1
}

/// Two runs cover no common byte.
pub open spec fn ranges_disjoint(a: (u64, u64), b: (u64, u64)) -> bool {
    a.0 + a.1 <= b.0 || b.0 + b.1 <= a.0
}

/// A well-formed free list: every run is a whole number of pages at a
/// page-aligned address above page zero, and no two runs overlap.
pub open spec fn fl_wf(fl: Seq<(u64, u64)>) -> bool {
    &&& forall|i: int| 0 <= i < fl.len() ==> range_wf(#[trigger] fl[i])
    &&& forall|i: int, j: int|
        0 <= i < fl.len() && 0 <= j < fl.len() && i != j ==> ranges_disjoint(
            #[trigger] fl[i],
            #[trigger] fl[j],
        )
}

/// The page frames covered by one run.
pub open spec fn range_frames(r: (u64, u64)) -> Set<u64> {
    Set::new(|p: u64| p % PAGE_SIZE == 0 && r.0 <= p && p < r.0 + r.1)
}

/// The page frames covered by a free list.
pub open spec fn fl_frames(fl: Seq<(u64, u64)>) -> Set<u64>
    decreases fl.len(),
{
    if fl.len() == 0 {
        Set::empty()
    } else {
        range_frames(fl[0]).union(fl_frames(fl.drop_first()))
    }
}

/// Total free bytes implied by walking the list.
pub open spec fn fl_total(fl: Seq<(u64, u64)>) -> int
    decreases fl.len(),
{
    if fl.len() == 0 {
        0
    } else {
        fl[0].1 + fl_total(fl.drop_first())
    }
}

/// The frame a single allocation hands out: the head run's first page.
pub open spec fn fl_alloc_result(fl: Seq<(u64, u64)>) -> Option<u64> {
    if fl.len() == 0 {
        None
    } else {
        Some(fl[0].0)
    }
}

/// The list after a single allocation: the head run loses its first
/// page, and disappears when that page was all it had.
pub open spec fn fl_alloc(fl: Seq<(u64, u64)>) -> Seq<(u64, u64)> {
    if fl.len() == 0 {
        fl
    } else if fl[0].1 > PAGE_SIZE {
        fl.update(0, ((fl[0].0 + PAGE_SIZE) as u64, (fl[0].1 - PAGE_SIZE) as u64))
    } else {
        fl.drop_first()
    }
}

/// The list after freeing `f`: a single-page run pushed at the front.
pub open spec fn fl_dealloc(fl: Seq<(u64, u64)>, f: u64) -> Seq<(u64, u64)> {
    seq![(f, PAGE_SIZE)] + fl
}

/// When freeing `f` keeps the list well formed: a page-aligned frame
/// above page zero that the list does not already cover.
pub open spec fn dealloc_ok(fl: Seq<(u64, u64)>, f: u64) -> bool {
    &&& f % PAGE_SIZE == 0
    &&& f >= PAGE_SIZE
    &&& !fl_frames(fl).contains(f)
}

/// Two page-aligned addresses are at least a page apart.
pub proof fn lemma_aligned_gap(p: int, q: int)
    requires
        p % (PAGE_SIZE as int) == 0,
        q % (PAGE_SIZE as int) == 0,
        p < q,
    ensures
        p + PAGE_SIZE <= q,
{
    lemma_fundamental_div_mod(p, PAGE_SIZE as int);
    lemma_fundamental_div_mod(q, PAGE_SIZE as int);
    if p / (PAGE_SIZE as int) >= q / (PAGE_SIZE as int) {
        lemma_mul_inequality(q / (PAGE_SIZE as int), p / (PAGE_SIZE as int), PAGE_SIZE as int);
        assert(false);
    }
    lemma_mul_inequality(p / (PAGE_SIZE as int) + 1, q / (PAGE_SIZE as int), PAGE_SIZE as int);
}

/// A frame lies in a list's cover exactly when it lies in one of the runs.
pub proof fn lemma_fl_frames_membership(fl: Seq<(u64, u64)>, p: u64)
    ensures
        fl_frames(fl).contains(p) <==> exists|i: int|
            0 <= i < fl.len() && range_frames(#[trigger] fl[i]).contains(p),
    decreases fl.len(),
{
    if fl.len() > 0 {
        lemma_fl_frames_membership(fl.drop_first(), p);
        if fl_frames(fl).contains(p) {
            if range_frames(fl[0]).contains(p) {
                assert(range_frames(fl[0]).contains(p));
            } else {
                let i = choose|i: int|
                    0 <= i < fl.drop_first().len() && range_frames(
                        #[trigger] fl.drop_first()[i],
                    ).contains(p);
                assert(fl.drop_first()[i] == fl[i + 1]);
                assert(range_frames(fl[i + 1]).contains(p));
            }
        }
        if exists|i: int| 0 <= i < fl.len() && range_frames(#[trigger] fl[i]).contains(p) {
            let i = choose|i: int|
                0 <= i < fl.len() && range_frames(#[trigger] fl[i]).contains(p);
            if i > 0 {
                assert(fl.drop_first()[i - 1] == fl[i]);
                assert(fl_frames(fl.drop_first()).contains(p));
            }
        }
    }
}

/// A walked total is never negative, and a non-empty list holds at
/// least one page.
pub proof fn lemma_fl_total_bounds(fl: Seq<(u64, u64)>)
    requires
        fl_wf(fl),
    ensures
        fl_total(fl) >= 0,
        fl.len() > 0 ==> fl_total(fl) >= PAGE_SIZE,
    decreases fl.len(),
{
    if fl.len() > 0 {
        assert(fl_wf(fl.drop_first())) by {
            assert(forall|i: int|
                0 <= i < fl.drop_first().len() ==> #[trigger] fl.drop_first()[i] == fl[i + 1]);
        }
        lemma_fl_total_bounds(fl.drop_first());
    }
}

/// Dropping the head of a well-formed list leaves a well-formed list.
pub proof fn lemma_fl_wf_drop_first(fl: Seq<(u64, u64)>)
    requires
        fl_wf(fl),
        fl.len() > 0,
    ensures
        fl_wf(fl.drop_first()),
{
    assert(forall|i: int|
        0 <= i < fl.drop_first().len() ==> #[trigger] fl.drop_first()[i] == fl[i + 1]);
}

/// What one allocation does to a well-formed list: it hands out the
/// head run's first page, removes exactly that page from the cover,
/// and shrinks the walked total by one page.
pub proof fn lemma_fl_alloc_props(fl: Seq<(u64, u64)>)
    requires
        fl_wf(fl),
        fl.len() > 0,
    ensures
        fl_wf(fl_alloc(fl)),
        fl_frames(fl).contains(fl[0].0),
        !fl_frames(fl_alloc(fl)).contains(fl[0].0),
        fl_frames(fl_alloc(fl)) =~= fl_frames(fl).remove(fl[0].0),
        fl_total(fl_alloc(fl)) == fl_total(fl) - PAGE_SIZE,
{
    let a = fl[0].0;
    let s = fl[0].1;
    assert(range_frames(fl[0]).contains(a));
    lemma_fl_frames_membership(fl, a);
    // The head page lies in no other run.
    assert forall|i: int| 1 <= i < fl.len() implies !range_frames(#[trigger] fl[i]).contains(a) by {
        assert(ranges_disjoint(fl[0], fl[i]));
    }
    if s > PAGE_SIZE {
        let r2 = (((a + PAGE_SIZE) as u64), ((s - PAGE_SIZE) as u64));
        let fl2 = fl.update(0, r2);
        assert(fl2.drop_first() =~= fl.drop_first());
        assert(range_wf(r2)) by {
            lemma_mod_add_multiples_vanish(a as int, PAGE_SIZE as int);
            lemma_mod_sub_multiples_vanish(s as int, PAGE_SIZE as int);
        }
        assert forall|i: int, j: int|
            0 <= i < fl2.len() && 0 <= j < fl2.len() && i != j implies ranges_disjoint(
            #[trigger] fl2[i],
            #[trigger] fl2[j],
        ) by {
            assert(ranges_disjoint(fl[i], fl[j]));
        }
        assert forall|p: u64| #[trigger]
            fl_frames(fl2).contains(p) <==> fl_frames(fl).remove(a).contains(p) by {
            lemma_fl_frames_membership(fl2, p);
            lemma_fl_frames_membership(fl, p);
            if p != a && range_frames(fl[0]).contains(p) {
                lemma_aligned_gap(a as int, p as int);
                assert(range_frames(fl2[0]).contains(p));
            }
            if fl_frames(fl2).contains(p) {
                let i = choose|i: int|
                    0 <= i < fl2.len() && range_frames(#[trigger] fl2[i]).contains(p);
                if i == 0 {
                    assert(range_frames(fl[0]).contains(p));
                    assert(p >= a + PAGE_SIZE);
                } else {
                    assert(fl2[i] == fl[i]);
                    assert(!range_frames(fl[i]).contains(a));
                }
            }
        }
        assert(fl_total(fl2) == r2.1 + fl_total(fl2.drop_first()));
        assert(fl_total(fl2) == fl_total(fl) - PAGE_SIZE);
    } else {
        let fl2 = fl.drop_first();
        lemma_fl_wf_drop_first(fl);
        assert forall|p: u64| #[trigger]
            fl_frames(fl2).contains(p) <==> fl_frames(fl).remove(a).contains(p) by {
            lemma_fl_frames_membership(fl2, p);
            lemma_fl_frames_membership(fl, p);
            if p != a && range_frames(fl[0]).contains(p) {
                lemma_aligned_gap(a as int, p as int);
            }
            if fl_frames(fl2).contains(p) {
                let i = choose|i: int|
                    0 <= i < fl2.len() && range_frames(#[trigger] fl2[i]).contains(p);
                assert(fl2[i] == fl[i + 1]);
                assert(!range_frames(fl[i + 1]).contains(a));
            }
            if p != a && fl_frames(fl).contains(p) {
                let i = choose|i: int|
                    0 <= i < fl.len() && range_frames(#[trigger] fl[i]).contains(p);
                if i > 0 {
                    assert(fl2[i - 1] == fl[i]);
                }
            }
        }
    }
}

/// What freeing a page does to a well-formed list, provided the page is
/// aligned, above page zero and not currently covered: the cover gains
/// exactly that page and the walked total grows by one page.
pub proof fn lemma_fl_dealloc_props(fl: Seq<(u64, u64)>, f: u64)
    requires
        fl_wf(fl),
        dealloc_ok(fl, f),
    ensures
        fl_wf(fl_dealloc(fl, f)),
        fl_frames(fl_dealloc(fl, f)) =~= fl_frames(fl).insert(f),
        fl_total(fl_dealloc(fl, f)) == fl_total(fl) + PAGE_SIZE,
{
    let r0 = (f, PAGE_SIZE);
    let fl2 = fl_dealloc(fl, f);
    assert(fl2.drop_first() =~= fl);
    assert(fl2[0] == r0);
    assert((u64::MAX + 1) as int % (PAGE_SIZE as int) == 0) by (nonlinear_arith);
    assert(range_wf(r0)) by {
        if f as int + PAGE_SIZE > u64::MAX + 1 {
            lemma_aligned_gap(f as int, u64::MAX + 1);
        }
    }
    lemma_fl_frames_membership(fl, f);
    assert forall|i: int| 0 <= i < fl.len() implies ranges_disjoint(r0, #[trigger] fl[i]) by {
        assert(!range_frames(fl[i]).contains(f));
        if f < fl[i].0 {
            lemma_aligned_gap(f as int, fl[i].0 as int);
        }
    }
    assert forall|i: int, j: int|
        0 <= i < fl2.len() && 0 <= j < fl2.len() && i != j implies ranges_disjoint(
        #[trigger] fl2[i],
        #[trigger] fl2[j],
    ) by {
        if i != 0 && j != 0 {
            assert(ranges_disjoint(fl[i - 1], fl[j - 1]));
        }
    }
    assert forall|p: u64| #[trigger]
        fl_frames(fl2).contains(p) <==> fl_frames(fl).insert(f).contains(p) by {
        if p != f && range_frames(r0).contains(p) {
            lemma_aligned_gap(f as int, p as int);
            assert(false);
        }
        assert(range_frames(r0).contains(f));
    }
    assert(fl_total(fl2) == PAGE_SIZE + fl_total(fl));
}

/// The runs of a well-formed list start at pairwise distinct addresses.
pub proof fn lemma_fl_distinct_starts(fl: Seq<(u64, u64)>, i: int, j: int)
    requires
        fl_wf(fl),
        0 <= i < fl.len(),
        0 <= j < fl.len(),
        i != j,
    ensures
        fl[i].0 != fl[j].0,
{
    assert(ranges_disjoint(fl[i], fl[j]));
}

/// One call against the frame allocator, at the model level.
#[derive(Debug, Copy, Clone, PartialEq, Eq, Structural)]
pub enum FrameOp {
    Allocate,
    Deallocate(u64),
}

/// The list after one call. A free of a frame the list already covers,
/// or of an invalid address, leaves the list as it is; the executable
/// allocator rules such calls out rather than performing them.
pub open spec fn fl_step(fl: Seq<(u64, u64)>, op: FrameOp) -> Seq<(u64, u64)> {
    match op {
        FrameOp::Allocate => fl_alloc(fl),
        FrameOp::Deallocate(f) => if dealloc_ok(fl, f) {
            fl_dealloc(fl, f)
        } else {
            fl
        },
    }
}

/// The list after a sequence of calls, first call first.
pub open spec fn fl_run(fl: Seq<(u64, u64)>, ops: Seq<FrameOp>) -> Seq<(u64, u64)>
    decreases ops.len(),
{
    if ops.len() == 0 {
        fl
    } else {
        fl_run(fl_step(fl, ops[0]), ops.drop_first())
    }
}

/// The list after `n` consecutive allocations.
pub open spec fn fl_alloc_n(fl: Seq<(u64, u64)>, n: nat) -> Seq<(u64, u64)>
    decreases n,
{
    if n == 0 {
        fl
    } else {
        fl_alloc_n(fl_alloc(fl), (n - 1) as nat)
    }
}

/// Conservation: walking the free list before any allocation counts
/// exactly the bytes still walked after `n` allocations plus `n` pages,
/// for any `n` within the pages the list holds.
pub proof fn lemma_conservation(fl: Seq<(u64, u64)>, n: nat)
    requires
        fl_wf(fl),
        n * PAGE_SIZE <= fl_total(fl),
    ensures
        fl_wf(fl_alloc_n(fl, n)),
        fl_total(fl_alloc_n(fl, n)) + n * PAGE_SIZE == fl_total(fl),
    decreases n,
{
    if n > 0 {
        lemma_mul_inequality(1, n as int, PAGE_SIZE as int);
        lemma_fl_total_bounds(fl);
        assert(fl.len() > 0);
        lemma_fl_alloc_props(fl);
        assert((n - 1) as nat * PAGE_SIZE == n * PAGE_SIZE - PAGE_SIZE) by (nonlinear_arith)
            requires
                n >= 1,
        ;
        lemma_conservation(fl_alloc(fl), (n - 1) as nat);
    }
}

/// A frame the list does not cover stays uncovered across any calls
/// that never free that frame.
pub proof fn lemma_run_keeps_frame_out(fl: Seq<(u64, u64)>, ops: Seq<FrameOp>, f: u64)
    requires
        fl_wf(fl),
        !fl_frames(fl).contains(f),
        forall|k: int| 0 <= k < ops.len() ==> #[trigger] ops[k] != FrameOp::Deallocate(f),
    ensures
        fl_wf(fl_run(fl, ops)),
        !fl_frames(fl_run(fl, ops)).contains(f),
    decreases ops.len(),
{
    if ops.len() > 0 {
        let fl2 = fl_step(fl, ops[0]);
        match ops[0] {
            FrameOp::Allocate => {
                if fl.len() > 0 {
                    lemma_fl_alloc_props(fl);
                }
            },
            FrameOp::Deallocate(g) => {
                if dealloc_ok(fl, g) {
                    lemma_fl_dealloc_props(fl, g);
                }
            },
        }
        assert(forall|k: int|
            0 <= k < ops.drop_first().len() ==> #[trigger] ops.drop_first()[k] == ops[k + 1]);
        lemma_run_keeps_frame_out(fl2, ops.drop_first(), f);
    }
}

/// No double issue: once an allocation hands out the head frame, no
/// later allocation returns that frame again, however many allocator
/// calls come in between, until a free of that same frame intervenes.
pub proof fn lemma_no_double_issue(fl: Seq<(u64, u64)>, ops: Seq<FrameOp>)
    requires
        fl_wf(fl),
        fl.len() > 0,
        forall|k: int| 0 <= k < ops.len() ==> #[trigger] ops[k] != FrameOp::Deallocate(fl[0].0),
    ensures
        fl_alloc_result(fl) == Some(fl[0].0),
        !fl_frames(fl_run(fl_alloc(fl), ops)).contains(fl[0].0),
        fl_alloc_result(fl_run(fl_alloc(fl), ops)) != Some(fl[0].0),
{
    let f = fl[0].0;
    lemma_fl_alloc_props(fl);
    lemma_run_keeps_frame_out(fl_alloc(fl), ops, f);
    let after = fl_run(fl_alloc(fl), ops);
    if after.len() > 0 {
        lemma_fl_alloc_props(after);
    }
}

/// Where alignment pushes an address: the next page boundary at or above.
pub open spec fn spec_align_up_page(a: int) -> int {
    if a % (PAGE_SIZE as int) == 0 {
        a
    } else {
        (a / (PAGE_SIZE as int) + 1) * (PAGE_SIZE as int)
    }
}

/// Alignment moves an address up by less than a page, onto a boundary.
pub proof fn lemma_align_up_props(a: int)
    requires
        a >= 0,
    ensures
        spec_align_up_page(a) % (PAGE_SIZE as int) == 0,
        a <= spec_align_up_page(a) < a + PAGE_SIZE,
        a % (PAGE_SIZE as int) != 0 ==> spec_align_up_page(a) == a + PAGE_SIZE - a % (
        PAGE_SIZE as int),
{
    lemma_fundamental_div_mod(a, PAGE_SIZE as int);
    if a % (PAGE_SIZE as int) != 0 {
        let q = a / (PAGE_SIZE as int);
        vstd::arithmetic::div_mod::lemma_mod_multiples_basic(q + 1, PAGE_SIZE as int);
    }
}

/// A corrected region is linked only when a whole number of pages,
/// strictly more than one, is left after the corrections.
pub open spec fn link_filter(a: int, s: int) -> Option<(u64, u64)> {
    if s % (PAGE_SIZE as int) == 0 && s > PAGE_SIZE {
        Some((a as u64, s as u64))
    } else {
        None
    }
}

/// The run a boot-map region contributes to the free list, if any:
/// only regions of kind Free count; an unaligned start is rounded up to
/// the next page boundary and the size shrunk by the same offset; a
/// region that then starts at physical address zero loses its first
/// page, since page zero is never handed out; and what remains is
/// linked only when it is a whole number of pages, more than one.
pub open spec fn corrected(e: MMapEnt) -> Option<(u64, u64)> {
    if e.spec_entry_type() != MMapType::Free {
        None
    } else {
        let a0 = e.ptr as int;
        let s0 = e.spec_size() as int;
        let off = spec_align_up_page(a0) - a0;
        if off > s0 {
            None
        } else {
            let a1 = a0 + off;
            let s1 = s0 - off;
            if a1 == 0 {
                if s1 < PAGE_SIZE {
                    None
                } else {
                    link_filter(PAGE_SIZE as int, s1 - PAGE_SIZE)
                }
            } else {
                link_filter(a1, s1)
            }
        }
    }
}

/// The free list a boot map yields, in encounter order.
pub open spec fn built_list(es: Seq<MMapEnt>) -> Seq<(u64, u64)>
    decreases es.len(),
{
    if es.len() == 0 {
        Seq::empty()
    } else {
        let rest = built_list(es.drop_last());
        match corrected(es.last()) {
            Some(r) => rest.push(r),
            None => rest,
        }
    }
}

/// A run lies within the Free region a map entry describes.
pub open spec fn range_in_entry(r: (u64, u64), e: MMapEnt) -> bool {
    &&& e.spec_entry_type() == MMapType::Free
    &&& e.ptr <= r.0
    &&& r.0 + r.1 <= e.ptr + e.spec_size()
}

/// A run lies within some Free region of the map.
pub open spec fn covered_one(r: (u64, u64), es: Seq<MMapEnt>) -> bool {
    exists|j: int| 0 <= j < es.len() && #[trigger] range_in_entry(r, es[j])
}

/// Every run of `rs` lies within some Free region of the map.
pub open spec fn covered_by(rs: Seq<(u64, u64)>, es: Seq<MMapEnt>) -> bool {
    forall|k: int| 0 <= k < rs.len() ==> covered_one(#[trigger] rs[k], es)
}

/// What the boot protocol guarantees of its memory map: every entry
/// carries one of the four defined kinds, Free regions lie within the
/// machine's physical address space, and no two Free regions overlap.
pub open spec fn mmap_wf(es: Seq<MMapEnt>) -> bool {
    &&& forall|i: int| 0 <= i < es.len() ==> (#[trigger] es[i]).kind_valid()
    &&& forall|i: int|
        0 <= i < es.len() && (#[trigger] es[i]).spec_entry_type() == MMapType::Free ==> es[i].ptr
            < PHYS_ADDR_LIMIT && es[i].ptr + es[i].spec_size() <= PHYS_ADDR_LIMIT
    &&& forall|i: int, j: int|
        0 <= i < es.len() && 0 <= j < es.len() && i != j && (#[trigger] es[i]).spec_entry_type()
            == MMapType::Free && (#[trigger] es[j]).spec_entry_type() == MMapType::Free ==> es[i].ptr
            + es[i].spec_size() <= es[j].ptr || es[j].ptr + es[j].spec_size() <= es[i].ptr
}

/// A prefix of a well-formed boot map is itself well formed.
pub proof fn lemma_mmap_wf_prefix(es: Seq<MMapEnt>, n: int)
    requires
        mmap_wf(es),
        0 <= n <= es.len(),
    ensures
        mmap_wf(es.take(n)),
{
    assert(forall|i: int| 0 <= i < n ==> #[trigger] es.take(n)[i] == es[i]);
}

/// What a linked run looks like: a well-formed run inside its region.
pub proof fn lemma_corrected_props(e: MMapEnt, r: (u64, u64))
    requires
        corrected(e) == Some(r),
        e.ptr + e.spec_size() <= PHYS_ADDR_LIMIT,
    ensures
        range_wf(r),
        range_in_entry(r, e),
{
    lemma_align_up_props(e.ptr as int);
    let a1 = spec_align_up_page(e.ptr as int);
    if a1 != 0 {
        lemma_aligned_gap(0, a1);
    }
}

/// The list built from a well-formed boot map is well formed, and each
/// of its runs lies within one of the map's Free regions.
pub proof fn lemma_built_list_props(es: Seq<MMapEnt>)
    requires
        mmap_wf(es),
    ensures
        fl_wf(built_list(es)),
        covered_by(built_list(es), es),
    decreases es.len(),
{
    let bl = built_list(es);
    if es.len() > 0 {
        let es2 = es.drop_last();
        assert(forall|i: int| 0 <= i < es2.len() ==> #[trigger] es2[i] == es[i]);
        lemma_built_list_props(es2);
        let rest = built_list(es2);
        if corrected(es.last()) is Some {
            let r = corrected(es.last())->Some_0;
            assert(bl == rest.push(r));
            lemma_corrected_props(es.last(), r);
            assert(range_in_entry(r, es[es.len() - 1]));
            // The new run is disjoint from every earlier one: they lie
            // in distinct Free regions of the map.
            assert forall|k: int| 0 <= k < rest.len() implies ranges_disjoint(
                #[trigger] rest[k],
                r,
            ) by {
                assert(covered_one(rest[k], es2));
                let j = choose|j: int|
                    0 <= j < es2.len() && #[trigger] range_in_entry(rest[k], es2[j]);
                assert(range_in_entry(rest[k], es[j]));
                assert(j != es.len() - 1);
            }
            assert(fl_wf(bl)) by {
                assert(forall|k: int| 0 <= k < rest.len() ==> #[trigger] bl[k] == rest[k]);
                assert(bl[bl.len() - 1] == r);
            }
        } else {
            assert(bl == rest);
        }
        assert forall|k: int| 0 <= k < bl.len() implies covered_one(#[trigger] bl[k], es) by {
            if k < rest.len() {
                assert(bl[k] == rest[k]);
                assert(covered_one(rest[k], es2));
                let j = choose|j: int|
                    0 <= j < es2.len() && #[trigger] range_in_entry(rest[k], es2[j]);
                assert(range_in_entry(bl[k], es[j]));
            } else {
                assert(bl[k] == corrected(es.last())->Some_0);
                lemma_corrected_props(es.last(), bl[k]);
                assert(range_in_entry(bl[k], es[es.len() - 1]));
            }
        }
        assert(covered_by(bl, es));
    }
}

/// Alignment correction: a Free region whose start `a` is not page
/// aligned is linked, when it is linked at all, as a run starting at
/// the rounded-up address and shrunk by the same offset; and it is not
/// linked when at most one page would remain, or when what remains is
/// not a whole number of pages.
pub proof fn lemma_alignment_correction(e: MMapEnt)
    requires
        e.spec_entry_type() == MMapType::Free,
        e.ptr % PAGE_SIZE != 0,
    ensures
        ({
            let a1 = spec_align_up_page(e.ptr as int);
            let s1 = e.spec_size() - (a1 - e.ptr);
            &&& corrected(e) is Some ==> corrected(e) == Some((a1 as u64, s1 as u64))
            &&& corrected(e) is Some <==> s1 >= 0 && s1 % (PAGE_SIZE as int) == 0 && s1 > PAGE_SIZE
        }),
{
    lemma_align_up_props(e.ptr as int);
}

/// Zero-region boundary: a Free region starting exactly at physical
/// address zero is linked, when it is linked at all, as a run starting
/// at the first page boundary with one page less than the region held.
pub proof fn lemma_zero_region(e: MMapEnt)
    requires
        e.spec_entry_type() == MMapType::Free,
        e.ptr == 0,
    ensures
        corrected(e) is Some ==> corrected(e) == Some(
            (PAGE_SIZE, (e.spec_size() - PAGE_SIZE) as u64),
        ),
        corrected(e) is Some <==> e.spec_size() as int % (PAGE_SIZE as int) == 0
            && e.spec_size() > 2 * PAGE_SIZE,
{
    lemma_align_up_props(0);
    if e.spec_size() >= PAGE_SIZE {
        lemma_mod_sub_multiples_vanish(e.spec_size() as int, PAGE_SIZE as int);
        assert((e.spec_size() - PAGE_SIZE) % (PAGE_SIZE as int) == (e.spec_size() as int) % (
        PAGE_SIZE as int));
    }
}

} // verus!
