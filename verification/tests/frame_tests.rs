use kernel_memory::bootboot::{arch_x86, BootBootUnpacked, FrameBuffer, MMapEnt};
use kernel_memory::memory::frame::{FrameAllocator, MemoryInitError};
use kernel_memory::memory::{FREE_MARKER, PAGE_SIZE};

fn make_bb(entries: Vec<MMapEnt>) -> BootBootUnpacked {
    BootBootUnpacked {
        magic: *b"BOOT",
        size: 128 + (entries.len() as u32) * 16,
        protocol: 2,
        numcores: 1,
        bspid: 0,
        timezone: 0,
        datetime: [0; 8],
        initrd_ptr: 0,
        initrd_size: 0,
        arch: arch_x86 {
            acpi_ptr: 0,
            smbi_ptr: 0,
            efi_ptr: 0,
            mp_ptr: 0,
            unused0: 0,
            unused1: 0,
            unused2: 0,
            unused3: 0,
        },
        fb: FrameBuffer { ptr: 0, size: 0, width: 640, height: 480, scanline: 2560, fb_type: 0 },
        mmio: entries,
    }
}

fn free_entry(ptr: u64, size: u64) -> MMapEnt {
    MMapEnt { ptr, size: size | 1 }
}

fn drain(fa: &mut FrameAllocator) -> usize {
    let mut n = 0;
    while fa.allocate_frame().is_some() {
        n += 1;
    }
    n
}

#[test]
fn zero_region_loses_its_first_page() {
    // A Free region at physical address zero: page zero is discarded
    // and the run starts one page in.
    let bb = make_bb(vec![free_entry(0, 0x3000)]);
    let fa = FrameAllocator::new(&bb).unwrap();
    assert_eq!(fa.first_free(), Some(PAGE_SIZE));
    let node = fa.node_at(PAGE_SIZE).unwrap();
    assert_eq!(node.size, 0x2000);
    assert_eq!(node.next, None);
    assert_eq!(node.magic, FREE_MARKER);
}

#[test]
fn two_page_region_at_zero_is_discarded() {
    // An 8 KiB Free region at address zero: after page zero is
    // stripped only one page remains, which is not enough to link
    // (a surviving run must be strictly larger than one page), so
    // initialization finds no usable memory.
    let bb = make_bb(vec![free_entry(0, 0x2000)]);
    match FrameAllocator::new(&bb) {
        Err(MemoryInitError::NoUsableMemory) => {},
        _ => panic!("expected no usable memory"),
    }
}

#[test]
fn unaligned_region_is_aligned_up() {
    // Start 0x1010 rounds up to 0x2000; the size shrinks by the same
    // 0xFF0 bytes, leaving two whole pages.
    let bb = make_bb(vec![free_entry(0x1010, 0x2FF0)]);
    let fa = FrameAllocator::new(&bb).unwrap();
    assert_eq!(fa.first_free(), Some(0x2000));
    let node = fa.node_at(0x2000).unwrap();
    assert_eq!(node.size, 0x2000);
    assert!(fa.node_at(0x1010).is_none());
}

#[test]
fn unaligned_region_with_ragged_size_is_discarded() {
    // After alignment the remaining size is not a whole number of
    // pages, so the region is not linked.
    let bb = make_bb(vec![free_entry(0x1010, 0x3000)]);
    assert!(FrameAllocator::new(&bb).is_err());
}

#[test]
fn exactly_one_page_region_is_discarded() {
    let bb = make_bb(vec![free_entry(0x1000, 0x1000)]);
    assert!(FrameAllocator::new(&bb).is_err());
}

#[test]
fn non_free_regions_are_ignored() {
    let bb = make_bb(vec![
        MMapEnt { ptr: 0x1000, size: 0x4000 },     // Used
        MMapEnt { ptr: 0x10000, size: 0x4002 },    // AcpiReclaimable
        MMapEnt { ptr: 0x20000, size: 0x4003 },    // MMIO
    ]);
    assert!(FrameAllocator::new(&bb).is_err());
}

#[test]
fn regions_link_in_encounter_order() {
    let bb = make_bb(vec![free_entry(0x10000, 0x2000), free_entry(0x20000, 0x3000)]);
    let fa = FrameAllocator::new(&bb).unwrap();
    assert_eq!(fa.first_free(), Some(0x10000));
    let first = fa.node_at(0x10000).unwrap();
    assert_eq!(first.next, Some(0x20000));
    let second = fa.node_at(0x20000).unwrap();
    assert_eq!(second.next, None);
    assert_eq!(second.size, 0x3000);
}

#[test]
fn allocate_carves_pages_off_the_front() {
    let bb = make_bb(vec![free_entry(0x1000, 0x4000)]);
    let mut fa = FrameAllocator::new(&bb).unwrap();
    assert_eq!(fa.allocate_frame(), Some(0x1000));
    // The rest of the run is described by a node one page further on.
    assert_eq!(fa.first_free(), Some(0x2000));
    assert_eq!(fa.node_at(0x2000).unwrap().size, 0x3000);
    // The old node's storage is gone the moment its frame is out.
    assert!(fa.node_at(0x1000).is_none());
    assert_eq!(fa.allocate_frame(), Some(0x2000));
    assert_eq!(fa.allocate_frame(), Some(0x3000));
    assert_eq!(fa.allocate_frame(), Some(0x4000));
    assert_eq!(fa.allocate_frame(), None);
}

#[test]
fn no_double_issue_without_intervening_free() {
    let bb = make_bb(vec![free_entry(0x1000, 0x3000)]);
    let mut fa = FrameAllocator::new(&bb).unwrap();
    let f1 = fa.allocate_frame().unwrap();
    let f2 = fa.allocate_frame().unwrap();
    let f3 = fa.allocate_frame().unwrap();
    assert_ne!(f1, f2);
    assert_ne!(f1, f3);
    assert_ne!(f2, f3);
    // Once freed, the frame may come back — and does, first.
    fa.deallocate_frame(f1);
    assert_eq!(fa.allocate_frame(), Some(f1));
}

#[test]
fn deallocate_pushes_at_the_front() {
    let bb = make_bb(vec![free_entry(0x1000, 0x3000)]);
    let mut fa = FrameAllocator::new(&bb).unwrap();
    let f = fa.allocate_frame().unwrap();
    let head_after = fa.first_free().unwrap();
    fa.deallocate_frame(f);
    assert_eq!(fa.first_free(), Some(f));
    let node = fa.node_at(f).unwrap();
    assert_eq!(node.size, PAGE_SIZE);
    assert_eq!(node.next, Some(head_after));
}

#[test]
fn conservation_across_allocations() {
    // Walking the free list before any allocation counts the bytes
    // still free after N allocations plus N pages.
    let bb = make_bb(vec![free_entry(0x1000, 0x3000), free_entry(0x10000, 0x2000)]);
    let mut fa = FrameAllocator::new(&bb).unwrap();
    let total_frames = drain(&mut fa);
    assert_eq!(total_frames as u64 * PAGE_SIZE, 0x5000);

    let mut fa2 = FrameAllocator::new(&bb).unwrap();
    let n = 2;
    for _ in 0..n {
        fa2.allocate_frame().unwrap();
    }
    let left = drain(&mut fa2);
    assert_eq!(left + n, total_frames);
}

#[test]
fn ram_accounting_counts_gaps_before_ram_regions() {
    // Free at 0x1000 after a 0x1000 gap, Used at 0x4000 after a 0x1000
    // gap, device memory at 0x10000 whose gap does not count:
    // 0x3000 + 0x2000 + 0x2000 bytes in all.
    let bb = make_bb(vec![
        MMapEnt { ptr: 0x1000, size: 0x2001 },
        MMapEnt { ptr: 0x4000, size: 0x1000 },
        MMapEnt { ptr: 0x10000, size: 0x2003 },
    ]);
    assert_eq!(kernel_memory::memory::frame::mmap_ram_total(&bb), 0x7000);
}

#[test]
fn mark_free_matches_new() {
    let bb = make_bb(vec![free_entry(0x8000, 0x2000)]);
    let fa = FrameAllocator::mark_free(&bb).unwrap();
    let fb = FrameAllocator::new_addr(&bb).unwrap();
    assert_eq!(fa.first_free(), fb.first_free());
    assert_eq!(fa.first_free(), Some(0x8000));
}
