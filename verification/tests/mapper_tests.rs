use kernel_memory::bootboot::{arch_x86, BootBootUnpacked, FrameBuffer, MMapEnt};
use kernel_memory::memory::frame::{PageAllocator, STARTING_MEM_OFFSET};
use kernel_memory::memory::PAGE_SIZE;

fn make_bb(entries: Vec<MMapEnt>) -> BootBootUnpacked {
    BootBootUnpacked {
        magic: *b"BOOT",
        size: 128 + (entries.len() as u32) * 16,
        protocol: 2,
        numcores: 1,
        bspid: 0,
        timezone: 0,
        datetime: [0; 8],
        initrd_ptr: 0,
        initrd_size: 0,
        arch: arch_x86 {
            acpi_ptr: 0,
            smbi_ptr: 0,
            efi_ptr: 0,
            mp_ptr: 0,
            unused0: 0,
            unused1: 0,
            unused2: 0,
            unused3: 0,
        },
        fb: FrameBuffer { ptr: 0, size: 0, width: 640, height: 480, scanline: 2560, fb_type: 0 },
        mmio: entries,
    }
}

fn free_entry(ptr: u64, size: u64) -> MMapEnt {
    MMapEnt { ptr, size: size | 1 }
}

fn drain(pa: &mut PageAllocator) -> usize {
    let mut n = 0;
    while pa.allocate_frame().is_some() {
        n += 1;
    }
    n
}

#[test]
fn min_frames_rounds_up() {
    assert_eq!(PageAllocator::min_frames_from_size(0), 0);
    assert_eq!(PageAllocator::min_frames_from_size(1), 1);
    assert_eq!(PageAllocator::min_frames_from_size(4096), 1);
    assert_eq!(PageAllocator::min_frames_from_size(4097), 2);
    assert_eq!(PageAllocator::min_frames_from_size(10000), 3);
}

#[test]
fn allocate_three_contiguous_pages() {
    // 10000 bytes need exactly three frames; the mapper returns one
    // contiguous virtual range of three mapped pages.
    let bb = make_bb(vec![free_entry(0x1000, 0x5000)]);
    let mut pa = PageAllocator::new(&bb).unwrap();
    let before = {
        let mut probe = PageAllocator::new(&bb).unwrap();
        drain(&mut probe)
    };
    let base = pa.allocate(10000).unwrap();
    assert_eq!(base, STARTING_MEM_OFFSET);
    assert!(pa.is_mapped(base));
    assert!(pa.is_mapped(base + PAGE_SIZE));
    assert!(pa.is_mapped(base + 2 * PAGE_SIZE));
    assert!(!pa.is_mapped(base + 3 * PAGE_SIZE));
    assert_eq!(pa.next_virtual_offset(), base + 3 * PAGE_SIZE);
    let after = drain(&mut pa);
    assert_eq!(after + 3, before);
}

#[test]
fn failed_allocate_rolls_everything_back() {
    // Only two frames are free where three are required: the two
    // frames taken and their mappings are unwound, and the free count
    // afterward equals the count before the call.
    let bb = make_bb(vec![free_entry(0x1000, 0x2000)]);
    let mut pa = PageAllocator::new(&bb).unwrap();
    let base = pa.next_virtual_offset();
    assert!(pa.allocate(3 * PAGE_SIZE as usize).is_err());
    assert!(!pa.is_mapped(base));
    assert!(!pa.is_mapped(base + PAGE_SIZE));
    assert!(!pa.is_mapped(base + 2 * PAGE_SIZE));
    let after = drain(&mut pa);
    let before = {
        let mut probe = PageAllocator::new(&bb).unwrap();
        drain(&mut probe)
    };
    assert_eq!(after, before);
    assert_eq!(after, 2);
}

#[test]
fn mapped_frames_are_distinct() {
    let bb = make_bb(vec![free_entry(0x1000, 0x4000)]);
    let mut pa = PageAllocator::new(&bb).unwrap();
    let base = pa.allocate(2 * PAGE_SIZE as usize).unwrap();
    let f0 = pa.translate(base).unwrap();
    let f1 = pa.translate(base + PAGE_SIZE).unwrap();
    assert_ne!(f0, f1);
    assert!(pa.translate(base + 2 * PAGE_SIZE).is_none());
}

#[test]
fn map_frame_rejects_unaligned_addresses() {
    let bb = make_bb(vec![free_entry(0x1000, 0x3000)]);
    let mut pa = PageAllocator::new(&bb).unwrap();
    let frame = pa.allocate_frame().unwrap();
    let cursor = pa.next_virtual_offset();
    assert!(pa.map_frame(frame, Some(cursor + 123)).is_err());
    // The failure leaves the mapper untouched.
    assert_eq!(pa.next_virtual_offset(), cursor);
    assert!(!pa.is_mapped(cursor));
}

#[test]
fn map_frame_rejects_mapped_pages() {
    let bb = make_bb(vec![free_entry(0x1000, 0x3000)]);
    let mut pa = PageAllocator::new(&bb).unwrap();
    let f1 = pa.allocate_frame().unwrap();
    let f2 = pa.allocate_frame().unwrap();
    let target = STARTING_MEM_OFFSET - 16 * PAGE_SIZE;
    let (addr, flush) = pa.map_frame(f1, Some(target)).unwrap();
    assert_eq!(addr, target);
    flush.flush();
    assert!(pa.map_frame(f2, Some(target)).is_err());
}

#[test]
fn map_frame_draws_from_the_cursor() {
    let bb = make_bb(vec![free_entry(0x1000, 0x3000)]);
    let mut pa = PageAllocator::new(&bb).unwrap();
    let frame = pa.allocate_frame().unwrap();
    let cursor = pa.next_virtual_offset();
    let (addr, flush) = pa.map_frame(frame, None).unwrap();
    flush.flush();
    assert_eq!(addr, cursor);
    assert_eq!(pa.next_virtual_offset(), cursor + PAGE_SIZE);
    assert_eq!(pa.translate(addr), Some(frame));
}

#[test]
fn deallocate_returns_frames() {
    let bb = make_bb(vec![free_entry(0x1000, 0x4000)]);
    let mut pa = PageAllocator::new(&bb).unwrap();
    let base = pa.allocate(2 * PAGE_SIZE as usize).unwrap();
    pa.deallocate(base, 2 * PAGE_SIZE as usize).unwrap();
    assert!(!pa.is_mapped(base));
    assert!(!pa.is_mapped(base + PAGE_SIZE));
    // The virtual range is not reused; only frames came back.
    assert_eq!(pa.next_virtual_offset(), base + 2 * PAGE_SIZE);
    let left = drain(&mut pa);
    assert_eq!(left, 4);
}

#[test]
fn deallocate_fails_fast_on_unmapped_pages() {
    // Two pages are mapped but three are released: the first two are
    // reclaimed before the unmapped third stops the call.
    let bb = make_bb(vec![free_entry(0x1000, 0x4000)]);
    let mut pa = PageAllocator::new(&bb).unwrap();
    let base = pa.allocate(2 * PAGE_SIZE as usize).unwrap();
    assert!(pa.deallocate(base, 3 * PAGE_SIZE as usize).is_err());
    assert!(!pa.is_mapped(base));
    assert!(!pa.is_mapped(base + PAGE_SIZE));
    let left = drain(&mut pa);
    assert_eq!(left, 4);
}

#[test]
fn deallocate_of_never_mapped_range_reclaims_nothing() {
    let bb = make_bb(vec![free_entry(0x1000, 0x3000)]);
    let mut pa = PageAllocator::new(&bb).unwrap();
    assert!(pa.deallocate(STARTING_MEM_OFFSET, PAGE_SIZE as usize).is_err());
    let left = drain(&mut pa);
    assert_eq!(left, 3);
}
