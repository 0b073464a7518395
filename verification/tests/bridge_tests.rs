use kernel_memory::bootboot::{arch_x86, BootBootUnpacked, FrameBuffer, MMapEnt};
use kernel_memory::memory::allocator::GlobalAllocator;
use kernel_memory::memory::frame::{PageAllocator, STARTING_MEM_OFFSET};
use kernel_memory::memory::PAGE_SIZE;

fn make_bb(entries: Vec<MMapEnt>) -> BootBootUnpacked {
    BootBootUnpacked {
        magic: *b"BOOT",
        size: 128 + (entries.len() as u32) * 16,
        protocol: 2,
        numcores: 1,
        bspid: 0,
        timezone: 0,
        datetime: [0; 8],
        initrd_ptr: 0,
        initrd_size: 0,
        arch: arch_x86 {
            acpi_ptr: 0,
            smbi_ptr: 0,
            efi_ptr: 0,
            mp_ptr: 0,
            unused0: 0,
            unused1: 0,
            unused2: 0,
            unused3: 0,
        },
        fb: FrameBuffer { ptr: 0, size: 0, width: 640, height: 480, scanline: 2560, fb_type: 0 },
        mmio: entries,
    }
}

fn free_entry(ptr: u64, size: u64) -> MMapEnt {
    MMapEnt { ptr, size: size | 1 }
}

#[test]
fn zero_byte_request_returns_null_untouched() {
    let bb = make_bb(vec![free_entry(0x1000, 0x3000)]);
    let mut pa = PageAllocator::new(&bb).unwrap();
    let cursor = pa.next_virtual_offset();
    let heap = GlobalAllocator;
    assert_eq!(heap.allocate(&mut pa, 0, 8), 0);
    assert_eq!(pa.next_virtual_offset(), cursor);
}

#[test]
fn allocation_and_free_round_trip() {
    let bb = make_bb(vec![free_entry(0x1000, 0x4000)]);
    let mut pa = PageAllocator::new(&bb).unwrap();
    let heap = GlobalAllocator;
    let addr = heap.allocate(&mut pa, 5000, 8);
    assert_eq!(addr, STARTING_MEM_OFFSET);
    assert!(pa.is_mapped(addr));
    assert!(pa.is_mapped(addr + PAGE_SIZE));
    heap.deallocate(&mut pa, addr, 5000, 8);
    assert!(!pa.is_mapped(addr));
    assert!(!pa.is_mapped(addr + PAGE_SIZE));
}

#[test]
fn exhaustion_returns_null() {
    let bb = make_bb(vec![free_entry(0x1000, 0x2000)]);
    let mut pa = PageAllocator::new(&bb).unwrap();
    let heap = GlobalAllocator;
    // Two frames free, three asked for.
    assert_eq!(heap.allocate(&mut pa, 3 * PAGE_SIZE as usize, 8), 0);
    // The failed call left both frames free for a smaller request.
    let addr = heap.allocate(&mut pa, 2 * PAGE_SIZE as usize, 8);
    assert_ne!(addr, 0);
}

#[test]
fn alignment_is_page_granular_only() {
    // An alignment request beyond the page size is accepted and
    // silently under-aligned: the result is page-aligned, no more.
    let bb = make_bb(vec![free_entry(0x1000, 0x3000)]);
    let mut pa = PageAllocator::new(&bb).unwrap();
    let heap = GlobalAllocator;
    let addr = heap.allocate(&mut pa, 100, 2 * PAGE_SIZE as usize);
    assert_ne!(addr, 0);
    assert_eq!(addr % PAGE_SIZE, 0);
}
