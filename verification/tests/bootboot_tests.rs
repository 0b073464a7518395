use kernel_memory::bootboot::{mmap_entry_count, MMapEnt, MMapType};

#[test]
fn entry_type_decodes_all_kinds() {
    assert_eq!(MMapEnt { ptr: 0, size: 0x1000 }.entry_type(), MMapType::Used);
    assert_eq!(MMapEnt { ptr: 0, size: 0x1001 }.entry_type(), MMapType::Free);
    assert_eq!(MMapEnt { ptr: 0, size: 0x1002 }.entry_type(), MMapType::Acpi);
    assert_eq!(MMapEnt { ptr: 0, size: 0x1003 }.entry_type(), MMapType::Mmio);
}

#[test]
fn size_masks_kind_bits() {
    let e = MMapEnt { ptr: 0x5000, size: 0x2001 };
    assert_eq!(e.size(), 0x2000);
    assert_eq!(e.entry_type(), MMapType::Free);
    assert_eq!(e.ptr(), 0x5000);
}

#[test]
fn size_is_multiple_of_sixteen() {
    let e = MMapEnt { ptr: 0, size: 0xABC3 };
    assert_eq!(e.size() % 16, 0);
    assert_eq!(e.size(), 0xABC0);
}

#[test]
fn mmio_entry_bounds() {
    let bb = kernel_memory::bootboot::BootBootUnpacked {
        magic: *b"BOOT",
        size: 160,
        protocol: 2,
        numcores: 1,
        bspid: 0,
        timezone: 0,
        datetime: [0; 8],
        initrd_ptr: 0,
        initrd_size: 0,
        arch: kernel_memory::bootboot::arch_x86 {
            acpi_ptr: 0,
            smbi_ptr: 0,
            efi_ptr: 0,
            mp_ptr: 0,
            unused0: 0,
            unused1: 0,
            unused2: 0,
            unused3: 0,
        },
        fb: kernel_memory::bootboot::FrameBuffer {
            ptr: 0,
            size: 0,
            width: 640,
            height: 480,
            scanline: 2560,
            fb_type: 0,
        },
        mmio: vec![
            MMapEnt { ptr: 0x1000, size: 0x2001 },
            MMapEnt { ptr: 0x4000, size: 0x1000 },
        ],
    };
    assert_eq!(bb.mmio_count(), 2);
    let e0 = bb.mmio_entry(0).unwrap();
    assert_eq!(e0.ptr(), 0x1000);
    let e1 = bb.mmio_entry(1).unwrap();
    assert_eq!(e1.entry_type(), MMapType::Used);
    assert!(bb.mmio_entry(2).is_none());
}

#[test]
fn entry_count_from_declared_size() {
    // The boot structure's declared size covers the fixed 128-byte
    // header plus sixteen bytes per memory-map entry.
    assert_eq!(mmap_entry_count(128), 0);
    assert_eq!(mmap_entry_count(160), 2);
    assert_eq!(mmap_entry_count(128 + 16 * 9), 9);
}
