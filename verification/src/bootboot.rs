//! Decoding of the boot protocol's data: the physical memory map and the
//! fixed header handed over by the loader at a well-known virtual address.
//!
//! Each memory-map entry packs the region kind into the low four bits of
//! its size field; the remaining bits, with the low four masked off, are
//! the region size in bytes.

use vstd::prelude::*;

verus! {

/// Memory-mapped I/O window in the kernel's virtual address space.
pub const BOOTBOOT_MMIO: u64 = 0xfffffffff8000000;
/// Frame buffer virtual address.
pub const BOOTBOOT_FB: u64 = 0xfffffffffc000000;
/// Virtual address at which the boot information structure lives.
pub const BOOTBOOT_INFO: u64 = 0xffffffffffe00000;
/// Environment string virtual address.
pub const BOOTBOOT_ENV: u64 = 0xffffffffffe01000;
/// Start of the kernel's loadable core segment.
pub const BOOTBOOT_CORE: u64 = 0xffffffffffe02000;

/// Number of bytes of the boot information structure before the
/// memory-map entries begin.
pub const BOOTBOOT_HEADER_SIZE: u32 = 128;

/// Usage classification of one physical memory region.
#[derive(Debug, Copy, Clone, PartialEq, Eq, Structural)]
pub enum MMapType {
    Used,
    Free,
    Acpi,
    Mmio,
}

/// One entry of the boot memory map: a physical start address and a
/// packed size-and-kind field.
#[derive(Debug, Copy, Clone, PartialEq, Eq, Structural)]
pub struct MMapEnt {
    pub ptr: u64,
    pub size: u64,
}

impl MMapEnt {
    /// The kind bits: the low four bits of the packed size field.
    pub open spec fn kind_bits(self) -> u64 {
        self.size & 0xf
    }

    /// True when the kind bits hold one of the four defined kinds.
    pub open spec fn kind_valid(self) -> bool {
        self.kind_bits() <= 3
    }

    /// Region kind decoded from the kind bits.
    pub open spec fn spec_entry_type(self) -> MMapType {
        if self.kind_bits() == 0 {
            MMapType::Used
        } else if self.kind_bits() == 1 {
            MMapType::Free
        } else if self.kind_bits() == 2 {
            MMapType::Acpi
        } else {
            MMapType::Mmio
        }
    }

    /// Region size in bytes: the packed field with the kind bits masked off.
    pub open spec fn spec_size(self) -> u64 {
        self.size & !0xfu64
    }

    /// Decodes the region kind from the low four bits of the packed field.
    pub fn entry_type(&self) -> (t: MMapType)
        requires
            self.kind_valid(),
        ensures
            t == self.spec_entry_type(),
    {
        let k = self.size & 0xf;
        if k == 0 {
            MMapType::Used
        } else if k == 1 {
            MMapType::Free
        } else if k == 2 {
            MMapType::Acpi
        } else {
            MMapType::Mmio
        }
    }

    /// Region size in bytes; always a multiple of 16 because the low four
    /// bits carry the kind, not the size.
    pub fn size(&self) -> (s: u64)
        ensures
            s == self.spec_size(),
            s % 16 == 0,
            s <= self.size,
    {
        proof {
            let s = self.size;
            assert(s & !0xfu64 == 16 * ((s & !0xfu64) / 16) && s & !0xfu64 <= s)
                by (bit_vector);
        }
        self.size & !0xfu64
    }

    /// Physical start address of the region.
    pub fn ptr(&self) -> (p: u64)
        ensures
            p == self.ptr,
    {
        self.ptr
    }
}

/// The boot information structure as the loader lays it out, with raw
/// addresses held as plain integers.
#[derive(Debug, Copy, Clone)]
pub struct BOOTBOOT {
    pub magic: [u8; 4],
    pub size: u32,
    pub protocol: u8,
    pub fb_type: u8,
    pub numcores: u16,
    pub bspid: u16,
    pub timezone: i16,
    pub datetime: [u8; 8],
    pub initrd_ptr: u64,
    pub initrd_size: u64,
    pub fb_ptr: u64,
    pub fb_size: u32,
    pub fb_width: u32,
    pub fb_height: u32,
    pub fb_scanline: u32,
    pub arch: arch_x86,
}

/// Frame buffer parameters gathered from the boot structure.
#[derive(Debug, Copy, Clone)]
pub struct FrameBuffer {
    pub ptr: u64,
    pub size: u32,
    pub width: u32,
    pub height: u32,
    pub scanline: u32,
    pub fb_type: u8,
}

/// The boot structure unpacked into an aligned form, with the memory-map
/// entries gathered into a vector.
#[derive(Debug, Clone)]
pub struct BootBootUnpacked {
    pub magic: [u8; 4],
    pub size: u32,
    pub protocol: u8,
    pub numcores: u16,
    pub bspid: u16,
    pub timezone: i16,
    pub datetime: [u8; 8],
    pub initrd_ptr: usize,
    pub initrd_size: usize,
    pub arch: arch_x86,
    pub fb: FrameBuffer,
    pub mmio: Vec<MMapEnt>,
}

impl BootBootUnpacked {
    /// Number of memory-map entries carried by this structure.
    pub fn mmio_count(&self) -> (n: usize)
        ensures
            n == self.mmio@.len(),
    {
        self.mmio.len()
    }

    /// The memory-map entry at `idx`, or nothing when `idx` is out of range.
    pub fn mmio_entry(&self, idx: usize) -> (e: Option<MMapEnt>)
        ensures
            idx < self.mmio@.len() ==> e == Some(self.mmio@[idx as int]),
            idx >= self.mmio@.len() ==> e is None,
    {
        if idx >= self.mmio.len() {
            return None;
        }
        Some(self.mmio[idx])
    }
}

/// Number of memory-map entries implied by the boot structure's declared
/// total size: what follows the fixed header, sixteen bytes per entry.
pub fn mmap_entry_count(total_size: u32) -> (n: usize)
    requires
        total_size >= BOOTBOOT_HEADER_SIZE,
    ensures
        n == (total_size - BOOTBOOT_HEADER_SIZE) as int / 16,
{
    ((total_size - BOOTBOOT_HEADER_SIZE) / 16) as usize
}

/// Architecture-specific pointers of the boot structure on x86 machines.
#[allow(non_camel_case_types)]
#[derive(Debug, Copy, Clone, PartialEq, Eq, Structural)]
pub struct arch_x86 {
    pub acpi_ptr: u64,
    pub smbi_ptr: u64,
    pub efi_ptr: u64,
    pub mp_ptr: u64,
    pub unused0: u64,
    pub unused1: u64,
    pub unused2: u64,
    pub unused3: u64,
}

/// Architecture-specific pointers of the boot structure on aarch64 machines.
#[allow(non_camel_case_types)]
#[derive(Debug, Copy, Clone, PartialEq, Eq, Structural)]
pub struct arch_aarch64 {
    pub acpi_ptr: u64,
    pub mmio_ptr: u64,
    pub efi_ptr: u64,
    pub unused0: u64,
    pub unused1: u64,
    pub unused2: u64,
    pub unused3: u64,
    pub unused4: u64,
}

} // verus!
