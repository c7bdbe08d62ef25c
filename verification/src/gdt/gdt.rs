use vstd::prelude::*;

verus! {

/// One segment descriptor of the global descriptor table, field by field as
/// the CPU reads it (limit, base and access bits; the upper four bits of
/// `flags_and_limit_high` are the flags).
#[derive(Copy, Clone, Debug, PartialEq, Eq, Structural)]
pub struct GdtEntry {
    pub limit_low: u16,
    pub base_low: u16,
    pub base_mid: u8,
    pub access: u8,
    pub flags_and_limit_high: u8,
    pub base_high: u8,
}

/// The 8-byte little-endian value of a descriptor, fields in declaration
/// order.
pub open spec fn gdt_entry_value(e: GdtEntry) -> int {
    e.limit_low + e.base_low * 0x1_0000 + e.base_mid * 0x1_0000_0000 + e.access * 0x100_0000_0000
        + e.flags_and_limit_high * 0x1_0000_0000_0000 + e.base_high * 0x100_0000_0000_0000
}

impl GdtEntry {
    /// The mandatory null descriptor: every field 0.
    pub fn null() -> (r: Self)
        ensures
            r == (GdtEntry { limit_low: 0, base_low: 0, base_mid: 0, access: 0, flags_and_limit_high: 0, base_high: 0 }),
    {
        GdtEntry { limit_low: 0, base_low: 0, base_mid: 0, access: 0, flags_and_limit_high: 0, base_high: 0 }
    }

    /// The kernel code segment: present, ring 0, executable and readable,
    /// 4 KiB granularity, 64-bit.
    pub fn kernel_code() -> (r: Self)
        ensures
            r == (GdtEntry { limit_low: 0xFFFF, base_low: 0, base_mid: 0, access: 0x9A, flags_and_limit_high: 0xAF, base_high: 0 }),
    {
        GdtEntry { limit_low: 0xFFFF, base_low: 0, base_mid: 0, access: 0x9A, flags_and_limit_high: 0xAF, base_high: 0 }
    }

    /// The kernel data segment: present, ring 0, writable, 4 KiB granularity.
    pub fn kernel_data() -> (r: Self)
        ensures
            r == (GdtEntry { limit_low: 0xFFFF, base_low: 0, base_mid: 0, access: 0x92, flags_and_limit_high: 0xCF, base_high: 0 }),
    {
        GdtEntry { limit_low: 0xFFFF, base_low: 0, base_mid: 0, access: 0x92, flags_and_limit_high: 0xCF, base_high: 0 }
    }

    /// The descriptor as the 8-byte value the CPU reads.
    pub fn to_u64(self) -> (r: u64)
        ensures
            r == gdt_entry_value(self),
    {
        let a = self.limit_low as u64;
        let b = self.base_low as u64;
        let c = self.base_mid as u64;
        let d = self.access as u64;
        let e = self.flags_and_limit_high as u64;
        let f = self.base_high as u64;
        a + b * 0x1_0000 + c * 0x1_0000_0000 + d * 0x100_0000_0000 + e * 0x1_0000_0000_0000 + f * 0x100_0000_0000_0000
    }
}

/// Where the table lives and its size in bytes minus one, as `lgdt` takes
/// it.
#[derive(Copy, Clone, Debug, PartialEq, Eq, Structural)]
pub struct GdtDescriptor {
    pub size: u16,
    pub offset: u64,
}

/// The selector of the kernel code descriptor (entry 1).
pub const KERNEL_CODE_SELECTOR: u16 = 0x08;

/// The selector of the kernel data descriptor (entry 2).
pub const KERNEL_DATA_SELECTOR: u16 = 0x10;

/// Number of descriptors in the table.
pub const GDT_ENTRIES: usize = 3;

/// The table: null, kernel code, kernel data.
pub fn gdt_table() -> (r: [GdtEntry; 3])
    ensures
        r@[0] == GdtEntry::null_spec(),
        r@[1] == GdtEntry::kernel_code_spec(),
        r@[2] == GdtEntry::kernel_data_spec(),
{
    [GdtEntry::null(), GdtEntry::kernel_code(), GdtEntry::kernel_data()]
}

impl GdtEntry {
    pub open spec fn null_spec() -> GdtEntry {
        GdtEntry { limit_low: 0, base_low: 0, base_mid: 0, access: 0, flags_and_limit_high: 0, base_high: 0 }
    }

    pub open spec fn kernel_code_spec() -> GdtEntry {
        GdtEntry { limit_low: 0xFFFF, base_low: 0, base_mid: 0, access: 0x9A, flags_and_limit_high: 0xAF, base_high: 0 }
    }

    pub open spec fn kernel_data_spec() -> GdtEntry {
        GdtEntry { limit_low: 0xFFFF, base_low: 0, base_mid: 0, access: 0x92, flags_and_limit_high: 0xCF, base_high: 0 }
    }
}

/// The descriptor for the table stored at `table_addr`: its size is three
/// 8-byte entries minus one.
pub fn init(table_addr: u64) -> (r: GdtDescriptor)
    ensures
        r.size == 23,
        r.offset == table_addr,
{
    GdtDescriptor { size: (GDT_ENTRIES * 8 - 1) as u16, offset: table_addr }
}

} // verus!
