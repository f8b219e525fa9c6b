use vstd::prelude::*;

verus! {

/// Supervisor segment access byte: accessed.
pub const ACCESS_A: u8 = 0x01;

/// Supervisor segment access byte: readable or writable.
pub const ACCESS_RW: u8 = 0x02;

/// Supervisor segment access byte: direction or conforming.
pub const ACCESS_DC: u8 = 0x04;

/// Supervisor segment access byte: executable.
pub const ACCESS_E: u8 = 0x08;

/// Supervisor segment access byte: code or data (not a system segment).
pub const ACCESS_S: u8 = 0x10;

/// Supervisor segment access byte: present.
pub const ACCESS_P: u8 = 0x80;

/// Supervisor segment flags: long mode code.
pub const FLAGS_L: u8 = 0x20;

/// Supervisor segment flags: default operand size.
pub const FLAGS_DB: u8 = 0x40;

/// Supervisor segment flags: limit granularity in pages.
pub const FLAGS_G: u8 = 0x80;

/// One segment descriptor of the supervisor's descriptor table, in the
/// packed on-bus layout.
pub struct SegmentDescriptor {
    pub limit_0_15: u16,
    pub base_0_15: u16,
    pub base_16_23: u8,
    pub access: u8,
    pub flags_and_limit_16_19: u8,
    pub base_24_31: u8,
}

impl SegmentDescriptor {
    /// The all-zero descriptor: the mandatory null entry of a descriptor
    /// table.
    pub fn zeroed() -> (r: Self)
        ensures
            r.limit_0_15 == 0 && r.base_0_15 == 0 && r.base_16_23 == 0 && r.access == 0
                && r.flags_and_limit_16_19 == 0 && r.base_24_31 == 0,
    {
        SegmentDescriptor {
            limit_0_15: 0,
            base_0_15: 0,
            base_16_23: 0,
            access: 0,
            flags_and_limit_16_19: 0,
            base_24_31: 0,
        }
    }

    /// Packs a segment descriptor from its logical parts: `base` split
    /// over three fields, the 20-bit `limit` split over two, the access
    /// bits joined with the privilege level `dpl` in bits 5 and 6, and the
    /// flags joined with the limit's top nibble.
    pub fn new(base: u32, limit: u32, access: u8, dpl: u8, flags: u8) -> (r: Self)
        requires
            dpl <= 3,
            access % 0x80 < 0x20,  // bits 5 and 6 are free for the privilege level
            limit < 0x100000,
            flags % 0x20 == 0,  // only bits 5 to 7 carry flags
        ensures
            r.limit_0_15 as int == limit as int % 0x10000,
            r.base_0_15 as int == base as int % 0x10000,
            r.base_16_23 as int == base as int / 0x10000 % 0x100,
            r.access as int == access as int + dpl as int * 0x20,
            r.flags_and_limit_16_19 as int == limit as int / 0x10000 + flags as int,
            r.base_24_31 as int == base as int / 0x1000000 % 0x100,
    {
        proof {
            assert(dpl <= 3 && access % 0x80 < 0x20 ==> (access | (dpl << 5) as u8) == access + dpl
                * 0x20) by (bit_vector);
            assert(limit < 0x100000 && flags % 0x20 == 0 ==> ((limit >> 16) as u8 | flags) as int
                == limit as int / 0x10000 + flags as int) by (bit_vector);
            assert((limit as u16) as int == limit as int % 0x10000) by (bit_vector);
            assert((base as u16) as int == base as int % 0x10000) by (bit_vector);
            assert(((base >> 16) as u8) as int == base as int / 0x10000 % 0x100) by (bit_vector);
            assert(((base >> 24) as u8) as int == base as int / 0x1000000 % 0x100) by (bit_vector);
        }
        SegmentDescriptor {
            limit_0_15: #[verifier::truncate] (limit as u16),
            base_0_15: #[verifier::truncate] (base as u16),
            base_16_23: #[verifier::truncate] ((base >> 16) as u8),
            access: access | (dpl << 5),
            flags_and_limit_16_19: ((limit >> 16) as u8) | flags,
            base_24_31: #[verifier::truncate] ((base >> 24) as u8),
        }
    }
}

} // verus!
