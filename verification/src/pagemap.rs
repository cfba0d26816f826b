//! Decoding of 8-byte page-status records.
//!
//! Each record is one 64-bit little-endian integer. The flag bits and the
//! frame-number field are decoded by explicit shift/mask accessors:
//! bit 63 resident-in-memory, bit 62 swapped-out, bit 61 file-mapped and
//! shared-anonymous (the kernel reuses one position for both), bit 56
//! exclusively-mapped, bit 55 soft-dirty, bits 0-54 the page frame number.

use vstd::prelude::*;

verus! {

/// Largest value a 55-bit page frame number can take.
pub const MAX_FRAME: u64 = 0x007F_FFFF_FFFF_FFFF;

/// One decoded page-status record, kept as the raw 64-bit value.
#[derive(Debug, PartialEq, Eq, Copy, Clone, Structural)]
pub struct Page(pub u64);

pub open spec fn spec_in_ram(v: u64) -> bool {
    v & 0x8000_0000_0000_0000 != 0
}

pub open spec fn spec_in_swap(v: u64) -> bool {
    v & 0x4000_0000_0000_0000 != 0
}

pub open spec fn spec_file_mapped(v: u64) -> bool {
    v & 0x2000_0000_0000_0000 != 0
}

pub open spec fn spec_exclusively_mapped(v: u64) -> bool {
    v & 0x0100_0000_0000_0000 != 0
}

pub open spec fn spec_soft_dirty(v: u64) -> bool {
    v & 0x0080_0000_0000_0000 != 0
}

/// The frame number is the low 55 bits, whatever the flag bits hold.
pub open spec fn spec_page_frame_number(v: u64) -> u64 {
    v & MAX_FRAME
}

/// The 64-bit value of 8 bytes read big-endian.
pub open spec fn spec_u64_from_be_bytes(s: Seq<u8>) -> u64 {
    vstd::bytes::spec_u64_from_le_bytes(s.reverse())
}

impl Page {
    /// Decode one raw 8-byte record, read little-endian.
    pub fn decode(record: &[u8]) -> (r: Page)
        requires
            record@.len() == 8,
        ensures
            r.0 == vstd::bytes::spec_u64_from_le_bytes(record@),
    {
        Page(vstd::bytes::u64_from_le_bytes(record))
    }

    /// Decode one raw 8-byte record in the byte order of the host's kernel
    /// ABI: the order is a configuration point, not an assumption.
    pub fn decode_with(record: &[u8], big_endian: bool) -> (r: Page)
        requires
            record@.len() == 8,
        ensures
            r.0 == if big_endian {
                spec_u64_from_be_bytes(record@)
            } else {
                vstd::bytes::spec_u64_from_le_bytes(record@)
            },
    {
        if big_endian {
            let mut reversed: Vec<u8> = Vec::new();
            let mut i: usize = 8;
            while i > 0
                invariant
                    i <= 8,
                    record@.len() == 8,
                    reversed@.len() == 8 - i,
                    forall|k: int| 0 <= k < reversed@.len() ==> reversed@[k] == record@[7 - k],
                decreases i,
            {
                i = i - 1;
                reversed.push(record[i]);
            }
            proof {
                assert(reversed@ =~= record@.reverse());
            }
            Page(vstd::bytes::u64_from_le_bytes(reversed.as_slice()))
        } else {
            Page(vstd::bytes::u64_from_le_bytes(record))
        }
    }

    /// Resident in memory (bit 63).
    pub fn in_ram(&self) -> (r: bool)
        ensures
            r == spec_in_ram(self.0),
    {
        self.0 & 0x8000_0000_0000_0000 != 0
    }

    /// Swapped out (bit 62).
    pub fn in_swap(&self) -> (r: bool)
        ensures
            r == spec_in_swap(self.0),
    {
        self.0 & 0x4000_0000_0000_0000 != 0
    }

    /// Backed by a file (bit 61).
    pub fn is_file_mapped(&self) -> (r: bool)
        ensures
            r == spec_file_mapped(self.0),
    {
        self.0 & 0x2000_0000_0000_0000 != 0
    }

    /// Shared anonymous memory: the kernel reports it in the same bit
    /// position as file-mapped; the two are mutually exclusive by
    /// construction of the kernel format.
    pub fn is_shared_anonymous(&self) -> (r: bool)
        ensures
            r == spec_file_mapped(self.0),
    {
        self.0 & 0x2000_0000_0000_0000 != 0
    }

    /// Mapped by exactly one process (bit 56).
    pub fn is_exclusively_mapped(&self) -> (r: bool)
        ensures
            r == spec_exclusively_mapped(self.0),
    {
        self.0 & 0x0100_0000_0000_0000 != 0
    }

    /// Written since the soft-dirty tracker was last cleared (bit 55).
    pub fn is_soft_dirty(&self) -> (r: bool)
        ensures
            r == spec_soft_dirty(self.0),
    {
        self.0 & 0x0080_0000_0000_0000 != 0
    }

    /// The physical frame number: the low 55 bits of the record,
    /// independent of the high flag bits. Only meaningful when the page
    /// is resident in memory.
    pub fn page_frame_number(&self) -> (r: u64)
        ensures
            r == spec_page_frame_number(self.0),
            r <= MAX_FRAME,
    {
        let v = self.0;
        proof {
            assert(v & 0x007F_FFFF_FFFF_FFFF <= 0x007F_FFFF_FFFF_FFFF) by (bit_vector);
        }
        v & 0x007F_FFFF_FFFF_FFFF
    }
}

} // verus!
