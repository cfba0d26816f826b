//! Virtual memory mappings, and the byte offsets of the page-status
//! records that a mapping spans.
//!
//! A page-status record is 8 bytes; the record for the page at virtual
//! address `a` sits at byte offset `(a / page_size) * 8` in the per-process
//! page-status file. The host's page size is queried at runtime, never
//! hardcoded.

use vstd::prelude::*;

verus! {

/// Half-open interval `[start, end)` of virtual addresses, in bytes.
#[derive(Debug, PartialEq, Eq, Copy, Clone, Hash, Structural)]
pub struct Range {
    pub start: u64,
    pub end: u64,
}

/// One virtual-address-range record of a process, as parsed from a line of
/// the kernel's per-process mapping listing.
#[derive(Debug, PartialEq, Eq, Clone)]
pub struct Mapping {
    pub address_range: Range,
    pub permissions: Vec<u8>,
    pub offset: u64,
    pub device: Vec<u8>,
    pub inode: u64,
    pub path: Option<Vec<u8>>,
}

/// Mathematical image of a `Mapping`: its fields over sequences.
pub ghost struct MappingView {
    pub start: u64,
    pub end: u64,
    pub permissions: Seq<u8>,
    pub offset: u64,
    pub device: Seq<u8>,
    pub inode: u64,
    pub path: Option<Seq<u8>>,
}

impl View for Mapping {
    type V = MappingView;

    open spec fn view(&self) -> MappingView {
        MappingView {
            start: self.address_range.start,
            end: self.address_range.end,
            permissions: self.permissions@,
            offset: self.offset,
            device: self.device@,
            inode: self.inode,
            path: match self.path {
                Some(p) => Some(p@),
                None => None,
            },
        }
    }
}

/// The byte offsets of the page-status records that one mapping spans:
/// `remaining` offsets, starting at `next_offset`, spaced by the record
/// size. Restartable: consuming it does not touch the `Mapping`.
#[derive(Debug, PartialEq, Eq, Copy, Clone, Structural)]
pub struct PageOffsets {
    pub next_offset: u64,
    pub remaining: u64,
}

impl PageOffsets {
    /// All offsets yet to come: no offset computation can overflow.
    pub open spec fn wf(&self) -> bool {
        self.next_offset + 8 * self.remaining <= u64::MAX
    }

    /// The next record offset, or `None` when the mapping's pages are
    /// exhausted. Offsets come out strictly increasing, spaced by exactly
    /// the record size.
    pub fn next(&mut self) -> (r: Option<u64>)
        requires
            old(self).wf(),
        ensures
            final(self).wf(),
            match r {
                Some(o) => old(self).remaining > 0 && o == old(self).next_offset
                    && final(self).next_offset == o + 8
                    && final(self).remaining == old(self).remaining - 1,
                None => old(self).remaining == 0 && *final(self) == *old(self),
            },
    {
        if self.remaining == 0 {
            None
        } else {
            let current = self.next_offset;
            self.next_offset = current + 8;
            self.remaining = self.remaining - 1;
            Some(current)
        }
    }

    /// Every remaining offset, in order: element `i` is
    /// `next_offset + 8 * i`, so the sequence is strictly increasing and
    /// spaced by exactly the record size.
    pub fn to_vec(&self) -> (r: Vec<u64>)
        requires
            self.wf(),
        ensures
            r@.len() == self.remaining,
            forall|i: int| 0 <= i < r@.len() ==> r@[i] == self.next_offset + 8 * i,
            forall|i: int| 0 <= i < r@.len() - 1 ==> #[trigger] r@[i + 1] == r@[i] + 8,
    {
        let mut out: Vec<u64> = Vec::new();
        let mut it = *self;
        loop
            invariant
                it.wf(),
                it.next_offset == self.next_offset + 8 * out@.len(),
                it.remaining == self.remaining - out@.len(),
                out@.len() <= self.remaining,
                self.wf(),
                forall|i: int| 0 <= i < out@.len() ==> out@[i] == self.next_offset + 8 * i,
            ensures
                it.remaining == 0,
            decreases it.remaining,
        {
            match it.next() {
                Some(o) => {
                    out.push(o);
                },
                None => {
                    break;
                },
            }
        }
        assert(forall|i: int| 0 <= i < out@.len() - 1 ==> #[trigger] out@[i + 1] == out@[i] + 8);
        out
    }
}

impl Mapping {
    /// The offsets of the page-status records for every whole page the
    /// mapping covers: the first is `(start / page_size) * 8`, the last is
    /// `(end / page_size) * 8 - 8`, one per page.
    pub fn page_offsets(&self, page_size: u64) -> (r: PageOffsets)
        requires
            page_size >= 8,
        ensures
            r.wf(),
            r.next_offset == (self.address_range.start / page_size) * 8,
            r.remaining == if self.address_range.end / page_size
                > self.address_range.start / page_size {
                self.address_range.end / page_size - self.address_range.start / page_size
            } else {
                0
            },
    {
        let first_page = self.address_range.start / page_size;
        let last_page_bound = self.address_range.end / page_size;
        proof {
            lemma_page_scaled_fits(self.address_range.start, page_size);
            lemma_page_scaled_fits(self.address_range.end, page_size);
        }
        PageOffsets {
            next_offset: first_page * 8,
            remaining: if last_page_bound > first_page {
                last_page_bound - first_page
            } else {
                0
            },
        }
    }

    /// The backing file path or pseudo-path, where the mapping has one.
    pub fn path(&self) -> (r: &Option<Vec<u8>>)
        ensures
            r == &self.path,
    {
        &self.path
    }
}

/// With pages of at least a record's size, scaling a page number back to a
/// record offset stays within the address it came from.
proof fn lemma_page_scaled_fits(addr: u64, page_size: u64)
    requires
        page_size >= 8,
    ensures
        (addr / page_size) * 8 <= addr,
{
    assert((addr / page_size) * 8 <= addr) by (nonlinear_arith)
        requires page_size >= 8;
}

/// Relies on nix::unistd::sysconf(SysconfVar::PAGE_SIZE): hands back the
/// kernel-reported value, `None` where the call fails or reports no limit.
#[verifier::external_body]
fn sysconf_page_size() -> (r: Option<i64>) {
    match nix::unistd::sysconf(nix::unistd::SysconfVar::PAGE_SIZE) {
        Ok(v) => v,
        Err(_) => None,
    }
}

/// The usable page size for a kernel report: the reported value where it
/// can hold at least one page-status record, `None` for a missing report or
/// one too small.
pub fn usable_page_size(reported: Option<i64>) -> (r: Option<u64>)
    ensures
        r == (match reported {
            Some(v) => if v >= 8 {
                Some(v as u64)
            } else {
                None
            },
            None => None,
        }),
{
    match reported {
        Some(v) => if v >= 8 {
            Some(v as u64)
        } else {
            None
        },
        None => None,
    }
}

/// The host's page size in bytes, queried from the kernel at runtime.
/// `None` where the kernel does not report one, or reports a value too
/// small to hold even one page-status record.
pub fn host_page_size() -> (r: Option<u64>)
    ensures
        match r {
            Some(ps) => ps >= 8,
            None => true,
        },
{
    usable_page_size(sysconf_page_size())
}

} // verus!
