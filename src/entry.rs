//! The raw encoding of one x86 page-table entry: a frame address in the
//! bits above the low twelve, and flag bits below it.
use vstd::prelude::*;
use crate::addr::PhysAddr;
use crate::flags::{PTEFlags, PTE_P, PTE_RW, PTE_PS};
use crate::page_size::PageSize;

verus! {

/// Mask of the frame address bits of an entry.
pub const ADDRESS_MASK: usize = !0xfffusize;

/// The frame address that a raw entry holds.
pub open spec fn entry_address(raw: usize) -> usize {
    raw & !0xfffusize
}

/// The flag bits that a raw entry holds.
pub open spec fn entry_flags(raw: usize) -> usize {
    raw & 0x19f
}

/// Whether a raw entry is present.
pub open spec fn entry_present(raw: usize) -> bool {
    raw & 0x1 != 0
}

/// Whether a raw entry maps a large page.
pub open spec fn entry_large(raw: usize) -> bool {
    raw & 0x80 != 0
}

/// The raw entry for a page at `addr`, with flag bits `f` and the
/// large-page bit when the page is large.
pub open spec fn page_entry_raw(addr: usize, f: usize, large: bool) -> usize {
    if large {
        addr | f | 0x80
    } else {
        addr | f
    }
}

/// A page-table entry.
#[derive(Clone, Copy, Debug, PartialEq, Eq, Structural, Hash)]
pub struct PTEntry(pub usize);

impl PTEntry {
    /// The empty entry: not present, no frame.
    pub fn null() -> (r: PTEntry)
        ensures
            r.0 == 0,
    {
        PTEntry(0)
    }

    /// An entry that maps a page of `page_size` at `addr` with `flags`.
    pub fn new_page(addr: PhysAddr, page_size: PageSize, flags: PTEFlags) -> (r: PTEntry)
        ensures
            r.0 == page_entry_raw(addr.0, flags.bits, page_size == PageSize::Size4M),
    {
        match page_size {
            PageSize::Size4M => PTEntry(addr.0 | flags.bits | PTE_PS),
            PageSize::Size4K => PTEntry(addr.0 | flags.bits),
        }
    }

    /// An entry that points to the page table at `addr`, present and writable.
    pub fn new_page_table(addr: PhysAddr) -> (r: PTEntry)
        ensures
            r.0 == addr.0 | 0x3,
    {
        let a = addr.0;
        assert(a | PTE_P | PTE_RW == a | 0x3) by (bit_vector);
        PTEntry(a | PTE_P | PTE_RW)
    }

    /// The flag bits of this entry.
    pub fn flags(self) -> (r: PTEFlags)
        ensures
            r.bits == entry_flags(self.0),
    {
        PTEFlags::from_bits_truncate(self.0)
    }

    /// The frame address this entry holds.
    pub fn address(self) -> (r: PhysAddr)
        ensures
            r.0 == entry_address(self.0),
    {
        PhysAddr(self.0 & ADDRESS_MASK)
    }

    /// Whether this entry is present.
    pub fn is_present(self) -> (r: bool)
        ensures
            r == entry_present(self.0),
    {
        self.0 & PTE_P != 0
    }

    /// Whether this entry maps a large page.
    pub fn is_large(self) -> (r: bool)
        ensures
            r == entry_large(self.0),
    {
        self.0 & PTE_PS != 0
    }
}

/// A multiple of 4 KiB has its low twelve bits clear.
pub proof fn lemma_aligned_low_bits(a: usize)
    ensures
        (a % 0x1000 == 0) == (a & 0xfff == 0),
{
    assert((a % 0x1000 == 0) == (a & 0xfff == 0)) by (bit_vector);
}

/// A page entry built from an aligned frame and low flag bits gives back
/// the frame, the flags (with the large-page bit for a large page), and is
/// present exactly when the flags say so.
pub proof fn lemma_page_entry_decode(addr: usize, f: usize, large: bool)
    requires
        addr % 0x1000 == 0,
        f & !0x117usize == 0,
    ensures
        entry_address(page_entry_raw(addr, f, large)) == addr,
        entry_flags(page_entry_raw(addr, f, large)) == if large { f | 0x80 } else { f },
        entry_present(page_entry_raw(addr, f, large)) == (f & 0x1 != 0),
        entry_large(page_entry_raw(addr, f, large)) == large,
{
    lemma_aligned_low_bits(addr);
    if large {
        assert(addr & 0xfff == 0 && f & !0x117usize == 0 ==> (addr | f | 0x80) & !0xfffusize
            == addr && (addr | f | 0x80) & 0x19f == f | 0x80 && ((addr | f | 0x80) & 0x1 != 0)
            == (f & 0x1 != 0) && (addr | f | 0x80) & 0x80 != 0) by (bit_vector);
    } else {
        assert(addr & 0xfff == 0 && f & !0x117usize == 0 ==> (addr | f) & !0xfffusize == addr
            && (addr | f) & 0x19f == f && ((addr | f) & 0x1 != 0) == (f & 0x1 != 0) && (addr
            | f) & 0x80 == 0) by (bit_vector);
    }
}

/// A table entry built from an aligned frame gives back the frame, is
/// present and is no large page.
pub proof fn lemma_table_entry_decode(addr: usize)
    requires
        addr % 0x1000 == 0,
    ensures
        entry_address(addr | 0x3) == addr,
        entry_present(addr | 0x3),
        !entry_large(addr | 0x3),
{
    lemma_aligned_low_bits(addr);
    assert(addr & 0xfff == 0 ==> (addr | 0x3) & !0xfffusize == addr && (addr | 0x3) & 0x1 != 0
        && (addr | 0x3) & 0x80 == 0) by (bit_vector);
}

/// The empty entry is not present.
pub proof fn lemma_null_entry()
    ensures
        !entry_present(0),
        entry_address(0) == 0,
{
    assert(0usize & 0x1 == 0 && 0usize & !0xfffusize == 0) by (bit_vector);
}

} // verus!
