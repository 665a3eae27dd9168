//! Architecture-independent mapping flags, and their translation to and
//! from the flag bits of an x86 page-table entry.
use vstd::prelude::*;

verus! {

/// Memory is present; if not, an access faults.
pub const PRESENT: usize = 0x1;
/// The memory is readable.
pub const READ: usize = 0x2;
/// The memory is writable.
pub const WRITE: usize = 0x4;
/// The memory is executable.
pub const EXECUTE: usize = 0x8;
/// The memory is accessible from user mode.
pub const USER: usize = 0x10;
/// The memory is not cached.
pub const UNCACHED: usize = 0x20;
/// The translation is global: not invalidated on a switch of address space.
pub const GLOBAL: usize = 0x40;
/// Every mapping flag.
pub const ALL_MAPPING_FLAGS: usize = 0x7f;

/// Entry bit: present.
pub const PTE_P: usize = 0x1;
/// Entry bit: writable.
pub const PTE_RW: usize = 0x2;
/// Entry bit: accessible from user mode.
pub const PTE_US: usize = 0x4;
/// Entry bit: write-through caching.
pub const PTE_PWT: usize = 0x8;
/// Entry bit: caching disabled.
pub const PTE_PCD: usize = 0x10;
/// Entry bit: the entry maps a large page rather than a page table.
pub const PTE_PS: usize = 0x80;
/// Entry bit: global translation.
pub const PTE_G: usize = 0x100;
/// Every entry flag bit.
pub const ALL_PTE_FLAGS: usize = 0x19f;

/// A set of mapping flags, made of the bits above.
#[derive(Clone, Copy, Debug, PartialEq, Eq, Structural, Hash)]
pub struct MappingFlags {
    pub bits: usize,
}

/// A set of x86 page-table entry flag bits.
#[derive(Clone, Copy, Debug, PartialEq, Eq, Structural, Hash)]
pub struct PTEFlags {
    pub bits: usize,
}

/// The entry bits that a set of mapping flags translates to. Execution
/// cannot be forbidden by a 32-bit entry, so the execute flag has no bit,
/// and readability is implied by presence.
pub open spec fn pte_bits_of(m: usize) -> usize {
    (m & 0x1) | ((m & 0x4) >> 1usize) | ((m & 0x10) >> 2usize) | ((m & 0x20) >> 1usize) | ((m
        & 0x40) << 2usize)
}

/// The mapping flags that a set of entry bits reads back as.
pub open spec fn mapping_bits_of(f: usize) -> usize {
    (f & 0x1) | ((f & 0x1) << 1usize) | ((f & 0x2) << 1usize) | ((f & 0x4) << 2usize) | ((f
        & 0x10) << 1usize) | ((f & 0x100) >> 2usize)
}

/// Mapping flags that an x86 entry can hold exactly: no execute flag, no
/// unknown bit, and readable exactly when present.
pub open spec fn representable(m: usize) -> bool {
    &&& m & !0x77usize == 0
    &&& (m & 0x1 == 0) == (m & 0x2 == 0)
}

impl MappingFlags {
    /// The empty set.
    pub fn empty() -> (r: MappingFlags)
        ensures
            r.bits == 0,
    {
        MappingFlags { bits: 0 }
    }

    /// The set of the known flags among `bits`.
    pub fn from_bits_truncate(bits: usize) -> (r: MappingFlags)
        ensures
            r.bits == bits & ALL_MAPPING_FLAGS,
    {
        MappingFlags { bits: bits & ALL_MAPPING_FLAGS }
    }

    pub fn bits(self) -> (r: usize)
        ensures
            r == self.bits,
    {
        self.bits
    }

    /// Whether every flag of `other` is in this set.
    pub fn contains(self, other: MappingFlags) -> (r: bool)
        ensures
            r == (self.bits & other.bits == other.bits),
    {
        self.bits & other.bits == other.bits
    }

    /// The flags of both sets.
    pub fn union(self, other: MappingFlags) -> (r: MappingFlags)
        ensures
            r.bits == self.bits | other.bits,
    {
        MappingFlags { bits: self.bits | other.bits }
    }

    /// Whether the present flag is set.
    pub fn is_present(self) -> (r: bool)
        ensures
            r == (self.bits & PRESENT != 0),
    {
        self.bits & PRESENT != 0
    }

    /// The mapping flags that entry flags read back as.
    pub fn from_pte(f: PTEFlags) -> (r: MappingFlags)
        ensures
            r.bits == mapping_bits_of(f.bits),
    {
        let b = f.bits;
        MappingFlags {
            bits: (b & 0x1) | ((b & 0x1) << 1usize) | ((b & 0x2) << 1usize) | ((b & 0x4) << 2usize)
                | ((b & 0x10) << 1usize) | ((b & 0x100) >> 2usize),
        }
    }
}

impl PTEFlags {
    /// The entry flags that mapping flags translate to.
    pub fn from_mapping(m: MappingFlags) -> (r: PTEFlags)
        ensures
            r.bits == pte_bits_of(m.bits),
    {
        let b = m.bits;
        PTEFlags {
            bits: (b & 0x1) | ((b & 0x4) >> 1usize) | ((b & 0x10) >> 2usize) | ((b & 0x20) >> 1usize)
                | ((b & 0x40) << 2usize),
        }
    }

    /// The set of the known entry bits among `bits`.
    pub fn from_bits_truncate(bits: usize) -> (r: PTEFlags)
        ensures
            r.bits == bits & ALL_PTE_FLAGS,
    {
        PTEFlags { bits: bits & ALL_PTE_FLAGS }
    }

    /// Whether every bit of `other` is set here.
    pub fn contains(self, other: PTEFlags) -> (r: bool)
        ensures
            r == (self.bits & other.bits == other.bits),
    {
        self.bits & other.bits == other.bits
    }
}

/// Translated entry flags use only the low entry flag bits, never the
/// large-page bit.
pub proof fn lemma_pte_bits_bounded(m: usize)
    ensures
        pte_bits_of(m) & !0x117usize == 0,
        pte_bits_of(m) & 0x80 == 0,
        pte_bits_of(m) & 0x1 == m & 0x1,
{
    assert(pte_bits_of(m) & !0x117usize == 0) by (bit_vector);
    assert(pte_bits_of(m) & 0x80 == 0) by (bit_vector);
    assert(pte_bits_of(m) & 0x1 == m & 0x1) by (bit_vector);
}

/// Writing representable flags into an entry and reading them back, with
/// or without the large-page bit, gives the same flags.
pub proof fn lemma_flags_round_trip(m: usize)
    requires
        representable(m),
    ensures
        mapping_bits_of(pte_bits_of(m)) == m,
        mapping_bits_of(pte_bits_of(m) | 0x80) == m,
{
    assert(m & !0x77usize == 0 && ((m & 0x1 == 0) == (m & 0x2 == 0)) ==> mapping_bits_of(
        pte_bits_of(m),
    ) == m) by (bit_vector);
    assert(m & !0x77usize == 0 && ((m & 0x1 == 0) == (m & 0x2 == 0)) ==> mapping_bits_of(
        pte_bits_of(m) | 0x80,
    ) == m) by (bit_vector);
}

} // verus!
