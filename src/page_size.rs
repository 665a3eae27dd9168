//! The page sizes that a 32-bit x86 page table can map directly.
use vstd::prelude::*;

verus! {

/// A page size supported by the hardware: 4 KiB pages are mapped by the
/// last level, 4 MiB pages directly by the page directory.
#[derive(Clone, Copy, Debug, PartialEq, Eq, Structural, Hash)]
pub enum PageSize {
    Size4K,
    Size4M,
}

/// Byte count of a page of 4 KiB.
pub const SIZE_4K: usize = 0x1000;

/// Byte count of a page of 4 MiB.
pub const SIZE_4M: usize = 0x400000;

/// Byte count of a page size.
pub open spec fn page_bytes(p: PageSize) -> nat {
    match p {
        PageSize::Size4K => 0x1000,
        PageSize::Size4M => 0x400000,
    }
}

/// The page size whose byte count is `n`, if there is one.
pub open spec fn page_of_bytes(n: int) -> Option<PageSize> {
    if n == 0x1000 {
        Some(PageSize::Size4K)
    } else if n == 0x400000 {
        Some(PageSize::Size4M)
    } else {
        None
    }
}

/// Types that hold only valid page sizes; `min` is the smallest of them.
pub trait PageSizeTrait: Sized {
    fn min() -> Self;
}

impl PageSizeTrait for PageSize {
    fn min() -> (r: Self)
        ensures
            r == PageSize::Size4K,
    {
        PageSize::Size4K
    }
}

impl PageSize {
    /// The page size with `size` bytes; every other byte count is rejected.
    pub fn try_from(size: usize) -> (r: Result<PageSize, ()>)
        ensures
            r matches Ok(p) ==> page_of_bytes(size as int) == Some(p),
            r is Err <==> page_of_bytes(size as int) is None,
    {
        if size == SIZE_4K {
            Ok(PageSize::Size4K)
        } else if size == SIZE_4M {
            Ok(PageSize::Size4M)
        } else {
            Err(())
        }
    }

    /// The number of bytes in a page of this size.
    pub fn bytes(self) -> (r: usize)
        ensures
            r as nat == page_bytes(self),
    {
        match self {
            PageSize::Size4K => SIZE_4K,
            PageSize::Size4M => SIZE_4M,
        }
    }

    /// Number of low virtual-address bits that one page of this size covers.
    pub fn shift(self) -> (r: usize)
        ensures
            r == 12 || r == 22,
            pow2(r as nat) == page_bytes(self),
    {
        proof {
            lemma_pow2_page_shifts();
        }
        match self {
            PageSize::Size4K => 12,
            PageSize::Size4M => 22,
        }
    }
}

impl From<PageSize> for usize {
    fn from(p: PageSize) -> (r: usize)
        ensures
            r as nat == page_bytes(p),
    {
        p.bytes()
    }
}

impl vstd::std_specs::convert::FromSpecImpl<PageSize> for usize {
    open spec fn obeys_from_spec() -> bool {
        true
    }

    open spec fn from_spec(p: PageSize) -> usize {
        page_bytes(p) as usize
    }
}

/// Two to the power `n`.
pub open spec fn pow2(n: nat) -> nat
    decreases n,
{
    if n == 0 {
        1
    } else {
        2 * pow2((n - 1) as nat)
    }
}

/// The two page shifts give the two page byte counts.
pub proof fn lemma_pow2_page_shifts()
    ensures
        pow2(12) == 0x1000,
        pow2(22) == 0x400000,
{
    reveal_with_fuel(pow2, 23);
}

/// Converting a page size to its byte count and back yields the same page
/// size, and a byte count that is no page size is rejected.
pub proof fn lemma_page_size_round_trip(p: PageSize, n: int)
    ensures
        page_of_bytes(page_bytes(p) as int) == Some(p),
        page_of_bytes(n) matches Some(q) ==> page_bytes(q) == n,
        (n != 0x1000 && n != 0x400000) ==> page_of_bytes(n) is None,
{
}

} // verus!
