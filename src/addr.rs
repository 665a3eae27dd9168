//! Physical and virtual addresses, kept apart by type, with alignment.
use vstd::prelude::*;

verus! {

/// `x` rounded down to a multiple of `align`.
pub open spec fn align_down_spec(x: int, align: int) -> int {
    x - x % align
}

/// `x` rounded up to a multiple of `align`.
pub open spec fn align_up_spec(x: int, align: int) -> int {
    if x % align == 0 {
        x
    } else {
        x - x % align + align
    }
}

/// `x` rounded down to a multiple of `align`.
pub fn align_down(x: usize, align: usize) -> (r: usize)
    requires
        align > 0,
    ensures
        r == align_down_spec(x as int, align as int),
        r <= x,
        r % align == 0,
{
    proof {
        vstd::arithmetic::div_mod::lemma_fundamental_div_mod(x as int, align as int);
        vstd::arithmetic::div_mod::lemma_mod_multiples_basic((x / align) as int, align as int);
        vstd::arithmetic::mul::lemma_mul_is_commutative((x / align) as int, align as int);
    }
    x - x % align
}

/// `x` rounded up to a multiple of `align`; the result must fit in a `usize`.
pub fn align_up(x: usize, align: usize) -> (r: usize)
    requires
        align > 0,
        align_up_spec(x as int, align as int) <= usize::MAX,
    ensures
        r == align_up_spec(x as int, align as int),
        r >= x,
        r % align == 0,
{
    proof {
        vstd::arithmetic::div_mod::lemma_fundamental_div_mod(x as int, align as int);
        vstd::arithmetic::div_mod::lemma_mod_multiples_basic((x / align) as int, align as int);
        vstd::arithmetic::div_mod::lemma_mod_multiples_basic((x / align) as int + 1, align as int);
        vstd::arithmetic::mul::lemma_mul_is_commutative((x / align) as int, align as int);
        vstd::arithmetic::mul::lemma_mul_is_distributive_add_other_way(align as int, (x / align) as int, 1);
    }
    let m = x % align;
    if m == 0 {
        x
    } else {
        x - m + align
    }
}

/// `x` rounded up to a multiple of `align`, or `None` when that does not
/// fit in a `usize`.
pub fn checked_align_up(x: usize, align: usize) -> (r: Option<usize>)
    requires
        align > 0,
    ensures
        r matches Some(v) ==> v == align_up_spec(x as int, align as int) && v % align == 0 && v >= x,
        r is None <==> align_up_spec(x as int, align as int) > usize::MAX,
{
    let m = x % align;
    if m == 0 {
        Some(x)
    } else if align_down(x, align) > usize::MAX - align {
        None
    } else {
        Some(align_up(x, align))
    }
}

/// A physical address.
#[derive(Clone, Copy, Debug, PartialEq, Eq, Structural, Hash)]
pub struct PhysAddr(pub usize);

/// A virtual address.
#[derive(Clone, Copy, Debug, PartialEq, Eq, Structural, Hash)]
pub struct VirtAddr(pub usize);

impl PhysAddr {
    pub fn from_usize(a: usize) -> (r: PhysAddr)
        ensures
            r.0 == a,
    {
        PhysAddr(a)
    }

    pub fn as_usize(self) -> (r: usize)
        ensures
            r == self.0,
    {
        self.0
    }

    /// Whether the address is a multiple of `align`.
    pub fn is_aligned(self, align: usize) -> (r: bool)
        requires
            align > 0,
        ensures
            r == (self.0 % align == 0),
    {
        self.0 % align == 0
    }

    pub fn align_down(self, align: usize) -> (r: PhysAddr)
        requires
            align > 0,
        ensures
            r.0 == align_down_spec(self.0 as int, align as int),
    {
        PhysAddr(align_down(self.0, align))
    }

    pub fn align_up(self, align: usize) -> (r: PhysAddr)
        requires
            align > 0,
            align_up_spec(self.0 as int, align as int) <= usize::MAX,
        ensures
            r.0 == align_up_spec(self.0 as int, align as int),
    {
        PhysAddr(align_up(self.0, align))
    }
}

impl VirtAddr {
    pub fn from_usize(a: usize) -> (r: VirtAddr)
        ensures
            r.0 == a,
    {
        VirtAddr(a)
    }

    pub fn as_usize(self) -> (r: usize)
        ensures
            r == self.0,
    {
        self.0
    }

    /// Whether the address is a multiple of `align`.
    pub fn is_aligned(self, align: usize) -> (r: bool)
        requires
            align > 0,
        ensures
            r == (self.0 % align == 0),
    {
        self.0 % align == 0
    }

    pub fn align_down(self, align: usize) -> (r: VirtAddr)
        requires
            align > 0,
        ensures
            r.0 == align_down_spec(self.0 as int, align as int),
    {
        VirtAddr(align_down(self.0, align))
    }

    pub fn align_up(self, align: usize) -> (r: VirtAddr)
        requires
            align > 0,
            align_up_spec(self.0 as int, align as int) <= usize::MAX,
        ensures
            r.0 == align_up_spec(self.0 as int, align as int),
    {
        VirtAddr(align_up(self.0, align))
    }
}

} // verus!
