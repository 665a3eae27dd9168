//! What the page-table code needs from a frame allocator.
use vstd::prelude::*;
use crate::addr::PhysAddr;
use crate::page_size::{PageSize, page_bytes};

verus! {

/// A frame allocator: hands out and takes back frames of a page size.
pub trait PageAllocatorTrait {
    /// The allocator's own consistency condition, kept by every call.
    spec fn inv(&self) -> bool;

    /// The frames handed out and not yet returned, as (start, length).
    spec fn outstanding(&self) -> Seq<(usize, usize)>;

    /// The frame that the next request for a page of `size` gets, if any.
    spec fn next_frame(&self, size: PageSize) -> Option<int>;

    /// A frame of `size` bytes, or `None` when none is left.
    fn alloc_page(&mut self, size: PageSize) -> (r: Option<PhysAddr>)
        requires
            old(self).inv(),
        ensures
            final(self).inv(),
            r is None <==> old(self).next_frame(size) is None,
            r matches Some(a) ==> old(self).next_frame(size) == Some(a.0 as int),
            r matches Some(a) ==> final(self).outstanding() == old(self).outstanding().push(
                (a.0, page_bytes(size) as usize),
            ),
            r is None ==> final(self).outstanding() == old(self).outstanding(),
    ;

    /// Returns a frame of `size` bytes at `allocation`; a frame that is not
    /// outstanding changes nothing.
    fn free_page(&mut self, allocation: PhysAddr, size: PageSize)
        requires
            old(self).inv(),
        ensures
            final(self).inv(),
            old(self).outstanding().contains((allocation.0, page_bytes(size) as usize)) ==> exists|k: int|
                0 <= k < old(self).outstanding().len() && old(self).outstanding()[k] == (
                    allocation.0,
                    page_bytes(size) as usize,
                ) && final(self).outstanding() == old(self).outstanding().remove(k),
            !old(self).outstanding().contains((allocation.0, page_bytes(size) as usize))
                ==> final(self).outstanding() == old(self).outstanding(),
    ;
}

} // verus!
