//! Per-frame bookkeeping.
use vstd::prelude::*;
use crate::addr::PhysAddr;
use crate::boot::{EarlyPageAllocator, early_alloc_page, page_is_free};
use crate::page_size::{PageSize, page_bytes};

verus! {

/// What the kernel records of one physical page: how many users it has.
#[derive(Clone, Copy, Debug, PartialEq, Eq, Structural)]
pub struct PageInfo {
    pub uses: u32,
}

impl PageInfo {
    /// Marks the page unused.
    pub fn reset(&mut self)
        ensures
            final(self).uses == 0,
    {
        self.uses = 0;
    }

    /// Takes an unused page: succeeds, giving it one user, only when it had
    /// none.
    pub fn acquire(&mut self) -> (r: bool)
        ensures
            r == (old(self).uses == 0),
            r ==> final(self).uses == 1,
            !r ==> final(self).uses == old(self).uses,
    {
        if self.uses == 0 {
            self.uses = 1;
            true
        } else {
            false
        }
    }
}

/// Takes a page: from the early allocator while the page information
/// table is empty, else the first unused page of the table, which it marks
/// used. Returns `None` when no page is left.
pub fn alloc_page(table: &mut Vec<PageInfo>, early: &mut EarlyPageAllocator, page_size: PageSize) -> (r:
    Option<PhysAddr>)
    requires
        old(table)@.len() * 0x1000 <= usize::MAX,
    ensures
        old(table)@.len() == 0 ==> final(table)@ == old(table)@ && (r matches Some(a) ==> page_is_free(
            *old(early),
            a.0 as int,
            page_bytes(page_size) as int,
        ) && a.0 >= old(early).alloc_start),
        old(table)@.len() == 0 ==> (r is None ==> forall|b: int|
            old(early).alloc_start <= b && b + page_bytes(page_size) <= usize::MAX && b
                % page_bytes(page_size) as int == 0 ==> !#[trigger] page_is_free(
                *old(early),
                b,
                page_bytes(page_size) as int,
            )),
        old(table)@.len() == 0 ==> (r matches Some(a) ==> a.0 as int % page_bytes(page_size) as int == 0
            && forall|b: int|
            old(early).alloc_start <= b < a.0 && b % page_bytes(page_size) as int == 0 ==> !#[trigger] page_is_free(
                *old(early),
                b,
                page_bytes(page_size) as int,
            )),
        old(table)@.len() > 0 ==> *final(early) == *old(early),
        old(table)@.len() > 0 ==> (r matches Some(a) ==> exists|i: int|
            0 <= i < old(table)@.len() && a.0 == i * 0x1000 && old(table)@[i].uses == 0
                && final(table)@ == old(table)@.update(i, PageInfo { uses: 1 }) && forall|j: int|
                0 <= j < i ==> #[trigger] old(table)@[j].uses != 0),
        old(table)@.len() > 0 ==> (r is None <==> forall|j: int|
            0 <= j < old(table)@.len() ==> #[trigger] old(table)@[j].uses != 0),
        r is None ==> final(table)@ == old(table)@,
{
    if table.len() == 0 {
        return early_alloc_page(early, page_size);
    }
    let mut i: usize = 0;
    while i < table.len()
        invariant
            table@ == old(table)@,
            *early == *old(early),
            i <= table@.len(),
            table@.len() * 0x1000 <= usize::MAX,
            forall|j: int| 0 <= j < i ==> #[trigger] table@[j].uses != 0,
        decreases table@.len() - i,
    {
        let mut info = table[i];
        if info.acquire() {
            table.set(i, info);
            proof {
                assert(i * 0x1000 <= table@.len() * 0x1000) by (nonlinear_arith)
                    requires i < table@.len();
            }
            proof {
                let ii = i as int;
                assert(old(table)@[ii].uses == 0);
                assert(table@ == old(table)@.update(ii, PageInfo { uses: 1 }));
                assert(0 <= ii < old(table)@.len() && (i * 0x1000) as int == ii * 0x1000);
            }
            return Some(PhysAddr(i * 0x1000));
        }
        i = i + 1;
    }
    None
}

} // verus!
