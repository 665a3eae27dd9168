//! Zoned frame allocator: physical memory is registered as zones whose
//! sizes are powers of two, and allocations are served first-fit across the
//! zones in the order they were registered.
use vstd::prelude::*;
use crate::addr::PhysAddr;
use crate::page_allocator::PageAllocatorTrait;
use crate::page_size::{PageSize, page_bytes};

verus! {

/// Registering a zone failed.
#[derive(Clone, Copy, Debug, PartialEq, Eq, Structural)]
pub struct AllocError;

/// Whether `n` is a power of two.
pub open spec fn is_pow2(n: int) -> bool
    decreases n,
{
    if n <= 0 {
        false
    } else if n == 1 {
        true
    } else {
        n % 2 == 0 && is_pow2(n / 2)
    }
}

/// The largest power of two that is at most `n` (for `n >= 1`).
pub open spec fn top_pow2(n: int) -> int
    decreases n,
{
    if n < 2 {
        1
    } else {
        2 * top_pow2(n / 2)
    }
}

/// The zones that a region is registered as: the largest power of two that
/// fits first, then the rest of the region in the same way. Their sizes are
/// the set bits of `size`, largest first.
pub open spec fn pieces(start: int, size: int) -> Seq<(int, int)>
    decreases size,
{
    if size <= 0 || top_pow2(size) < 1 || top_pow2(size) > size {
        Seq::empty()
    } else {
        seq![(start, top_pow2(size))] + pieces(start + top_pow2(size), size - top_pow2(size))
    }
}

/// Zones with the given (start, size) pairs.
pub open spec fn zone_list(s: Seq<(int, int)>) -> Seq<Zone> {
    s.map_values(|p: (int, int)| Zone { start: p.0 as usize, size: p.1 as usize })
}

/// Two byte ranges given by start and length do not overlap.
pub open spec fn disjoint(a: (usize, usize), b: (usize, usize)) -> bool {
    a.0 + a.1 <= b.0 || b.0 + b.1 <= a.0
}

/// Sum of the lengths of a sequence of ranges.
pub open spec fn sum_sizes(s: Seq<(usize, usize)>) -> int
    decreases s.len(),
{
    if s.len() == 0 {
        0
    } else {
        sum_sizes(s.drop_last()) + s.last().1
    }
}

/// One registered zone: a contiguous range of physical memory.
#[derive(Clone, Copy, Debug, PartialEq, Eq, Structural)]
pub struct Zone {
    pub start: usize,
    pub size: usize,
}

/// Sum of the sizes of a sequence of zones.
pub open spec fn sum_zones(s: Seq<Zone>) -> int
    decreases s.len(),
{
    if s.len() == 0 {
        0
    } else {
        sum_zones(s.drop_last()) + s.last().size
    }
}

/// Zone-based allocator of physical frames; `BLOCK_SIZE` is the granularity
/// of every zone, allocation and free.
pub struct ZonedBuddy<const BLOCK_SIZE: usize> {
    zones: Vec<Zone>,
    live: Vec<(usize, usize)>,
    allocated: usize,
}

impl<const BLOCK_SIZE: usize> ZonedBuddy<BLOCK_SIZE> {
    /// The registered zones, in registration order.
    pub closed spec fn zones(&self) -> Seq<Zone> {
        self.zones@
    }

    /// The outstanding allocations, as (start, length), oldest first.
    pub closed spec fn live(&self) -> Seq<(usize, usize)> {
        self.live@
    }

    /// Bytes managed by the allocator.
    pub open spec fn spec_total(&self) -> int {
        sum_zones(self.zones())
    }

    /// Bytes currently allocated.
    pub open spec fn spec_allocated(&self) -> int {
        sum_sizes(self.live())
    }

    /// Where the next allocation of `size` bytes is placed, if anywhere:
    /// nowhere when the allocator is full, else first fit over the zones in
    /// registration order.
    pub open spec fn spec_next(&self, size: int) -> Option<int> {
        if size > self.spec_total() - self.spec_allocated() {
            None
        } else {
            first_fit(self.zones(), self.live(), size, 0)
        }
    }

    pub closed spec fn wf(&self) -> bool {
        &&& self.allocated == sum_sizes(self.live@)
        &&& sum_zones(self.zones@) <= usize::MAX
        &&& self.allocated <= sum_zones(self.zones@)
        &&& forall|i: int| 0 <= i < self.zones@.len() ==> #[trigger] self.zones@[i].start
            + self.zones@[i].size <= usize::MAX
        &&& forall|i: int| 0 <= i < self.live@.len() ==> #[trigger] self.live@[i].0
            + self.live@[i].1 <= usize::MAX
        &&& forall|i: int| 0 <= i < self.live@.len() ==> in_some_zone(self.zones@, #[trigger] self.live@[i])
        &&& forall|i: int|
            0 <= i < self.zones@.len() ==> (#[trigger] self.zones@[i]).start % BLOCK_SIZE == 0
                && self.zones@[i].size % BLOCK_SIZE == 0
        &&& forall|i: int|
            0 <= i < self.live@.len() ==> (#[trigger] self.live@[i]).0 % BLOCK_SIZE == 0
                && self.live@[i].1 % BLOCK_SIZE == 0
        &&& forall|i: int, j: int|
            0 <= i < self.live@.len() && 0 <= j < self.live@.len() && i != j ==> disjoint(
                #[trigger] self.live@[i],
                #[trigger] self.live@[j],
            )
    }

    /// An allocator with no zones.
    pub fn new() -> (r: Self)
        ensures
            r.wf(),
            r.zones() == Seq::<Zone>::empty(),
            r.live() == Seq::<(usize, usize)>::empty(),
    {
        ZonedBuddy { zones: Vec::new(), live: Vec::new(), allocated: 0 }
    }

    /// Registers the region `[start, start + size)`. A size that is not a
    /// power of two is split into zones whose sizes are its set bits,
    /// largest first. Fails, registering nothing, when the region passes
    /// the end of the address space or the total would not fit a `usize`.
    pub fn add_zone(&mut self, start: usize, size: usize) -> (r: Result<(), AllocError>)
        requires
            old(self).wf(),
            is_pow2(BLOCK_SIZE as int),
            start % BLOCK_SIZE == 0,
            size % BLOCK_SIZE == 0,
        ensures
            final(self).wf(),
            final(self).live() == old(self).live(),
            r is Err <==> (start + size > usize::MAX || old(self).spec_total() + size
                > usize::MAX),
            r is Err ==> final(self).zones() == old(self).zones(),
            r is Ok ==> final(self).zones() == old(self).zones() + zone_list(
                pieces(start as int, size as int),
            ),
    {
        if start > usize::MAX - size {
            return Err(AllocError);
        }
        let total = self.total_memory();
        if total > usize::MAX - size {
            return Err(AllocError);
        }
        let ghost old_zones = self.zones@;
        let mut cur: usize = start;
        let mut rem: usize = size;
        while rem > 0
            invariant
                self.wf(),
                self.live@ == old(self).live@,
                cur + rem == start + size,
                start <= cur,
                start + size <= usize::MAX,
                sum_zones(self.zones@) + rem == total + size,
                total == sum_zones(old_zones),
                total + size <= usize::MAX,
                old_zones + zone_list(pieces(start as int, size as int)) == self.zones@
                    + zone_list(pieces(cur as int, rem as int)),
                is_pow2(BLOCK_SIZE as int),
                cur % BLOCK_SIZE == 0,
                rem % BLOCK_SIZE == 0,
            decreases rem,
        {
            let p = top_power_of_two(rem);
            proof {
                lemma_pow2_pos(BLOCK_SIZE as int);
                lemma_top_pow2_bounds(rem as int);
                assert(rem >= BLOCK_SIZE) by {
                    vstd::arithmetic::div_mod::lemma_fundamental_div_mod(rem as int, BLOCK_SIZE as int);
                    if rem < BLOCK_SIZE {
                        vstd::arithmetic::div_mod::lemma_small_mod(rem as nat, BLOCK_SIZE as nat);
                    }
                }
                lemma_pow2_le_top(BLOCK_SIZE as int, rem as int);
                lemma_pow2_divides(p as int, BLOCK_SIZE as int);
                vstd::arithmetic::div_mod::lemma_add_mod_noop(cur as int, p as int, BLOCK_SIZE as int);
                vstd::arithmetic::div_mod::lemma_sub_mod_noop(rem as int, p as int, BLOCK_SIZE as int);
                vstd::arithmetic::div_mod::lemma_small_mod(0, BLOCK_SIZE as nat);
                assert((cur + p) as int % BLOCK_SIZE as int == 0);
                assert((rem - p) as int % BLOCK_SIZE as int == 0);
                let z = Zone { start: cur, size: p };
                let rest = pieces(cur + p, rem - p);
                assert(pieces(cur as int, rem as int) == seq![(cur as int, p as int)] + rest);
                assert(zone_list(seq![(cur as int, p as int)] + rest) =~= seq![z] + zone_list(rest));
                assert(self.zones@.push(z) + zone_list(rest) =~= self.zones@ + (seq![z] + zone_list(
                    rest,
                )));
                assert(self.zones@.push(z).drop_last() =~= self.zones@);
            }
            self.zones.push(Zone { start: cur, size: p });
            cur = cur + p;
            rem = rem - p;
        }
        proof {
            assert(pieces(cur as int, 0) =~= Seq::<(int, int)>::empty());
            assert(zone_list(Seq::<(int, int)>::empty()) =~= Seq::<Zone>::empty());
            assert(self.zones@ + Seq::<Zone>::empty() =~= self.zones@);
        }
        Ok(())
    }

    /// Allocates `size` bytes from the first zone, in registration order,
    /// that has room for them, and returns their start. The bytes lie in that
    /// zone and overlap no outstanding allocation. Returns `None`, changing
    /// nothing, when no zone has room: then every zone large enough already
    /// has an allocation at its start, or the allocator is full.
    pub fn allocate(&mut self, size: usize) -> (r: Option<PhysAddr>)
        requires
            old(self).wf(),
            BLOCK_SIZE > 0,
            size % BLOCK_SIZE == 0,
        ensures
            final(self).wf(),
            final(self).zones() == old(self).zones(),
            r matches Some(a) ==> a.0 % BLOCK_SIZE == 0,
            r is None <==> old(self).spec_next(size as int) is None,
            r matches Some(a) ==> old(self).spec_next(size as int) == Some(a.0 as int),
            r matches Some(a) ==> final(self).live() == old(self).live().push((a.0, size)),
            r is Some ==> final(self).spec_allocated() == old(self).spec_allocated() + size,
            r matches Some(a) ==> exists|i: int|
                0 <= i < old(self).zones().len() && #[trigger] old(self).zones()[i].start <= a.0
                    && a.0 + size <= old(self).zones()[i].start + old(self).zones()[i].size,
            r matches Some(a) ==> forall|k: int|
                0 <= k < old(self).live().len() ==> disjoint(
                    #[trigger] old(self).live()[k],
                    (a.0, size),
                ),
            r is None ==> final(self).live() == old(self).live(),
            r is None ==> (old(self).spec_allocated() + size > old(self).spec_total() || forall|
                i: int,
                c: int,
            |
                0 <= i < old(self).zones().len() ==> !#[trigger] cand_ok(
                    old(self).zones()[i],
                    old(self).live(),
                    size as int,
                    c,
                )),
            r is None ==> (old(self).spec_allocated() + size > old(self).spec_total() || forall|
                i: int,
            |
                0 <= i < old(self).zones().len() && size <= #[trigger] old(self).zones()[i].size
                    ==> !no_overlap(old(self).live(), old(self).zones()[i].start as int, size as int)),
    {
        let total = self.total_memory();
        if size > total - self.allocated {
            return None;
        }
        proof {
            if first_fit(self.zones@, self.live@, size as int, 0) is None {
                lemma_first_fit_none(self.zones@, self.live@, size as int, 0);
            }
        }
        let mut i: usize = 0;
        while i < self.zones.len()
            invariant
                self.wf(),
                self.zones@ == old(self).zones@,
                self.live@ == old(self).live@,
                self.allocated + size <= total,
                total == sum_zones(self.zones@),
                i <= self.zones@.len(),
                old(self).spec_next(size as int) == first_fit(self.zones@, self.live@, size as int, i as int),
                BLOCK_SIZE > 0,
                size % BLOCK_SIZE == 0,
                forall|j: int|
                    0 <= j < i && size <= #[trigger] self.zones@[j].size ==> !no_overlap(
                        self.live@,
                        self.zones@[j].start as int,
                        size as int,
                    ),
            decreases self.zones@.len() - i,
        {
            let z = self.zones[i];
            if size <= z.size {
                let last = z.start + (z.size - size);
                let mut cand: usize = z.start;
                let mut found = fits(&self.live, cand, size);
                let mut j: usize = 0;
                while !found && j < self.live.len()
                    invariant
                        self.wf(),
                        i < self.zones@.len(),
                        z == self.zones@[i as int],
                        z.start + z.size <= usize::MAX,
                        last == z.start + z.size - size,
                        z.start <= cand <= last,
                        cand % BLOCK_SIZE == 0,
                        BLOCK_SIZE > 0,
                        size % BLOCK_SIZE == 0,
                        j <= self.live@.len(),
                        found == no_overlap(self.live@, cand as int, size as int),
                        !found ==> !no_overlap(self.live@, z.start as int, size as int),
                        !found ==> zone_pick(z, self.live@, size as int) == pick_from(z, self.live@, size as int, j as int),
                        found ==> zone_pick(z, self.live@, size as int) == Some(cand as int),
                    decreases self.live@.len() - j,
                {
                    let e = self.live[j];
                    proof {
                        assert(e == self.live@[j as int]);
                        vstd::arithmetic::div_mod::lemma_add_mod_noop(e.0 as int, e.1 as int, BLOCK_SIZE as int);
                        vstd::arithmetic::div_mod::lemma_small_mod(0, BLOCK_SIZE as nat);
                    }
                    if e.1 <= usize::MAX - e.0 {
                        let c = e.0 + e.1;
                        if z.start <= c && c <= last {
                            if fits(&self.live, c, size) {
                                cand = c;
                                found = true;
                            }
                        }
                    }
                    j = j + 1;
                }
                if found {
                    proof {
                        assert(first_fit(self.zones@, self.live@, size as int, i as int) == Some(cand as int));
                        let old_live = self.live@;
                        let new_live = old_live.push((cand, size));
                        assert(new_live.drop_last() =~= old_live);
                        assert forall|x: int, y: int|
                            0 <= x < new_live.len() && 0 <= y < new_live.len() && x != y
                                implies disjoint(#[trigger] new_live[x], #[trigger] new_live[y]) by {
                            if x < old_live.len() && y < old_live.len() {
                                assert(new_live[x] == old_live[x] && new_live[y] == old_live[y]);
                            } else if x < old_live.len() {
                                assert(disjoint(old_live[x], (cand, size)));
                            } else {
                                assert(disjoint(old_live[y], (cand, size)));
                            }
                        }
                    }
                    proof {
                        assert(self.live@.push((cand, size)).drop_last() =~= self.live@);
                        let zi = old(self).zones()[i as int];
                        assert(zi == z);
                        assert(zi.start <= cand && cand + size <= zi.start + zi.size);
                        assert(0 <= i < old(self).zones().len());
                    }
                    self.live.push((cand, size));
                    self.allocated = self.allocated + size;
                    return Some(PhysAddr(cand));
                }
            }
            i = i + 1;
        }
        None
    }

    /// Returns the allocation of `size` bytes at `allocation`. If no such
    /// allocation is outstanding, nothing changes.
    pub fn free(&mut self, allocation: PhysAddr, size: usize)
        requires
            old(self).wf(),
        ensures
            final(self).wf(),
            final(self).zones() == old(self).zones(),
            old(self).live().contains((allocation.0, size)) ==> exists|k: int|
                0 <= k < old(self).live().len() && old(self).live()[k] == (allocation.0, size)
                    && final(self).live() == old(self).live().remove(k),
            !old(self).live().contains((allocation.0, size)) ==> final(self).live() == old(
                self,
            ).live(),
            old(self).live().contains((allocation.0, size)) ==> final(self).spec_allocated()
                == old(self).spec_allocated() - size,
    {
        let start = allocation.0;
        let mut j: usize = 0;
        while j < self.live.len()
            invariant
                self.wf(),
                self.zones@ == old(self).zones@,
                self.live@ == old(self).live@,
                j <= self.live@.len(),
                start == allocation.0,
                forall|k: int| 0 <= k < j ==> #[trigger] self.live@[k] != (start, size),
            decreases self.live@.len() - j,
        {
            let e = self.live[j];
            if e.0 == start && e.1 == size {
                proof {
                    let old_live = self.live@;
                    let new_live = old_live.remove(j as int);
                    assert(old_live[j as int] == (start, size));
                    assert(old_live.contains((start, size)));
                    lemma_sum_sizes_remove(old_live, j as int);
                    lemma_sum_sizes_nonneg(new_live);
                    assert forall|x: int, y: int|
                        0 <= x < new_live.len() && 0 <= y < new_live.len() && x != y implies disjoint(
                            #[trigger] new_live[x],
                            #[trigger] new_live[y],
                        ) by {
                        let ox = if x < j { x } else { x + 1 };
                        let oy = if y < j { y } else { y + 1 };
                        assert(new_live[x] == old_live[ox] && new_live[y] == old_live[oy]);
                    }
                    assert forall|x: int| 0 <= x < new_live.len() implies #[trigger] new_live[x].0
                        + new_live[x].1 <= usize::MAX by {
                        let ox = if x < j { x } else { x + 1 };
                        assert(new_live[x] == old_live[ox]);
                    }
                }
                let ghost before = self.live@;
                self.live.remove(j);
                self.allocated = self.allocated - size;
                proof {
                    assert(before == old(self).live@);
                    assert(self.live@ == before.remove(j as int));
                    assert(old(self).live@[j as int] == (allocation.0, size));
                }
                return;
            }
            j = j + 1;
        }
        proof {
            assert(!self.live@.contains((start, size)));
        }
    }

    /// Number of registered zones.
    pub fn zone_count(&self) -> (r: usize)
        ensures
            r == self.zones().len(),
    {
        self.zones.len()
    }

    /// The zone registered `i`-th.
    pub fn zone(&self, i: usize) -> (r: Zone)
        requires
            i < self.zones().len(),
        ensures
            r == self.zones()[i as int],
    {
        self.zones[i]
    }

    /// Bytes managed by the allocator: the sum of the zone sizes.
    pub fn total_memory(&self) -> (r: usize)
        requires
            self.wf(),
        ensures
            r == self.spec_total(),
    {
        let mut sum: usize = 0;
        let mut i: usize = 0;
        while i < self.zones.len()
            invariant
                self.wf(),
                i <= self.zones@.len(),
                sum == sum_zones(self.zones@.subrange(0, i as int)),
            decreases self.zones@.len() - i,
        {
            proof {
                lemma_sum_zones_prefix(self.zones@, i as int);
                lemma_sum_zones_prefix_le(self.zones@, i as int + 1);
            }
            sum = sum + self.zones[i].size;
            i = i + 1;
        }
        proof {
            assert(self.zones@.subrange(0, i as int) =~= self.zones@);
        }
        sum
    }

    /// Bytes currently allocated: the sum of the outstanding allocations.
    pub fn allocated_memory(&self) -> (r: usize)
        requires
            self.wf(),
        ensures
            r == self.spec_allocated(),
            r <= self.spec_total(),
    {
        self.allocated
    }
}

/// Whether `[c, c + size)` lies in zone `z` and overlaps none of `live`.
pub open spec fn cand_ok(z: Zone, live: Seq<(usize, usize)>, size: int, c: int) -> bool {
    z.start <= c && c + size <= z.start + z.size && no_overlap(live, c, size)
}

/// The first end of an allocation, from the `j`-th on, at which `size`
/// bytes fit in zone `z`.
pub open spec fn pick_from(z: Zone, live: Seq<(usize, usize)>, size: int, j: int) -> Option<int>
    decreases live.len() - j,
{
    if j < 0 || j >= live.len() {
        None
    } else if cand_ok(z, live, size, live[j].0 + live[j].1) {
        Some(live[j].0 + live[j].1)
    } else {
        pick_from(z, live, size, j + 1)
    }
}

/// Where zone `z` places `size` bytes: at its start if they fit there,
/// else right after the first outstanding allocation they fit after.
pub open spec fn zone_pick(z: Zone, live: Seq<(usize, usize)>, size: int) -> Option<int> {
    if size > z.size {
        None
    } else if no_overlap(live, z.start as int, size) {
        Some(z.start as int)
    } else {
        pick_from(z, live, size, 0)
    }
}

/// The place of `size` bytes in the first zone, from the `i`-th on, that
/// has room for them.
pub open spec fn first_fit(zones: Seq<Zone>, live: Seq<(usize, usize)>, size: int, i: int) -> Option<int>
    decreases zones.len() - i,
{
    if i < 0 || i >= zones.len() {
        None
    } else {
        match zone_pick(zones[i], live, size) {
            Some(c) => Some(c),
            None => first_fit(zones, live, size, i + 1),
        }
    }
}

/// Whether the range `(a, size)` lies inside one of `zones`.
pub open spec fn in_some_zone(zones: Seq<Zone>, e: (usize, usize)) -> bool {
    exists|i: int| 0 <= i < zones.len() && #[trigger] zones[i].start <= e.0 && e.0 + e.1 <= zones[i].start + zones[i].size
}

/// Whether the range `[a, a + size)` overlaps none of `live`.
pub open spec fn no_overlap(live: Seq<(usize, usize)>, a: int, size: int) -> bool {
    forall|k: int|
        0 <= k < live.len() ==> (#[trigger] live[k]).0 + live[k].1 <= a || a + size <= live[k].0
}

/// Whether `[a, a + size)` overlaps none of the ranges in `live`.
fn fits(live: &Vec<(usize, usize)>, a: usize, size: usize) -> (r: bool)
    ensures
        r == no_overlap(live@, a as int, size as int),
{
    let mut k: usize = 0;
    while k < live.len()
        invariant
            k <= live@.len(),
            forall|x: int|
                0 <= x < k ==> (#[trigger] live@[x]).0 + live@[x].1 <= a || a + size <= live@[x].0,
        decreases live@.len() - k,
    {
        let e = live[k];
        let before = e.1 <= a && e.0 <= a - e.1;
        let after = size <= e.0 && a <= e.0 - size;
        if !before && !after {
            return false;
        }
        k = k + 1;
    }
    true
}

/// The allocated byte count is the sum of the lengths of the outstanding
/// allocations, and never exceeds the bytes the allocator manages.
pub proof fn lemma_allocated_accounting<const BLOCK_SIZE: usize>(b: &ZonedBuddy<BLOCK_SIZE>)
    requires
        b.wf(),
    ensures
        b.spec_allocated() == sum_sizes(b.live()),
        0 <= b.spec_allocated() <= b.spec_total(),
{
    lemma_sum_sizes_nonneg(b.live());
}

/// No two outstanding allocations overlap.
pub proof fn lemma_live_disjoint<const BLOCK_SIZE: usize>(b: &ZonedBuddy<BLOCK_SIZE>)
    requires
        b.wf(),
    ensures
        forall|i: int, j: int|
            0 <= i < b.live().len() && 0 <= j < b.live().len() && i != j ==> disjoint(
                #[trigger] b.live()[i],
                #[trigger] b.live()[j],
            ),
{
}

impl<const BLOCK_SIZE: usize> PageAllocatorTrait for ZonedBuddy<BLOCK_SIZE> {
    open spec fn inv(&self) -> bool {
        &&& self.wf()
        &&& BLOCK_SIZE > 0
        &&& 0x1000usize % BLOCK_SIZE == 0
        &&& 0x400000usize % BLOCK_SIZE == 0
    }

    open spec fn outstanding(&self) -> Seq<(usize, usize)> {
        self.live()
    }

    open spec fn next_frame(&self, size: PageSize) -> Option<int> {
        self.spec_next(page_bytes(size) as int)
    }

    fn alloc_page(&mut self, size: PageSize) -> (r: Option<PhysAddr>) {
        self.allocate(size.bytes())
    }

    fn free_page(&mut self, allocation: PhysAddr, size: PageSize) {
        self.free(allocation, size.bytes())
    }
}

/// The largest power of two that is at most `n`.
fn top_power_of_two(n: usize) -> (r: usize)
    requires
        n >= 1,
    ensures
        r == top_pow2(n as int),
        1 <= r <= n,
{
    let mut p: usize = 1;
    let mut m: usize = n;
    while m >= 2
        invariant
            m >= 1,
            p >= 1,
            p * top_pow2(m as int) == top_pow2(n as int),
            p * m <= n,
        decreases m,
    {
        proof {
            lemma_top_pow2_bounds(m as int);
            assert(p * 2 <= p * m) by (nonlinear_arith)
                requires m >= 2, p >= 1;
            assert(p * 2 * (m / 2) <= p * m) by (nonlinear_arith)
                requires m >= 2, p >= 1;
            assert(p * top_pow2(m as int) == (p * 2) * top_pow2(m as int / 2)) by (nonlinear_arith)
                requires top_pow2(m as int) == 2 * top_pow2(m as int / 2);
        }
        m = m / 2;
        p = p * 2;
    }
    proof {
        lemma_top_pow2_bounds(n as int);
    }
    p
}

/// The largest power of two under `n` is a power of two between `n / 2`
/// and `n`.
pub proof fn lemma_top_pow2_bounds(n: int)
    requires
        n >= 1,
    ensures
        1 <= top_pow2(n) <= n,
        n < 2 * top_pow2(n),
        is_pow2(top_pow2(n)),
        n >= 2 ==> top_pow2(n) == 2 * top_pow2(n / 2),
    decreases n,
{
    if n >= 2 {
        lemma_top_pow2_bounds(n / 2);
        let t = top_pow2(n / 2);
        assert((2 * t) % 2 == 0);
        assert((2 * t) / 2 == t);
    }
}

/// Every outstanding allocation lies in a zone, so freeing a range that
/// lies in no zone finds no allocation to take back and changes nothing.
pub proof fn lemma_live_in_zones<const BLOCK_SIZE: usize>(b: &ZonedBuddy<BLOCK_SIZE>, a: usize, size: usize)
    requires
        b.wf(),
    ensures
        forall|k: int| 0 <= k < b.live().len() ==> in_some_zone(b.zones(), #[trigger] b.live()[k]),
        !in_some_zone(b.zones(), (a, size)) ==> !b.live().contains((a, size)),
{
    if b.live().contains((a, size)) {
        let k = choose|k: int| 0 <= k < b.live().len() && b.live()[k] == (a, size);
        assert(in_some_zone(b.zones(), b.live()[k]));
    }
}

/// The largest end of the first `n` allocations that is at most `c`, or
/// `low` if none is larger.
pub open spec fn max_end_le(live: Seq<(usize, usize)>, c: int, low: int, n: int) -> int
    decreases n,
{
    if n <= 0 {
        low
    } else {
        let m = max_end_le(live, c, low, n - 1);
        let e = live[n - 1].0 + live[n - 1].1;
        if e <= c && e > m {
            e
        } else {
            m
        }
    }
}

proof fn lemma_max_end(live: Seq<(usize, usize)>, c: int, low: int, n: int)
    requires
        0 <= n <= live.len(),
        low <= c,
    ensures
        low <= max_end_le(live, c, low, n) <= c,
        forall|k: int| 0 <= k < n && (#[trigger] live[k]).0 + live[k].1 <= c ==> live[k].0 + live[k].1 <= max_end_le(live, c, low, n),
        max_end_le(live, c, low, n) == low || exists|j: int| 0 <= j < n && (#[trigger] live[j]).0 + live[j].1 == max_end_le(live, c, low, n),
    decreases n,
{
    if n > 0 {
        lemma_max_end(live, c, low, n - 1);
    }
}

/// A place right after the `j`-th allocation that has room makes the scan
/// from any earlier allocation find a place.
proof fn lemma_pick_from_finds(z: Zone, live: Seq<(usize, usize)>, size: int, i: int, j: int)
    requires
        0 <= i <= j < live.len(),
        cand_ok(z, live, size, live[j].0 + live[j].1),
    ensures
        pick_from(z, live, size, i) is Some,
    decreases j - i,
{
    if i < j && !cand_ok(z, live, size, live[i].0 + live[i].1) {
        lemma_pick_from_finds(z, live, size, i + 1, j);
    }
}

/// When a zone places nothing, no place in it has room.
proof fn lemma_zone_pick_complete(z: Zone, live: Seq<(usize, usize)>, size: int, c: int)
    requires
        size >= 0,
        zone_pick(z, live, size) is None,
    ensures
        !cand_ok(z, live, size, c),
{
    if cand_ok(z, live, size, c) {
        let low = z.start as int;
        lemma_max_end(live, c, low, live.len() as int);
        let m = max_end_le(live, c, low, live.len() as int);
        assert forall|k: int| 0 <= k < live.len() implies (#[trigger] live[k]).0 + live[k].1 <= m || m + size <= live[k].0 by {
            if live[k].0 + live[k].1 > c {
                assert(live[k].0 + live[k].1 <= c || c + size <= live[k].0);
            }
        }
        assert(no_overlap(live, m, size));
        assert(cand_ok(z, live, size, m));
        if m == low {
            assert(no_overlap(live, z.start as int, size));
        } else {
            let j = choose|j: int| 0 <= j < live.len() && (#[trigger] live[j]).0 + live[j].1 == m;
            lemma_pick_from_finds(z, live, size, 0, j);
        }
    }
}

/// When first fit from zone `i` on finds nothing, no later zone has room.
proof fn lemma_first_fit_none(zones: Seq<Zone>, live: Seq<(usize, usize)>, size: int, i: int)
    requires
        0 <= i,
        size >= 0,
        first_fit(zones, live, size, i) is None,
    ensures
        forall|k: int, c: int| i <= k < zones.len() ==> !#[trigger] cand_ok(zones[k], live, size, c),
    decreases zones.len() - i,
{
    if i < zones.len() {
        lemma_first_fit_none(zones, live, size, i + 1);
        assert forall|k: int, c: int| i <= k < zones.len() implies !#[trigger] cand_ok(zones[k], live, size, c) by {
            if k == i {
                lemma_zone_pick_complete(zones[i], live, size, c);
            }
        }
    }
}

/// 4 KiB is a power of two.
pub proof fn lemma_4k_is_pow2()
    ensures
        is_pow2(0x1000),
{
    reveal_with_fuel(is_pow2, 14);
}

proof fn lemma_pow2_pos(n: int)
    requires
        is_pow2(n),
    ensures
        n >= 1,
{
}

/// A power of two no larger than `n` is no larger than the largest power
/// of two under `n`.
proof fn lemma_pow2_le_top(p: int, n: int)
    requires
        is_pow2(p),
        1 <= p <= n,
    ensures
        p <= top_pow2(n),
    decreases n,
{
    lemma_top_pow2_bounds(n);
    if n >= 2 && p > 1 {
        lemma_pow2_le_top(p / 2, n / 2);
    }
}

/// A power of two is a multiple of every power of two no larger than it.
proof fn lemma_pow2_divides(a: int, b: int)
    requires
        is_pow2(a),
        is_pow2(b),
        b <= a,
    ensures
        a % b == 0,
    decreases a,
{
    if b == 1 {
    } else if a == b {
        vstd::arithmetic::div_mod::lemma_mod_self_0(a);
    } else {
        lemma_pow2_divides(a / 2, b / 2);
        let k = (a / 2) / (b / 2);
        vstd::arithmetic::div_mod::lemma_fundamental_div_mod(a / 2, b / 2);
        assert(a == k * b) by (nonlinear_arith)
            requires a == 2 * (a / 2), b == 2 * (b / 2), a / 2 == (b / 2) * k + 0, b / 2 > 0;
        vstd::arithmetic::div_mod::lemma_mod_multiples_basic(k, b);
    }
}

/// The sum over a prefix grows by one zone at a time.
proof fn lemma_sum_zones_prefix(s: Seq<Zone>, i: int)
    requires
        0 <= i < s.len(),
    ensures
        sum_zones(s.subrange(0, i + 1)) == sum_zones(s.subrange(0, i)) + s[i].size,
{
    assert(s.subrange(0, i + 1).drop_last() =~= s.subrange(0, i));
}

/// The zones that a region is split into have power-of-two sizes, do not
/// overlap, and together cover exactly the region: no gap, no byte outside.
pub proof fn lemma_pieces_cover(start: int, size: int)
    requires
        size >= 0,
    ensures
        forall|k: int|
            0 <= k < pieces(start, size).len() ==> is_pow2(#[trigger] pieces(start, size)[k].1),
        forall|k: int|
            0 <= k < pieces(start, size).len() ==> start <= #[trigger] pieces(start, size)[k].0
                && pieces(start, size)[k].0 + pieces(start, size)[k].1 <= start + size,
        forall|k1: int, k2: int|
            0 <= k1 < k2 < pieces(start, size).len() ==> #[trigger] pieces(start, size)[k1].0
                + pieces(start, size)[k1].1 <= #[trigger] pieces(start, size)[k2].0,
        forall|x: int| start <= x < start + size <==> #[trigger] in_some_range(pieces(start, size), x),
    decreases size,
{
    if size > 0 {
        lemma_top_pow2_bounds(size);
        let p = top_pow2(size);
        let rest = pieces(start + p, size - p);
        lemma_pieces_cover(start + p, size - p);
        let all = pieces(start, size);
        assert(all == seq![(start, p)] + rest);
        assert forall|k: int| 0 < k < all.len() implies all[k] == rest[k - 1] by {}
        assert forall|x: int| start <= x < start + size implies #[trigger] in_some_range(all, x) by {
            if x < start + p {
                assert(all[0].0 <= x < all[0].0 + all[0].1);
            } else {
                assert(in_some_range(rest, x));
                let k = choose|k: int|
                    0 <= k < rest.len() && #[trigger] rest[k].0 <= x < rest[k].0 + rest[k].1;
                assert(all[k + 1] == rest[k]);
            }
        }
        assert forall|x: int| #[trigger] in_some_range(all, x) implies start <= x < start + size by {
            let k = choose|k: int| 0 <= k < all.len() && #[trigger] all[k].0 <= x < all[k].0 + all[k].1;
            if k > 0 {
                assert(all[k] == rest[k - 1]);
                assert(in_some_range(rest, x));
            }
        }
        assert forall|k1: int, k2: int| 0 <= k1 < k2 < all.len() implies #[trigger] all[k1].0
            + all[k1].1 <= #[trigger] all[k2].0 by {
            assert(all[k2] == rest[k2 - 1]);
            if k1 > 0 {
                assert(all[k1] == rest[k1 - 1]);
            }
        }
    }
}

/// A prefix of the zones holds no more than all of them.
proof fn lemma_sum_zones_prefix_le(s: Seq<Zone>, i: int)
    requires
        0 <= i <= s.len(),
    ensures
        sum_zones(s.subrange(0, i)) <= sum_zones(s),
    decreases s.len() - i,
{
    if i < s.len() {
        lemma_sum_zones_prefix(s, i);
        lemma_sum_zones_prefix_le(s, i + 1);
    } else {
        assert(s.subrange(0, i) =~= s);
    }
}

/// Taking out one range takes its length off the sum.
proof fn lemma_sum_sizes_remove(s: Seq<(usize, usize)>, k: int)
    requires
        0 <= k < s.len(),
    ensures
        sum_sizes(s.remove(k)) == sum_sizes(s) - s[k].1,
    decreases s.len(),
{
    if k < s.len() - 1 {
        lemma_sum_sizes_remove(s.drop_last(), k);
        assert(s.remove(k).drop_last() =~= s.drop_last().remove(k));
        assert(s.remove(k).last() == s.last());
    } else {
        assert(s.remove(k) =~= s.drop_last());
    }
}

/// A sum of lengths is never negative.
proof fn lemma_sum_sizes_nonneg(s: Seq<(usize, usize)>)
    ensures
        sum_sizes(s) >= 0,
    decreases s.len(),
{
    if s.len() > 0 {
        lemma_sum_sizes_nonneg(s.drop_last());
    }
}

/// Whether `x` lies in one of the ranges, given as (start, length).
pub open spec fn in_some_range(ranges: Seq<(int, int)>, x: int) -> bool {
    exists|k: int| 0 <= k < ranges.len() && #[trigger] ranges[k].0 <= x < ranges[k].0 + ranges[k].1
}

} // verus!
