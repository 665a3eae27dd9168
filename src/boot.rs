//! Boot-time setup of physical memory: seeding the frame allocator from the
//! boot memory map, and the bump allocator used before it exists.
use vstd::prelude::*;
use crate::addr::{PhysAddr, VirtAddr, align_down, align_up, checked_align_up, align_down_spec, align_up_spec};
use crate::page_size::{PageSize, page_bytes};
use crate::zoned_buddy::{ZonedBuddy, Zone, pieces, sum_zones, zone_list, lemma_4k_is_pow2};

verus! {

/// One range of the boot memory map, `[start, end)`, and whether it is
/// available RAM.
#[derive(Clone, Copy, Debug, PartialEq, Eq, Structural)]
pub struct MemoryRegion {
    pub start: usize,
    pub end: usize,
    pub available: bool,
}

/// The virtual address of a physical address of the kernel image.
pub fn kernel_phys2virt(paddr: PhysAddr, kernel_offset: usize) -> (r: VirtAddr)
    requires
        paddr.0 + kernel_offset <= usize::MAX,
    ensures
        r.0 == paddr.0 + kernel_offset,
{
    VirtAddr(paddr.0 + kernel_offset)
}

/// The physical address of a virtual address of the kernel image.
pub fn kernel_virt2phys(vaddr: VirtAddr, kernel_offset: usize) -> (r: PhysAddr)
    requires
        vaddr.0 >= kernel_offset,
    ensures
        r.0 == vaddr.0 - kernel_offset,
{
    PhysAddr(vaddr.0 - kernel_offset)
}

/// The zone that a region of the memory map gives, as (start, size): the
/// available part above the kernel image, cut to whole 4 KiB pages.
pub open spec fn region_zone(region: MemoryRegion, kernel_phys_end: usize) -> Option<(int, int)> {
    let low = if region.start < kernel_phys_end { kernel_phys_end as int } else { region.start as int };
    let start = align_up_spec(low, 0x1000);
    if !region.available || region.end <= start {
        None
    } else {
        Some((start, align_down_spec(region.end - start, 0x1000)))
    }
}

/// The zone that `region` gives to the frame allocator, or `None` when it
/// gives none (not available RAM, or nothing left above the kernel).
pub fn zone_of_region(region: MemoryRegion, kernel_phys_end: usize) -> (r: Option<(usize, usize)>)
    requires
        region.start <= usize::MAX - 0x1000,
        kernel_phys_end <= usize::MAX - 0x1000,
    ensures
        r matches Some(z) ==> region_zone(region, kernel_phys_end) == Some((z.0 as int, z.1 as int)),
        r is None ==> region_zone(region, kernel_phys_end) is None,
        r matches Some(z) ==> z.0 % 0x1000 == 0 && z.1 % 0x1000 == 0 && z.0 + z.1 <= region.end,
{
    if !region.available {
        return None;
    }
    let low = if region.start < kernel_phys_end { kernel_phys_end } else { region.start };
    let start = align_up(low, 0x1000);
    if region.end <= start {
        return None;
    }
    let size = align_down(region.end - start, 0x1000);
    Some((start, size))
}

/// Whether registering a zone of `size` bytes at `start` fails, next to
/// zones `zs`: it would pass the end of the address space, or the total
/// would not fit a `usize`.
pub open spec fn zone_fails(zs: Seq<Zone>, start: int, size: int) -> bool {
    start + size > usize::MAX || sum_zones(zs) + size > usize::MAX
}

/// The zones registered after the zones of `regions` are added, in order,
/// to `zs`.
pub open spec fn zones_after(zs: Seq<Zone>, regions: Seq<MemoryRegion>, kernel_phys_end: usize) -> Seq<Zone>
    decreases regions.len(),
{
    if regions.len() == 0 {
        zs
    } else {
        let before = zones_after(zs, regions.drop_last(), kernel_phys_end);
        match region_zone(regions.last(), kernel_phys_end) {
            Some(z) => if zone_fails(before, z.0, z.1) {
                before
            } else {
                before + zone_list(pieces(z.0, z.1))
            },
            None => before,
        }
    }
}

/// The zones of `regions` that fail to be added, in order, to `zs`.
pub open spec fn zones_failed(zs: Seq<Zone>, regions: Seq<MemoryRegion>, kernel_phys_end: usize) -> Seq<(usize, usize)>
    decreases regions.len(),
{
    if regions.len() == 0 {
        Seq::empty()
    } else {
        let failed = zones_failed(zs, regions.drop_last(), kernel_phys_end);
        let before = zones_after(zs, regions.drop_last(), kernel_phys_end);
        match region_zone(regions.last(), kernel_phys_end) {
            Some(z) => if zone_fails(before, z.0, z.1) {
                failed.push((z.0 as usize, z.1 as usize))
            } else {
                failed
            },
            None => failed,
        }
    }
}

/// Registers with `allocator` the zone of each region of the memory map, in
/// order. Returns the zones that could not be registered.
pub fn setup_zones(
    allocator: &mut ZonedBuddy<0x1000>,
    regions: &Vec<MemoryRegion>,
    kernel_phys_end: usize,
) -> (failed: Vec<(usize, usize)>)
    requires
        old(allocator).wf(),
        kernel_phys_end <= usize::MAX - 0x1000,
        forall|i: int| 0 <= i < regions@.len() ==> #[trigger] regions@[i].start <= usize::MAX - 0x1000,
    ensures
        final(allocator).wf(),
        final(allocator).live() == old(allocator).live(),
        final(allocator).zones() == zones_after(old(allocator).zones(), regions@, kernel_phys_end),
        failed@ == zones_failed(old(allocator).zones(), regions@, kernel_phys_end),
{
    let mut failed: Vec<(usize, usize)> = Vec::new();
    let mut i: usize = 0;
    while i < regions.len()
        invariant
            allocator.wf(),
            allocator.live() == old(allocator).live(),
            kernel_phys_end <= usize::MAX - 0x1000,
            forall|j: int| 0 <= j < regions@.len() ==> #[trigger] regions@[j].start <= usize::MAX - 0x1000,
            i <= regions@.len(),
            allocator.zones() == zones_after(old(allocator).zones(), regions@.subrange(0, i as int), kernel_phys_end),
            failed@ == zones_failed(old(allocator).zones(), regions@.subrange(0, i as int), kernel_phys_end),
        decreases regions@.len() - i,
    {
        let region = regions[i];
        proof {
            lemma_4k_is_pow2();
            let next = regions@.subrange(0, i as int + 1);
            assert(next.drop_last() =~= regions@.subrange(0, i as int));
            assert(next.last() == region);
        }
        match zone_of_region(region, kernel_phys_end) {
            Some((start, size)) => {
                match allocator.add_zone(start, size) {
                    Ok(()) => {},
                    Err(_) => {
                        failed.push((start, size));
                    },
                }
            },
            None => {},
        }
        i = i + 1;
    }
    proof {
        assert(regions@.subrange(0, i as int) =~= regions@);
    }
    failed
}

/// The highest end of an available region among the first `n` of `regions`.
pub open spec fn max_available_end(regions: Seq<MemoryRegion>, n: int) -> usize
    decreases n,
{
    if n <= 0 {
        0
    } else {
        let m = max_available_end(regions, n - 1);
        let r = regions[n - 1];
        if r.available && r.end > m {
            r.end
        } else {
            m
        }
    }
}

/// The end of the highest available region of the memory map: the limit
/// of usable physical addresses.
pub fn address_limit(regions: &Vec<MemoryRegion>) -> (r: usize)
    ensures
        r == max_available_end(regions@, regions@.len() as int),
{
    let mut limit: usize = 0;
    let mut i: usize = 0;
    while i < regions.len()
        invariant
            i <= regions@.len(),
            limit == max_available_end(regions@, i as int),
        decreases regions@.len() - i,
    {
        let r = regions[i];
        if r.available && r.end > limit {
            limit = r.end;
        }
        i = i + 1;
    }
    limit
}

/// Whether a page at `[a, a + size)` is clear of the kernel image, the boot
/// information structure and every region of the memory map that is not
/// available RAM.
pub open spec fn page_is_free(alloc: EarlyPageAllocator, a: int, size: int) -> bool {
    &&& a >= alloc.kernel_reserved_end
    &&& !(a < alloc.boot_info_end && a + size > alloc.boot_info_start)
    &&& forall|i: int|
        0 <= i < alloc.regions@.len() && a < (#[trigger] alloc.regions@[i]).end && a + size
            > alloc.regions@[i].start ==> alloc.regions@[i].available
}

/// Bump allocator of page frames for use before the frame allocator is set
/// up: it never frees, and skips the kernel image, the boot information and
/// memory that is not available.
pub struct EarlyPageAllocator {
    pub alloc_start: usize,
    pub kernel_reserved_end: usize,
    pub boot_info_start: usize,
    pub boot_info_end: usize,
    pub regions: Vec<MemoryRegion>,
}

impl EarlyPageAllocator {
    /// Where to look next when the page at `addr` is not free, or `None`
    /// when it is.
    pub fn next_possibly_free(&self, addr: usize, page_size: PageSize) -> (r: Option<usize>)
        requires
            addr + page_bytes(page_size) <= usize::MAX,
        ensures
            r is None <==> page_is_free(*self, addr as int, page_bytes(page_size) as int),
            r matches Some(n) ==> n > addr,
            r matches Some(n) ==> forall|b: int|
                addr <= b < n ==> !#[trigger] page_is_free(*self, b, page_bytes(page_size) as int),
    {
        let start = addr;
        let end = addr + page_size.bytes();
        if addr < self.kernel_reserved_end {
            return Some(self.kernel_reserved_end);
        }
        if start < self.boot_info_end && end > self.boot_info_start {
            return Some(self.boot_info_end);
        }
        let mut i: usize = 0;
        while i < self.regions.len()
            invariant
                i <= self.regions@.len(),
                start == addr,
                end == addr + page_bytes(page_size),
                forall|j: int|
                    0 <= j < i && start < (#[trigger] self.regions@[j]).end && end
                        > self.regions@[j].start ==> self.regions@[j].available,
            decreases self.regions@.len() - i,
        {
            let region = self.regions[i];
            if start < region.end && end > region.start && !region.available {
                proof {
                    assert forall|b: int| addr <= b < region.end implies !#[trigger] page_is_free(
                        *self,
                        b,
                        page_bytes(page_size) as int,
                    ) by {
                        assert(b < self.regions@[i as int].end && b + page_bytes(page_size) > self.regions@[i as int].start);
                    }
                }
                return Some(region.end);
            }
            i = i + 1;
        }
        None
    }
}

/// Takes the next free page of `page_size` from `allocator`: the first
/// aligned page at or above its cursor that is clear of the kernel, the
/// boot information and unavailable memory. Returns `None` when the search
/// runs past the end of the address space.
pub fn early_alloc_page(allocator: &mut EarlyPageAllocator, page_size: PageSize) -> (r: Option<PhysAddr>)
    ensures
        r matches Some(a) ==> a.0 as int % page_bytes(page_size) as int == 0 && a.0 >= old(allocator).alloc_start
            && page_is_free(*old(allocator), a.0 as int, page_bytes(page_size) as int)
            && final(allocator).alloc_start == a.0 + page_bytes(page_size),
        r matches Some(a) ==> forall|b: int|
            old(allocator).alloc_start <= b < a.0 && b % page_bytes(page_size) as int == 0 ==> !#[trigger] page_is_free(
                *old(allocator),
                b,
                page_bytes(page_size) as int,
            ),
        r is None ==> forall|b: int|
            old(allocator).alloc_start <= b && b + page_bytes(page_size) <= usize::MAX && b
                % page_bytes(page_size) as int == 0 ==> !#[trigger] page_is_free(
                *old(allocator),
                b,
                page_bytes(page_size) as int,
            ),
        final(allocator).regions == old(allocator).regions,
        final(allocator).kernel_reserved_end == old(allocator).kernel_reserved_end,
        final(allocator).boot_info_start == old(allocator).boot_info_start,
        final(allocator).boot_info_end == old(allocator).boot_info_end,
        r is None ==> final(allocator).alloc_start == old(allocator).alloc_start,
{
    let bytes = page_size.bytes();
    let ghost sz = page_bytes(page_size) as int;
    let mut addr = match checked_align_up(allocator.alloc_start, bytes) {
        Some(a) => a,
        None => {
            proof {
                lemma_none_below(allocator.alloc_start as int, bytes as int);
            }
            return None;
        },
    };
    proof {
        lemma_multiples_from(allocator.alloc_start as int, bytes as int);
    }
    if addr > usize::MAX - bytes {
        proof {
            lemma_none_below(addr as int, bytes as int);
        }
        return None;
    }
    loop
        invariant
            bytes as nat == page_bytes(page_size),
            sz == bytes as int,
            bytes > 0,
            addr % bytes == 0,
            addr >= allocator.alloc_start,
            addr + bytes <= usize::MAX,
            *allocator == *old(allocator),
            forall|b: int|
                allocator.alloc_start <= b < addr && b % sz == 0 ==> !#[trigger] page_is_free(*allocator, b, sz),
        decreases usize::MAX - addr,
    {
        match allocator.next_possibly_free(addr, page_size) {
            None => {
                allocator.alloc_start = addr + bytes;
                return Some(PhysAddr(addr));
            },
            Some(next) => {
                let a = match checked_align_up(next, bytes) {
                    Some(a) => a,
                    None => {
                        proof {
                            lemma_none_below(next as int, bytes as int);
                        }
                        return None;
                    },
                };
                proof {
                    lemma_multiples_from(next as int, bytes as int);
                }
                if a > usize::MAX - bytes {
                    proof {
                        lemma_none_below(a as int, bytes as int);
                    }
                    return None;
                }
                addr = a;
            },
        }
    }
}

/// No multiple of `d` lies at or above `x` and below `x` rounded up to a
/// multiple of `d`.
proof fn lemma_multiples_from(x: int, d: int)
    requires
        x >= 0,
        d > 0,
    ensures
        forall|b: int| x <= b && #[trigger] (b % d) == 0 ==> b >= align_up_spec(x, d),
{
    assert forall|b: int| x <= b && #[trigger] (b % d) == 0 implies b >= align_up_spec(x, d) by {
        vstd::arithmetic::div_mod::lemma_fundamental_div_mod(x, d);
        vstd::arithmetic::div_mod::lemma_fundamental_div_mod(b, d);
        vstd::arithmetic::div_mod::lemma_mod_bound(x, d);
        let q = x / d;
        let k = b / d;
        if x % d != 0 {
            if k <= q {
                assert(k * d <= q * d) by (nonlinear_arith)
                    requires k <= q, d > 0;
                assert(d * k == k * d && d * q == q * d) by (nonlinear_arith);
            }
            assert(k >= q + 1);
            assert(k * d >= (q + 1) * d) by (nonlinear_arith)
                requires k >= q + 1, d > 0;
            assert(d * k == k * d && (q + 1) * d == d * q + d) by (nonlinear_arith);
        }
    }
}

/// Every multiple of `d` at or above `x`, when `x` rounded up to a multiple
/// of `d` leaves no room for `d` bytes, leaves no room for `d` bytes either.
proof fn lemma_none_below(x: int, d: int)
    requires
        x >= 0,
        d > 0,
        align_up_spec(x, d) + d > usize::MAX,
    ensures
        forall|b: int| x <= b && #[trigger] (b % d) == 0 ==> b + d > usize::MAX,
{
    lemma_multiples_from(x, d);
}

} // verus!
