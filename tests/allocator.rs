use kmem::addr::PhysAddr;
use kmem::page_allocator::PageAllocatorTrait;
use kmem::page_size::PageSize;
use kmem::zoned_buddy::{ZonedBuddy, Zone};

#[test]
fn non_power_of_two_zone_is_split_largest_first() {
    let mut b = ZonedBuddy::<0x1000>::new();
    assert!(b.add_zone(0x100000, 0x7000).is_ok());
    assert_eq!(b.zone_count(), 3);
    assert_eq!(b.zone(0), Zone { start: 0x100000, size: 0x4000 });
    assert_eq!(b.zone(1), Zone { start: 0x104000, size: 0x2000 });
    assert_eq!(b.zone(2), Zone { start: 0x106000, size: 0x1000 });
    assert_eq!(b.total_memory(), 0x7000);
}

#[test]
fn split_zones_cover_region_without_gaps() {
    let mut b = ZonedBuddy::<0x1000>::new();
    let start = 0x2000000usize;
    let size = 0x3ff000usize;
    assert!(b.add_zone(start, size).is_ok());
    let mut next = start;
    let mut last_size = usize::MAX;
    for i in 0..b.zone_count() {
        let z = b.zone(i);
        assert_eq!(z.start, next);
        assert!(z.size.is_power_of_two());
        assert!(z.size < last_size);
        last_size = z.size;
        next = z.start + z.size;
    }
    assert_eq!(next, start + size);
    assert_eq!(b.zone_count(), size.count_ones() as usize);
}

#[test]
fn power_of_two_zone_stays_whole() {
    let mut b = ZonedBuddy::<0x1000>::new();
    assert!(b.add_zone(0x800000, 0x400000).is_ok());
    assert_eq!(b.zone_count(), 1);
    assert_eq!(b.zone(0), Zone { start: 0x800000, size: 0x400000 });
}

#[test]
fn zone_past_end_of_address_space_is_refused() {
    let mut b = ZonedBuddy::<0x1000>::new();
    let start = usize::MAX - 0xfff;
    assert!(b.add_zone(start & !0xfff, 0x2000).is_err());
    assert_eq!(b.zone_count(), 0);
    assert_eq!(b.total_memory(), 0);
}

#[test]
fn accounting_follows_allocations_and_frees() {
    let mut b = ZonedBuddy::<0x1000>::new();
    assert!(b.add_zone(0x100000, 0x7000).is_ok());
    let a = b.allocate(0x1000).unwrap();
    assert_eq!(a, PhysAddr(0x100000));
    let c = b.allocate(0x1000).unwrap();
    assert_eq!(c, PhysAddr(0x101000));
    assert_eq!(b.allocated_memory(), 0x2000);
    b.free(a, 0x1000);
    assert_eq!(b.allocated_memory(), 0x1000);
    let d = b.allocate(0x2000).unwrap();
    assert_eq!(d, PhysAddr(0x102000));
    assert_eq!(b.allocated_memory(), 0x3000);
    assert!(b.allocated_memory() <= b.total_memory());
}

#[test]
fn free_of_unknown_allocation_changes_nothing() {
    let mut b = ZonedBuddy::<0x1000>::new();
    assert!(b.add_zone(0x100000, 0x4000).is_ok());
    let a = b.allocate(0x1000).unwrap();
    b.free(PhysAddr(0x900000), 0x1000);
    b.free(a, 0x2000);
    assert_eq!(b.allocated_memory(), 0x1000);
    b.free(a, 0x1000);
    b.free(a, 0x1000);
    assert_eq!(b.allocated_memory(), 0);
}

#[test]
fn allocations_never_overlap() {
    let mut b = ZonedBuddy::<0x1000>::new();
    assert!(b.add_zone(0x100000, 0xb000).is_ok());
    let mut live: Vec<(usize, usize)> = Vec::new();
    let sizes = [0x1000usize, 0x2000, 0x1000, 0x3000, 0x1000, 0x1000];
    for s in sizes {
        if let Some(a) = b.allocate(s) {
            live.push((a.0, s));
        }
    }
    b.free(PhysAddr(live[1].0), live[1].1);
    live.remove(1);
    if let Some(a) = b.allocate(0x1000) {
        live.push((a.0, 0x1000));
    }
    for i in 0..live.len() {
        for j in 0..live.len() {
            if i != j {
                let (x, xs) = live[i];
                let (y, ys) = live[j];
                assert!(x + xs <= y || y + ys <= x);
            }
        }
    }
    let sum: usize = live.iter().map(|l| l.1).sum();
    assert_eq!(b.allocated_memory(), sum);
}

#[test]
fn allocation_fails_when_full() {
    let mut b = ZonedBuddy::<0x1000>::new();
    assert!(b.add_zone(0x100000, 0x2000).is_ok());
    assert!(b.allocate(0x2000).is_some());
    assert!(b.allocate(0x1000).is_none());
    assert_eq!(b.allocated_memory(), 0x2000);
    let mut empty = ZonedBuddy::<0x1000>::new();
    assert!(empty.allocate(0x1000).is_none());
}

#[test]
fn allocation_goes_to_first_zone_with_room() {
    let mut b = ZonedBuddy::<0x1000>::new();
    assert!(b.add_zone(0x100000, 0x1000).is_ok());
    assert!(b.add_zone(0x200000, 0x4000).is_ok());
    assert_eq!(b.allocate(0x2000), Some(PhysAddr(0x200000)));
    assert_eq!(b.allocate(0x1000), Some(PhysAddr(0x100000)));
}

#[test]
fn page_allocator_trait_uses_page_sizes() {
    let mut b = ZonedBuddy::<0x1000>::new();
    assert!(b.add_zone(0x800000, 0x800000).is_ok());
    let a = b.alloc_page(PageSize::Size4M).unwrap();
    assert_eq!(a, PhysAddr(0x800000));
    assert_eq!(b.allocated_memory(), 0x400000);
    b.free_page(a, PageSize::Size4M);
    assert_eq!(b.allocated_memory(), 0);
}
