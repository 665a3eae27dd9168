use kmem::addr::{PhysAddr, VirtAddr};
use kmem::flags::{MappingFlags, PRESENT, READ, WRITE, GLOBAL, USER};
use kmem::page_size::PageSize;
use kmem::paging::{AddressSpace, MappingError, PageTableEntry, PageTableLevel};
use kmem::zoned_buddy::ZonedBuddy;

fn setup() -> (ZonedBuddy<0x1000>, AddressSpace, PhysAddr) {
    let mut b = ZonedBuddy::<0x1000>::new();
    assert!(b.add_zone(0x800000, 0x400000).is_ok());
    let root = b.allocate(0x1000).unwrap();
    (b, AddressSpace::from_paddr(root), root)
}

fn rw() -> MappingFlags {
    MappingFlags::from_bits_truncate(PRESENT | READ | WRITE)
}

#[test]
fn end_to_end_map_and_unmap_one_page() {
    let mut b = ZonedBuddy::<0x1000>::new();
    assert!(b.add_zone(0x800000, 0x400000).is_ok());
    let frame = b.allocate(0x1000).unwrap();
    assert!(frame.0 >= 0x800000 && frame.0 < 0x800000 + 0x400000);
    let root = b.allocate(0x1000).unwrap();
    let mut space = AddressSpace::from_paddr(root);
    let v = VirtAddr(0xc0801000);
    assert_eq!(space.map_page(v, frame, PageSize::Size4K, rw(), &mut b), Ok(()));
    assert_eq!(space.lookup(v), Some((frame, rw(), PageSize::Size4K)));
    assert_eq!(space.lookup(VirtAddr(0xc0801ffc)), Some((frame, rw(), PageSize::Size4K)));
    assert_eq!(space.lookup(VirtAddr(0xc0802000)), None);
    assert_eq!(b.allocated_memory(), 0x3000);
    assert_eq!(space.unmap_free(v, 0x1000, &mut b), Ok(()));
    assert_eq!(space.lookup(v), None);
    assert_eq!(b.allocated_memory(), 0x2000);
    assert_eq!(space.unmap_free(VirtAddr(0xc0800000), 0x400000, &mut b), Ok(()));
    assert_eq!(b.allocated_memory(), 0x1000);
}

#[test]
fn map_alloc_maps_every_page_of_region() {
    let (mut b, mut space, _) = setup();
    let v = VirtAddr(0xc0800000);
    assert_eq!(space.map_alloc(v, 0x3000, rw(), &mut b), Ok(v));
    for k in 0..3usize {
        let (frame, flags, size) = space.lookup(VirtAddr(v.0 + k * 0x1000)).unwrap();
        assert_eq!(flags, rw());
        assert_eq!(size, PageSize::Size4K);
        assert!(frame.0 >= 0x800000 && frame.0 < 0xc00000);
    }
    assert_eq!(space.lookup(VirtAddr(v.0 + 0x3000)), None);
    assert_eq!(b.allocated_memory(), 0x1000 + 0x1000 + 0x3000);
    assert_eq!(space.unmap_free(v, 0x3000, &mut b), Ok(()));
    assert_eq!(b.allocated_memory(), 0x2000);
}

#[test]
fn map_alloc_reports_out_of_memory() {
    let mut b = ZonedBuddy::<0x1000>::new();
    assert!(b.add_zone(0x800000, 0x3000).is_ok());
    let root = b.allocate(0x1000).unwrap();
    let mut space = AddressSpace::from_paddr(root);
    let r = space.map_alloc(VirtAddr(0x10000000), 0x4000, rw(), &mut b);
    assert_eq!(r, Err(MappingError::PageAllocationFailed));
}

#[test]
fn read_back_gives_written_frame_and_flags() {
    let (mut b, mut space, _) = setup();
    let flags = MappingFlags::from_bits_truncate(PRESENT | READ | USER | GLOBAL);
    let v = VirtAddr(0x40000000);
    assert_eq!(space.map_page(v, PhysAddr(0x123000), PageSize::Size4K, flags, &mut b), Ok(()));
    assert_eq!(space.lookup(v), Some((PhysAddr(0x123000), flags, PageSize::Size4K)));
    let top = space.top_level();
    match space.get_entry(top, v) {
        PageTableEntry::Level(level) => {
            assert_eq!(level.1, 12);
            assert_eq!(
                space.get_entry(level, v),
                PageTableEntry::Page(PhysAddr(0x123000), flags)
            );
        }
        PageTableEntry::Page(_, _) => panic!("expected a page table"),
    }
}

#[test]
fn large_page_reads_back() {
    let (mut b, mut space, _) = setup();
    let v = VirtAddr(0x400000);
    assert_eq!(space.map_page(v, PhysAddr(0x1c00000), PageSize::Size4M, rw(), &mut b), Ok(()));
    assert_eq!(space.lookup(VirtAddr(0x7ff000)), Some((PhysAddr(0x1c00000), rw(), PageSize::Size4M)));
    assert_eq!(
        space.get_entry(space.top_level(), v),
        PageTableEntry::Page(PhysAddr(0x1c00000), rw())
    );
}

#[test]
fn mapping_over_present_page_is_refused() {
    let (mut b, mut space, _) = setup();
    let v = VirtAddr(0xc0801000);
    assert_eq!(space.map_page(v, PhysAddr(0x123000), PageSize::Size4K, rw(), &mut b), Ok(()));
    let before = b.allocated_memory();
    let r = space.map_page(v, PhysAddr(0x456000), PageSize::Size4K, rw(), &mut b);
    assert_eq!(r, Err(MappingError::MappingOver(PhysAddr(0x123000))));
    assert_eq!(space.lookup(v), Some((PhysAddr(0x123000), rw(), PageSize::Size4K)));
    assert_eq!(b.allocated_memory(), before);
    let r = space.map_page(VirtAddr(0xc0800000), PhysAddr(0x400000), PageSize::Size4M, rw(), &mut b);
    assert!(matches!(r, Err(MappingError::MappingOver(_))));
}

#[test]
fn small_page_inside_large_page_is_refused() {
    let (mut b, mut space, _) = setup();
    assert_eq!(space.map_page(VirtAddr(0x400000), PhysAddr(0x1c00000), PageSize::Size4M, rw(), &mut b), Ok(()));
    let r = space.map_page(VirtAddr(0x401000), PhysAddr(0x123000), PageSize::Size4K, rw(), &mut b);
    assert_eq!(r, Err(MappingError::MappingOver(PhysAddr(0x1c00000))));
}

#[test]
fn unaligned_addresses_are_refused() {
    let (mut b, mut space, _) = setup();
    let r = space.map_page(VirtAddr(0xc0801001), PhysAddr(0x123000), PageSize::Size4K, rw(), &mut b);
    assert_eq!(r, Err(MappingError::UnalignedVirtualAddress(VirtAddr(0xc0801001))));
    let r = space.map_page(VirtAddr(0xc0801000), PhysAddr(0x123800), PageSize::Size4K, rw(), &mut b);
    assert_eq!(r, Err(MappingError::UnalignedPhysicalAddress(PhysAddr(0x123800))));
    let r = space.map_page(VirtAddr(0x400000), PhysAddr(0x1000), PageSize::Size4M, rw(), &mut b);
    assert_eq!(r, Err(MappingError::UnalignedPhysicalAddress(PhysAddr(0x1000))));
}

#[test]
fn unmapping_unmapped_range_is_a_no_op() {
    let (mut b, mut space, _) = setup();
    let before = b.allocated_memory();
    assert_eq!(space.unmap_free(VirtAddr(0x10000000), 0x800000, &mut b), Ok(()));
    assert_eq!(space.unmap_free(VirtAddr(0x10000123), 0x10, &mut b), Ok(()));
    assert_eq!(b.allocated_memory(), before);
}

#[test]
fn unmapping_part_of_large_page_is_refused() {
    let (mut b, mut space, _) = setup();
    assert_eq!(space.map_page(VirtAddr(0x400000), PhysAddr(0x1c00000), PageSize::Size4M, rw(), &mut b), Ok(()));
    let r = space.unmap_free(VirtAddr(0x401000), 0x1000, &mut b);
    assert_eq!(r, Err(MappingError::UnmappingPartOfLargePage(PhysAddr(0x1c00000))));
    let r = space.unmap_free(VirtAddr(0x400000), 0x1000, &mut b);
    assert_eq!(r, Err(MappingError::UnmappingPartOfLargePage(PhysAddr(0x1c00000))));
    assert!(space.lookup(VirtAddr(0x400000)).is_some());
    assert_eq!(space.unmap_free(VirtAddr(0x400000), 0x400000, &mut b), Ok(()));
    assert_eq!(space.lookup(VirtAddr(0x400000)), None);
}

#[test]
fn partial_unmap_keeps_table_with_other_pages() {
    let (mut b, mut space, _) = setup();
    let v = VirtAddr(0xc0800000);
    assert_eq!(space.map_alloc(v, 0x2000, rw(), &mut b), Ok(v));
    let after_map = b.allocated_memory();
    assert_eq!(space.unmap_free(VirtAddr(0xc0801000), 0x1000, &mut b), Ok(()));
    assert_eq!(space.lookup(VirtAddr(0xc0801000)), None);
    assert!(space.lookup(v).is_some());
    assert_eq!(b.allocated_memory(), after_map - 0x1000);
    assert_eq!(space.unmap_free(v, 0x1000, &mut b), Ok(()));
    assert_eq!(space.lookup(v), None);
    // the page table of a slot that is only partly unmapped stays
    assert_eq!(b.allocated_memory(), after_map - 0x2000);
    assert_eq!(space.unmap_free(VirtAddr(0xc0800000), 0x400000, &mut b), Ok(()));
    assert_eq!(b.allocated_memory(), after_map - 0x3000);
}

#[test]
fn unmapping_part_of_small_page_is_refused() {
    let (mut b, mut space, _) = setup();
    let v = VirtAddr(0xc0800000);
    assert_eq!(space.map_alloc(v, 0x1000, rw(), &mut b), Ok(v));
    let frame = space.lookup(v).unwrap().0;
    let r = space.unmap_free(VirtAddr(0xc0800800), 0x100, &mut b);
    assert_eq!(r, Err(MappingError::UnmappingPartOfLargePage(frame)));
}

#[test]
fn fresh_space_has_empty_directory() {
    let space = AddressSpace::from_paddr(PhysAddr(0x5000));
    let top = space.top_level();
    assert_eq!(top, PageTableLevel(PhysAddr(0x5000), 22));
    assert_eq!(space.lookup(VirtAddr(0)), None);
    let e = space.get_entry(top, VirtAddr(0xc0000000));
    assert!(!e.mapped());
}

#[test]
fn level_sizes() {
    let top = PageTableLevel(PhysAddr(0x5000), 22);
    assert_eq!(top.region_size(), 0x400000);
    assert_eq!(top.page_size(), Some(PageSize::Size4M));
    let leaf = PageTableLevel(PhysAddr(0x6000), 12);
    assert_eq!(leaf.region_size(), 0x1000);
    assert_eq!(leaf.page_size(), Some(PageSize::Size4K));
}

#[test]
fn unmapping_unmapped_pages_next_to_mapped_ones_succeeds() {
    let (mut b, mut space, _) = setup();
    let v = VirtAddr(0xc0800000);
    assert_eq!(space.map_alloc(v, 0x1000, rw(), &mut b), Ok(v));
    let before = b.allocated_memory();
    assert_eq!(space.unmap_free(VirtAddr(0xc0801000), 0x3000, &mut b), Ok(()));
    assert_eq!(space.unmap_free(VirtAddr(0xc0801800), 0x10, &mut b), Ok(()));
    assert!(space.lookup(v).is_some());
    assert_eq!(b.allocated_memory(), before);
}

#[test]
fn map_alloc_covers_a_partial_last_page() {
    let (mut b, mut space, _) = setup();
    let v = VirtAddr(0x10000000);
    assert_eq!(space.map_alloc(v, 0x800, rw(), &mut b), Ok(v));
    assert!(space.lookup(v).is_some());
    assert_eq!(space.map_alloc(VirtAddr(0x10001000), 0x1001, rw(), &mut b), Ok(VirtAddr(0x10001000)));
    assert!(space.lookup(VirtAddr(0x10002000)).is_some());
    assert_eq!(space.lookup(VirtAddr(0x10003000)), None);
}

#[test]
fn map_alloc_from_unaligned_address_is_refused() {
    let (mut b, mut space, _) = setup();
    let v = VirtAddr(0x10000800);
    assert_eq!(space.map_alloc(v, 0x1000, rw(), &mut b), Err(MappingError::UnalignedVirtualAddress(v)));
}

#[test]
fn map_page_takes_no_frame_when_it_fails_early() {
    let (mut b, mut space, _) = setup();
    let before = b.allocated_memory();
    let r = space.map_page(VirtAddr(0x10000800), PhysAddr(0x5000), PageSize::Size4K, rw(), &mut b);
    assert_eq!(r, Err(MappingError::UnalignedVirtualAddress(VirtAddr(0x10000800))));
    assert_eq!(b.allocated_memory(), before);
    assert!(space.frame_usable(PhysAddr(0x900000)));
    assert!(!space.frame_usable(PhysAddr(0x900800)));
}

#[test]
fn unmapping_across_a_large_page_edge_is_refused() {
    let (mut b, mut space, _) = setup();
    assert_eq!(space.map_page(VirtAddr(0x400000), PhysAddr(0x1c00000), PageSize::Size4M, rw(), &mut b), Ok(()));
    let r = space.unmap_free(VirtAddr(0x3ff000), 0x2000, &mut b);
    assert_eq!(r, Err(MappingError::UnmappingPartOfLargePage(PhysAddr(0x1c00000))));
}
