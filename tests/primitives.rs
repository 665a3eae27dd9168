use kmem::addr::{align_down, align_up, checked_align_up, PhysAddr, VirtAddr};
use kmem::boot::{
    address_limit, early_alloc_page, kernel_phys2virt, kernel_virt2phys, setup_zones, zone_of_region,
    EarlyPageAllocator, MemoryRegion,
};
use kmem::console::{Character, Color, Writer};
use kmem::entry::PTEntry;
use kmem::flags::{
    MappingFlags, PTEFlags, EXECUTE, GLOBAL, PRESENT, READ, UNCACHED, USER, WRITE,
};
use kmem::format_size::{unit_name, FormatSize};
use kmem::page_info::{alloc_page, PageInfo};
use kmem::page_size::{PageSize, PageSizeTrait};
use kmem::zoned_buddy::{Zone, ZonedBuddy};

#[test]
fn page_size_round_trip() {
    for p in [PageSize::Size4K, PageSize::Size4M] {
        let n: usize = p.into();
        assert_eq!(PageSize::try_from(n), Ok(p));
    }
    assert_eq!(usize::from(PageSize::Size4M), 0x400000);
    assert_eq!(PageSize::Size4K.bytes(), 0x1000);
    assert_eq!(PageSize::try_from(0x1000), Ok(PageSize::Size4K));
    assert_eq!(PageSize::try_from(0x2000), Err(()));
    assert_eq!(PageSize::try_from(0), Err(()));
    assert_eq!(PageSize::try_from(0x200000), Err(()));
    assert_eq!(PageSize::min(), PageSize::Size4K);
    assert_eq!(PageSize::Size4M.shift(), 22);
}

#[test]
fn alignment_helpers() {
    assert_eq!(align_down(0x1234, 0x1000), 0x1000);
    assert_eq!(align_up(0x1234, 0x1000), 0x2000);
    assert_eq!(align_up(0x2000, 0x1000), 0x2000);
    assert_eq!(checked_align_up(usize::MAX - 5, 0x1000), None);
    assert_eq!(checked_align_up(0x1001, 0x1000), Some(0x2000));
    assert!(PhysAddr(0x400000).is_aligned(0x400000));
    assert!(!VirtAddr(0x401000).is_aligned(0x400000));
    assert_eq!(VirtAddr(0x401000).align_down(0x400000), VirtAddr(0x400000));
    assert_eq!(PhysAddr(0x401000).align_up(0x400000), PhysAddr(0x800000));
}

#[test]
fn mapping_flags_translate_to_entry_bits() {
    let f = PTEFlags::from_mapping(MappingFlags::from_bits_truncate(PRESENT | READ | WRITE));
    assert_eq!(f.bits, 0x3);
    let f = PTEFlags::from_mapping(MappingFlags::from_bits_truncate(USER | UNCACHED | GLOBAL));
    assert_eq!(f.bits, 0x4 | 0x10 | 0x100);
    let f = PTEFlags::from_mapping(MappingFlags::from_bits_truncate(EXECUTE));
    assert_eq!(f.bits, 0);
    let m = MappingFlags::from_pte(PTEFlags { bits: 0x1 | 0x2 | 0x100 | 0x80 });
    assert_eq!(m.bits(), PRESENT | READ | WRITE | GLOBAL);
    assert!(m.contains(MappingFlags::from_bits_truncate(WRITE)));
    assert!(!m.contains(MappingFlags::from_bits_truncate(USER)));
    assert_eq!(MappingFlags::empty().union(m), m);
    assert_eq!(MappingFlags::from_bits_truncate(0x180).bits(), 0);
}

#[test]
fn entry_encoding() {
    let e = PTEntry::new_page(PhysAddr(0x800000), PageSize::Size4K, PTEFlags { bits: 0x3 });
    assert_eq!(e.0, 0x800003);
    assert_eq!(e.address(), PhysAddr(0x800000));
    assert_eq!(e.flags().bits, 0x3);
    assert!(e.is_present() && !e.is_large());
    let e = PTEntry::new_page(PhysAddr(0xc00000), PageSize::Size4M, PTEFlags { bits: 0x103 });
    assert_eq!(e.0, 0xc00183);
    assert_eq!(e.address(), PhysAddr(0xc00000));
    assert!(e.is_large());
    let t = PTEntry::new_page_table(PhysAddr(0x7000));
    assert_eq!(t.0, 0x7003);
    assert_eq!(t.address(), PhysAddr(0x7000));
    assert!(!PTEntry::null().is_present());
}

#[test]
fn kernel_offset_translation() {
    assert_eq!(kernel_phys2virt(PhysAddr(0x100000), 0xc0000000), VirtAddr(0xc0100000));
    assert_eq!(kernel_virt2phys(VirtAddr(0xc0100000), 0xc0000000), PhysAddr(0x100000));
}

#[test]
fn region_zones_skip_kernel_and_reserved_memory() {
    let avail = MemoryRegion { start: 0x100000, end: 0x7fe0000, available: true };
    assert_eq!(zone_of_region(avail, 0x1234567), Some((0x1235000, 0x6dab000)));
    let reserved = MemoryRegion { start: 0x9f000, end: 0x100000, available: false };
    assert_eq!(zone_of_region(reserved, 0), None);
    let below = MemoryRegion { start: 0x0, end: 0x9f000, available: true };
    assert_eq!(zone_of_region(below, 0x200000), None);
    let mut b = ZonedBuddy::<0x1000>::new();
    let regions = vec![below, reserved, avail];
    let failed = setup_zones(&mut b, &regions, 0x1234567);
    assert!(failed.is_empty());
    assert_eq!(b.total_memory(), 0x6dab000);
    assert_eq!(b.zone(0).start, 0x1235000);
    assert_eq!(b.zone(0), Zone { start: 0x1235000, size: 0x4000000 });
}

#[test]
fn early_allocator_skips_kernel_and_boot_info() {
    let mut e = EarlyPageAllocator {
        alloc_start: 0,
        kernel_reserved_end: 0x200000,
        boot_info_start: 0x201000,
        boot_info_end: 0x202000,
        regions: vec![
            MemoryRegion { start: 0, end: 0x9f000, available: true },
            MemoryRegion { start: 0x9f000, end: 0x100000, available: false },
            MemoryRegion { start: 0x100000, end: 0x300000, available: true },
            MemoryRegion { start: 0x300000, end: 0x301000, available: false },
            MemoryRegion { start: 0x301000, end: 0x8000000, available: true },
        ],
    };
    assert_eq!(early_alloc_page(&mut e, PageSize::Size4K), Some(PhysAddr(0x200000)));
    assert_eq!(early_alloc_page(&mut e, PageSize::Size4K), Some(PhysAddr(0x202000)));
    assert_eq!(e.alloc_start, 0x203000);
    assert_eq!(early_alloc_page(&mut e, PageSize::Size4M), Some(PhysAddr(0x400000)));
    assert_eq!(e.next_possibly_free(0x1000, PageSize::Size4K), Some(0x200000));
    assert_eq!(e.next_possibly_free(0x201800, PageSize::Size4K), Some(0x202000));
    assert_eq!(e.next_possibly_free(0x2ff000, PageSize::Size4K), None);
    assert_eq!(e.next_possibly_free(0x2ff800, PageSize::Size4K), Some(0x301000));
    assert_eq!(e.next_possibly_free(0x500000, PageSize::Size4K), None);
}

#[test]
fn format_size_parts() {
    let p = FormatSize(1536).parts();
    assert_eq!((p.value, p.tenths, p.unit), (1, Some(5), 1));
    assert_eq!(unit_name(p.unit), "KiB");
    let p = FormatSize(12 * 1024 * 1024).parts();
    assert_eq!((p.value, p.tenths, p.unit), (12, None, 2));
    let p = FormatSize(500).parts();
    assert_eq!((p.value, p.tenths, p.unit), (500, None, 0));
    let p = FormatSize(5).parts();
    assert_eq!((p.value, p.tenths, p.unit), (5, Some(0), 0));
    let p = FormatSize(u64::MAX).parts();
    assert_eq!((p.value, p.tenths, p.unit), (16383, None, 5));
    assert_eq!(unit_name(5), "PiB");
    assert_eq!(FormatSize(7).value(), 7);
}

#[test]
fn page_info_acquire_once() {
    let mut info = PageInfo { uses: 3 };
    assert!(!info.acquire());
    info.reset();
    assert_eq!(info.uses, 0);
    assert!(info.acquire());
    assert_eq!(info.uses, 1);
    assert!(!info.acquire());
}

#[test]
fn console_writes_and_scrolls() {
    let mut w = Writer::new();
    assert_eq!(w.color(), 0x0f);
    w.write(b'A');
    assert_eq!(w.cell(24, 0), Character::new(b'A', 0x0f));
    assert_eq!(w.col(), 1);
    w.set_color(Color::Red, Color::Black);
    assert_eq!(w.color(), 0x04);
    w.write(b'B');
    assert_eq!(w.cell(24, 1), Character::new(b'B', 0x04));
    w.write(b'\r');
    assert_eq!(w.col(), 0);
    w.write(b'\n');
    assert_eq!(w.cell(23, 0), Character::new(b'A', 0x0f));
    assert_eq!(w.cell(24, 0), Character::new(b' ', 0x04));
    w.set_color(Color::White, Color::Blue);
    assert_eq!(w.color(), 0x1f);
    for _ in 0..81 {
        w.write(b'x');
    }
    assert_eq!(w.col(), 1);
    assert_eq!(w.cell(23, 79), Character::new(b'x', 0x1f));
    assert_eq!(w.cell(24, 0), Character::new(b'x', 0x1f));
    w.clear_row(24);
    assert_eq!(w.cell(24, 0), Character::new(b' ', 0x1f));
}

#[test]
fn address_limit_is_end_of_highest_available_region() {
    let regions = vec![
        MemoryRegion { start: 0, end: 0x9f000, available: true },
        MemoryRegion { start: 0x100000, end: 0x7fe0000, available: true },
        MemoryRegion { start: 0xfffc0000, end: 0x100000000, available: false },
    ];
    assert_eq!(address_limit(&regions), 0x7fe0000);
    assert_eq!(address_limit(&Vec::new()), 0);
}

#[test]
fn page_info_table_hands_out_first_unused_page() {
    let mut early = EarlyPageAllocator {
        alloc_start: 0x300000,
        kernel_reserved_end: 0x200000,
        boot_info_start: 0,
        boot_info_end: 0,
        regions: Vec::new(),
    };
    let mut empty: Vec<PageInfo> = Vec::new();
    assert_eq!(alloc_page(&mut empty, &mut early, PageSize::Size4K), Some(PhysAddr(0x300000)));
    let mut table = vec![PageInfo { uses: 1 }, PageInfo { uses: 2 }, PageInfo { uses: 0 }, PageInfo { uses: 0 }];
    assert_eq!(alloc_page(&mut table, &mut early, PageSize::Size4K), Some(PhysAddr(0x2000)));
    assert_eq!(table[2].uses, 1);
    assert_eq!(alloc_page(&mut table, &mut early, PageSize::Size4K), Some(PhysAddr(0x3000)));
    assert_eq!(alloc_page(&mut table, &mut early, PageSize::Size4K), None);
    assert_eq!(early.alloc_start, 0x301000);
}

#[test]
fn zones_that_would_overflow_the_total_are_reported() {
    let big = MemoryRegion { start: 0x1000, end: 0x8000_0000_0000_1000, available: true };
    let mut b = ZonedBuddy::<0x1000>::new();
    let failed = setup_zones(&mut b, &vec![big, big], 0);
    assert_eq!(failed, vec![(0x1000, 0x8000_0000_0000_0000)]);
    assert_eq!(b.zone_count(), 1);
    assert_eq!(b.total_memory(), 0x8000_0000_0000_0000);
}

#[test]
fn early_allocator_reports_exhaustion() {
    let mut e = EarlyPageAllocator {
        alloc_start: usize::MAX - 0x1800,
        kernel_reserved_end: 0,
        boot_info_start: 0,
        boot_info_end: 0,
        regions: Vec::new(),
    };
    assert_eq!(early_alloc_page(&mut e, PageSize::Size4K), None);
    assert_eq!(e.alloc_start, usize::MAX - 0x1800);
}

#[test]
fn console_writes_byte_strings() {
    let mut w = Writer::new();
    w.write_bytes(b"hi\nok");
    assert_eq!(w.cell(23, 0), Character::new(b'h', 0x0f));
    assert_eq!(w.cell(23, 1), Character::new(b'i', 0x0f));
    assert_eq!(w.cell(24, 0), Character::new(b'o', 0x0f));
    assert_eq!(w.cell(24, 1), Character::new(b'k', 0x0f));
    assert_eq!(w.col(), 2);
}
