//! A 32-bit x86 address space: a page directory whose slots each govern
//! 4 MiB and either map a large page or point to a page table of 4 KiB
//! pages; and the walker that maps and unmaps regions in it.
use vstd::prelude::*;
use crate::addr::{PhysAddr, VirtAddr};
use crate::entry::{
    PTEntry, entry_address, entry_flags, entry_present, entry_large, page_entry_raw,
    lemma_null_entry, lemma_page_entry_decode, lemma_table_entry_decode,
};
use crate::flags::{
    EXECUTE, MappingFlags, PTEFlags, pte_bits_of, mapping_bits_of, representable, lemma_pte_bits_bounded,
    lemma_flags_round_trip,
};
use crate::page_allocator::PageAllocatorTrait;
use crate::page_size::{PageSize, page_bytes};
use crate::table_memory::{TableMemory, PAGE_TABLE_ENTRIES};

verus! {

/// Bytes of virtual space that one slot of the page directory governs.
pub const TOP_REGION: usize = 0x400000;
/// Bytes of virtual space that one slot of a page table governs.
pub const LEAF_REGION: usize = 0x1000;
/// Virtual-address bits consumed below the page directory.
pub const TOP_LEVEL_BITS: usize = 22;
/// Virtual-address bits consumed below a page table.
pub const LEAF_LEVEL_BITS: usize = 12;
/// Number of virtual-address bits that each table consumes.
pub const PAGE_LEVEL_BITS: usize = 10;

/// Why a mapping operation failed.
#[derive(Clone, Copy, Debug, PartialEq, Eq, Structural)]
pub enum MappingError {
    /// Mapping over an already existing page (its frame).
    MappingOver(PhysAddr),
    /// Page allocation failed.
    PageAllocationFailed,
    /// Mapping an unaligned physical address.
    UnalignedPhysicalAddress(PhysAddr),
    /// Mapping to an unaligned virtual address.
    UnalignedVirtualAddress(VirtAddr),
    /// Unmapping a page that was not mapped.
    UnmappingNotMapped(VirtAddr),
    /// Unmapping part of a large page (its frame).
    UnmappingPartOfLargePage(PhysAddr),
}

/// Result of a mapping operation.
pub type MappingResult<T> = Result<T, MappingError>;

/// One level of the table: the frame of its table, and the number of low
/// virtual-address bits that one of its slots governs.
#[derive(Clone, Copy, Debug, PartialEq, Eq, Structural)]
pub struct PageTableLevel(pub PhysAddr, pub usize);

impl PageTableLevel {
    /// Bytes of virtual space that one slot of this level governs.
    pub fn region_size(&self) -> (r: usize)
        requires
            self.1 == 22 || self.1 == 12,
        ensures
            r == if self.1 == 22 { 0x400000usize } else { 0x1000usize },
    {
        if self.1 == TOP_LEVEL_BITS {
            TOP_REGION
        } else {
            LEAF_REGION
        }
    }

    /// The page size that a slot of this level maps directly.
    pub fn page_size(&self) -> (r: Option<PageSize>)
        requires
            self.1 == 22 || self.1 == 12,
        ensures
            r == Some(if self.1 == 22 { PageSize::Size4M } else { PageSize::Size4K }),
    {
        match PageSize::try_from(self.region_size()) {
            Ok(p) => Some(p),
            Err(()) => None,
        }
    }
}

/// What a slot holds, as the walker sees it.
#[derive(Clone, Copy, Debug, PartialEq, Eq, Structural)]
pub enum PageTableEntry {
    /// The slot points to the table of the next level.
    Level(PageTableLevel),
    /// The slot maps a page, or is empty when not present.
    Page(PhysAddr, MappingFlags),
}

impl PageTableEntry {
    /// Whether the slot is in use: a table, or a present page.
    pub fn mapped(&self) -> (r: bool)
        ensures
            r == match *self {
                PageTableEntry::Level(_) => true,
                PageTableEntry::Page(_, f) => f.bits & 0x1 != 0,
            },
    {
        match self {
            PageTableEntry::Level(_) => true,
            PageTableEntry::Page(_, f) => f.is_present(),
        }
    }
}

/// Slot of the page directory that governs `v`.
pub open spec fn top_index(v: int) -> int {
    (v / 0x400000) % 1024
}

/// Slot of a page table that governs `v`.
pub open spec fn leaf_index(v: int) -> int {
    (v / 0x1000) % 1024
}

/// A page that an address falls in: its frame, its entry flag bits, its size.
pub type Translation = (usize, usize, PageSize);

/// Where `v` is mapped in the tables `mem` under the directory at `root`.
pub open spec fn translate_in(mem: Map<usize, Seq<usize>>, root: usize, v: int) -> Option<Translation> {
    let t = mem[root][top_index(v)];
    if !entry_present(t) {
        None
    } else if entry_large(t) {
        Some((entry_address(t), entry_flags(t), PageSize::Size4M))
    } else {
        let c = mem[entry_address(t)][leaf_index(v)];
        if entry_present(c) {
            Some((entry_address(c), entry_flags(c), PageSize::Size4K))
        } else {
            None
        }
    }
}

/// Whether slot `i` of the directory points to a page table.
pub open spec fn is_table_slot(mem: Map<usize, Seq<usize>>, root: usize, i: int) -> bool {
    entry_present(mem[root][i]) && !entry_large(mem[root][i])
}

/// The entry flag bits that a page mapped with `m` carries.
pub open spec fn page_flag_bits(m: usize, size: PageSize) -> usize {
    if size == PageSize::Size4M {
        pte_bits_of(m) | 0x80
    } else {
        pte_bits_of(m)
    }
}

/// Slot of a table whose slots govern `pow2(shift)` bytes that governs `v`.
pub open spec fn slot_index(v: int, shift: usize) -> int {
    if shift == 22 {
        top_index(v)
    } else {
        leaf_index(v)
    }
}

/// What a raw entry of a table at level `shift` is to the walker.
pub open spec fn entry_view(raw: usize, shift: usize) -> PageTableEntry {
    if entry_present(raw) && shift > 12 && !entry_large(raw) {
        PageTableEntry::Level(PageTableLevel(PhysAddr(entry_address(raw)), (shift - 10) as usize))
    } else {
        PageTableEntry::Page(
            PhysAddr(entry_address(raw)),
            MappingFlags { bits: mapping_bits_of(entry_flags(raw)) },
        )
    }
}

/// Whether `v` is mapped by a present 4 KiB page with entry flag bits `bits`.
pub open spec fn small_page_with(t: Option<Translation>, bits: usize) -> bool {
    t matches Some(x) && x.1 == bits && x.2 == PageSize::Size4K
}

/// Addresses of the 32-bit virtual address space.
pub open spec fn in_space(v: int) -> bool {
    0 <= v < 0x1_0000_0000
}

/// An address space: its page directory and the frames of its tables.
pub struct AddressSpace {
    top: PageTableLevel,
    tables: TableMemory,
}

impl AddressSpace {
    /// The frames holding tables, with their entries.
    pub closed spec fn mem(&self) -> Map<usize, Seq<usize>> {
        self.tables.view()
    }

    /// The frame of the page directory.
    pub closed spec fn root(&self) -> usize {
        self.top.0.0
    }

    /// Where `v` is mapped.
    pub open spec fn translate(&self, v: int) -> Option<Translation> {
        translate_in(self.mem(), self.root(), v)
    }

    /// What `v` reads back as: frame, mapping flags and page size.
    pub open spec fn read_back(&self, v: int) -> Option<(usize, usize, PageSize)> {
        match self.translate(v) {
            Some(t) => Some((t.0, mapping_bits_of(t.1), t.2)),
            None => None,
        }
    }

    pub closed spec fn wf(&self) -> bool {
        &&& self.tables.wf()
        &&& self.top.1 == 22
        &&& self.mem().contains_key(self.root())
        &&& forall|i: int|
            0 <= i < 1024 && #[trigger] is_table_slot(self.mem(), self.root(), i) ==> {
                let a = entry_address(self.mem()[self.root()][i]);
                &&& self.mem().contains_key(a)
                &&& a != self.root()
            }
        &&& forall|i: int, j: int|
            0 <= i < 1024 && 0 <= j < 1024 && i != j && #[trigger] is_table_slot(
                self.mem(),
                self.root(),
                i,
            ) && #[trigger] is_table_slot(self.mem(), self.root(), j) ==> entry_address(
                self.mem()[self.root()][i],
            ) != entry_address(self.mem()[self.root()][j])
    }

    /// A fresh address space whose empty page directory is at `addr`.
    pub fn from_paddr(addr: PhysAddr) -> (r: AddressSpace)
        ensures
            r.wf(),
            r.root() == addr.0,
            forall|v: int| #[trigger] r.translate(v) is None,
    {
        let mut tables = TableMemory::new();
        tables.insert_zeroed(addr.0);
        let r = AddressSpace { top: PageTableLevel(addr, TOP_LEVEL_BITS), tables };
        proof {
            lemma_null_entry();
            assert forall|v: int| #[trigger] r.translate(v) is None by {
                vstd::arithmetic::div_mod::lemma_mod_bound(v / 0x400000, 1024);
            }
            assert forall|i: int| 0 <= i < 1024 implies !#[trigger] is_table_slot(r.mem(), r.root(), i) by {}
        }
        r
    }

    /// The error that mapping `v` to `p` with a page of `size` meets before
    /// any frame is allocated, if any.
    pub open spec fn map_error(&self, v: usize, p: usize, size: PageSize) -> Option<MappingError> {
        let b = page_bytes(size);
        let t = self.mem()[self.root()][top_index(v as int)];
        if v as int % b as int != 0 {
            Some(MappingError::UnalignedVirtualAddress(VirtAddr(v)))
        } else if p as int % b as int != 0 {
            Some(MappingError::UnalignedPhysicalAddress(PhysAddr(p)))
        } else if size == PageSize::Size4M {
            if entry_present(t) {
                Some(MappingError::MappingOver(PhysAddr(entry_address(t))))
            } else {
                None
            }
        } else if entry_present(t) && entry_large(t) {
            Some(MappingError::MappingOver(PhysAddr(entry_address(t))))
        } else if entry_present(t) {
            let c = self.mem()[entry_address(t)][leaf_index(v as int)];
            if entry_present(c) {
                Some(MappingError::MappingOver(PhysAddr(entry_address(c))))
            } else {
                None
            }
        } else {
            None
        }
    }

    /// Whether no directory slot that governs a part of `[a, b)` is in use.
    pub open spec fn range_unused(&self, a: int, b: int) -> bool {
        forall|i: int|
            a / 0x400000 <= i && i * 0x400000 < b ==> !entry_present(
                #[trigger] self.mem()[self.root()][i],
            )
    }

    /// Whether the page that maps `w` lies partly inside and partly outside
    /// `[a, b)`.
    pub open spec fn straddles(&self, w: int, a: int, b: int) -> bool {
        match self.translate(w) {
            Some(t) => page_start(w, t.2) < a || page_start(w, t.2) + page_bytes(t.2) > b,
            None => false,
        }
    }

    /// Whether some present page lies partly inside and partly outside
    /// `[a, b)`.
    pub open spec fn has_split_page(&self, a: int, b: int) -> bool {
        exists|w: int| a <= w < b && #[trigger] self.straddles(w, a, b)
    }

    /// Whether no directory slot that lies wholly in `[a, b)` points to a
    /// page table.
    pub open spec fn no_table_within(&self, a: int, b: int) -> bool {
        forall|i: int|
            0 <= i < 1024 && a <= i * 0x400000 && i * 0x400000 + 0x400000 <= b ==> !#[trigger] is_table_slot(
                self.mem(),
                self.root(),
                i,
            )
    }

    /// Whether no address of `[a, b)` is mapped.
    pub open spec fn range_unmapped(&self, a: int, b: int) -> bool {
        forall|w: int| a <= w < b ==> #[trigger] self.translate(w) is None
    }

    /// Whether `[v, v + size)` is a non-empty part, not the whole, of a
    /// present large page.
    pub open spec fn splits_large_page(&self, v: int, size: int) -> bool {
        let t = self.mem()[self.root()][top_index(v)];
        &&& size > 0
        &&& entry_present(t)
        &&& entry_large(t)
        &&& (v % 0x400000 != 0 || (v / 0x400000) * 0x400000 + 0x400000 > v + size)
    }

    /// Whether mapping `v` with a page of `size` needs a new page table.
    pub open spec fn needs_table(&self, v: usize, size: PageSize) -> bool {
        size == PageSize::Size4K && !entry_present(self.mem()[self.root()][top_index(v as int)])
    }

    /// Whether a frame at `c` can hold a new page table of this space:
    /// it is aligned and holds no table yet.
    pub open spec fn usable_frame(&self, c: int) -> bool {
        0 <= c <= usize::MAX && c % 0x1000 == 0 && !self.mem().contains_key(c as usize)
    }

    /// Whether the frame at `a` can hold a new page table of this space.
    pub fn frame_usable(&self, a: PhysAddr) -> (r: bool)
        requires
            self.wf(),
        ensures
            r == self.usable_frame(a.0 as int),
    {
        a.0 % LEAF_REGION == 0 && !self.tables.contains(a.0)
    }

    /// A new, empty page table in a frame from `alloc`. A frame that is not
    /// aligned or already holds a table goes back to `alloc`.
    fn new_sublevel<A: PageAllocatorTrait>(&mut self, alloc: &mut A) -> (r: Option<usize>)
        requires
            old(self).wf(),
            old(alloc).inv(),
        ensures
            final(self).wf(),
            final(alloc).inv(),
            final(self).top == old(self).top,
            r matches Some(c) ==> !old(self).mem().contains_key(c) && c % 0x1000 == 0
                && final(self).mem() == old(self).mem().insert(c, Seq::new(1024, |i: int| 0usize)),
            r is None ==> *final(self) == *old(self),
            r is Some <==> (old(alloc).next_frame(PageSize::Size4K) matches Some(c) && old(self).usable_frame(c)),
            r matches Some(c) ==> old(alloc).next_frame(PageSize::Size4K) == Some(c as int)
                && final(alloc).outstanding() == old(alloc).outstanding().push((c, 0x1000usize)),
            old(alloc).next_frame(PageSize::Size4K) is None ==> final(alloc).outstanding() == old(alloc).outstanding(),
    {
        let a = match alloc.alloc_page(PageSize::Size4K) {
            Some(a) => a,
            None => return None,
        };
        if !self.frame_usable(a) {
            alloc.free_page(a, PageSize::Size4K);
            return None;
        }
        let ghost before = *self;
        self.tables.insert_zeroed(a.0);
        proof {
            let m = self.mem();
            let om = before.mem();
            let root = self.root();
            assert(m[root] == om[root]);
            assert forall|i: int|
                0 <= i < 1024 && #[trigger] is_table_slot(m, root, i) implies m.contains_key(
                entry_address(m[root][i]),
            ) && entry_address(m[root][i]) != root by {
                assert(is_table_slot(om, root, i));
            }
            assert forall|i: int, j: int|
                0 <= i < 1024 && 0 <= j < 1024 && i != j && #[trigger] is_table_slot(m, root, i)
                    && #[trigger] is_table_slot(m, root, j) implies entry_address(m[root][i])
                != entry_address(m[root][j]) by {
                assert(is_table_slot(om, root, i) && is_table_slot(om, root, j));
            }
        }
        Some(a.0)
    }

    /// Maps the page of `page_size` at `vaddr` to the frame at `paddr` with
    /// `flags`, adding a page table when a 4 KiB page needs one. Both
    /// addresses must be aligned to the page size, and the slot must not
    /// hold a present page (nor, for a large page, a table).
    pub fn map_page<A: PageAllocatorTrait>(
        &mut self,
        vaddr: VirtAddr,
        paddr: PhysAddr,
        page_size: PageSize,
        flags: MappingFlags,
        alloc: &mut A,
    ) -> (r: MappingResult<()>)
        requires
            old(self).wf(),
            old(alloc).inv(),
            in_space(vaddr.0 as int),
            flags.bits & EXECUTE == 0,
        ensures
            final(self).wf(),
            final(alloc).inv(),
            old(self).map_error(vaddr.0, paddr.0, page_size) matches Some(e) ==> r == Err::<(), MappingError>(e)
                && *final(self) == *old(self) && *final(alloc) == *old(alloc),
            old(self).map_error(vaddr.0, paddr.0, page_size) is None && !old(self).needs_table(vaddr.0, page_size)
                ==> r is Ok && *final(alloc) == *old(alloc),
            old(self).map_error(vaddr.0, paddr.0, page_size) is None && old(self).needs_table(vaddr.0, page_size)
                ==> (r is Ok <==> (old(alloc).next_frame(PageSize::Size4K) matches Some(c) && old(self).usable_frame(c))),
            r is Err && old(self).map_error(vaddr.0, paddr.0, page_size) is None ==> r == Err::<(), MappingError>(
                MappingError::PageAllocationFailed,
            ) && *final(self) == *old(self),
            old(alloc).next_frame(PageSize::Size4K) is None ==> final(alloc).outstanding() == old(alloc).outstanding(),
            r is Ok && old(self).needs_table(vaddr.0, page_size) ==> final(alloc).outstanding() == old(alloc).outstanding().push(
                (old(alloc).next_frame(PageSize::Size4K).unwrap() as usize, 0x1000usize),
            ),
            r is Ok && flags.bits & 0x1 != 0 ==> forall|w: int|
                in_space(w) && w / page_bytes(page_size) as int == vaddr.0 as int / page_bytes(page_size) as int
                    ==> #[trigger] final(self).translate(w) == Some(
                    (paddr.0, page_flag_bits(flags.bits, page_size), page_size),
                ),
            r is Ok ==> forall|w: int|
                in_space(w) && w / page_bytes(page_size) as int != vaddr.0 as int / page_bytes(page_size) as int
                    ==> #[trigger] final(self).translate(w) == old(self).translate(w),
    {
        let bytes = page_size.bytes();
        if !vaddr.is_aligned(bytes) {
            return Err(MappingError::UnalignedVirtualAddress(vaddr));
        }
        if !paddr.is_aligned(bytes) {
            return Err(MappingError::UnalignedPhysicalAddress(paddr));
        }
        let root = self.top.0.0;
        let ti = (vaddr.0 / TOP_REGION) % PAGE_TABLE_ENTRIES;
        proof {
            self.tables.lemma_tables_full(root);
        }
        let top = PTEntry(self.tables.read(root, ti));
        let pte = PTEFlags::from_mapping(flags);
        proof {
            lemma_pte_bits_bounded(flags.bits);
            assert(paddr.0 % 0x1000 == 0) by {
                if page_size == PageSize::Size4M {
                    assert(paddr.0 % 0x400000 == 0);
                    lemma_mod_4m_4k(paddr.0 as int);
                }
            }
        }
        match page_size {
            PageSize::Size4M => {
                if top.is_present() {
                    return Err(MappingError::MappingOver(top.address()));
                }
                let ghost before = *self;
                self.tables.write(root, ti, PTEntry::new_page(paddr, page_size, pte).0);
                proof {
                    lemma_page_entry_decode(paddr.0, pte.bits, true);
                    self.lemma_map_large_frame(before, vaddr.0 as int, paddr.0, pte.bits);
                }
                Ok(())
            },
            PageSize::Size4K => {
                let child: usize;
                let ghost before = *self;
                if top.is_present() {
                    if top.is_large() {
                        return Err(MappingError::MappingOver(top.address()));
                    }
                    child = top.address().0;
                    proof {
                        assert(is_table_slot(self.mem(), root, ti as int));
                    }
                } else {
                    match self.new_sublevel(alloc) {
                        None => {
                            return Err(MappingError::PageAllocationFailed);
                        },
                        Some(c) => {
                            let ghost mid = *self;
                            self.tables.write(root, ti, PTEntry::new_page_table(PhysAddr(c)).0);
                            proof {
                                lemma_table_entry_decode(c);
                                self.lemma_install_table(mid, before, ti as int, c);
                            }
                            child = c;
                        },
                    }
                }
                let li = (vaddr.0 / LEAF_REGION) % PAGE_TABLE_ENTRIES;
                proof {
                    self.tables.lemma_tables_full(child);
                }
                let leaf = PTEntry(self.tables.read(child, li));
                if leaf.is_present() {
                    proof {
                        lemma_null_entry();
                    }
                    return Err(MappingError::MappingOver(leaf.address()));
                }
                let ghost mid2 = *self;
                self.tables.write(child, li, PTEntry::new_page(paddr, page_size, pte).0);
                proof {
                    lemma_page_entry_decode(paddr.0, pte.bits, false);
                    self.lemma_map_small_frame(mid2, before, vaddr.0 as int, child, paddr.0, pte.bits);
                }
                Ok(())
            },
        }
    }

    /// Writing a large page into an empty directory slot keeps the space
    /// well formed, maps the page, and changes no other address.
    proof fn lemma_map_large_frame(&self, before: AddressSpace, v: int, p: usize, f: usize)
        requires
            before.wf(),
            in_space(v),
            self.tables.wf(),
            self.top == before.top,
            !entry_present(before.mem()[before.root()][top_index(v)]),
            self.mem() == before.mem().insert(
                before.root(),
                before.mem()[before.root()].update(top_index(v), page_entry_raw(p, f, true)),
            ),
            entry_address(page_entry_raw(p, f, true)) == p,
            entry_flags(page_entry_raw(p, f, true)) == f | 0x80,
            entry_present(page_entry_raw(p, f, true)) == (f & 0x1 != 0),
            entry_large(page_entry_raw(p, f, true)),
        ensures
            self.wf(),
            entry_present(page_entry_raw(p, f, true)) ==> forall|w: int|
                in_space(w) && w / 0x400000 == v / 0x400000 ==> #[trigger] self.translate(w) == Some(
                    (p, f | 0x80, PageSize::Size4M),
                ),
            forall|w: int|
                in_space(w) && w / 0x400000 != v / 0x400000 ==> #[trigger] self.translate(w)
                    == before.translate(w),
    {
        let root = before.root();
        let ti = top_index(v);
        let m = self.mem();
        let om = before.mem();
        before.tables.lemma_tables_full(root);
        lemma_index_split(v);
        assert forall|i: int| 0 <= i < 1024 && i != ti implies m[root][i] == om[root][i] by {}
        assert forall|i: int|
            0 <= i < 1024 && #[trigger] is_table_slot(m, root, i) implies m.contains_key(
            entry_address(m[root][i]),
        ) && entry_address(m[root][i]) != root by {
            assert(is_table_slot(om, root, i));
        }
        assert forall|i: int, j: int|
            0 <= i < 1024 && 0 <= j < 1024 && i != j && #[trigger] is_table_slot(m, root, i)
                && #[trigger] is_table_slot(m, root, j) implies entry_address(m[root][i])
            != entry_address(m[root][j]) by {
            assert(is_table_slot(om, root, i) && is_table_slot(om, root, j));
        }
        assert forall|w: int| in_space(w) && w / 0x400000 != v / 0x400000 implies #[trigger] self.translate(
            w,
        ) == before.translate(w) by {
            lemma_index_split(w);
            let t = om[root][top_index(w)];
            if is_table_slot(om, root, top_index(w)) {
                assert(entry_address(t) != root);
            }
        }
        assert forall|w: int|
            in_space(w) && w / 0x400000 == v / 0x400000 && entry_present(page_entry_raw(p, f, true))
                implies #[trigger] self.translate(w) == Some((p, f | 0x80, PageSize::Size4M)) by {
            lemma_index_split(w);
        }
    }

    /// Pointing an empty directory slot to a new, empty page table keeps the
    /// space well formed and changes no translation.
    proof fn lemma_install_table(&self, mid: AddressSpace, before: AddressSpace, ti: int, c: usize)
        requires
            before.wf(),
            0 <= ti < 1024,
            self.tables.wf(),
            mid.tables.wf(),
            self.top == before.top,
            mid.top == before.top,
            !entry_present(before.mem()[before.root()][ti]),
            !before.mem().contains_key(c),
            mid.mem() == before.mem().insert(c, Seq::new(1024, |i: int| 0usize)),
            self.mem() == mid.mem().insert(
                before.root(),
                mid.mem()[before.root()].update(ti, c | 0x3),
            ),
            entry_address(c | 0x3) == c,
            entry_present(c | 0x3),
            !entry_large(c | 0x3),
        ensures
            self.wf(),
            is_table_slot(self.mem(), self.root(), ti),
            entry_address(self.mem()[self.root()][ti]) == c,
            self.mem()[c] == Seq::new(1024, |i: int| 0usize),
            forall|w: int| in_space(w) ==> #[trigger] self.translate(w) == before.translate(w),
    {
        let root = before.root();
        let m = self.mem();
        let om = before.mem();
        before.tables.lemma_tables_full(root);
        lemma_null_entry();
        assert(c != root);
        assert forall|i: int| 0 <= i < 1024 && i != ti implies m[root][i] == om[root][i] by {}
        assert forall|i: int|
            0 <= i < 1024 && #[trigger] is_table_slot(m, root, i) implies m.contains_key(
            entry_address(m[root][i]),
        ) && entry_address(m[root][i]) != root by {
            if i != ti {
                assert(is_table_slot(om, root, i));
            }
        }
        assert forall|i: int, j: int|
            0 <= i < 1024 && 0 <= j < 1024 && i != j && #[trigger] is_table_slot(m, root, i)
                && #[trigger] is_table_slot(m, root, j) implies entry_address(m[root][i])
            != entry_address(m[root][j]) by {
            if i != ti && j != ti {
                assert(is_table_slot(om, root, i) && is_table_slot(om, root, j));
            } else if i != ti {
                assert(is_table_slot(om, root, i));
            } else {
                assert(is_table_slot(om, root, j));
            }
        }
        assert forall|w: int| in_space(w) implies #[trigger] self.translate(w) == before.translate(w) by {
            lemma_index_split(w);
            let k = top_index(w);
            if k != ti {
                if is_table_slot(om, root, k) {
                    assert(entry_address(om[root][k]) != c);
                }
            } else {
                assert(m[c][leaf_index(w)] == 0usize);
            }
        }
    }

    /// Writing a 4 KiB page into an empty slot of the page table that slot
    /// `top_index(v)` points to keeps the space well formed, maps the page,
    /// and changes no other address.
    proof fn lemma_map_small_frame(
        &self,
        mid: AddressSpace,
        before: AddressSpace,
        v: int,
        child: usize,
        p: usize,
        f: usize,
    )
        requires
            mid.wf(),
            in_space(v),
            self.tables.wf(),
            self.top == mid.top,
            forall|w: int| in_space(w) ==> #[trigger] mid.translate(w) == before.translate(w),
            is_table_slot(mid.mem(), mid.root(), top_index(v)),
            entry_address(mid.mem()[mid.root()][top_index(v)]) == child,
            !entry_present(mid.mem()[child][leaf_index(v)]),
            self.mem() == mid.mem().insert(
                child,
                mid.mem()[child].update(leaf_index(v), page_entry_raw(p, f, false)),
            ),
            entry_address(page_entry_raw(p, f, false)) == p,
            entry_flags(page_entry_raw(p, f, false)) == f,
            entry_present(page_entry_raw(p, f, false)) == (f & 0x1 != 0),
            !entry_large(page_entry_raw(p, f, false)),
        ensures
            self.wf(),
            entry_present(page_entry_raw(p, f, false)) ==> forall|w: int|
                in_space(w) && w / 0x1000 == v / 0x1000 ==> #[trigger] self.translate(w) == Some(
                    (p, f, PageSize::Size4K),
                ),
            forall|w: int|
                in_space(w) && w / 0x1000 != v / 0x1000 ==> #[trigger] self.translate(w)
                    == before.translate(w),
    {
        let root = mid.root();
        let m = self.mem();
        let om = mid.mem();
        let ti = top_index(v);
        lemma_index_split(v);
        mid.tables.lemma_tables_full(child);
        assert(child != root);
        assert(m[root] == om[root]);
        assert forall|i: int|
            0 <= i < 1024 && #[trigger] is_table_slot(m, root, i) implies m.contains_key(
            entry_address(m[root][i]),
        ) && entry_address(m[root][i]) != root by {
            assert(is_table_slot(om, root, i));
        }
        assert forall|i: int, j: int|
            0 <= i < 1024 && 0 <= j < 1024 && i != j && #[trigger] is_table_slot(m, root, i)
                && #[trigger] is_table_slot(m, root, j) implies entry_address(m[root][i])
            != entry_address(m[root][j]) by {
            assert(is_table_slot(om, root, i) && is_table_slot(om, root, j));
        }
        assert forall|w: int| in_space(w) && w / 0x1000 != v / 0x1000 implies #[trigger] self.translate(
            w,
        ) == before.translate(w) by {
            lemma_index_split(w);
            let k = top_index(w);
            assert(mid.translate(w) == before.translate(w));
            if k != ti {
                if is_table_slot(om, root, k) {
                    assert(entry_address(om[root][k]) != child);
                }
            } else {
                assert(leaf_index(w) != leaf_index(v));
            }
        }
        assert forall|w: int|
            in_space(w) && w / 0x1000 == v / 0x1000 && entry_present(page_entry_raw(p, f, false))
                implies #[trigger] self.translate(w) == Some((p, f, PageSize::Size4K)) by {
            lemma_index_split(w);
        }
    }

    /// What the slot of `level` that governs `vaddr` holds. The level must
    /// be the page directory or a page table of this space.
    pub fn get_entry(&self, level: PageTableLevel, vaddr: VirtAddr) -> (r: PageTableEntry)
        requires
            self.wf(),
            self.mem().contains_key(level.0.0),
            level.1 == 22 || level.1 == 12,
        ensures
            r == entry_view(self.mem()[level.0.0][slot_index(vaddr.0 as int, level.1)], level.1),
    {
        let region: usize = if level.1 == TOP_LEVEL_BITS {
            TOP_REGION
        } else {
            LEAF_REGION
        };
        let index = (vaddr.0 / region) % PAGE_TABLE_ENTRIES;
        proof {
            self.tables.lemma_tables_full(level.0.0);
        }
        let e = PTEntry(self.tables.read(level.0.0, index));
        if e.is_present() && level.1 > LEAF_LEVEL_BITS && !e.is_large() {
            PageTableEntry::Level(PageTableLevel(e.address(), level.1 - PAGE_LEVEL_BITS))
        } else {
            PageTableEntry::Page(e.address(), MappingFlags::from_pte(e.flags()))
        }
    }

    /// The frame, mapping flags and page size that `vaddr` is mapped with,
    /// or `None` when no present page covers it.
    pub fn lookup(&self, vaddr: VirtAddr) -> (r: Option<(PhysAddr, MappingFlags, PageSize)>)
        requires
            self.wf(),
            in_space(vaddr.0 as int),
        ensures
            r matches Some(x) ==> self.read_back(vaddr.0 as int) == Some(
                (x.0.0, x.1.bits, x.2),
            ),
            r is None ==> self.read_back(vaddr.0 as int) is None,
    {
        proof {
            lemma_index_split(vaddr.0 as int);
        }
        let top = self.get_entry(self.top, vaddr);
        match top {
            PageTableEntry::Page(a, f) => {
                if f.is_present() {
                    proof {
                        lemma_present_reads_back(self.mem()[self.root()][top_index(vaddr.0 as int)]);
                    }
                    Some((a, f, PageSize::Size4M))
                } else {
                    proof {
                        lemma_present_reads_back(self.mem()[self.root()][top_index(vaddr.0 as int)]);
                    }
                    None
                }
            },
            PageTableEntry::Level(child) => {
                proof {
                    assert(is_table_slot(self.mem(), self.root(), top_index(vaddr.0 as int)));
                }
                match self.get_entry(child, vaddr) {
                    PageTableEntry::Page(a, f) => {
                        proof {
                            lemma_present_reads_back(
                                self.mem()[child.0.0][leaf_index(vaddr.0 as int)],
                            );
                        }
                        if f.is_present() {
                            Some((a, f, PageSize::Size4K))
                        } else {
                            None
                        }
                    },
                    PageTableEntry::Level(_) => None,
                }
            },
        }
    }

    /// Allocates a frame for each 4 KiB page that covers
    /// `[vaddr, vaddr + size)` and maps it with `flags`; returns `vaddr`.
    /// The first failure, of an allocation or a mapping, ends the work and
    /// is returned; the pages mapped before it stay mapped.
    pub fn map_alloc<A: PageAllocatorTrait>(
        &mut self,
        vaddr: VirtAddr,
        size: usize,
        flags: MappingFlags,
        alloc: &mut A,
    ) -> (r: MappingResult<VirtAddr>)
        requires
            old(self).wf(),
            old(alloc).inv(),
            flags.bits & EXECUTE == 0,
            vaddr.0 + pages_covering(size as int) * 0x1000 <= 0x1_0000_0000,
        ensures
            final(self).wf(),
            final(alloc).inv(),
            r is Ok ==> r == Ok::<VirtAddr, MappingError>(vaddr),
            size == 0 ==> r == Ok::<VirtAddr, MappingError>(vaddr) && *final(self) == *old(self)
                && *final(alloc) == *old(alloc),
            r is Ok && flags.bits & 0x1 != 0 ==> forall|k: int|
                0 <= k < pages_covering(size as int) ==> small_page_with(
                    #[trigger] final(self).translate(vaddr.0 + k * 0x1000),
                    pte_bits_of(flags.bits),
                ),
            r is Ok ==> forall|w: int|
                in_space(w) && (w < vaddr.0 || w >= vaddr.0 + pages_covering(size as int) * 0x1000) ==> #[trigger] final(self).translate(w)
                    == old(self).translate(w),
            r is Ok ==> final(alloc).outstanding().subrange(0, old(alloc).outstanding().len() as int)
                == old(alloc).outstanding() && final(alloc).outstanding().len() >= old(alloc).outstanding().len(),
            r is Ok && flags.bits & 0x1 != 0 ==> forall|k: int|
                0 <= k < pages_covering(size as int) ==> fresh_frame(
                    old(alloc).outstanding(),
                    final(alloc).outstanding(),
                    #[trigger] final(self).translate(vaddr.0 + k * 0x1000),
                ),
            r is Err ==> exists|k: int|
                0 <= k < pages_covering(size as int) && #[trigger] same_outside(
                    *final(self),
                    *old(self),
                    vaddr.0 as int,
                    vaddr.0 + k * 0x1000,
                ),
            vaddr.0 % 0x1000 != 0 && size > 0 ==> r == Err::<VirtAddr, MappingError>(
                MappingError::UnalignedVirtualAddress(vaddr),
            ) || r == Err::<VirtAddr, MappingError>(MappingError::PageAllocationFailed),
            vaddr.0 % 0x1000 == 0 && old(self).range_unmapped(vaddr.0 as int, vaddr.0 + pages_covering(size as int) * 0x1000)
                ==> (r is Ok || r == Err::<VirtAddr, MappingError>(MappingError::PageAllocationFailed)
                || r matches Err(MappingError::UnalignedPhysicalAddress(_))),
    {
        let n = size / LEAF_REGION + if size % LEAF_REGION != 0 { 1usize } else { 0usize };
        proof {
            lemma_pages_covering(size as int);
        }
        let mut k: usize = 0;
        while k < n
            invariant
                self.wf(),
                alloc.inv(),
                flags.bits & EXECUTE == 0,
                vaddr.0 + n * 0x1000 <= 0x1_0000_0000,
                n == pages_covering(size as int),
                k <= n,
                k == 0 ==> *self == *old(self) && *alloc == *old(alloc),
                flags.bits & 0x1 != 0 ==> forall|j: int|
                    0 <= j < k ==> small_page_with(
                        #[trigger] self.translate(vaddr.0 + j * 0x1000),
                        pte_bits_of(flags.bits),
                    ),
                forall|w: int|
                    in_space(w) && (w < vaddr.0 || w >= vaddr.0 + k * 0x1000) ==> #[trigger] self.translate(w)
                        == old(self).translate(w),
                k > 0 ==> vaddr.0 % 0x1000 == 0,
                alloc.outstanding().subrange(0, old(alloc).outstanding().len() as int) == old(alloc).outstanding(),
                alloc.outstanding().len() >= old(alloc).outstanding().len(),
                flags.bits & 0x1 != 0 ==> forall|j: int|
                    0 <= j < k ==> fresh_frame(
                        old(alloc).outstanding(),
                        alloc.outstanding(),
                        #[trigger] self.translate(vaddr.0 + j * 0x1000),
                    ),
            decreases n - k,
        {
            proof {
                assert(k * 0x1000 + 0x1000 <= n * 0x1000) by (nonlinear_arith)
                    requires k < n;
            }
            let ghost before_out = alloc.outstanding();
            let frame = match alloc.alloc_page(PageSize::Size4K) {
                Some(f) => f,
                None => {
                    proof {
                        assert(same_outside(*self, *old(self), vaddr.0 as int, vaddr.0 + k * 0x1000));
                    }
                    return Err(MappingError::PageAllocationFailed);
                },
            };
            let v = vaddr.0 + k * LEAF_REGION;
            let ghost before = *self;
            let ghost out_mid = alloc.outstanding();
            proof {
                let kk = k as int;
                if vaddr.0 % 0x1000 == 0 && old(self).range_unmapped(vaddr.0 as int, vaddr.0 + n * 0x1000) {
                    assert(self.translate(v as int) == old(self).translate(v as int));
                    lemma_aligned_step(vaddr.0 as int, kk);
                    lemma_map_error_unmapped(*self, v, frame.0);
                }
                if kk == 0 {
                    assert(v == vaddr.0);
                }
            }
            match self.map_page(VirtAddr(v), frame, PageSize::Size4K, flags, alloc) {
                Ok(()) => {},
                Err(e) => {
                    proof {
                        assert(same_outside(*self, *old(self), vaddr.0 as int, vaddr.0 + k * 0x1000));
                    }
                    return Err(e);
                },
            }
            proof {
                let kk = k as int;
                assert(v as int % 0x1000 == 0);
                if kk == 0 {
                    assert(vaddr.0 % 0x1000 == 0);
                }
                assert forall|j: int| 0 <= j < kk + 1 && flags.bits & 0x1 != 0 implies small_page_with(
                    #[trigger] self.translate(vaddr.0 + j * 0x1000),
                    pte_bits_of(flags.bits),
                ) by {
                    let w = vaddr.0 + j * 0x1000;
                    assert(in_space(w)) by (nonlinear_arith)
                        requires w == vaddr.0 + j * 0x1000, 0 <= j <= kk, kk * 0x1000 + 0x1000 <= n * 0x1000, vaddr.0 + n * 0x1000 <= 0x1_0000_0000;
                    if j < kk {
                        assert(w / 0x1000 != v as int / 0x1000) by {
                            lemma_page_number(vaddr.0 as int, j);
                            lemma_page_number(vaddr.0 as int, kk);
                        }
                    } else {
                        assert(w == v);
                    }
                }
                assert forall|w: int|
                    in_space(w) && (w < vaddr.0 || w >= vaddr.0 + (kk + 1) * 0x1000) implies #[trigger] self.translate(w)
                    == old(self).translate(w) by {
                    assert(w / 0x1000 != v as int / 0x1000) by {
                        lemma_page_number(vaddr.0 as int, kk);
                        lemma_outside_page(vaddr.0 as int, kk, w);
                    }
                    assert(before.translate(w) == old(self).translate(w));
                }
                let o = old(alloc).outstanding();
                let fin = alloc.outstanding();
                assert(out_mid.subrange(0, o.len() as int) == o);
                assert(fin.subrange(0, out_mid.len() as int) == out_mid);
                assert(fin.subrange(0, o.len() as int) =~= o);
                assert forall|j: int| 0 <= j < kk + 1 && flags.bits & 0x1 != 0 implies fresh_frame(
                    o,
                    fin,
                    #[trigger] self.translate(vaddr.0 + j * 0x1000),
                ) by {
                    let w = vaddr.0 + j * 0x1000;
                    assert(in_space(w)) by (nonlinear_arith)
                        requires w == vaddr.0 + j * 0x1000, 0 <= j <= kk, kk * 0x1000 + 0x1000 <= n * 0x1000, vaddr.0 + n * 0x1000 <= 0x1_0000_0000;
                    if j < kk {
                        assert(w / 0x1000 != v as int / 0x1000) by {
                            lemma_page_number(vaddr.0 as int, j);
                            lemma_page_number(vaddr.0 as int, kk);
                        }
                        assert(fresh_frame(o, before_out, before.translate(w)));
                        let idx = choose|idx: int| o.len() <= idx < before_out.len() && before_out[idx] == (before.translate(w).unwrap().0, 0x1000usize);
                        assert(fin[idx] == before_out[idx]);
                    } else {
                        assert(w == v);
                        let idx = out_mid.len() - 1;
                        assert(fin[idx] == out_mid[idx]);
                    }
                }
            }
            k = k + 1;
        }
        Ok(vaddr)
    }

    /// Empties slot `ti` of the page directory, which points to the page
    /// table at `child`, and returns that table's frame to `alloc`.
    fn free_sublevel<A: PageAllocatorTrait>(&mut self, ti: usize, child: usize, alloc: &mut A)
        requires
            old(self).wf(),
            old(alloc).inv(),
            ti < 1024,
            is_table_slot(old(self).mem(), old(self).root(), ti as int),
            entry_address(old(self).mem()[old(self).root()][ti as int]) == child,
        ensures
            final(self).wf(),
            final(alloc).inv(),
            final(self).root() == old(self).root(),
            forall|i: int|
                0 <= i < 1024 && i != ti ==> #[trigger] final(self).mem()[final(self).root()][i] == old(
                    self,
                ).mem()[old(self).root()][i],
            forall|w: int|
                in_space(w) && top_index(w) != ti ==> #[trigger] final(self).translate(w) == old(
                    self,
                ).translate(w),
            forall|w: int| in_space(w) && top_index(w) == ti ==> #[trigger] final(self).translate(w) is None,
    {
        let root = self.top.0.0;
        proof {
            self.tables.lemma_tables_full(root);
        }
        let ghost before = *self;
        self.tables.write(root, ti, 0);
        alloc.free_page(PhysAddr(child), PageSize::Size4K);
        self.tables.remove(child);
        proof {
            lemma_null_entry();
            let m = self.mem();
            let om = before.mem();
            assert(child != root);
            assert(m[root] == om[root].update(ti as int, 0usize));
            assert forall|i: int| 0 <= i < 1024 && i != ti implies m[root][i] == om[root][i] by {}
            assert forall|i: int|
                0 <= i < 1024 && #[trigger] is_table_slot(m, root, i) implies m.contains_key(
                entry_address(m[root][i]),
            ) && entry_address(m[root][i]) != root by {
                assert(is_table_slot(om, root, i));
                assert(entry_address(om[root][i]) != child);
            }
            assert forall|i: int, j: int|
                0 <= i < 1024 && 0 <= j < 1024 && i != j && #[trigger] is_table_slot(m, root, i)
                    && #[trigger] is_table_slot(m, root, j) implies entry_address(m[root][i])
                != entry_address(m[root][j]) by {
                assert(is_table_slot(om, root, i) && is_table_slot(om, root, j));
            }
            assert forall|w: int| in_space(w) && top_index(w) != ti implies #[trigger] self.translate(
                w,
            ) == before.translate(w) by {
                lemma_index_split(w);
                let k = top_index(w);
                if is_table_slot(om, root, k) {
                    assert(entry_address(om[root][k]) != child);
                }
            }
            assert forall|w: int| in_space(w) && top_index(w) == ti implies #[trigger] self.translate(w)
                is None by {
                lemma_index_split(w);
            }
        }
    }

    /// Clears every 4 KiB page of `[lo, hi)` in the page table at `child`,
    /// which slot `ti` of the directory points to, returning their frames to
    /// `alloc`. A present page that lies only partly in the range is an
    /// error.
    fn unmap_leaf<A: PageAllocatorTrait>(
        &mut self,
        ti: usize,
        child: usize,
        lo: usize,
        hi: usize,
        alloc: &mut A,
    ) -> (r: MappingResult<()>)
        requires
            old(self).wf(),
            old(alloc).inv(),
            ti < 1024,
            is_table_slot(old(self).mem(), old(self).root(), ti as int),
            entry_address(old(self).mem()[old(self).root()][ti as int]) == child,
            ti * 0x400000 <= lo < hi <= ti * 0x400000 + 0x400000,
        ensures
            final(self).wf(),
            final(alloc).inv(),
            final(self).root() == old(self).root(),
            final(self).mem()[final(self).root()] == old(self).mem()[old(self).root()],
            r is Ok ==> forall|w: int|
                in_space(w) && !(lo <= w < hi) ==> #[trigger] final(self).translate(w) == old(
                    self,
                ).translate(w),
            r is Ok ==> forall|w: int| lo <= w < hi ==> #[trigger] final(self).translate(w) is None,
            r is Ok ==> forall|w: int| lo <= w < hi ==> !#[trigger] old(self).straddles(w, lo as int, hi as int),
            r matches Err(e) ==> exists|w: int|
                lo <= w < hi && #[trigger] old(self).straddles(w, lo as int, hi as int) && e
                    == MappingError::UnmappingPartOfLargePage(PhysAddr(old(self).translate(w).unwrap().0)),
            old(self).range_unmapped(lo as int, hi as int) ==> r is Ok && *final(self) == *old(self)
                && *final(alloc) == *old(alloc),
    {
        let mut pn: usize = lo / LEAF_REGION;
        proof {
            vstd::arithmetic::div_mod::lemma_fundamental_div_mod(lo as int, 0x1000);
            vstd::arithmetic::div_mod::lemma_mod_bound(lo as int, 0x1000);
        }
        while pn < 0x100000 && pn * LEAF_REGION < hi
            invariant
                self.wf(),
                alloc.inv(),
                self.root() == old(self).root(),
                self.mem()[self.root()] == old(self).mem()[old(self).root()],
                is_table_slot(self.mem(), self.root(), ti as int),
                entry_address(self.mem()[self.root()][ti as int]) == child,
                ti < 1024,
                ti * 0x400000 <= lo < hi <= ti * 0x400000 + 0x400000,
                lo - 0x1000 < pn * 0x1000,
                pn * 0x1000 <= hi + 0x1000,
                forall|w: int|
                    in_space(w) && (!(lo <= w < hi) || w >= pn * 0x1000) ==> #[trigger] self.translate(w)
                        == old(self).translate(w),
                forall|w: int| lo <= w < hi && w < pn * 0x1000 ==> #[trigger] self.translate(w) is None,
                forall|w: int| lo <= w < hi && w < pn * 0x1000 ==> !#[trigger] old(self).straddles(w, lo as int, hi as int),
                old(self).range_unmapped(lo as int, hi as int) ==> *self == *old(self) && *alloc == *old(alloc),
            decreases 0x100000 - pn,
        {
            let p = pn * LEAF_REGION;
            let li = pn % PAGE_TABLE_ENTRIES;
            proof {
                self.tables.lemma_tables_full(child);
                lemma_page_slots(p as int, pn as int, ti as int, lo as int, hi as int);
            }
            let e = PTEntry(self.tables.read(child, li));
            let partial = p < lo || hi - p < LEAF_REGION;
            let ghost start = *self;
            if e.is_present() {
                if partial {
                    proof {
                        let w = if (p as int) < (lo as int) { lo as int } else { p as int };
                        self.lemma_leaf_translate(p as int, ti as int, child, w);
                        assert(old(self).translate(w) == self.translate(w));
                        assert(old(self).straddles(w, lo as int, hi as int));
                    }
                    return Err(MappingError::UnmappingPartOfLargePage(e.address()));
                }
                proof {
                    if old(self).range_unmapped(lo as int, hi as int) {
                        let w = if (p as int) < (lo as int) { lo as int } else { p as int };
                        self.lemma_leaf_translate(p as int, ti as int, child, w);
                        assert(old(self).translate(w) == self.translate(w));
                    }
                }
                alloc.free_page(e.address(), PageSize::Size4K);
                self.tables.write(child, li, 0);
                proof {
                    lemma_null_entry();
                    self.lemma_leaf_written(start, p as int, ti as int, child, 0usize);
                }
            } else {
                proof {
                    start.lemma_leaf_absent(p as int, ti as int, child);
                }
            }
            proof {
                let pp = p as int;
                assert forall|w: int|
                    in_space(w) && (!(lo <= w < hi) || w >= pp + 0x1000) implies #[trigger] self.translate(w)
                    == old(self).translate(w) by {
                    lemma_same_page(w, pp);
                    if w / 0x1000 == pp / 0x1000 {
                        assert(pp <= w < pp + 0x1000);
                    }
                }
                assert forall|w: int| lo <= w < hi && w < pp + 0x1000 implies #[trigger] self.translate(w)
                    is None by {
                    lemma_same_page(w, pp);
                }
                assert forall|w: int| lo <= w < hi && w < pp + 0x1000 implies !#[trigger] old(self).straddles(
                    w,
                    lo as int,
                    hi as int,
                ) by {
                    lemma_same_page(w, pp);
                    if w >= pp {
                        start.lemma_leaf_translate(pp, ti as int, child, w);
                        assert(old(self).translate(w) == start.translate(w));
                    }
                }
            }
            pn = pn + 1;
        }
        Ok(())
    }

    /// Unmaps every page of `[vaddr, vaddr + size)`, returning their frames
    /// to `alloc`, and the page tables of directory slots that lie wholly in
    /// the range. A page table of a slot that lies only partly in the range
    /// keeps its frame. A present page that lies only partly in the range is
    /// an error; slots with nothing in them are passed over.
    pub fn unmap_free<A: PageAllocatorTrait>(
        &mut self,
        vaddr: VirtAddr,
        size: usize,
        alloc: &mut A,
    ) -> (r: MappingResult<()>)
        requires
            old(self).wf(),
            old(alloc).inv(),
            vaddr.0 + size <= 0x1_0000_0000,
            vaddr.0 + size <= usize::MAX,
        ensures
            final(self).wf(),
            final(alloc).inv(),
            old(self).range_unused(vaddr.0 as int, vaddr.0 + size) ==> r is Ok && *final(self)
                == *old(self) && *final(alloc) == *old(alloc),
            old(self).range_unmapped(vaddr.0 as int, vaddr.0 + size) ==> r is Ok,
            old(self).range_unmapped(vaddr.0 as int, vaddr.0 + size) && old(self).no_table_within(
                vaddr.0 as int,
                vaddr.0 + size,
            ) ==> r is Ok && *final(self) == *old(self) && *final(alloc) == *old(alloc),
            old(self).has_split_page(vaddr.0 as int, vaddr.0 + size) ==> r is Err,
            forall|i: int|
                0 <= i < 1024 && !(vaddr.0 <= i * 0x400000 && i * 0x400000 + 0x400000 <= vaddr.0 + size)
                    ==> #[trigger] final(self).mem()[final(self).root()][i] == old(self).mem()[old(self).root()][i],
            r matches Err(e) ==> exists|w: int|
                vaddr.0 <= w < vaddr.0 + size && #[trigger] old(self).straddles(w, vaddr.0 as int, vaddr.0 + size)
                    && e == MappingError::UnmappingPartOfLargePage(PhysAddr(old(self).translate(w).unwrap().0)),
            old(self).splits_large_page(vaddr.0 as int, size as int) ==> r == Err::<(), MappingError>(
                MappingError::UnmappingPartOfLargePage(
                    PhysAddr(entry_address(old(self).mem()[old(self).root()][top_index(vaddr.0 as int)])),
                ),
            ) && *final(self) == *old(self) && *final(alloc) == *old(alloc),
            r is Ok ==> forall|w: int|
                vaddr.0 <= w < vaddr.0 + size ==> #[trigger] final(self).translate(w) is None,
            r is Ok ==> forall|w: int|
                in_space(w) && !(vaddr.0 <= w < vaddr.0 + size) ==> #[trigger] final(self).translate(w)
                    == old(self).translate(w),
    {
        if size == 0 {
            return Ok(());
        }
        let end = vaddr.0 + size;
        let first = vaddr.0 / TOP_REGION;
        let mut ti: usize = first;
        proof {
            lemma_index_split(vaddr.0 as int);
            vstd::arithmetic::div_mod::lemma_fundamental_div_mod(vaddr.0 as int, 0x400000);
            vstd::arithmetic::div_mod::lemma_mod_bound(vaddr.0 as int, 0x400000);
        }
        let root = self.top.0.0;
        while ti < PAGE_TABLE_ENTRIES && ti * TOP_REGION < end
            invariant
                self.wf(),
                alloc.inv(),
                self.root() == root,
                root == old(self).root(),
                end == vaddr.0 + size,
                size > 0,
                end <= 0x1_0000_0000,
                first == vaddr.0 / 0x400000,
                first * 0x400000 <= vaddr.0 < first * 0x400000 + 0x400000,
                first <= ti <= 1024,
                ti == first ==> *self == *old(self) && *alloc == *old(alloc),
                old(self).splits_large_page(vaddr.0 as int, size as int) ==> ti == first,
                old(self).range_unused(vaddr.0 as int, end as int) ==> *self == *old(self) && *alloc
                    == *old(alloc),
                forall|w: int|
                    in_space(w) && (!(vaddr.0 <= w < end) || w >= ti * 0x400000) ==> #[trigger] self.translate(w)
                        == old(self).translate(w),
                forall|w: int| vaddr.0 <= w < end && w < ti * 0x400000 ==> #[trigger] self.translate(w) is None,
                forall|w: int|
                    vaddr.0 <= w < end && w < ti * 0x400000 ==> !#[trigger] old(self).straddles(w, vaddr.0 as int, end as int),
                old(self).range_unmapped(vaddr.0 as int, end as int) && old(self).no_table_within(vaddr.0 as int, end as int)
                    ==> *self == *old(self) && *alloc == *old(alloc),
                forall|i: int|
                    0 <= i < 1024 && (i >= ti || !(vaddr.0 <= i * 0x400000 && i * 0x400000 + 0x400000 <= end))
                        ==> #[trigger] self.mem()[root][i] == old(self).mem()[root][i],
            decreases 1024 - ti,
        {
            let page = ti * TOP_REGION;
            proof {
                self.tables.lemma_tables_full(root);
            }
            let e = PTEntry(self.tables.read(root, ti));
            let partial = page < vaddr.0 || end - page < TOP_REGION;
            let ghost start = *self;
            if e.is_present() {
                if e.is_large() {
                    if partial {
                        proof {
                            let w = if (page as int) < (vaddr.0 as int) { vaddr.0 as int } else { page as int };
                            lemma_index_split(w);
                            lemma_slot_of(w, ti as int);
                            lemma_large_start(w, ti as int);
                            assert(self.translate(w) is Some);
                            assert(old(self).translate(w) == self.translate(w));
                            assert(old(self).straddles(w, vaddr.0 as int, end as int));
                        }
                        return Err(MappingError::UnmappingPartOfLargePage(e.address()));
                    }
                    alloc.free_page(e.address(), PageSize::Size4M);
                    self.tables.write(root, ti, 0);
                    proof {
                        lemma_null_entry();
                        self.lemma_top_cleared(start, ti as int);
                        lemma_full_slot(ti as int, vaddr.0 as int, end as int);
                        assert forall|w: int|
                            vaddr.0 <= w < end && w < (ti + 1) * 0x400000 implies !#[trigger] old(self).straddles(
                            w,
                            vaddr.0 as int,
                            end as int,
                        ) by {
                            if w >= ti * 0x400000 {
                                lemma_index_split(w);
                                lemma_slot_of(w, ti as int);
                                lemma_large_start(w, ti as int);
                                assert(old(self).translate(w) == start.translate(w));
                            }
                        }
                        if old(self).range_unmapped(vaddr.0 as int, end as int) {
                            let w = page as int;
                            lemma_index_split(w);
                            assert(start.translate(w) == old(self).translate(w));
                        }
                    }
                } else {
                    let child = e.address().0;
                    let lo = if page < vaddr.0 { vaddr.0 } else { page };
                    let hi = if end - page < TOP_REGION { end } else { page + TOP_REGION };
                    proof {
                        assert(is_table_slot(self.mem(), root, ti as int));
                    }
                    let ghost before_leaf = *self;
                    match self.unmap_leaf(ti, child, lo, hi, alloc) {
                        Ok(()) => {},
                        Err(err) => {
                            proof {
                                let w = choose|w: int|
                                    lo <= w < hi && #[trigger] before_leaf.straddles(w, lo as int, hi as int) && err
                                        == MappingError::UnmappingPartOfLargePage(
                                        PhysAddr(before_leaf.translate(w).unwrap().0),
                                    );
                                lemma_index_split(w);
                                lemma_slot_of(w, ti as int);
                                before_leaf.lemma_straddle_in_slot(ti as int, w, vaddr.0 as int, end as int, lo as int, hi as int);
                                assert(before_leaf.translate(w) == old(self).translate(w));
                                assert(old(self).straddles(w, vaddr.0 as int, end as int));
                            }
                            return Err(err);
                        },
                    }
                    let ghost after_leaf = *self;
                    proof {
                        lemma_slot_range(ti as int, vaddr.0 as int, end as int, lo as int, hi as int);
                        assert(is_table_slot(self.mem(), self.root(), ti as int));
                        assert forall|w: int|
                            vaddr.0 <= w < end && w < (ti + 1) * 0x400000 implies !#[trigger] old(self).straddles(
                            w,
                            vaddr.0 as int,
                            end as int,
                        ) by {
                            if w >= ti * 0x400000 {
                                lemma_index_split(w);
                                lemma_slot_of(w, ti as int);
                                before_leaf.lemma_straddle_in_slot(ti as int, w, vaddr.0 as int, end as int, lo as int, hi as int);
                                assert(before_leaf.translate(w) == old(self).translate(w));
                                assert(!before_leaf.straddles(w, lo as int, hi as int));
                            }
                        }
                        if old(self).range_unmapped(vaddr.0 as int, end as int) && old(self).no_table_within(
                            vaddr.0 as int,
                            end as int,
                        ) {
                            if !partial {
                                assert(!is_table_slot(old(self).mem(), old(self).root(), ti as int));
                            }
                            assert forall|w: int| lo <= w < hi implies #[trigger] before_leaf.translate(w) is None by {
                                assert(before_leaf.translate(w) == old(self).translate(w));
                            }
                            assert(before_leaf.range_unmapped(lo as int, hi as int));
                        }
                    }
                    if !partial {
                        proof {
                            lemma_full_slot(ti as int, vaddr.0 as int, end as int);
                        }
                        self.free_sublevel(ti, child, alloc);
                    }
                    proof {
                        let a = vaddr.0 as int;
                        let b = end as int;
                        assert forall|w: int|
                            in_space(w) && top_index(w) == ti && !(a <= w < b) implies #[trigger] self.translate(w)
                            == start.translate(w) by {
                            assert(after_leaf.translate(w) == start.translate(w));
                        }
                    }
                }
            } else {
                proof {
                    self.lemma_empty_slot_absent(ti as int);
                    assert forall|w: int|
                        vaddr.0 <= w < end && w < (ti + 1) * 0x400000 implies !#[trigger] old(self).straddles(
                        w,
                        vaddr.0 as int,
                        end as int,
                    ) by {
                        if w >= ti * 0x400000 {
                            lemma_index_split(w);
                            lemma_slot_of(w, ti as int);
                            assert(self.translate(w) == old(self).translate(w));
                        }
                    }
                }
            }
            proof {
                lemma_slot_step(*self, start, *old(self), ti as int, vaddr.0 as int, end as int);
                if ti == first {
                    assert(page < vaddr.0 <==> vaddr.0 % 0x400000 != 0);
                }
            }
            ti = ti + 1;
        }
        Ok(())
    }

    /// Writing `raw` into the slot of the page table at `child` that governs
    /// `p` changes the translation of `p`'s 4 KiB page only.
    proof fn lemma_leaf_written(&self, start: AddressSpace, p: int, ti: int, child: usize, raw: usize)
        requires
            start.wf(),
            self.tables.wf(),
            self.top == start.top,
            in_space(p),
            0 <= ti < 1024,
            top_index(p) == ti,
            is_table_slot(start.mem(), start.root(), ti),
            entry_address(start.mem()[start.root()][ti]) == child,
            self.mem() == start.mem().insert(child, start.mem()[child].update(leaf_index(p), raw)),
        ensures
            self.wf(),
            self.mem()[self.root()] == start.mem()[start.root()],
            is_table_slot(self.mem(), self.root(), ti),
            entry_address(self.mem()[self.root()][ti]) == child,
            forall|w: int|
                in_space(w) && w / 0x1000 != p / 0x1000 ==> #[trigger] self.translate(w)
                    == start.translate(w),
            !entry_present(raw) ==> forall|w: int|
                in_space(w) && w / 0x1000 == p / 0x1000 ==> #[trigger] self.translate(w) is None,
    {
        let root = start.root();
        let m = self.mem();
        let om = start.mem();
        lemma_index_split(p);
        start.tables.lemma_tables_full(child);
        assert(child != root);
        assert(m[root] == om[root]);
        assert forall|i: int|
            0 <= i < 1024 && #[trigger] is_table_slot(m, root, i) implies m.contains_key(
            entry_address(m[root][i]),
        ) && entry_address(m[root][i]) != root by {
            assert(is_table_slot(om, root, i));
        }
        assert forall|i: int, j: int|
            0 <= i < 1024 && 0 <= j < 1024 && i != j && #[trigger] is_table_slot(m, root, i)
                && #[trigger] is_table_slot(m, root, j) implies entry_address(m[root][i])
            != entry_address(m[root][j]) by {
            assert(is_table_slot(om, root, i) && is_table_slot(om, root, j));
        }
        assert forall|w: int| in_space(w) && w / 0x1000 != p / 0x1000 implies #[trigger] self.translate(
            w,
        ) == start.translate(w) by {
            lemma_index_split(w);
            let k = top_index(w);
            if k != ti {
                if is_table_slot(om, root, k) {
                    assert(entry_address(om[root][k]) != child);
                }
            } else {
                assert(leaf_index(w) != leaf_index(p));
            }
        }
        assert forall|w: int| in_space(w) && w / 0x1000 == p / 0x1000 && !entry_present(raw) implies #[trigger] self.translate(w)
            is None by {
            lemma_index_split(w);
        }
    }

    /// An address in the aligned 4 KiB page at `p`, in slot `ti` of the
    /// directory that points to the page table at `child`, is translated by
    /// that table's entry for `p`.
    proof fn lemma_leaf_translate(&self, p: int, ti: int, child: usize, w: int)
        requires
            self.wf(),
            in_space(p),
            p % 0x1000 == 0,
            top_index(p) == ti,
            is_table_slot(self.mem(), self.root(), ti),
            entry_address(self.mem()[self.root()][ti]) == child,
            p <= w < p + 0x1000,
        ensures
            in_space(w),
            page_start(w, PageSize::Size4K) == p,
            self.translate(w) == if entry_present(self.mem()[child][leaf_index(p)]) {
                Some(
                    (
                        entry_address(self.mem()[child][leaf_index(p)]),
                        entry_flags(self.mem()[child][leaf_index(p)]),
                        PageSize::Size4K,
                    ),
                )
            } else {
                None
            },
    {
        lemma_index_split(p);
        assert(p + 0x1000 <= 0x1_0000_0000) by {
            vstd::arithmetic::div_mod::lemma_fundamental_div_mod(p, 0x1000);
            assert(p / 0x1000 < 0x100000);
            assert(0x1000 * (p / 0x1000) + 0x1000 <= 0x1000 * 0x100000) by (nonlinear_arith)
                requires p / 0x1000 < 0x100000;
        }
        lemma_same_page(w, p);
        lemma_index_split(w);
        vstd::arithmetic::div_mod::lemma_fundamental_div_mod(w, 0x1000);
        vstd::arithmetic::div_mod::lemma_fundamental_div_mod(p, 0x1000);
    }

    /// For an address in directory slot `ti`, which points to a page table,
    /// straddling `[lo, hi)`, the part of `[a, b)` in the slot, is
    /// straddling `[a, b)`.
    proof fn lemma_straddle_in_slot(&self, ti: int, w: int, a: int, b: int, lo: int, hi: int)
        requires
            self.wf(),
            0 <= ti < 1024,
            is_table_slot(self.mem(), self.root(), ti),
            in_space(w),
            top_index(w) == ti,
            lo == if ti * 0x400000 < a { a } else { ti * 0x400000 },
            hi == if b - ti * 0x400000 < 0x400000 { b } else { ti * 0x400000 + 0x400000 },
        ensures
            self.straddles(w, lo, hi) == self.straddles(w, a, b),
    {
        lemma_index_split(w);
        lemma_slot_of(w, ti);
        lemma_base_in_slot(w, ti);
    }

    /// An absent slot of the page table that slot `ti` points to leaves its
    /// 4 KiB page unmapped.
    proof fn lemma_leaf_absent(&self, p: int, ti: int, child: usize)
        requires
            self.wf(),
            in_space(p),
            top_index(p) == ti,
            is_table_slot(self.mem(), self.root(), ti),
            entry_address(self.mem()[self.root()][ti]) == child,
            !entry_present(self.mem()[child][leaf_index(p)]),
        ensures
            forall|w: int| in_space(w) && w / 0x1000 == p / 0x1000 ==> #[trigger] self.translate(w) is None,
    {
        lemma_index_split(p);
        assert forall|w: int| in_space(w) && w / 0x1000 == p / 0x1000 implies #[trigger] self.translate(w)
            is None by {
            lemma_index_split(w);
        }
    }

    /// Emptying slot `ti` of the directory unmaps its 4 MiB of addresses and
    /// changes no other translation.
    proof fn lemma_top_cleared(&self, start: AddressSpace, ti: int)
        requires
            start.wf(),
            self.tables.wf(),
            self.top == start.top,
            0 <= ti < 1024,
            !is_table_slot(start.mem(), start.root(), ti),
            self.mem() == start.mem().insert(start.root(), start.mem()[start.root()].update(ti, 0usize)),
        ensures
            self.wf(),
            forall|w: int| in_space(w) && top_index(w) != ti ==> #[trigger] self.translate(w) == start.translate(w),
            forall|w: int| in_space(w) && top_index(w) == ti ==> #[trigger] self.translate(w) is None,
    {
        let root = start.root();
        let m = self.mem();
        let om = start.mem();
        lemma_null_entry();
        start.tables.lemma_tables_full(root);
        assert forall|i: int| 0 <= i < 1024 && i != ti implies m[root][i] == om[root][i] by {}
        assert forall|i: int|
            0 <= i < 1024 && #[trigger] is_table_slot(m, root, i) implies m.contains_key(
            entry_address(m[root][i]),
        ) && entry_address(m[root][i]) != root by {
            assert(is_table_slot(om, root, i));
        }
        assert forall|i: int, j: int|
            0 <= i < 1024 && 0 <= j < 1024 && i != j && #[trigger] is_table_slot(m, root, i)
                && #[trigger] is_table_slot(m, root, j) implies entry_address(m[root][i])
            != entry_address(m[root][j]) by {
            assert(is_table_slot(om, root, i) && is_table_slot(om, root, j));
        }
        assert forall|w: int| in_space(w) && top_index(w) != ti implies #[trigger] self.translate(w)
            == start.translate(w) by {
            lemma_index_split(w);
            let k = top_index(w);
            if is_table_slot(om, root, k) {
                assert(entry_address(om[root][k]) != root);
            }
        }
        assert forall|w: int| in_space(w) && top_index(w) == ti implies #[trigger] self.translate(w) is None by {
            lemma_index_split(w);
        }
    }

    /// A slot that is not present maps none of its addresses.
    proof fn lemma_empty_slot_absent(&self, ti: int)
        requires
            self.wf(),
            0 <= ti < 1024,
            !entry_present(self.mem()[self.root()][ti]),
        ensures
            forall|w: int| in_space(w) && top_index(w) == ti ==> #[trigger] self.translate(w) is None,
    {
    }

    /// The page directory.
    pub fn top_level(&self) -> (r: PageTableLevel)
        requires
            self.wf(),
        ensures
            r.0.0 == self.root(),
            r.1 == 22,
    {
        self.top
    }
}

/// An address of directory slot `ti` starts a 4 MiB page at the slot's
/// start.
proof fn lemma_large_start(w: int, ti: int)
    requires
        w >= 0,
        ti * 0x400000 <= w < ti * 0x400000 + 0x400000,
    ensures
        page_start(w, PageSize::Size4M) == ti * 0x400000,
{
    lemma_slot_of(w, ti);
    vstd::arithmetic::div_mod::lemma_fundamental_div_mod(w, 0x400000);
}

/// The 4 KiB page of an address of directory slot `ti` lies in the slot.
proof fn lemma_base_in_slot(w: int, ti: int)
    requires
        w >= 0,
        ti >= 0,
        ti * 0x400000 <= w < ti * 0x400000 + 0x400000,
    ensures
        ti * 0x400000 <= page_start(w, PageSize::Size4K),
        page_start(w, PageSize::Size4K) + 0x1000 <= ti * 0x400000 + 0x400000,
{
    vstd::arithmetic::div_mod::lemma_fundamental_div_mod(w, 0x1000);
    vstd::arithmetic::div_mod::lemma_mod_bound(w, 0x1000);
    let q = w / 0x1000;
    let t = ti * 1024;
    assert(ti * 0x400000 == 0x1000 * t) by (nonlinear_arith) requires t == ti * 1024;
    if q < t {
        assert(0x1000 * q + 0x1000 <= 0x1000 * t) by (nonlinear_arith) requires q < t;
    }
    if q >= t + 1024 {
        assert(0x1000 * q >= 0x1000 * t + 0x400000) by (nonlinear_arith) requires q >= t + 1024;
    }
    assert(0x1000 * q + 0x1000 <= 0x1000 * t + 0x400000) by (nonlinear_arith) requires q < t + 1024;
}

/// Start of the page of `size` that `w` falls in.
pub open spec fn page_start(w: int, size: PageSize) -> int {
    w - w % page_bytes(size) as int
}

/// Whether `s1` and `s2` translate alike every address outside `[a, b)`.
pub open spec fn same_outside(s1: AddressSpace, s2: AddressSpace, a: int, b: int) -> bool {
    forall|w: int| in_space(w) && (w < a || w >= b) ==> #[trigger] s1.translate(w) == s2.translate(w)
}

/// Whether a translation maps a 4 KiB frame that is among the frames of
/// `after` past those of `before`.
pub open spec fn fresh_frame(before: Seq<(usize, usize)>, after: Seq<(usize, usize)>, t: Option<Translation>) -> bool {
    t matches Some(x) && exists|idx: int| before.len() <= idx < after.len() && after[idx] == (x.0, 0x1000usize)
}

/// Number of 4 KiB pages that cover `size` bytes.
pub open spec fn pages_covering(size: int) -> int {
    (size + 0xfff) / 0x1000
}

proof fn lemma_pages_covering(size: int)
    requires
        size >= 0,
    ensures
        pages_covering(size) == size / 0x1000 + if size % 0x1000 != 0 { 1int } else { 0int },
        pages_covering(size) >= 0,
        size > 0 ==> pages_covering(size) > 0,
        size == 0 ==> pages_covering(size) == 0,
{
    vstd::arithmetic::div_mod::lemma_fundamental_div_mod(size, 0x1000);
    vstd::arithmetic::div_mod::lemma_fundamental_div_mod(size + 0xfff, 0x1000);
    vstd::arithmetic::div_mod::lemma_mod_bound(size, 0x1000);
    vstd::arithmetic::div_mod::lemma_mod_bound(size + 0xfff, 0x1000);
    let q = size / 0x1000;
    let r = size % 0x1000;
    let q2 = (size + 0xfff) / 0x1000;
    let r2 = (size + 0xfff) % 0x1000;
    if r == 0 {
        assert(0x1000 * q2 + r2 == 0x1000 * q + 0xfff);
        if q2 > q {
            assert(0x1000 * q2 >= 0x1000 * q + 0x1000) by (nonlinear_arith) requires q2 > q;
        }
        if q2 < q {
            assert(0x1000 * q2 + 0x1000 <= 0x1000 * q) by (nonlinear_arith) requires q2 < q;
        }
    } else {
        assert(0x1000 * q2 + r2 == 0x1000 * (q + 1) + (r - 1));
        if q2 > q + 1 {
            assert(0x1000 * q2 >= 0x1000 * (q + 1) + 0x1000) by (nonlinear_arith) requires q2 > q + 1;
        }
        if q2 < q + 1 {
            assert(0x1000 * q2 + 0x1000 <= 0x1000 * (q + 1)) by (nonlinear_arith) requires q2 < q + 1;
        }
    }
}

/// The `k`-th page after an aligned address is aligned.
proof fn lemma_aligned_step(base: int, k: int)
    requires
        base >= 0,
        k >= 0,
        base % 0x1000 == 0,
    ensures
        (base + k * 0x1000) % 0x1000 == 0,
{
    vstd::arithmetic::div_mod::lemma_mod_multiples_vanish(k, base, 0x1000);
    assert(k * 0x1000 == 0x1000 * k) by (nonlinear_arith);
}

/// Mapping a 4 KiB page at an aligned, unmapped address meets no error but
/// an unaligned frame.
proof fn lemma_map_error_unmapped(s: AddressSpace, v: usize, p: usize)
    requires
        s.wf(),
        in_space(v as int),
        v as int % 0x1000 == 0,
        s.translate(v as int) is None,
    ensures
        s.map_error(v, p, PageSize::Size4K) is None || s.map_error(v, p, PageSize::Size4K) == Some(
            MappingError::UnalignedPhysicalAddress(PhysAddr(p)),
        ),
{
}

/// Reading back an entry keeps its present bit.
pub proof fn lemma_present_reads_back(raw: usize)
    ensures
        (mapping_bits_of(entry_flags(raw)) & 0x1 != 0) == entry_present(raw),
{
    assert((((raw & 0x19f) & 0x1) | (((raw & 0x19f) & 0x1) << 1usize) | (((raw & 0x19f) & 0x2) << 1usize)
        | (((raw & 0x19f) & 0x4) << 2usize) | (((raw & 0x19f) & 0x10) << 1usize) | (((raw & 0x19f)
        & 0x100) >> 2usize)) & 0x1 != 0 <==> raw & 0x1 != 0) by (bit_vector);
}

/// The 4 KiB page number of `base + k * 4096` is `k` more than that of
/// `base`.
proof fn lemma_page_number(base: int, k: int)
    requires
        base >= 0,
        k >= 0,
    ensures
        (base + k * 0x1000) / 0x1000 == base / 0x1000 + k,
{
    vstd::arithmetic::div_mod::lemma_hoist_over_denominator(base, k, 0x1000);
}

/// An address outside `[base + k * 4096, base + (k + 1) * 4096)` is in
/// another 4 KiB page than `base + k * 4096`, when `base` is aligned.
proof fn lemma_outside_page(base: int, k: int, w: int)
    requires
        base >= 0,
        k >= 0,
        w >= 0,
        w < base || w >= base + (k + 1) * 0x1000,
    ensures
        base % 0x1000 == 0 ==> w / 0x1000 != (base + k * 0x1000) / 0x1000,
{
    if base % 0x1000 == 0 {
        lemma_page_number(base, k);
        vstd::arithmetic::div_mod::lemma_fundamental_div_mod(base, 0x1000);
        vstd::arithmetic::div_mod::lemma_fundamental_div_mod(w, 0x1000);
        vstd::arithmetic::div_mod::lemma_mod_bound(w, 0x1000);
        if w / 0x1000 == base / 0x1000 + k {
            let q = w / 0x1000;
            let b = base / 0x1000;
            assert(0x1000 * q == 0x1000 * b + 0x1000 * k) by (nonlinear_arith)
                requires q == b + k;
            assert((k + 1) * 0x1000 == k * 0x1000 + 0x1000) by (nonlinear_arith);
            assert(k * 0x1000 == 0x1000 * k) by (nonlinear_arith);
        }
    }
}

/// After a page is mapped with present, representable flags, reading back
/// the entry at its address gives the same frame, flags and page size.
pub proof fn lemma_map_then_read(s: AddressSpace, v: int, p: usize, size: PageSize, flags: usize)
    requires
        representable(flags),
        flags & 0x1 != 0,
        s.translate(v) == Some((p, page_flag_bits(flags, size), size)),
    ensures
        s.read_back(v) == Some((p, flags, size)),
{
    lemma_flags_round_trip(flags);
}

/// Mapping an aligned page where a present page already covers the
/// address fails with the mapping-over error, which names the frame of the
/// page there when it has the requested size.
pub proof fn lemma_map_over_present(s: AddressSpace, v: usize, p: usize, size: PageSize)
    requires
        s.wf(),
        in_space(v as int),
        v as int % page_bytes(size) as int == 0,
        p as int % page_bytes(size) as int == 0,
        s.translate(v as int) is Some,
    ensures
        s.map_error(v, p, size) matches Some(MappingError::MappingOver(_)),
        s.translate(v as int).unwrap().2 == size ==> s.map_error(v, p, size) == Some(
            MappingError::MappingOver(PhysAddr(s.translate(v as int).unwrap().0)),
        ),
{
}

/// `w` lies in directory slot `ti` exactly when it lies in
/// `[ti * 4 MiB, (ti + 1) * 4 MiB)`.
proof fn lemma_slot_of(w: int, ti: int)
    requires
        w >= 0,
    ensures
        (w / 0x400000 == ti) == (ti * 0x400000 <= w < ti * 0x400000 + 0x400000),
        w / 0x400000 < ti ==> w < ti * 0x400000,
        w / 0x400000 > ti ==> w >= ti * 0x400000 + 0x400000,
{
    vstd::arithmetic::div_mod::lemma_fundamental_div_mod(w, 0x400000);
    vstd::arithmetic::div_mod::lemma_mod_bound(w, 0x400000);
    let q = w / 0x400000;
    if q < ti {
        assert(q * 0x400000 + 0x400000 <= ti * 0x400000) by (nonlinear_arith)
            requires q < ti;
    }
    if q > ti {
        assert(q * 0x400000 >= ti * 0x400000 + 0x400000) by (nonlinear_arith)
            requires q > ti;
    }
    if ti * 0x400000 <= w < ti * 0x400000 + 0x400000 {
        if q < ti {
            assert(q * 0x400000 + 0x400000 <= ti * 0x400000) by (nonlinear_arith)
                requires q < ti;
        } else if q > ti {
            assert(q * 0x400000 >= ti * 0x400000 + 0x400000) by (nonlinear_arith)
                requires q > ti;
        }
    }
}

/// `w` lies in the 4 KiB page at the aligned `p` exactly when it has the
/// same 4 KiB page number.
proof fn lemma_same_page(w: int, p: int)
    requires
        w >= 0,
        p >= 0,
        p % 0x1000 == 0,
    ensures
        (w / 0x1000 == p / 0x1000) == (p <= w < p + 0x1000),
{
    vstd::arithmetic::div_mod::lemma_fundamental_div_mod(w, 0x1000);
    vstd::arithmetic::div_mod::lemma_fundamental_div_mod(p, 0x1000);
    vstd::arithmetic::div_mod::lemma_mod_bound(w, 0x1000);
    let q = w / 0x1000;
    let pq = p / 0x1000;
    if q < pq {
        assert(q * 0x1000 + 0x1000 <= pq * 0x1000) by (nonlinear_arith)
            requires q < pq;
    }
    if q > pq {
        assert(q * 0x1000 >= pq * 0x1000 + 0x1000) by (nonlinear_arith)
            requires q > pq;
    }
}

/// The 4 KiB page at number `pn` of a range inside directory slot `ti`
/// lies in that slot, and `pn % 1024` is its slot in the page table.
proof fn lemma_page_slots(p: int, pn: int, ti: int, lo: int, hi: int)
    requires
        p == pn * 0x1000,
        pn >= 0,
        0 <= ti < 1024,
        lo - 0x1000 < p < hi,
        ti * 0x400000 <= lo,
        hi <= ti * 0x400000 + 0x400000,
    ensures
        in_space(p),
        p % 0x1000 == 0,
        p / 0x1000 == pn,
        top_index(p) == ti,
        leaf_index(p) == pn % 1024,
{
    vstd::arithmetic::div_mod::lemma_mod_multiples_basic(pn, 0x1000);
    vstd::arithmetic::div_mod::lemma_div_multiples_vanish(pn, 0x1000);
    assert(pn * 0x1000 == 0x1000 * pn) by (nonlinear_arith);
    assert(ti * 0x400000 == (ti * 1024) * 0x1000) by (nonlinear_arith);
    if pn < ti * 1024 {
        assert(pn * 0x1000 + 0x1000 <= (ti * 1024) * 0x1000) by (nonlinear_arith)
            requires pn < ti * 1024;
    }
    assert(ti * 0x400000 + 0x400000 <= 0x1_0000_0000) by (nonlinear_arith)
        requires ti < 1024;
    lemma_slot_of(p, ti);
    lemma_index_split(p);
}

/// When slot `ti` lies wholly in `[a, b)`, so does every address of it.
proof fn lemma_full_slot(ti: int, a: int, b: int)
    requires
        ti * 0x400000 >= a,
        b - ti * 0x400000 >= 0x400000,
    ensures
        forall|w: int| in_space(w) && #[trigger] top_index(w) == ti ==> a <= w < b,
{
    assert forall|w: int| in_space(w) && #[trigger] top_index(w) == ti implies a <= w < b by {
        lemma_index_split(w);
        lemma_slot_of(w, ti);
    }
}

/// `[lo, hi)` is the part of `[a, b)` in directory slot `ti`.
proof fn lemma_slot_range(ti: int, a: int, b: int, lo: int, hi: int)
    requires
        0 <= ti < 1024,
        lo == if ti * 0x400000 < a { a } else { ti * 0x400000 },
        hi == if b - ti * 0x400000 < 0x400000 { b } else { ti * 0x400000 + 0x400000 },
    ensures
        forall|w: int|
            in_space(w) && #[trigger] top_index(w) == ti ==> ((lo <= w < hi) == (a <= w < b)),
        forall|w: int| in_space(w) && #[trigger] top_index(w) != ti ==> !(lo <= w < hi),
{
    assert forall|w: int| in_space(w) && #[trigger] top_index(w) == ti implies ((lo <= w < hi) == (a
        <= w < b)) by {
        lemma_index_split(w);
        lemma_slot_of(w, ti);
    }
    assert forall|w: int| in_space(w) && #[trigger] top_index(w) != ti implies !(lo <= w < hi) by {
        lemma_index_split(w);
        lemma_slot_of(w, ti);
    }
}

/// One more directory slot done: what held of the addresses below slot
/// `ti` now holds below slot `ti + 1`.
proof fn lemma_slot_step(
    s_new: AddressSpace,
    s_start: AddressSpace,
    s_old: AddressSpace,
    ti: int,
    a: int,
    b: int,
)
    requires
        0 <= a < b <= 0x1_0000_0000,
        0 <= ti < 1024,
        forall|w: int|
            in_space(w) && (!(a <= w < b) || w >= ti * 0x400000) ==> #[trigger] s_start.translate(w)
                == s_old.translate(w),
        forall|w: int| a <= w < b && w < ti * 0x400000 ==> #[trigger] s_start.translate(w) is None,
        forall|w: int|
            in_space(w) && top_index(w) != ti ==> #[trigger] s_new.translate(w) == s_start.translate(w),
        forall|w: int|
            in_space(w) && top_index(w) == ti && a <= w < b ==> #[trigger] s_new.translate(w) is None,
        forall|w: int|
            in_space(w) && top_index(w) == ti && !(a <= w < b) ==> #[trigger] s_new.translate(w)
                == s_start.translate(w),
    ensures
        forall|w: int|
            in_space(w) && (!(a <= w < b) || w >= (ti + 1) * 0x400000) ==> #[trigger] s_new.translate(w)
                == s_old.translate(w),
        forall|w: int| a <= w < b && w < (ti + 1) * 0x400000 ==> #[trigger] s_new.translate(w) is None,
{
    assert forall|w: int|
        in_space(w) && (!(a <= w < b) || w >= (ti + 1) * 0x400000) implies #[trigger] s_new.translate(w)
        == s_old.translate(w) by {
        lemma_index_split(w);
        lemma_slot_of(w, ti);
        assert(s_start.translate(w) == s_old.translate(w));
    }
    assert forall|w: int| a <= w < b && w < (ti + 1) * 0x400000 implies #[trigger] s_new.translate(w)
        is None by {
        lemma_index_split(w);
        lemma_slot_of(w, ti);
        if w < ti * 0x400000 {
            assert(s_start.translate(w) is None);
        }
    }
}

/// A multiple of 4 MiB is a multiple of 4 KiB.
pub proof fn lemma_mod_4m_4k(x: int)
    requires
        x % 0x400000 == 0,
    ensures
        x % 0x1000 == 0,
{
    vstd::arithmetic::div_mod::lemma_fundamental_div_mod(x, 0x400000);
    let q = x / 0x400000;
    assert(x == q * 1024 * 0x1000) by (nonlinear_arith)
        requires x == 0x400000 * q;
    vstd::arithmetic::div_mod::lemma_mod_multiples_basic(q * 1024, 0x1000);
}

/// In the 32-bit space, an address's directory slot is its 4 MiB page
/// number, and its 4 KiB page number is made of the two slot indices.
pub proof fn lemma_index_split(w: int)
    requires
        in_space(w),
    ensures
        top_index(w) == w / 0x400000,
        0 <= top_index(w) < 1024,
        0 <= leaf_index(w) < 1024,
        w / 0x1000 == top_index(w) * 1024 + leaf_index(w),
        w / 0x400000 == (w / 0x1000) / 1024,
{
    vstd::arithmetic::div_mod::lemma_div_denominator(w, 0x1000, 1024);
    vstd::arithmetic::div_mod::lemma_fundamental_div_mod(w / 0x1000, 1024);
    vstd::arithmetic::div_mod::lemma_div_is_ordered(w, 0x1_0000_0000 - 1, 0x400000);
    assert((0x1_0000_0000int - 1) / 0x400000 == 1023);
    vstd::arithmetic::div_mod::lemma_mod_bound(w / 0x1000, 1024);
    vstd::arithmetic::div_mod::lemma_div_pos_is_pos(w, 0x400000);
    vstd::arithmetic::div_mod::lemma_small_mod((w / 0x400000) as nat, 1024);
}

} // verus!
