//! Memory-management core of a freestanding kernel: a zoned frame allocator,
//! x86 page-table entry encoding, and a nested page-table walker that maps
//! and unmaps regions of a virtual address space.
pub mod addr;
pub mod boot;
pub mod console;
pub mod entry;
pub mod flags;
pub mod format_size;
pub mod page_allocator;
pub mod page_info;
pub mod page_size;
pub mod paging;
pub mod table_memory;
pub mod zoned_buddy;
