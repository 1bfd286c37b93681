//! Memory-management core of a small 64-bit kernel: a hierarchical bitmap
//! physical frame allocator, a boot-time bump allocator, a typed model of the
//! 4-level x86-64 page-table format, and a virtual-address page allocator that
//! grows the kernel's page-table tree on demand.

use vstd::prelude::*;

pub mod addr;
pub mod align;
pub mod bitmap_frame_alloc;
pub mod bump_alloc;
pub mod entry;
pub mod frame_order;
pub mod page_alloc;
pub mod page_table;

verus! {

} // verus!
