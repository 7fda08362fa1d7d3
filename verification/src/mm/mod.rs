pub mod blocks;
pub mod buddy;
pub mod laws;
pub mod layout;
pub mod model;

use vstd::prelude::*;
use crate::mm::blocks::MAX_ORDER;
use crate::mm::buddy::BuddySystemAllocator;
use crate::mm::model::{region_ok, HeapView};

verus! {

/// Smallest unit the heap hands out, in bytes.
pub const PAGE_SIZE: usize = 4096;

/// The lowest page boundary at or above `addr`.
pub open spec fn page_align_up(addr: int) -> int {
    if addr % 4096 == 0 {
        addr
    } else {
        addr + 4096 - addr % 4096
    }
}

/// Hands the memory between the end of the kernel image and the end of
/// memory to the allocator; the start is rounded up to a page boundary.
pub fn init_heap(heap: &mut BuddySystemAllocator, heap_start_raw: usize, heap_end_raw: usize)
    requires
        old(heap)@.free.len() == MAX_ORDER,
        page_align_up(heap_start_raw as int) <= usize::MAX,
        region_ok(page_align_up(heap_start_raw as int), heap_end_raw as int),
    ensures
        final(heap)@ == (HeapView {
            start: page_align_up(heap_start_raw as int),
            end: heap_end_raw as int,
            ..old(heap)@
        }).add_region(page_align_up(heap_start_raw as int), heap_end_raw as int),
        old(heap)@.is_empty() ==> final(heap)@.wf(),
{
    let past = heap_start_raw % PAGE_SIZE;
    let heap_start = if past == 0 {
        heap_start_raw
    } else {
        heap_start_raw + (PAGE_SIZE - past)
    };
    heap.init(heap_start, heap_end_raw);
}

} // verus!
