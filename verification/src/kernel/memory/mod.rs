//! Physical memory: the buddy page allocator and the kernel's entry points.
pub mod buddy;

use vstd::prelude::*;
use buddy::{BuddyAllocator, MAX_ORDER};
use crate::buddy_allocator::{bsize, page_reserved, reserved_count, split_lists, merged_lists, MAX_FREE_ENTRIES};
use crate::kernel::hal::dtb::{DtbInfo, MAX_MEMORY_REGIONS};

verus! {

/// Allocate one page from `mem`.
pub fn alloc_page(mem: &mut BuddyAllocator) -> (r: Option<u64>)
    requires
        old(mem).wf(),
    ensures
        final(mem).wf(),
        !old(mem).initialized_spec() ==> r is None,
        old(mem).initialized_spec() ==> (r is None <==> forall|k: int|
            0 <= k < MAX_ORDER ==> #[trigger] old(mem).free_list(k).len() == 0),
        r is None ==> *final(mem) == *old(mem),
        r matches Some(addr) ==> BuddyAllocator::allocated_block(old(mem), final(mem), 0, addr),
{
    mem.alloc_block(0)
}

/// Allocate `2^order` contiguous pages from `mem`.
pub fn alloc_block(mem: &mut BuddyAllocator, order: usize) -> (r: Option<u64>)
    requires
        old(mem).wf(),
    ensures
        final(mem).wf(),
        (!old(mem).initialized_spec() || order >= MAX_ORDER) ==> r is None,
        (old(mem).initialized_spec() && order < MAX_ORDER) ==> (r is None <==> forall|k: int|
            order <= k < MAX_ORDER ==> #[trigger] old(mem).free_list(k).len() == 0),
        r is None ==> *final(mem) == *old(mem),
        r matches Some(addr) ==> {
            let j = old(mem).first_nonempty(order as int);
            &&& BuddyAllocator::allocated_block(old(mem), final(mem), order, addr)
            &&& old(mem).pfn_of(addr) == old(mem).free_list(j).last()
            &&& final(mem).lists() == split_lists(old(mem).lists(), order as int, j)
        },
        old(mem).lists_aligned() ==> final(mem).lists_aligned(),
        old(mem).lists_aligned() ==> (r matches Some(addr) ==> old(mem).pfn_of(addr) % bsize(order as int)
            == 0),
        old(mem).lists_cover() ==> final(mem).lists_cover(),
{
    mem.alloc_block(order)
}

/// Release one page to `mem`.
pub fn free_page(mem: &mut BuddyAllocator, addr: u64)
    requires
        old(mem).wf(),
    ensures
        final(mem).wf(),
        !old(mem).free_releases(addr, 0) ==> *final(mem) == *old(mem),
        old(mem).free_releases(addr, 0) ==> BuddyAllocator::released_block(old(mem), final(mem), 0, addr),
{
    proof {
        assert(crate::buddy_allocator::bsize(0) == 1);
    }
    mem.free(addr, 0)
}

/// Release `2^order` pages to `mem`.
pub fn free(mem: &mut BuddyAllocator, addr: u64, order: usize)
    requires
        old(mem).wf(),
    ensures
        final(mem).wf(),
        !old(mem).free_releases(addr, order) ==> *final(mem) == *old(mem),
        old(mem).free_releases(addr, order) ==> BuddyAllocator::released_block(old(mem), final(mem), order, addr),
        old(mem).free_releases(addr, order) ==> exists|m: int, c: int|
            merged_lists(old(mem).lists(), final(mem).lists(), old(mem).pfn_of(addr), order as int, m, c),
        old(mem).lists_cover() && (forall|k: int|
            0 <= k < MAX_ORDER ==> #[trigger] old(mem).free_list(k).len() < MAX_FREE_ENTRIES)
            ==> final(mem).lists_cover(),
        old(mem).lists_aligned() && old(mem).pfn_of(addr) % bsize(order as int) == 0
            ==> final(mem).lists_aligned(),
{
    mem.free(addr, order)
}

/// Set up `mem` from the device tree summary: the first RAM region is
/// managed, its first MiB and the kernel image `[kernel_start, kernel_end)`
/// kept back; then, as a self-test, one page is allocated and released
/// again.  Returns the test page (`None` when the tree lists no RAM, which
/// leaves `mem` as it was, or when no page could be allocated).
pub fn init_from_dtb(mem: &mut BuddyAllocator, info: &DtbInfo, kernel_start: u64, kernel_end: u64) -> (r: Option<u64>)
    requires
        old(mem).wf(),
        !old(mem).initialized_spec(),
        info.memory_region_count <= MAX_MEMORY_REGIONS,
        info.memory_region_count > 0 ==> info.memory_regions@[0].base + info.memory_regions@[0].size <= u64::MAX,
    ensures
        final(mem).wf(),
        info.memory_region_count == 0 ==> r is None && *final(mem) == *old(mem),
        info.memory_region_count > 0 ==> {
            let region = info.memory_regions@[0];
            &&& final(mem).initialized_spec()
            &&& final(mem).base() == region.base
            &&& final(mem).total() == if region.size / 4096 > 524288 {
                524288int
            } else {
                (region.size / 4096) as int
            }
            &&& forall|p: int|
                0 <= p < final(mem).total() ==> #[trigger] final(mem).page_allocated(p) == page_reserved(
                    region.base as int,
                    p,
                    kernel_start as int,
                    kernel_end as int,
                )
            &&& final(mem).used() == reserved_count(
                region.base as int,
                kernel_start as int,
                kernel_end as int,
                final(mem).total(),
            )
            &&& r matches Some(addr) ==> addr >= region.base && (addr - region.base) / 4096 < final(mem).total()
                && !final(mem).page_allocated((addr - region.base) / 4096)
        },
{
    if info.memory_region_count == 0 {
        return None;
    }
    let region = info.memory_regions[0];
    mem.init(region.base, region.size, kernel_start, kernel_end);
    let ghost after_init = *mem;
    let page = mem.alloc_page();
    match page {
        Some(addr) => {
            let ghost after_alloc = *mem;
            proof {
                assert(bsize(0) == 1);
                assert(BuddyAllocator::allocated_block(&after_init, &after_alloc, 0, addr));
            }
            mem.free_page(addr);
            proof {
                assert(after_alloc.free_releases(addr, 0));
                assert(BuddyAllocator::released_block(&after_alloc, mem, 0, addr));
                crate::buddy_allocator::law_free_undoes_alloc(&after_init, &after_alloc, mem, 0, addr);
            }
            Some(addr)
        },
        None => None,
    }
}

} // verus!
