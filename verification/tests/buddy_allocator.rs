use theos::buddy_allocator::{BuddyAllocator, PAGE_SIZE, MAX_ORDER};
use theos::kernel::memory::{alloc_block, alloc_page, free, free_page};

// Small allocator for fast tests: 16MB RAM starting at 0x40000000
// Kernel occupies first 512KB (128 pages)
fn make_allocator() -> BuddyAllocator {
    let mut a = BuddyAllocator::new();
    let ram_base: u64 = 0x40000000;
    let ram_size: u64 = 16 * 1024 * 1024; // 16MB = 4096 pages
    let kernel_start = ram_base;
    let kernel_end = ram_base + 128 * PAGE_SIZE; // 512KB kernel
    a.init(ram_base, ram_size, kernel_start, kernel_end);
    a
}

// Full 2GB allocator matching QEMU boot
fn make_full_allocator() -> BuddyAllocator {
    let mut a = BuddyAllocator::new();
    let ram_base: u64 = 0x40000000;
    let ram_size: u64 = 2048 * 1024 * 1024;
    let kernel_start = ram_base;
    let kernel_end = ram_base + 130 * PAGE_SIZE; // ~130 pages as seen in QEMU output
    a.init(ram_base, ram_size, kernel_start, kernel_end);
    a
}

// --- Init tests ---

#[test]
fn test_init_succeeds() {
    let a = make_allocator();
    assert!(a.is_initialized());
}

#[test]
fn test_init_total_pages() {
    let a = make_allocator();
    let (total, _, _) = a.stats();
    assert_eq!(total, 4096); // 16MB / 4KB
}

#[test]
fn test_init_kernel_pages_reserved() {
    let a = make_allocator();
    let (_, used, _) = a.stats();
    // 128 kernel pages reserved
    assert!(used >= 128, "used={used}");
}

#[test]
fn test_init_free_pages_sane() {
    let a = make_allocator();
    let (total, used, free) = a.stats();
    assert_eq!(total, used + free);
    assert!(free > 0);
}

#[test]
fn test_full_allocator_2gb() {
    let a = make_full_allocator();
    let (total, _, free) = a.stats();
    assert_eq!(total, 524288);
    assert!(free > 524000, "free={free}");
}

// --- Single page allocation ---

#[test]
fn test_alloc_page_returns_address() {
    let mut a = make_allocator();
    let addr = a.alloc_page();
    assert!(addr.is_some());
}

#[test]
fn test_alloc_page_is_page_aligned() {
    let mut a = make_allocator();
    let addr = a.alloc_page().unwrap();
    assert_eq!(addr % PAGE_SIZE, 0, "addr={addr:#x} not page-aligned");
}

#[test]
fn test_alloc_page_within_ram() {
    let mut a = make_allocator();
    let addr = a.alloc_page().unwrap();
    assert!(addr >= 0x40000000);
    assert!(addr < 0x40000000 + 16 * 1024 * 1024);
}

#[test]
fn test_alloc_page_not_in_kernel() {
    let mut a = make_allocator();
    let kernel_end = 0x40000000 + 128 * PAGE_SIZE;
    let addr = a.alloc_page().unwrap();
    assert!(addr >= kernel_end, "addr={addr:#x} overlaps kernel");
}

#[test]
fn test_alloc_page_increments_used() {
    let mut a = make_allocator();
    let (_, used_before, _) = a.stats();
    a.alloc_page().unwrap();
    let (_, used_after, _) = a.stats();
    assert_eq!(used_after, used_before + 1);
}

#[test]
fn test_alloc_two_pages_different_addresses() {
    let mut a = make_allocator();
    let p1 = a.alloc_page().unwrap();
    let p2 = a.alloc_page().unwrap();
    assert_ne!(p1, p2);
}

#[test]
fn test_alloc_pages_no_overlap() {
    let mut a = make_allocator();
    let p1 = a.alloc_page().unwrap();
    let p2 = a.alloc_page().unwrap();
    // Pages must not overlap (each is PAGE_SIZE bytes)
    let diff = if p1 > p2 { p1 - p2 } else { p2 - p1 };
    assert!(diff >= PAGE_SIZE, "p1={p1:#x} p2={p2:#x}");
}

// --- Multi-page (order > 0) allocation ---

#[test]
fn test_alloc_order1_is_8kb_aligned() {
    let mut a = make_allocator();
    let addr = a.alloc_block(1).unwrap();
    assert_eq!(addr % (2 * PAGE_SIZE), 0, "order-1 block not 8KB aligned");
}

#[test]
fn test_alloc_order2_is_16kb_aligned() {
    let mut a = make_allocator();
    let addr = a.alloc_block(2).unwrap();
    assert_eq!(addr % (4 * PAGE_SIZE), 0);
}

#[test]
fn test_alloc_order10_is_4mb_aligned() {
    let mut a = make_full_allocator();
    let addr = a.alloc_block(10).unwrap();
    assert_eq!(addr % (1024 * PAGE_SIZE), 0, "order-10 block not 4MB aligned");
}

#[test]
fn test_alloc_order1_uses_2_pages() {
    let mut a = make_allocator();
    let (_, used_before, _) = a.stats();
    a.alloc_block(1).unwrap();
    let (_, used_after, _) = a.stats();
    assert_eq!(used_after - used_before, 2);
}

#[test]
fn test_alloc_invalid_order_returns_none() {
    let mut a = make_allocator();
    assert!(a.alloc_block(MAX_ORDER).is_none());
    assert!(a.alloc_block(MAX_ORDER + 5).is_none());
}

// --- Free tests ---

#[test]
fn test_free_page_decrements_used() {
    let mut a = make_allocator();
    let addr = a.alloc_page().unwrap();
    let (_, used_before, _) = a.stats();
    a.free_page(addr);
    let (_, used_after, _) = a.stats();
    assert_eq!(used_before - used_after, 1);
}

#[test]
fn test_free_page_allows_realloc() {
    let mut a = make_allocator();
    let addr = a.alloc_page().unwrap();
    a.free_page(addr);
    let addr2 = a.alloc_page();
    assert!(addr2.is_some());
}

#[test]
fn test_free_restores_free_count() {
    let mut a = make_allocator();
    let (_, _, free_before) = a.stats();
    let addr = a.alloc_page().unwrap();
    a.free_page(addr);
    let (_, _, free_after) = a.stats();
    assert_eq!(free_before, free_after);
}

#[test]
fn test_free_order1_restores_2_pages() {
    let mut a = make_allocator();
    let (_, _, free_before) = a.stats();
    let addr = a.alloc_block(1).unwrap();
    a.free(addr, 1);
    let (_, _, free_after) = a.stats();
    assert_eq!(free_before, free_after);
}

#[test]
fn test_double_free_does_not_corrupt() {
    let mut a = make_allocator();
    let addr = a.alloc_page().unwrap();
    a.free_page(addr);
    a.free_page(addr); // second free: should be silently ignored
    let (total, used, free) = a.stats();
    assert_eq!(total, used + free); // accounting still consistent
}

#[test]
fn test_free_invalid_addr_ignored() {
    let mut a = make_allocator();
    let (_, used_before, _) = a.stats();
    a.free_page(0x0); // below base
    a.free_page(0xDEADBEEF); // outside range
    let (_, used_after, _) = a.stats();
    assert_eq!(used_before, used_after);
}

// --- Coalescing tests ---

#[test]
fn test_coalesce_two_buddies() {
    let mut a = make_allocator();
    // Allocate two order-0 pages that should be buddies
    let p1 = a.alloc_page().unwrap();
    let p2 = a.alloc_page().unwrap();
    // Free both -- they should coalesce into an order-1 block
    a.free_page(p1);
    a.free_page(p2);
    // After coalescing, should be able to alloc an order-1 block
    let big = a.alloc_block(1);
    assert!(big.is_some(), "coalescing failed: order-1 alloc returned None");
}

#[test]
fn test_coalesce_restores_full_free_count() {
    let mut a = make_allocator();
    let (_, _, free_start) = a.stats();
    let pages: Vec<u64> = (0..8).map(|_| a.alloc_page().unwrap()).collect();
    for p in pages { a.free_page(p); }
    let (_, _, free_end) = a.stats();
    assert_eq!(free_start, free_end, "free count mismatch after coalesce");
}

// --- Exhaustion tests ---

#[test]
fn test_exhaust_and_oom() {
    let mut a = make_allocator();
    let mut addrs = Vec::new();
    // Allocate until OOM
    loop {
        match a.alloc_page() {
            Some(addr) => addrs.push(addr),
            None => break,
        }
    }
    assert!(!addrs.is_empty(), "should have allocated at least one page");
    let (_, _, free) = a.stats();
    assert_eq!(free, 0, "free pages should be 0 after exhaustion");
}

#[test]
fn test_exhaust_then_free_then_realloc() {
    let mut a = make_allocator();
    let mut addrs = Vec::new();
    loop {
        match a.alloc_page() {
            Some(addr) => addrs.push(addr),
            None => break,
        }
    }
    // Free all pages
    for addr in &addrs { a.free_page(*addr); }
    // Should be able to allocate again
    let addr = a.alloc_page();
    assert!(addr.is_some(), "should allocate after freeing all pages");
}

#[test]
fn test_no_duplicate_addresses() {
    let mut a = make_allocator();
    let mut addrs = std::collections::HashSet::new();
    loop {
        match a.alloc_page() {
            Some(addr) => {
                assert!(!addrs.contains(&addr), "duplicate address: {addr:#x}");
                addrs.insert(addr);
            }
            None => break,
        }
    }
}

// --- Stats consistency ---

#[test]
fn test_stats_always_consistent() {
    let mut a = make_allocator();
    for _ in 0..100 {
        let addr = a.alloc_page().unwrap();
        let (total, used, free) = a.stats();
        assert_eq!(total, used + free);
        a.free_page(addr);
        let (total, used, free) = a.stats();
        assert_eq!(total, used + free);
    }
}

// --- Before init ---

#[test]
fn test_alloc_before_init_returns_none() {
    let mut a = BuddyAllocator::new();
    assert!(a.alloc_page().is_none());
    assert!(a.alloc_block(3).is_none());
}

#[test]
fn test_not_initialized_by_default() {
    let a = BuddyAllocator::new();
    assert!(!a.is_initialized());
}


#[test]
fn kernel_entry_points_allocate_and_release() {
    let mut a = make_allocator();
    let (_, used0, _) = a.stats();
    let page = alloc_page(&mut a).unwrap();
    let block = alloc_block(&mut a, 2).unwrap();
    assert_eq!(block % (4 * PAGE_SIZE), 0);
    assert_eq!(a.stats().1, used0 + 5);
    assert!(alloc_block(&mut a, MAX_ORDER).is_none());
    free(&mut a, block, 2);
    free_page(&mut a, page);
    assert_eq!(a.stats().1, used0);
}

#[test]
fn freeing_a_partly_allocated_block_does_nothing() {
    let mut a = make_allocator();
    let p = a.alloc_page().unwrap();
    let before = a.stats();
    // an order-1 block at p holds a free page as well
    a.free(p, 1);
    assert_eq!(a.stats(), before);
    a.free(p, 0);
    assert_eq!(a.stats().1, before.1 - 1);
}

#[test]
fn freed_buddies_merge_back_into_their_block() {
    let mut a = make_allocator();
    let p1 = a.alloc_page().unwrap();
    let p2 = a.alloc_page().unwrap();
    assert_eq!(p1, 0x4008_0000);
    assert_eq!(p2, 0x4008_1000);
    a.free_page(p1);
    a.free_page(p2);
    assert_eq!(a.stats(), (4096, 128, 3968));
    assert_eq!(a.alloc_block(7), Some(0x4008_0000));
}

#[test]
fn init_reserves_exactly_the_kernel_pages() {
    let a = make_allocator();
    assert_eq!(a.stats(), (4096, 128, 3968));
}
