use charlotte_os::mm::buddy::{size_to_order, BuddySystemAllocator};
use charlotte_os::mm::layout::Layout;

const BASE: usize = 0x8000_0000;

fn layout(size: usize, align: usize) -> Layout {
    Layout::from_size_align(size, align).unwrap()
}

fn heap_of(bytes: usize) -> BuddySystemAllocator {
    let mut heap = BuddySystemAllocator::new();
    heap.init(BASE, BASE + bytes);
    heap
}

#[test]
fn order_of_sizes() {
    assert_eq!(size_to_order(0), 0);
    assert_eq!(size_to_order(1), 0);
    assert_eq!(size_to_order(4096), 0);
    assert_eq!(size_to_order(4097), 1);
    assert_eq!(size_to_order(8192), 1);
    assert_eq!(size_to_order(8193), 2);
    assert_eq!(size_to_order(16384), 2);
    assert_eq!(size_to_order(1 << 27), 15);
    assert_eq!(size_to_order((1 << 27) + 1), 16);
}

#[test]
fn layout_validity() {
    assert!(Layout::from_size_align(16, 16).is_ok());
    assert!(Layout::from_size_align(0, 1).is_ok());
    assert!(Layout::from_size_align(16, 0).is_err());
    assert!(Layout::from_size_align(16, 3).is_err());
    assert!(Layout::from_size_align(16, 24).is_err());
    assert!(Layout::from_size_align(isize::MAX as usize, 1).is_ok());
    assert!(Layout::from_size_align(isize::MAX as usize, 2).is_err());
    assert!(Layout::from_size_align(isize::MAX as usize - 15, 16).is_ok());
    assert!(Layout::from_size_align(isize::MAX as usize - 14, 16).is_err());
    let l = layout(100, 8);
    assert_eq!(l.size(), 100);
    assert_eq!(l.align(), 8);
}

#[test]
fn new_allocator_is_empty() {
    let mut heap = BuddySystemAllocator::new();
    for order in 0..16 {
        assert!(heap.free_blocks(order).is_empty());
    }
    assert_eq!(heap.allocate(layout(4096, 4096)), None);
}

#[test]
fn init_cuts_region_into_largest_blocks() {
    // 64 KiB + 16 KiB + 4 KiB, and a tail smaller than a page that stays out.
    let heap = heap_of(0x10000 + 0x4000 + 0x1000 + 0x800);
    assert_eq!(heap.free_blocks(4), vec![BASE]);
    assert_eq!(heap.free_blocks(2), vec![BASE + 0x10000]);
    assert_eq!(heap.free_blocks(0), vec![BASE + 0x14000]);
    for order in [1usize, 3, 5, 6, 7, 8, 9, 10, 11, 12, 13, 14, 15] {
        assert!(heap.free_blocks(order).is_empty());
    }
}

#[test]
fn init_of_region_below_a_page_adds_nothing() {
    let heap = heap_of(4095);
    for order in 0..16 {
        assert!(heap.free_blocks(order).is_empty());
    }
}

#[test]
fn alloc_splits_down_and_pushes_upper_halves() {
    let mut heap = heap_of(0x10000);
    let p = heap.allocate(layout(4096, 4096));
    assert_eq!(p, Some(BASE));
    assert!(heap.free_blocks(4).is_empty());
    assert_eq!(heap.free_blocks(3), vec![BASE + 0x8000]);
    assert_eq!(heap.free_blocks(2), vec![BASE + 0x4000]);
    assert_eq!(heap.free_blocks(1), vec![BASE + 0x2000]);
    assert_eq!(heap.free_blocks(0), vec![BASE + 0x1000]);
}

#[test]
fn alloc_rounds_up_to_power_of_two_and_aligns() {
    let mut heap = heap_of(0x10000);
    // 5000 bytes need an 8 KiB block.
    let p = heap.allocate(layout(5000, 16)).unwrap();
    assert_eq!(p % 8192, 0);
    // A small size with a large alignment needs a block of the alignment.
    let q = heap.allocate(layout(16, 16384)).unwrap();
    assert_eq!(q % 16384, 0);
    assert!(q >= BASE && q + 16384 <= BASE + 0x10000);
    assert!(p + 8192 <= q || q + 16384 <= p);
}

#[test]
fn alloc_too_large_returns_none() {
    let mut heap = heap_of(0x10000);
    assert_eq!(heap.allocate(layout(0x20000, 16)), None);
    // An order past the last list.
    assert_eq!(heap.allocate(layout((1 << 27) + 1, 16)), None);
    assert_eq!(heap.free_blocks(4), vec![BASE]);
}

#[test]
fn alloc_then_dealloc_restores_lists() {
    let mut heap = heap_of(0x10000 + 0x4000);
    let before: Vec<Vec<usize>> = (0..16).map(|k| heap.free_blocks(k)).collect();
    let p = heap.allocate(layout(4096, 4096)).unwrap();
    heap.dealloc(p, layout(4096, 4096));
    let after: Vec<Vec<usize>> = (0..16).map(|k| heap.free_blocks(k)).collect();
    assert_eq!(before, after);
}

#[test]
fn allocator_fill() {
    let mut heap = heap_of(0x10000 + 0x4000 + 0x1000);
    let page = layout(4096, 4096);
    let mut held = Vec::new();
    while let Some(p) = heap.allocate(page) {
        held.push(p);
    }
    let n = held.len();
    assert_eq!(n, 16 + 4 + 1);
    let mut sorted = held.clone();
    sorted.sort();
    sorted.dedup();
    assert_eq!(sorted.len(), n);
    for p in held.iter().rev() {
        heap.dealloc(*p, page);
    }
    assert_eq!(heap.free_blocks(4), vec![BASE]);
    assert_eq!(heap.free_blocks(2), vec![BASE + 0x10000]);
    assert_eq!(heap.free_blocks(0), vec![BASE + 0x14000]);
    let mut again = 0;
    while heap.allocate(page).is_some() {
        again += 1;
    }
    assert_eq!(again, n);
}

#[test]
fn allocator_buddy() {
    let mut heap = heap_of(0x10000);
    let l = layout(16384, 16);
    let first = heap.allocate(l).unwrap();
    let second = heap.allocate(l).unwrap();
    assert_eq!(first, BASE);
    assert_eq!(second, BASE + 0x4000);
    // The upper 32 KiB half waits on the order-3 list.
    assert_eq!(heap.free_blocks(3), vec![BASE + 0x8000]);
    heap.dealloc(first, l);
    assert_eq!(heap.free_blocks(2), vec![BASE]);
    heap.dealloc(second, l);
    // The two buddies are gone from their list; their parent has merged with
    // the free upper half into the whole region.
    assert!(heap.free_blocks(2).is_empty());
    assert!(heap.free_blocks(3).is_empty());
    assert_eq!(heap.free_blocks(4), vec![BASE]);
}

#[test]
fn freed_buddies_merge_into_parent_at_next_order() {
    let mut heap = heap_of(0x10000);
    let l = layout(16384, 16);
    let first = heap.allocate(l).unwrap();
    let second = heap.allocate(l).unwrap();
    let third = heap.allocate(l).unwrap();
    assert_eq!(third, BASE + 0x8000);
    heap.dealloc(second, l);
    heap.dealloc(first, l);
    // The parent's own buddy is in use, so the parent rests at order 3.
    assert_eq!(heap.free_blocks(3), vec![BASE]);
    assert_eq!(heap.free_blocks(2), vec![BASE + 0xc000]);
    heap.dealloc(third, l);
    assert_eq!(heap.free_blocks(4), vec![BASE]);
    assert!(heap.free_blocks(3).is_empty());
    assert!(heap.free_blocks(2).is_empty());
}

#[test]
fn dealloc_in_any_order_restores_initial_lists() {
    let mut heap = heap_of(0x10000 + 0x2000);
    let a = heap.allocate(layout(4096, 16)).unwrap();
    let b = heap.allocate(layout(8192, 16)).unwrap();
    let c = heap.allocate(layout(4096, 16)).unwrap();
    let d = heap.allocate(layout(16384, 16)).unwrap();
    heap.dealloc(b, layout(8192, 16));
    heap.dealloc(d, layout(16384, 16));
    heap.dealloc(a, layout(4096, 16));
    heap.dealloc(c, layout(4096, 16));
    assert_eq!(heap.free_blocks(4), vec![BASE]);
    assert_eq!(heap.free_blocks(1), vec![BASE + 0x10000]);
    for order in [0usize, 2, 3, 5, 15] {
        assert!(heap.free_blocks(order).is_empty());
    }
}

#[test]
fn top_order_blocks_do_not_merge() {
    // Twice the largest block would need an order past the last list; a
    // region of the largest block plus a page is cut into those two.
    let mut heap = BuddySystemAllocator::new();
    heap.init(BASE, BASE + (1 << 27) + 4096);
    assert_eq!(heap.free_blocks(15), vec![BASE]);
    assert_eq!(heap.free_blocks(0), vec![BASE + (1 << 27)]);
    let p = heap.allocate(layout(1 << 27, 16)).unwrap();
    assert_eq!(p, BASE);
    heap.dealloc(p, layout(1 << 27, 16));
    assert_eq!(heap.free_blocks(15), vec![BASE]);
}

#[test]
fn lists_stay_consistent() {
    let mut heap = heap_of(0x10000 + 0x4000 + 0x1000);
    assert!(heap.is_consistent());
    let small = layout(4096, 16);
    let large = layout(0x4000, 0x4000);
    let a = heap.allocate(small).unwrap();
    let b = heap.allocate(large).unwrap();
    let c = heap.allocate(small).unwrap();
    assert!(heap.is_consistent());
    assert!(heap.is_live(a, small));
    assert!(heap.is_live(b, large));
    assert!(!heap.is_live(b + 0x4000, large) || b + 0x4000 != a);
    heap.dealloc(a, small);
    assert!(heap.is_consistent());
    assert!(!heap.is_live(a, small));
    heap.dealloc(b, large);
    heap.dealloc(c, small);
    assert!(heap.is_consistent());
    assert!(BuddySystemAllocator::new().is_consistent());
}

#[test]
fn release_of_a_block_not_in_use_is_refused() {
    let mut heap = heap_of(0x10000);
    let page = layout(4096, 16);
    let a = heap.allocate(page).unwrap();
    assert!(heap.try_dealloc(a, page));
    let before: Vec<Vec<usize>> = (0..16).map(|k| heap.free_blocks(k)).collect();
    // A second release, a block outside the region, a misaligned block, a
    // block of an order that does not exist.
    assert!(!heap.try_dealloc(a, page));
    assert!(!heap.try_dealloc(BASE + 0x10000, page));
    assert!(!heap.try_dealloc(BASE - 0x1000, page));
    assert!(!heap.try_dealloc(BASE + 0x800, page));
    assert!(!heap.try_dealloc(BASE, layout((1 << 27) + 1, 16)));
    let after: Vec<Vec<usize>> = (0..16).map(|k| heap.free_blocks(k)).collect();
    assert_eq!(before, after);
}

#[test]
fn double_release_is_seen_by_the_consistency_test() {
    let mut heap = heap_of(0x10000);
    let page = layout(4096, 16);
    let a = heap.allocate(page).unwrap();
    let _b = heap.allocate(page).unwrap();
    heap.dealloc(a, page);
    assert!(heap.is_consistent());
    // Against the rules of `dealloc`: the block is free already.
    heap.dealloc(a, page);
    assert!(!heap.is_consistent());
}

#[test]
fn regions_that_fit() {
    assert!(BuddySystemAllocator::region_fits(BASE, BASE));
    assert!(BuddySystemAllocator::region_fits(BASE, BASE - 1));
    assert!(BuddySystemAllocator::region_fits(BASE + 1, BASE + 4096));
    assert!(BuddySystemAllocator::region_fits(BASE, BASE + 0x10000));
    assert!(BuddySystemAllocator::region_fits(BASE, BASE + 0x1ffff));
    assert!(BuddySystemAllocator::region_fits(BASE + 0x8000, BASE + 0x10000));
    // The largest block would start off its alignment.
    assert!(!BuddySystemAllocator::region_fits(BASE + 0x1000, BASE + 0x3000));
    assert!(!BuddySystemAllocator::region_fits(BASE + 0x8000, BASE + 0x18000));
    // Too large for the highest order.
    assert!(BuddySystemAllocator::region_fits(BASE, BASE + (1 << 28) - 1));
    assert!(!BuddySystemAllocator::region_fits(BASE, BASE + (1 << 28)));
}
