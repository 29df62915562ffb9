use customizable_buddy::{BuddyAllocator, BuddyError, LinkedListBuddy, UsizeBuddy};

type Allocator = BuddyAllocator<12, UsizeBuddy, LinkedListBuddy>;

const MIN_ORDER: usize = 12;
const PAGE: usize = 1 << MIN_ORDER;
const TOP: usize = 1 << (MIN_ORDER + 12);
const BASE: usize = 0x1000_0000;
const PAGES: usize = 65_536;

fn donated() -> Allocator {
    let mut a = Allocator::new();
    a.init(MIN_ORDER, BASE);
    a.transfer(BASE, PAGES * PAGE);
    a
}

fn sorted(mut v: Vec<usize>) -> Vec<usize> {
    v.sort();
    v
}

fn assert_fully_coalesced(a: &Allocator) {
    assert_eq!(a.free(), a.capacity());
    for layer in 0..12 {
        assert!(a.row(layer).is_empty(), "row {layer} holds blocks");
    }
    let top: Vec<usize> = (0..16).map(|k| (BASE >> 24) + k).collect();
    assert_eq!(sorted(a.row(12)), top);
}

#[test]
fn new_allocator_is_empty() {
    let a = Allocator::new();
    assert_eq!(a.capacity(), 0);
    assert_eq!(a.free(), 0);
    for layer in 0..=12 {
        assert!(a.row(layer).is_empty());
    }
}

#[test]
fn max_order_is_min_order_plus_rows() {
    let mut a = Allocator::new();
    assert_eq!(a.max_order(), 12);
    a.init(MIN_ORDER, BASE);
    assert_eq!(a.max_order(), 24);
}

#[test]
fn transfer_of_aligned_region_fills_top_row() {
    let a = donated();
    assert_eq!(a.capacity(), PAGES * PAGE);
    assert_fully_coalesced(&a);
}

#[test]
fn out_of_memory_without_donation() {
    let mut a = Allocator::new();
    assert_eq!(a.allocate(0, 8), Err(BuddyError));
    assert_eq!(a.capacity(), 0);
    assert_eq!(a.free(), 0);
}

#[test]
fn out_of_memory_leaves_counters() {
    let mut a = Allocator::new();
    a.init(MIN_ORDER, BASE);
    a.transfer(BASE, 4 * PAGE);
    assert_eq!(a.allocate(0, 5 * PAGE), Err(BuddyError));
    assert_eq!(a.capacity(), 4 * PAGE);
    assert_eq!(a.free(), 4 * PAGE);
    assert_eq!(a.row(2), vec![BASE >> 14]);
}

#[test]
fn request_too_large_to_round_fails() {
    let mut a = donated();
    assert_eq!(a.allocate(0, usize::MAX), Err(BuddyError));
    assert_fully_coalesced(&a);
}

#[test]
fn fill_and_drain() {
    let mut a = donated();
    let mut taken = Vec::with_capacity(PAGES);
    for _ in 0..PAGES {
        let (ptr, granted) = a.allocate(MIN_ORDER, PAGE).unwrap();
        assert_eq!(granted, PAGE);
        assert_eq!(ptr % PAGE, 0);
        taken.push(ptr);
    }
    assert_eq!(a.free(), 0);
    assert_eq!(a.allocate(MIN_ORDER, PAGE), Err(BuddyError));
    let mut all = taken.clone();
    all.sort();
    all.dedup();
    assert_eq!(all.len(), PAGES);
    assert_eq!(all[0], BASE);
    assert_eq!(all[PAGES - 1], BASE + (PAGES - 1) * PAGE);
    for ptr in taken.into_iter().rev() {
        a.deallocate(ptr, PAGE);
    }
    assert_fully_coalesced(&a);
}

#[test]
fn split_down_leaves_one_block_per_row() {
    let mut a = donated();
    let (ptr, granted) = a.allocate(0, PAGE).unwrap();
    assert_eq!(granted, PAGE);
    assert_eq!(a.free(), a.capacity() - PAGE);
    let oligarch = ptr >> 24;
    for layer in 0..12 {
        let row = a.row(layer);
        assert_eq!(row.len(), 1, "row {layer}");
        assert_eq!(row[0], (ptr >> (MIN_ORDER + layer)) ^ 1);
        assert_eq!(row[0] >> (12 - layer), oligarch);
    }
    assert_eq!(a.row(12).len(), 15);
    assert!(!a.row(12).contains(&oligarch));
}

#[test]
fn aligned_allocation_leaves_three_pages() {
    let mut a = donated();
    let (ptr, granted) = a.allocate(MIN_ORDER + 2, PAGE).unwrap();
    assert_eq!(granted, PAGE);
    assert_eq!(ptr % (4 * PAGE), 0);
    assert_eq!(a.row(0), vec![(ptr >> 12) + 1]);
    assert_eq!(a.row(1), vec![(ptr >> 13) + 1]);
    let upper: Vec<Vec<usize>> = (2..=12).map(|l| a.row(l)).collect();
    let mut rest = Vec::new();
    for _ in 0..3 {
        let (p, g) = a.allocate(0, PAGE).unwrap();
        assert_eq!(g, PAGE);
        rest.push(p);
    }
    assert_eq!(sorted(rest), vec![ptr + PAGE, ptr + 2 * PAGE, ptr + 3 * PAGE]);
    let after: Vec<Vec<usize>> = (2..=12).map(|l| a.row(l)).collect();
    assert_eq!(upper, after);
}

#[test]
fn coalesce_cascade() {
    let mut a = donated();
    let mut pages = Vec::new();
    for _ in 0..4 {
        pages.push(a.allocate(0, PAGE).unwrap().0);
    }
    pages.sort();
    assert_eq!(pages[3] - pages[0], 3 * PAGE);
    for (k, ptr) in pages.iter().enumerate() {
        a.deallocate(*ptr, PAGE);
        if k < 3 {
            assert!(a.free() < a.capacity());
        }
    }
    assert!(a.row(0).is_empty());
    assert_fully_coalesced(&a);
}

#[test]
fn mixed_size_interleave() {
    let mut a = donated();
    let (half, half_size) = a.allocate_layout(2048, 1).unwrap();
    let (whole, whole_size) = a.allocate_layout(4096, 1).unwrap();
    let (three, three_size) = a.allocate_layout(4096 * 3 - 1, 1).unwrap();
    assert_eq!(half_size, 4096);
    assert_eq!(whole_size, 4096);
    assert_eq!(three_size, 4096 * 3);
    assert_eq!(a.free(), a.capacity() - 5 * PAGE);
    assert!(half + half_size <= whole || whole + whole_size <= half);
    assert!(half + half_size <= three || three + three_size <= half);
    assert!(whole + whole_size <= three || three + three_size <= whole);
    a.deallocate(half, half_size);
    a.deallocate(whole, whole_size);
    a.deallocate(three, three_size);
    assert_fully_coalesced(&a);
}

#[test]
fn residue_of_rounding_goes_back() {
    let mut a = donated();
    let (ptr, granted) = a.allocate(0, 3 * PAGE - 100).unwrap();
    assert_eq!(granted, 3 * PAGE);
    assert_eq!(ptr % (4 * PAGE), 0);
    assert_eq!(a.row(0), vec![(ptr >> 12) + 3]);
    assert!(a.row(1).is_empty());
    assert_eq!(a.row(2), vec![(ptr >> 14) ^ 1]);
    assert_eq!(a.free(), a.capacity() - 3 * PAGE);
}

#[test]
fn zero_size_takes_nothing() {
    let mut a = donated();
    assert_eq!(a.allocate_layout(0, 64), Ok((64, 0)));
    assert_fully_coalesced(&a);
    assert_eq!(a.allocate_type::<()>(), Ok((1, 0)));
    assert_fully_coalesced(&a);
}

#[test]
fn allocate_type_rounds_to_a_page() {
    let mut a = donated();
    let (ptr, granted) = a.allocate_type::<[u64; 513]>().unwrap();
    assert_eq!(granted, 2 * PAGE);
    assert_eq!(ptr % 8, 0);
    assert_eq!(a.free(), a.capacity() - 2 * PAGE);
    a.deallocate_layout(ptr, 513 * 8);
    assert_fully_coalesced(&a);
}

#[test]
fn exact_top_size_comes_from_top_row() {
    let mut a = donated();
    let (ptr, granted) = a.allocate(0, TOP).unwrap();
    assert_eq!(granted, TOP);
    assert_eq!(ptr, BASE);
    assert_eq!(a.row(12).len(), 15);
    for layer in 0..12 {
        assert!(a.row(layer).is_empty());
    }
    a.deallocate(ptr, granted);
    assert_fully_coalesced(&a);
}

#[test]
fn more_than_top_size_takes_a_run() {
    let mut a = donated();
    let (ptr, granted) = a.allocate(0, 2 * TOP + 1).unwrap();
    assert_eq!(granted, 2 * TOP + PAGE);
    assert_eq!(ptr, BASE);
    assert_eq!(a.free(), a.capacity() - granted);
    assert_eq!(sorted(a.row(12)).len(), 13);
    assert_eq!(a.row(0), vec![((BASE + 2 * TOP) >> 12) + 1]);
    a.deallocate(ptr, granted);
    assert_fully_coalesced(&a);
}

#[test]
fn alignment_coarser_than_every_inner_row() {
    let mut a = donated();
    let (ptr, granted) = a.allocate(MIN_ORDER + 13, PAGE).unwrap();
    assert_eq!(granted, PAGE);
    assert_eq!(ptr % (2 * TOP), 0);
    assert_eq!(a.row(12).len(), 15);
    a.deallocate(ptr, granted);
    assert_fully_coalesced(&a);
}

#[test]
fn unaligned_donation_splits_up_then_down() {
    let mut a = Allocator::new();
    a.init(MIN_ORDER, BASE);
    let start = BASE + 3 * PAGE;
    let size = TOP - 3 * PAGE + 2 * PAGE;
    a.transfer(start, size);
    assert_eq!(a.capacity(), size);
    assert_eq!(a.free(), size);
    assert_eq!(a.row(0), vec![(BASE >> 12) + 3]);
    assert_eq!(a.row(1), vec![(BASE + TOP) >> 13]);
    for layer in 2..12 {
        assert_eq!(a.row(layer), vec![((BASE >> 12) + (1usize << layer)) >> layer], "row {layer}");
    }
    assert!(a.row(12).is_empty());
}

#[test]
fn snatch_reduces_capacity() {
    let mut a = donated();
    let cap = a.capacity();
    let (ptr, granted) = a.snatch(0, PAGE + 1).unwrap();
    assert_eq!(granted, 2 * PAGE);
    assert_eq!(ptr % PAGE, 0);
    assert_eq!(a.capacity(), cap - 2 * PAGE);
    assert_eq!(a.free(), cap - 2 * PAGE);
    assert_eq!(a.free(), a.capacity());
}

#[test]
fn snatch_fails_without_memory() {
    let mut a = Allocator::new();
    assert_eq!(a.snatch(0, 8), Err(BuddyError));
    assert_eq!(a.capacity(), 0);
    assert_eq!(a.free(), 0);
}

#[test]
fn repeated_round_trips_keep_everything_free() {
    let mut a = donated();
    for _ in 0..100 {
        let (ptr, granted) = a.allocate(14, 5000).unwrap();
        assert!(granted >= 5000);
        assert_eq!(granted % PAGE, 0);
        assert_eq!(ptr % (1 << 14), 0);
        assert!(a.free() <= a.capacity());
        a.deallocate(ptr, granted);
        assert_eq!(a.free(), a.capacity());
    }
    assert_fully_coalesced(&a);
}

#[test]
fn allocation_after_round_trip_succeeds_again() {
    let mut a = Allocator::new();
    a.init(MIN_ORDER, BASE);
    a.transfer(BASE, 4 * PAGE);
    let (ptr, granted) = a.allocate(0, 3 * PAGE).unwrap();
    assert_eq!(a.allocate(0, 3 * PAGE), Err(BuddyError));
    a.deallocate(ptr, granted);
    assert_eq!(a.allocate(0, 3 * PAGE), Ok((ptr, granted)));
}

#[test]
fn rows_never_hold_a_buddy_pair() {
    let mut a = donated();
    let mut taken = Vec::new();
    for k in 0..64 {
        taken.push(a.allocate(0, (k % 5 + 1) * PAGE).unwrap());
    }
    for (k, (ptr, granted)) in taken.into_iter().enumerate() {
        if k % 3 != 0 {
            a.deallocate(ptr, granted);
        }
        for layer in 0..12 {
            let row = a.row(layer);
            for idx in &row {
                assert!(!row.contains(&(idx ^ 1)));
            }
            let mut ascending = row.clone();
            ascending.sort();
            assert_eq!(row, ascending);
        }
    }
}

#[test]
fn managed_region_is_what_every_row_can_record() {
    let mut a = Allocator::new();
    a.init(MIN_ORDER, BASE);
    assert!(a.manages_region(BASE, PAGES * PAGE));
    assert!(a.manages_region(BASE, 64 * TOP));
    assert!(!a.manages_region(BASE, 64 * TOP + 1));
    assert!(!a.manages_region(BASE - 1, 1));
    assert!(a.manages_region(BASE + 63 * TOP + 5, 1));
    assert!(!a.manages_region(BASE + 64 * TOP, 1));
}

#[test]
fn free_bytes_are_what_the_rows_hold() {
    let mut a = donated();
    let mut taken = Vec::new();
    for k in 0..40 {
        taken.push(a.allocate(k % 3 + MIN_ORDER, (k * 1000 + 1) % 70_000 + 1).unwrap());
        let held: usize = (0..=12).map(|l| a.row(l).len() << (MIN_ORDER + l)).sum();
        let out: usize = taken.iter().map(|(_, granted)| *granted).sum();
        assert_eq!(held, a.free());
        assert_eq!(held + out, a.capacity());
        assert!(a.free() <= a.capacity());
    }
    for (ptr, granted) in taken {
        a.deallocate(ptr, granted);
        let held: usize = (0..=12).map(|l| a.row(l).len() << (MIN_ORDER + l)).sum();
        assert_eq!(held, a.free());
    }
    assert_fully_coalesced(&a);
}

#[test]
fn tree_rows_work_under_a_bitmap() {
    let mut a = BuddyAllocator::<12, UsizeBuddy, customizable_buddy::AvlBuddy>::new();
    a.init(MIN_ORDER, BASE);
    a.transfer(BASE, PAGES * PAGE);
    let mut taken = Vec::new();
    for k in 0..200 {
        taken.push(a.allocate(0, (k % 7 + 1) * PAGE).unwrap());
    }
    for (ptr, granted) in taken.into_iter().rev() {
        a.deallocate(ptr, granted);
    }
    assert_eq!(a.free(), a.capacity());
    for layer in 0..12 {
        assert!(a.row(layer).is_empty());
    }
    assert_eq!(a.row(12).len(), 16);
}
