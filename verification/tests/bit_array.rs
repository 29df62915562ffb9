use customizable_buddy::{
    BitArrayBuddy, BuddyAllocator, BuddyCollection, BuddyLine, LinkedListBuddy, OligarchyCollection,
};

const WIDTH: usize = 4 * usize::BITS as usize;

fn row(base: usize) -> BitArrayBuddy {
    let mut row = BitArrayBuddy::empty();
    row.init(20, base);
    row
}

#[test]
fn bit_array_starts_empty() {
    let mut r = row(7);
    assert!(r.entries().is_empty());
    assert_eq!(BuddyCollection::take_any(&mut r, 0), None);
    assert_eq!(OligarchyCollection::take_any(&mut r, 0, 1), None);
    assert_eq!(BitArrayBuddy::intrusive_meta_size(), 0);
}

#[test]
fn bit_array_holds_more_than_a_word() {
    let mut r = row(1000);
    for idx in [1000, 1000 + 64, 1000 + 200, 1000 + WIDTH - 1] {
        OligarchyCollection::put(&mut r, idx);
    }
    assert_eq!(r.entries(), vec![1000, 1064, 1200, 1000 + WIDTH - 1]);
    assert!(r.take(1200));
    assert!(!r.take(1200));
    assert!(!r.take(999));
    assert!(!r.take(1000 + WIDTH));
    assert_eq!(r.entries(), vec![1000, 1064, 1000 + WIDTH - 1]);
}

#[test]
fn bit_array_put_coalesces_with_buddy() {
    let mut r = row(100);
    assert_eq!(BuddyCollection::put(&mut r, 231), None);
    assert_eq!(BuddyCollection::put(&mut r, 104), None);
    assert_eq!(r.entries(), vec![104, 231]);
    assert_eq!(BuddyCollection::put(&mut r, 230), Some(115));
    assert_eq!(r.entries(), vec![104]);
    assert_eq!(BuddyCollection::put(&mut r, 105), Some(52));
    assert!(r.entries().is_empty());
}

#[test]
fn bit_array_take_any_respects_alignment() {
    let mut r = row(100);
    for idx in [101, 102, 104, 300] {
        OligarchyCollection::put(&mut r, idx);
    }
    assert_eq!(BuddyCollection::take_any(&mut r, 3), Some(104));
    assert_eq!(BuddyCollection::take_any(&mut r, 3), None);
    assert_eq!(BuddyCollection::take_any(&mut r, 2), Some(300));
    assert_eq!(BuddyCollection::take_any(&mut r, 1), Some(102));
    assert_eq!(BuddyCollection::take_any(&mut r, 0), Some(101));
    assert_eq!(BuddyCollection::take_any(&mut r, 0), None);
}

#[test]
fn bit_array_take_run_finds_first_aligned_run() {
    let mut r = row(0);
    for idx in [0, 2, 3, 4, 70, 71, 72, 73, 74] {
        OligarchyCollection::put(&mut r, idx);
    }
    assert_eq!(OligarchyCollection::take_any(&mut r, 0, 3), Some(2));
    assert_eq!(r.entries(), vec![0, 70, 71, 72, 73, 74]);
    assert_eq!(OligarchyCollection::take_any(&mut r, 3, 2), Some(72));
    assert_eq!(r.entries(), vec![0, 70, 71, 74]);
    assert_eq!(OligarchyCollection::take_any(&mut r, 0, 3), None);
    assert_eq!(OligarchyCollection::take_any(&mut r, 0, WIDTH + 1), None);
    assert_eq!(OligarchyCollection::take_any(&mut r, 1, 2), Some(70));
    assert_eq!(r.entries(), vec![0, 74]);
}

#[test]
fn bit_array_run_may_cross_a_word() {
    let mut r = row(0);
    for idx in 60..70 {
        OligarchyCollection::put(&mut r, idx);
    }
    assert_eq!(OligarchyCollection::take_any(&mut r, 1, 8), Some(60));
    assert_eq!(r.entries(), vec![68, 69]);
}

#[test]
fn bit_array_as_top_row_of_an_allocator() {
    let mut a = BuddyAllocator::<4, BitArrayBuddy, LinkedListBuddy>::new();
    a.init(12, 0x10_0000);
    a.transfer(0x10_0000, 200 << 16);
    assert_eq!(a.row(4).len(), 200);
    let (ptr, granted) = a.allocate(0, 130 << 16).unwrap();
    assert_eq!((ptr, granted), (0x10_0000, 130 << 16));
    assert_eq!(a.row(4).len(), 70);
    let (page, size) = a.allocate(0, 1).unwrap();
    assert_eq!((page, size), (0x10_0000 + (130 << 16), 4096));
    a.deallocate(ptr, granted);
    a.deallocate(page, size);
    assert_eq!(a.free(), a.capacity());
    assert_eq!(a.row(4).len(), 200);
}
