use customizable_buddy::allocator::fit_order;
use customizable_buddy::order::{buddy_index, is_aligned, order_of_alignment, parent_index, size_of_order};
use customizable_buddy::{
    AvlBuddy, BuddyCollection, BuddyLine, LinkedListBuddy, OligarchyCollection, Order, UsizeBuddy,
};

fn bitmap(base: usize) -> UsizeBuddy {
    let mut row = UsizeBuddy::empty();
    row.init(20, base);
    row
}

#[test]
fn order_converts_between_address_and_index() {
    let order = Order::new(12);
    assert_eq!(order.ptr_to_idx(0x5000), 5);
    assert_eq!(order.ptr_to_idx(0x5fff), 5);
    assert_eq!(order.idx_to_ptr(5), 0x5000);
    assert_eq!(Order::new(0).idx_to_ptr(7), 7);
}

#[test]
fn buddy_and_parent_of_an_index() {
    assert_eq!(buddy_index(6), 7);
    assert_eq!(buddy_index(7), 6);
    assert_eq!(buddy_index(0), 1);
    assert_eq!(parent_index(6), 3);
    assert_eq!(parent_index(7), 3);
    assert_eq!(buddy_index(usize::MAX), usize::MAX - 1);
}

#[test]
fn sizes_and_alignment() {
    assert_eq!(size_of_order(0), 1);
    assert_eq!(size_of_order(12), 4096);
    assert!(is_aligned(0x3000, 12));
    assert!(!is_aligned(0x3000, 13));
    assert!(is_aligned(0, 200));
    assert!(!is_aligned(1, 200));
    assert_eq!(order_of_alignment(1), 0);
    assert_eq!(order_of_alignment(4096), 12);
}

#[test]
fn fit_order_is_bounded_by_alignment_and_length() {
    assert_eq!(fit_order(0x4000, 0x10000, 12, 24), 14);
    assert_eq!(fit_order(0x10000, 0x3000, 12, 24), 13);
    assert_eq!(fit_order(0x100_0000, 0x400_0000, 12, 24), 24);
    assert_eq!(fit_order(0, 0x1000, 12, 24), 12);
}

#[test]
fn meta_sizes() {
    assert_eq!(UsizeBuddy::intrusive_meta_size(), 0);
    assert_eq!(LinkedListBuddy::intrusive_meta_size(), core::mem::size_of::<usize>());
    assert_eq!(AvlBuddy::intrusive_meta_size(), 3 * core::mem::size_of::<usize>());
}

#[test]
fn bitmap_put_coalesces_with_buddy() {
    let mut row = bitmap(100);
    assert_eq!(BuddyCollection::put(&mut row, 106), None);
    assert_eq!(BuddyCollection::put(&mut row, 104), None);
    assert_eq!(row.entries(), vec![104, 106]);
    assert_eq!(BuddyCollection::put(&mut row, 107), Some(53));
    assert_eq!(row.entries(), vec![104]);
    assert_eq!(BuddyCollection::put(&mut row, 105), Some(52));
    assert!(row.entries().is_empty());
}

#[test]
fn bitmap_buddy_is_taken_by_absolute_index() {
    let mut row = bitmap(101);
    assert_eq!(BuddyCollection::put(&mut row, 101), None);
    assert_eq!(BuddyCollection::put(&mut row, 102), None);
    assert_eq!(row.entries(), vec![101, 102]);
    assert_eq!(BuddyCollection::put(&mut row, 103), Some(51));
    assert_eq!(row.entries(), vec![101]);
}

#[test]
fn bitmap_take_any_respects_alignment() {
    let mut row = bitmap(100);
    for idx in [101, 102, 104, 163] {
        OligarchyCollection::put(&mut row, idx);
    }
    assert_eq!(BuddyCollection::take_any(&mut row, 3), Some(104));
    assert_eq!(BuddyCollection::take_any(&mut row, 3), None);
    assert_eq!(BuddyCollection::take_any(&mut row, 1), Some(102));
    assert_eq!(BuddyCollection::take_any(&mut row, 0), Some(101));
    assert_eq!(BuddyCollection::take_any(&mut row, 70), None);
    assert_eq!(BuddyCollection::take_any(&mut row, 0), Some(163));
    assert_eq!(BuddyCollection::take_any(&mut row, 0), None);
}

#[test]
fn bitmap_take_run_finds_first_aligned_run() {
    let mut row = bitmap(0);
    for idx in [1, 2, 3, 4, 5, 8, 9, 10, 11, 62, 63] {
        OligarchyCollection::put(&mut row, idx);
    }
    assert_eq!(OligarchyCollection::take_any(&mut row, 2, 3), Some(8));
    assert_eq!(row.entries(), vec![1, 2, 3, 4, 5, 11, 62, 63]);
    assert_eq!(OligarchyCollection::take_any(&mut row, 0, 5), Some(1));
    assert_eq!(row.entries(), vec![11, 62, 63]);
    assert_eq!(OligarchyCollection::take_any(&mut row, 0, 3), None);
    assert_eq!(OligarchyCollection::take_any(&mut row, 1, 2), Some(62));
    assert_eq!(OligarchyCollection::take_any(&mut row, 0, 65), None);
    assert_eq!(row.entries(), vec![11]);
}

#[test]
fn bitmap_take_run_of_whole_word() {
    let mut row = bitmap(64);
    for idx in 64..128 {
        OligarchyCollection::put(&mut row, idx);
    }
    assert_eq!(OligarchyCollection::take_any(&mut row, 7, 64), None);
    assert_eq!(OligarchyCollection::take_any(&mut row, 6, 64), Some(64));
    assert!(row.entries().is_empty());
}

#[test]
fn bitmap_take_reports_presence() {
    let mut row = bitmap(10);
    OligarchyCollection::put(&mut row, 12);
    assert!(!row.take(11));
    assert!(!row.take(9));
    assert!(!row.take(1000));
    assert!(row.take(12));
    assert!(!row.take(12));
}

#[test]
fn linked_list_put_keeps_ascending_order() {
    let mut row = LinkedListBuddy::empty();
    row.init(12, 0);
    for idx in [40, 10, 30, 20, 50] {
        assert_eq!(BuddyCollection::put(&mut row, idx), None);
    }
    assert_eq!(row.entries(), vec![10, 20, 30, 40, 50]);
    assert_eq!(BuddyCollection::put(&mut row, 31), Some(15));
    assert_eq!(row.entries(), vec![10, 20, 40, 50]);
    assert_eq!(BuddyCollection::put(&mut row, 11), Some(5));
    assert_eq!(BuddyCollection::put(&mut row, 50 ^ 1), Some(25));
    assert_eq!(row.entries(), vec![20, 40]);
}

#[test]
fn linked_list_take_any_pops_lowest() {
    let mut row = LinkedListBuddy::empty();
    row.init(12, 0);
    assert_eq!(BuddyCollection::take_any(&mut row, 0), None);
    for idx in [7, 3, 5] {
        BuddyCollection::put(&mut row, idx);
    }
    assert_eq!(BuddyCollection::take_any(&mut row, 1), None);
    assert_eq!(BuddyCollection::take_any(&mut row, 0), Some(3));
    assert_eq!(BuddyCollection::take_any(&mut row, 0), Some(5));
    assert!(row.take(7));
    assert!(!row.take(7));
    assert_eq!(BuddyCollection::take_any(&mut row, 0), None);
}

#[test]
fn linked_list_as_top_row_is_a_stack() {
    let mut row = LinkedListBuddy::empty();
    row.init(24, 0);
    for idx in [4, 9, 5] {
        OligarchyCollection::put(&mut row, idx);
    }
    assert_eq!(row.entries(), vec![5, 9, 4]);
    assert_eq!(OligarchyCollection::take_any(&mut row, 0, 2), None);
    assert_eq!(OligarchyCollection::take_any(&mut row, 1, 1), None);
    assert_eq!(OligarchyCollection::take_any(&mut row, 0, 1), Some(5));
    assert_eq!(OligarchyCollection::take_any(&mut row, 0, 1), Some(9));
    assert_eq!(OligarchyCollection::take_any(&mut row, 0, 1), Some(4));
    assert_eq!(OligarchyCollection::take_any(&mut row, 0, 1), None);
}

#[test]
fn avl_put_and_take() {
    let mut row = AvlBuddy::empty();
    row.init(12, 0);
    for idx in [40, 10, 30, 20, 50, 60, 70] {
        assert_eq!(row.put(idx), None);
    }
    assert_eq!(row.entries(), vec![10, 20, 30, 40, 50, 60, 70]);
    assert_eq!(row.put(41), Some(20));
    assert_eq!(row.entries(), vec![10, 20, 30, 50, 60, 70]);
    assert!(row.take(50));
    assert!(!row.take(50));
    assert_eq!(row.take_any(3), None);
    let mut left = Vec::new();
    while let Some(idx) = row.take_any(0) {
        left.push(idx);
    }
    left.sort();
    assert_eq!(left, vec![10, 20, 30, 60, 70]);
    assert_eq!(row.root(), None);
}

#[test]
fn avl_stays_balanced_on_ascending_puts() {
    let mut row = AvlBuddy::empty();
    row.init(12, 0);
    for k in 0..7 {
        row.put(2 * k);
    }
    assert_eq!(row.root(), Some(6));
    assert_eq!(row.root_left(), Some(2));
    assert_eq!(row.root_right(), Some(10));
}

#[test]
fn avl_takes_the_nearest_leaf() {
    let mut row = AvlBuddy::empty();
    row.init(12, 0);
    for idx in [80, 70, 90, 60] {
        row.put(idx);
    }
    assert_eq!(row.take_any(0), Some(90));
    assert_eq!(row.root(), Some(70));
    assert_eq!(row.take_any(0), Some(80));
    assert_eq!(row.take_any(0), Some(60));
    assert_eq!(row.take_any(0), Some(70));
    assert_eq!(row.take_any(0), None);
}

#[test]
fn rows_tell_what_they_can_record() {
    let r = bitmap(100);
    assert!(r.holds(100, 163));
    assert!(!r.holds(100, 164));
    assert!(!r.holds(99, 100));
    let mut list = LinkedListBuddy::empty();
    list.init(12, 5);
    assert!(list.holds(0, usize::MAX));
    let tree = AvlBuddy::empty();
    assert!(tree.holds(0, usize::MAX - 1));
    assert!(!tree.holds(0, usize::MAX));
}
