use customizable_buddy::{AvlBuddy, BuddyCollection, BuddyLine};

const ORDER_LEVEL: usize = 12;

/// The address of the first page of the pool that the tests take blocks from.
const MEMORY: usize = 0x4000_0000;

/// Sixteen page addresses, 64 pages apart.
fn create_nonnull_list() -> [usize; 1024 / 64] {
    let mut list = [0usize; 1024 / 64];
    for i in 0..1024 / 64 {
        list[i] = MEMORY + i * 64 * 4096;
    }
    list
}

fn address(idx: Option<usize>) -> Option<usize> {
    idx.map(|i| i << ORDER_LEVEL)
}

#[test]
fn test_for_insert_l() {
    let vec = create_nonnull_list();
    let mut avl_buddy = AvlBuddy::empty();
    avl_buddy.init(ORDER_LEVEL, vec[0]);

    <AvlBuddy as BuddyCollection>::put(&mut avl_buddy, vec[7] >> ORDER_LEVEL);
    <AvlBuddy as BuddyCollection>::put(&mut avl_buddy, vec[8] >> ORDER_LEVEL);
    <AvlBuddy as BuddyCollection>::put(&mut avl_buddy, vec[9] >> ORDER_LEVEL);

    assert_eq!(address(avl_buddy.root()).unwrap(), vec[8]);
    assert_eq!(address(avl_buddy.root_left()).unwrap(), vec[7]);
    assert_eq!(address(avl_buddy.root_right()).unwrap(), vec[9]);
}

#[test]
fn test_for_insert_r() {
    let vec = create_nonnull_list();
    let mut avl_buddy = AvlBuddy::empty();
    avl_buddy.init(ORDER_LEVEL, vec[0]);

    <AvlBuddy as BuddyCollection>::put(&mut avl_buddy, vec[9] >> ORDER_LEVEL);
    <AvlBuddy as BuddyCollection>::put(&mut avl_buddy, vec[8] >> ORDER_LEVEL);
    <AvlBuddy as BuddyCollection>::put(&mut avl_buddy, vec[7] >> ORDER_LEVEL);

    assert_eq!(address(avl_buddy.root()).unwrap(), vec[8]);
    assert_eq!(address(avl_buddy.root_left()).unwrap(), vec[7]);
    assert_eq!(address(avl_buddy.root_right()).unwrap(), vec[9]);
}

#[test]
fn test_for_insert_lr() {
    let vec = create_nonnull_list();
    let mut avl_buddy = AvlBuddy::empty();
    avl_buddy.init(ORDER_LEVEL, vec[0]);

    <AvlBuddy as BuddyCollection>::put(&mut avl_buddy, vec[9] >> ORDER_LEVEL);
    <AvlBuddy as BuddyCollection>::put(&mut avl_buddy, vec[7] >> ORDER_LEVEL);
    <AvlBuddy as BuddyCollection>::put(&mut avl_buddy, vec[8] >> ORDER_LEVEL);

    assert_eq!(address(avl_buddy.root()).unwrap(), vec[8]);
    assert_eq!(address(avl_buddy.root_left()).unwrap(), vec[7]);
    assert_eq!(address(avl_buddy.root_right()).unwrap(), vec[9]);
}

#[test]
fn test_for_insert_rl() {
    let vec = create_nonnull_list();
    let mut avl_buddy = AvlBuddy::empty();
    avl_buddy.init(ORDER_LEVEL, vec[0]);

    <AvlBuddy as BuddyCollection>::put(&mut avl_buddy, vec[7] >> ORDER_LEVEL);
    <AvlBuddy as BuddyCollection>::put(&mut avl_buddy, vec[9] >> ORDER_LEVEL);
    <AvlBuddy as BuddyCollection>::put(&mut avl_buddy, vec[8] >> ORDER_LEVEL);

    assert_eq!(address(avl_buddy.root()).unwrap(), vec[8]);
    assert_eq!(address(avl_buddy.root_left()).unwrap(), vec[7]);
    assert_eq!(address(avl_buddy.root_right()).unwrap(), vec[9]);
}

#[test]
fn test_for_insert_buddy_left_leaf() {
    let vec = create_nonnull_list();
    let mut avl_buddy = AvlBuddy::empty();
    avl_buddy.init(ORDER_LEVEL, vec[0]);

    let buddy_idx = (vec[7] >> ORDER_LEVEL) ^ 1;
    <AvlBuddy as BuddyCollection>::put(&mut avl_buddy, vec[8] >> ORDER_LEVEL);
    <AvlBuddy as BuddyCollection>::put(&mut avl_buddy, vec[7] >> ORDER_LEVEL);
    <AvlBuddy as BuddyCollection>::put(&mut avl_buddy, vec[9] >> ORDER_LEVEL);
    <AvlBuddy as BuddyCollection>::put(&mut avl_buddy, buddy_idx);

    assert_eq!(address(avl_buddy.root()).unwrap(), vec[8]);
    assert_eq!(address(avl_buddy.root_left()), None);
    assert_eq!(address(avl_buddy.root_right()).unwrap(), vec[9]);
}

#[test]
fn test_for_insert_buddy_right_leaf() {
    let vec = create_nonnull_list();
    let mut avl_buddy = AvlBuddy::empty();
    avl_buddy.init(ORDER_LEVEL, vec[0]);

    let buddy_idx = (vec[9] >> ORDER_LEVEL) ^ 1;
    <AvlBuddy as BuddyCollection>::put(&mut avl_buddy, vec[8] >> ORDER_LEVEL);
    <AvlBuddy as BuddyCollection>::put(&mut avl_buddy, vec[7] >> ORDER_LEVEL);
    <AvlBuddy as BuddyCollection>::put(&mut avl_buddy, vec[9] >> ORDER_LEVEL);
    <AvlBuddy as BuddyCollection>::put(&mut avl_buddy, buddy_idx);

    assert_eq!(address(avl_buddy.root()).unwrap(), vec[8]);
    assert_eq!(address(avl_buddy.root_left()).unwrap(), vec[7]);
    assert_eq!(address(avl_buddy.root_right()), None);
}

#[test]
fn test_for_insert_buddy_right_not_leaf_right_only() {
    let vec = create_nonnull_list();
    let mut avl_buddy = AvlBuddy::empty();
    avl_buddy.init(ORDER_LEVEL, vec[0]);

    let buddy_idx = (vec[9] >> ORDER_LEVEL) ^ 1;
    <AvlBuddy as BuddyCollection>::put(&mut avl_buddy, vec[8] >> ORDER_LEVEL);
    <AvlBuddy as BuddyCollection>::put(&mut avl_buddy, vec[6] >> ORDER_LEVEL);
    <AvlBuddy as BuddyCollection>::put(&mut avl_buddy, vec[9] >> ORDER_LEVEL);
    <AvlBuddy as BuddyCollection>::put(&mut avl_buddy, vec[4] >> ORDER_LEVEL);
    <AvlBuddy as BuddyCollection>::put(&mut avl_buddy, vec[10] >> ORDER_LEVEL);
    <AvlBuddy as BuddyCollection>::put(&mut avl_buddy, buddy_idx);

    assert_eq!(address(avl_buddy.root()).unwrap(), vec[8]);
    assert_eq!(address(avl_buddy.root_right()).unwrap(), vec[10]);
}

#[test]
fn test_for_insert_buddy_right_not_leaf_left_only() {
    let vec = create_nonnull_list();
    let mut avl_buddy = AvlBuddy::empty();
    avl_buddy.init(ORDER_LEVEL, vec[0]);

    let buddy_idx = (vec[10] >> ORDER_LEVEL) ^ 1;
    <AvlBuddy as BuddyCollection>::put(&mut avl_buddy, vec[8] >> ORDER_LEVEL);
    <AvlBuddy as BuddyCollection>::put(&mut avl_buddy, vec[6] >> ORDER_LEVEL);
    <AvlBuddy as BuddyCollection>::put(&mut avl_buddy, vec[10] >> ORDER_LEVEL);
    <AvlBuddy as BuddyCollection>::put(&mut avl_buddy, vec[4] >> ORDER_LEVEL);
    <AvlBuddy as BuddyCollection>::put(&mut avl_buddy, vec[9] >> ORDER_LEVEL);
    <AvlBuddy as BuddyCollection>::put(&mut avl_buddy, buddy_idx);

    assert_eq!(address(avl_buddy.root()).unwrap(), vec[8]);
    assert_eq!(address(avl_buddy.root_right()).unwrap(), vec[9]);
}

#[test]
fn test_for_insert_buddy_right_not_leaf_both_no_subleaf() {
    let vec = create_nonnull_list();
    let mut avl_buddy = AvlBuddy::empty();
    avl_buddy.init(ORDER_LEVEL, vec[0]);

    let buddy_idx = (vec[10] >> ORDER_LEVEL) ^ 1;
    <AvlBuddy as BuddyCollection>::put(&mut avl_buddy, vec[8] >> ORDER_LEVEL);
    <AvlBuddy as BuddyCollection>::put(&mut avl_buddy, vec[6] >> ORDER_LEVEL);
    <AvlBuddy as BuddyCollection>::put(&mut avl_buddy, vec[10] >> ORDER_LEVEL);
    <AvlBuddy as BuddyCollection>::put(&mut avl_buddy, vec[4] >> ORDER_LEVEL);
    <AvlBuddy as BuddyCollection>::put(&mut avl_buddy, vec[9] >> ORDER_LEVEL);
    <AvlBuddy as BuddyCollection>::put(&mut avl_buddy, vec[11] >> ORDER_LEVEL);
    <AvlBuddy as BuddyCollection>::put(&mut avl_buddy, buddy_idx);

    assert_eq!(address(avl_buddy.root()).unwrap(), vec[8]);
    assert_eq!(address(avl_buddy.root_right()).unwrap(), vec[9]);
}

#[test]
fn test_for_insert_buddy_right_not_leaf_both_with_subleaf() {
    let vec = create_nonnull_list();
    let mut avl_buddy = AvlBuddy::empty();
    avl_buddy.init(ORDER_LEVEL, vec[0]);

    let buddy_idx = (vec[10] >> ORDER_LEVEL) ^ 1;
    <AvlBuddy as BuddyCollection>::put(&mut avl_buddy, vec[8] >> ORDER_LEVEL);
    <AvlBuddy as BuddyCollection>::put(&mut avl_buddy, vec[6] >> ORDER_LEVEL);
    <AvlBuddy as BuddyCollection>::put(&mut avl_buddy, vec[10] >> ORDER_LEVEL);
    <AvlBuddy as BuddyCollection>::put(&mut avl_buddy, vec[4] >> ORDER_LEVEL);
    <AvlBuddy as BuddyCollection>::put(&mut avl_buddy, vec[9] >> ORDER_LEVEL);
    <AvlBuddy as BuddyCollection>::put(&mut avl_buddy, vec[12] >> ORDER_LEVEL);
    <AvlBuddy as BuddyCollection>::put(&mut avl_buddy, vec[2] >> ORDER_LEVEL);
    <AvlBuddy as BuddyCollection>::put(&mut avl_buddy, vec[11] >> ORDER_LEVEL);
    <AvlBuddy as BuddyCollection>::put(&mut avl_buddy, buddy_idx);

    assert_eq!(address(avl_buddy.root()).unwrap(), vec[8]);
    assert_eq!(address(avl_buddy.root_right()).unwrap(), vec[11]);
}

#[test]
fn test_for_insert_buddy_root() {
    let vec = create_nonnull_list();
    let mut avl_buddy = AvlBuddy::empty();
    avl_buddy.init(ORDER_LEVEL, vec[0]);

    let root_idx = vec[7] >> ORDER_LEVEL;
    let buddy_idx = (vec[7] >> ORDER_LEVEL) ^ 1;
    <AvlBuddy as BuddyCollection>::put(&mut avl_buddy, root_idx);
    <AvlBuddy as BuddyCollection>::put(&mut avl_buddy, buddy_idx);

    assert_eq!(avl_buddy.root(), None);
}

#[test]
fn test_for_delete_root() {
    let vec = create_nonnull_list();
    let mut avl_buddy = AvlBuddy::empty();
    avl_buddy.init(ORDER_LEVEL, vec[0]);

    <AvlBuddy as BuddyCollection>::put(&mut avl_buddy, vec[8] >> ORDER_LEVEL);
    let a = <AvlBuddy as BuddyCollection>::take_any(&mut avl_buddy, 0);

    assert_eq!(a, Some(vec[8] >> ORDER_LEVEL));
    assert_eq!(avl_buddy.root(), None);
}
