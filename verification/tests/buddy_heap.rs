use stride_kernel::buddy::{order_for, Allocator, BuddyAlloc, BuddyAllocator, FreeNode, LockedBuddy};

#[test]
fn block_sizes_are_powers_of_two() {
    assert_eq!(BuddyAllocator::block_size(0), 8);
    assert_eq!(BuddyAllocator::block_size(1), 16);
    assert_eq!(BuddyAllocator::block_size(5), 256);
    assert_eq!(BuddyAllocator::block_size(27), 1 << 30);
}

#[test]
fn buddy_addresses_pair_up() {
    assert_eq!(BuddyAllocator::buddy_addr(0x1000, 0), 0x1008);
    assert_eq!(BuddyAllocator::buddy_addr(0x1008, 0), 0x1000);
    assert_eq!(BuddyAllocator::buddy_addr(0x1000, 4), 0x1080);
    assert_eq!(BuddyAllocator::buddy_addr(0x1080, 4), 0x1000);
}

#[test]
fn size_to_order_picks_the_smallest_fit() {
    assert_eq!(BuddyAllocator::size_to_order(0), Some(0));
    assert_eq!(BuddyAllocator::size_to_order(1), Some(0));
    assert_eq!(BuddyAllocator::size_to_order(8), Some(0));
    assert_eq!(BuddyAllocator::size_to_order(9), Some(1));
    assert_eq!(BuddyAllocator::size_to_order(256), Some(5));
    assert_eq!(BuddyAllocator::size_to_order(257), Some(6));
    assert_eq!(BuddyAllocator::size_to_order(1 << 30), Some(27));
    assert_eq!(BuddyAllocator::size_to_order((1 << 30) + 1), None);
}

#[test]
fn order_for_takes_the_larger_demand() {
    // The order must hold the larger of size and alignment; a block
    // is aligned to its own size.
    assert_eq!(order_for(24, 8), Some(2));
    assert_eq!(order_for(8, 32), Some(2));
    assert_eq!(order_for(0, 0), Some(0));
    assert_eq!(order_for(1 << 30, 16), Some(27));
    assert_eq!(order_for((1 << 30) + 1, 8), None);
}

#[test]
fn free_list_nodes_push_pop_and_remove() {
    let mut list: Vec<FreeNode> = Vec::new();
    FreeNode::push(&mut list, 8);
    FreeNode::push(&mut list, 16);
    assert!(FreeNode::remove(&mut list, 8));
    assert!(!FreeNode::remove(&mut list, 8));
    assert_eq!(FreeNode::pop(&mut list), Some(16));
    assert_eq!(FreeNode::pop(&mut list), None);
}

#[test]
fn allocate_split_and_merge_round_trip() {
    let mut heap = LockedBuddy::new(Allocator::new());
    let a = heap.get_mut();
    a.init(0x1000, 256);
    // Splitting the single big block yields two distinct, aligned
    // small blocks.
    let p1 = a.allocate(0).unwrap();
    let p2 = a.allocate(0).unwrap();
    assert_ne!(p1, p2);
    assert_eq!(p1 % 8, 0);
    assert_eq!(p2 % 8, 0);
    assert!(p1 >= 0x1000 && p1 + 8 <= 0x1000 + 256);
    assert!(p2 >= 0x1000 && p2 + 8 <= 0x1000 + 256);
    // Freeing both merges the buddies all the way back up, so the
    // full-region block is allocatable again.
    a.dealloc(p2, 0);
    a.dealloc(p1, 0);
    assert_eq!(a.allocate(5), Some(0x1000));
    // Exhaustion reports nothing.
    assert_eq!(a.allocate(5), None);
    assert_eq!(a.allocate(28), None);
}
