use voxel_octree::arena::Arena;
use voxel_octree::utils::first_zero_position;

#[test]
fn first_zero_position_test() {
    assert!(first_zero_position(245) == 1);
}

#[test]
fn first_zero_position_edges() {
    assert_eq!(first_zero_position(0), 0);
    assert_eq!(first_zero_position(0b11), 2);
    assert_eq!(first_zero_position(0b0111_1111), 7);
}

#[test]
fn arena_store_retrive() {
    let mut arena = Arena::<i32>::new();

    let handle = arena.store(10);
    arena.store(20);
    let handle2 = arena.store(30);

    assert_eq!(*arena.get(&handle), 10);
    assert_eq!(*arena.get(&handle2), 30);
}

#[test]
fn arena_store_retrive_8_aligned() {
    let mut arena = Arena::<i32>::new();

    let handle = arena.store_8_aligned([1, 2, 3, 4, 5, 6, 7, 8]);
    arena.store_8_aligned([4, 3, 5, 6, 3, 0, 4, 3]);
    let handle2 = arena.store_8_aligned([5, 6, 5, 6, 8, 5, 2, 7]);

    assert_eq!(*arena.get(&handle), 1);
    assert_eq!(*arena.get(&handle.index(3)), 4);
    assert_eq!(*arena.get(&handle.index(7)), 8);

    assert_eq!(*arena.get(&handle2), 5);
    assert_eq!(*arena.get(&handle2.index(2)), 5);
    assert_eq!(*arena.get(&handle2.index(6)), 2);
}

#[test]
fn arena_remove() {
    let mut arena = Arena::<i32>::new();

    let handle = arena.store(10);
    let handle2 = arena.store(20);
    let handle3 = arena.store(30);

    arena.remove(handle2);
    arena.remove(handle);

    assert!(*arena.get(&handle3) == 30)
}

#[test]
fn arena_remove_8_aligned() {
    let mut arena = Arena::<i32>::new();

    let handle = arena.store_8_aligned([1, 2, 3, 4, 5, 6, 7, 8]);
    let handle2 = arena.store_8_aligned([2, 6, 7, 3, 6, 4, 3, 1]);

    arena.remove_8_aligned(handle);

    assert!(*arena.get(&handle2.index(2)) == 7)
}

#[test]
fn arena_remove_reinsert() {
    let mut arena = Arena::<i32>::new();

    let handle = arena.store(10);

    assert_eq!(handle.slot_index(), 2);

    arena.store(20);
    arena.remove(handle);

    let handle3 = arena.store(30);

    assert_eq!(*arena.get(&handle3), 30);
    assert_eq!(handle3.slot_index(), 2);
}

#[test]
fn arena_remove_reinsert_8_aligned() {
    let mut arena = Arena::<i32>::new();

    let handle = arena.store_8_aligned([1, 2, 3, 4, 5, 6, 7, 8]);

    assert_eq!(handle.slot_index(), 2);

    arena.store_8_aligned([5, 6, 2, 4, 5, 2, 5, 7]);
    arena.remove_8_aligned(handle);

    let handle3 = arena.store_8_aligned([8, 5, 1, 6, 0, 3, 5, 0]);

    assert_eq!(*arena.get(&handle3.index(2)), 1);
    assert_eq!(handle3.slot_index(), 2);
}

#[test]
fn arena_alloc_count() {
    let mut arena = Arena::<i32>::new();

    arena.store(10);
    let handle = arena.store(20);
    arena.store(30);

    arena.remove(handle);

    assert_eq!(arena.get_allocation_count(), 2);
}

#[test]
fn arena_groups_and_singles_do_not_overlap() {
    let mut arena = Arena::<u32>::new();

    let group = arena.store_8_aligned([1, 1, 1, 1, 1, 1, 1, 1]);
    let single = arena.store(9);

    // the first-fit single allocation lands right after the full group
    assert_eq!(group.slot_index(), 2);
    assert_eq!(single.slot_index(), 10);
    assert_eq!(*arena.get(&single), 9);
    for i in 0..8 {
        assert_eq!(*arena.get(&group.index(i)), 1);
    }
    assert_eq!(arena.get_allocation_count(), 9);

    arena.remove_8_aligned(group);
    assert_eq!(arena.get_allocation_count(), 1);
    assert_eq!(*arena.get(&single), 9);

    // a freed group is reused before any later slot
    let group2 = arena.store_8_aligned([3, 3, 3, 3, 3, 3, 3, 3]);
    assert_eq!(group2.slot_index(), 2);
}

#[test]
fn arena_handles() {
    let mut arena = Arena::<u8>::new();
    let h = arena.store(7);
    assert!(!h.is_null());
    assert_eq!(h.index(0).slot_index(), h.slot_index());
}

#[test]
fn arena_freed_slot_resets_to_default() {
    let mut arena = Arena::<i32>::new();
    let h = arena.store(41);
    arena.remove(h);
    let h2 = arena.store(0);
    // the reused slot shows no stale data
    assert_eq!(h2.slot_index(), h.slot_index());
    assert_eq!(*arena.get(&h2), 0);
}
