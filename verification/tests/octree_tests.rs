use voxel_octree::octree::{Octree, OctreeNode};

#[test]
fn octree_store_retrive() {
    let mut octree = Octree::<u16>::new(8);

    octree.set(10, 20, 30, 56);
    octree.set(0, 0, 0, 12);

    assert!(octree.get(0, 0, 0) == 12);
    assert!(octree.get(10, 20, 30) == 56);
}

#[test]
fn octree_allocation() {
    let mut octree = Octree::<u32>::new(3);

    assert_eq!(octree.allocation_count(), 0);

    octree.set(0, 0, 0, 10);

    assert_eq!(octree.allocation_count(), 16);

    octree.set(1, 0, 1, 10);
    octree.set(1, 0, 0, 10);
    octree.set(1, 1, 1, 10);
    octree.set(1, 1, 0, 10);
    octree.set(0, 1, 1, 10);
    octree.set(0, 1, 0, 10);
    octree.set(0, 0, 1, 10);

    assert_eq!(octree.allocation_count(), 8);
}

#[test]
fn memory_alignment() {
    assert_eq!(std::mem::size_of::<OctreeNode<u32>>(), 12);
}

#[test]
fn octree_uniform_fill_collapses() {
    let mut octree = Octree::<u32>::new(3);

    for x in -2..2 {
        for y in -2..2 {
            for z in -2..2 {
                octree.set(x, y, z, 7);
            }
        }
    }

    // a fully uniform domain folds back into the root leaf
    assert_eq!(octree.allocation_count(), 0);
    assert_eq!(octree.get(-2, -2, -2), 7);
    assert_eq!(octree.get(1, 1, 1), 7);
    assert_eq!(octree.get(0, -1, 1), 7);
}

#[test]
fn octree_overwrite_cell() {
    let mut octree = Octree::<u16>::new(4);

    octree.set(-3, 2, 0, 5);
    assert_eq!(octree.get(-3, 2, 0), 5);
    octree.set(-3, 2, 0, 9);
    assert_eq!(octree.get(-3, 2, 0), 9);
}

#[test]
fn octree_neighbouring_cells_are_independent() {
    let mut octree = Octree::<u32>::new(3);

    octree.set(0, 0, 0, 1);
    octree.set(1, 0, 0, 2);
    octree.set(-1, 0, 0, 3);
    octree.set(0, -1, 0, 4);

    assert_eq!(octree.get(0, 0, 0), 1);
    assert_eq!(octree.get(1, 0, 0), 2);
    assert_eq!(octree.get(-1, 0, 0), 3);
    assert_eq!(octree.get(0, -1, 0), 4);
    // an untouched cell still reads the default
    assert_eq!(octree.get(1, 1, 1), 0);
}

#[test]
fn octree_as_slice_spans_the_arena() {
    let octree = Octree::<u32>::new(4);
    let nodes = octree.as_slice();
    assert_eq!(nodes.len(), 419329);
}

#[test]
fn octree_partial_uniform_subtree_collapses() {
    let mut octree = Octree::<u32>::new(3);

    // fill the eight cells of one octant with the same value: the subtree
    // collapses, leaving only the root's eight children
    for x in 0..2 {
        for y in 0..2 {
            for z in 0..2 {
                octree.set(x, y, z, 10);
            }
        }
    }
    assert_eq!(octree.allocation_count(), 8);
    assert_eq!(octree.get(0, 0, 0), 10);
    assert_eq!(octree.get(1, 1, 1), 10);
    assert_eq!(octree.get(-1, -1, -1), 0);
}
