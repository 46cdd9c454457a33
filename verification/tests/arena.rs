use bevox::arena::NodeArena;
use bevox::material::MaterialId;
use bevox::node::{Node, CHILDREN};

#[test]
fn allocations_are_sequential_when_nothing_is_free() {
    let mut arena = NodeArena::new();
    assert_eq!(arena.alloc_nodes(3), 0);
    assert_eq!(arena.alloc_nodes(2), 3);
    assert_eq!(arena.nodes().len(), 5);
}

#[test]
fn freed_blocks_are_reused_for_the_same_size_class() {
    let mut arena = NodeArena::new();
    let a = arena.alloc_nodes(4);
    let _b = arena.alloc_nodes(4);
    arena.free_nodes(a, 4);
    assert_eq!(arena.alloc_nodes(4), a);
}

#[test]
fn a_freed_block_is_not_reused_for_a_different_size_class() {
    let mut arena = NodeArena::new();
    let a = arena.alloc_nodes(4);
    arena.free_nodes(a, 4);
    let b = arena.alloc_nodes(2);
    assert_ne!(b, a);
}

#[test]
fn allocation_marks_exactly_the_allocated_range_dirty() {
    let mut arena = NodeArena::new();
    arena.clear_dirty();
    let start = arena.alloc_nodes(3);
    assert_eq!(arena.dirty_nodes(), vec![start..start + 3]);
}

#[test]
fn writes_mark_their_slot_dirty() {
    let mut arena = NodeArena::new();
    let start = arena.alloc_nodes(2);
    arena.clear_dirty();
    arena.set_node(start + 1, Node::uniform(MaterialId(3)));
    assert_eq!(arena.dirty_nodes(), vec![start + 1..start + 2]);
    assert_eq!(arena.node(start + 1).material(), MaterialId(3));
}

#[test]
fn adjacent_dirty_ranges_merge_but_disjoint_ones_do_not() {
    let mut arena = NodeArena::new();
    arena.alloc_nodes(8);
    arena.clear_dirty();
    arena.set_node(0, Node::uniform(MaterialId(1)));
    arena.set_node(1, Node::uniform(MaterialId(1)));
    arena.set_node(5, Node::uniform(MaterialId(1)));
    assert_eq!(arena.dirty_nodes(), vec![0..2, 5..6]);
}

#[test]
fn voxel_allocation_is_tracked_separately_from_nodes() {
    let mut arena = NodeArena::new();
    let v = arena.alloc_voxels(9);
    arena.clear_dirty();
    arena.set_voxel(v + 2, 42);
    assert_eq!(arena.voxel(v + 2), 42);
    assert_eq!(arena.dirty_voxels(), vec![v + 2..v + 3]);
    assert!(arena.dirty_nodes().is_empty());
}

#[test]
fn size_classes_cover_a_full_node_of_children() {
    let mut arena = NodeArena::new();
    let a = arena.alloc_nodes(CHILDREN);
    arena.free_nodes(a, CHILDREN);
    assert_eq!(arena.alloc_nodes(CHILDREN), a);
}

/// A write after the marks are cleared is the only thing marked.
#[test]
fn a_write_to_a_clean_arena_is_all_that_is_marked() {
    let mut arena = NodeArena::new();
    assert_eq!(arena.alloc_voxels(9), 0);
    arena.clear_dirty();
    assert!(arena.dirty_nodes().is_empty() && arena.dirty_voxels().is_empty());
    arena.set_voxel(2, 42);
    assert_eq!(arena.voxels(), &[0, 0, 42, 0, 0, 0, 0, 0, 0]);
    assert_eq!(arena.dirty_voxels(), vec![2..3]);
    assert!(arena.dirty_nodes().is_empty());
}

/// Ranges come out sorted, merged where they touch or overlap.
#[test]
fn dirty_ranges_come_out_sorted_and_merged() {
    let mut arena = NodeArena::new();
    arena.alloc_nodes(8);
    arena.clear_dirty();
    for slot in [5, 1, 0, 5, 3] {
        arena.set_node(slot, Node::empty());
    }
    assert_eq!(arena.dirty_nodes(), vec![0..2, 3..4, 5..6]);
}

/// Giving a block back marks nothing, and takes no mark away.
#[test]
fn freeing_a_block_leaves_the_marks_alone() {
    let mut arena = NodeArena::new();
    arena.alloc_nodes(3);
    arena.alloc_nodes(2);
    arena.alloc_voxels(4);
    arena.clear_dirty();
    arena.set_node(1, Node::uniform(MaterialId(1)));
    arena.free_nodes(3, 2);
    arena.free_voxels(0, 4);
    assert_eq!(arena.dirty_nodes(), vec![1..2]);
    assert!(arena.dirty_voxels().is_empty());
    arena.free_nodes(0, 3);
    assert_eq!(arena.dirty_nodes(), vec![1..2]);
}
