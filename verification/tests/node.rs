use bevox::node::{child_index, Node};
use bevox::material::MaterialId;

#[test]
fn node_is_sixteen_bytes() {
    assert_eq!(size_of::<Node>(), 16);
    assert_eq!(align_of::<Node>(), 8);
}

#[test]
fn empty_and_uniform_are_distinguishable() {
    assert!(Node::empty().is_empty());
    assert!(!Node::empty().is_uniform_solid());
    assert!(!Node::empty().is_subdivided());

    let solid = Node::uniform(MaterialId(7));
    assert!(!solid.is_empty());
    assert!(solid.is_uniform_solid());
    assert!(!solid.is_subdivided());
    assert_eq!(solid.material(), MaterialId(7));
}

#[test]
fn child_slot_is_none_when_the_bit_is_clear() {
    let node = Node::subdivided(1 << 5, 100);
    assert_eq!(node.child_slot(4), None);
    assert_eq!(node.child_slot(5), Some(100));
    assert_eq!(node.child_count(), 1);
}

#[test]
fn child_slot_offsets_by_popcount_prefix() {
    // Children present at ordinals 1, 5 and 9, stored contiguously from 100.
    let mask = (1u64 << 1) | (1u64 << 5) | (1u64 << 9);
    let node = Node::subdivided(mask, 100);
    assert_eq!(node.child_slot(1), Some(100));
    assert_eq!(node.child_slot(5), Some(101));
    assert_eq!(node.child_slot(9), Some(102));
    assert_eq!(node.child_count(), 3);
}

#[test]
fn child_slot_handles_the_first_and_last_ordinals() {
    let node = Node::subdivided(u64::MAX, 0);
    assert_eq!(node.child_slot(0), Some(0));
    assert_eq!(node.child_slot(63), Some(63));
}

#[test]
fn child_index_matches_x_major_order() {
    assert_eq!(child_index(0, 0, 0), 0);
    assert_eq!(child_index(3, 0, 0), 3);
    assert_eq!(child_index(0, 1, 0), 4);
    assert_eq!(child_index(0, 0, 1), 16);
    assert_eq!(child_index(3, 3, 3), 63);
}
