use bevox::address::UVec3;
use bevox::contree::{CanonicalError, Contree};
use bevox::dense::DenseVolume;
use bevox::material::MaterialId;
use bevox::node::Node;
use bevox::testing::XorShift64;

#[test]
fn trees_built_from_dense_volumes_are_canonical() {
    let mut rng = XorShift64::new(4242);
    for extent in [4u32, 16, 64] {
        let mut dense = DenseVolume::new(extent).unwrap();
        for _ in 0..extent * extent {
            let p = UVec3::new(
                rng.next_below(extent),
                rng.next_below(extent),
                rng.next_below(extent),
            );
            dense.set(p, MaterialId(1 + rng.next_below(3) as u8));
        }
        let tree = Contree::from_dense(&dense);
        assert_eq!(tree.check_canonical(), Ok(()), "extent {extent}");
    }
}

#[test]
fn an_empty_tree_is_canonical() {
    assert_eq!(Contree::empty(3).check_canonical(), Ok(()));
}

#[test]
fn a_node_whose_children_are_all_the_same_solid_is_rejected() {
    // Hand-build a level-1 node with 64 identical uniform children, which
    // construction would have collapsed.
    let mut tree = Contree::empty(2);
    let base = tree.arena_mut().alloc_nodes(64);
    for i in 0..64 {
        tree.arena_mut().set_node(base + i, Node::uniform(MaterialId(3)));
    }
    tree.set_root_for_test(Node::subdivided(u64::MAX, base));
    assert!(matches!(
        tree.check_canonical(),
        Err(CanonicalError::UncollapsedUniform { .. })
    ));
}

#[test]
fn an_empty_child_occupying_a_slot_is_rejected() {
    let mut tree = Contree::empty(2);
    let base = tree.arena_mut().alloc_nodes(2);
    tree.arena_mut().set_node(base, Node::uniform(MaterialId(1)));
    tree.arena_mut().set_node(base + 1, Node::empty());
    tree.set_root_for_test(Node::subdivided(0b11, base));
    assert!(matches!(
        tree.check_canonical(),
        Err(CanonicalError::EmptyChildStored { .. })
    ));
}

#[test]
fn a_child_slot_past_the_arena_is_rejected() {
    let mut tree = Contree::empty(2);
    tree.set_root_for_test(Node::subdivided(0b1, 9999));
    assert!(matches!(
        tree.check_canonical(),
        Err(CanonicalError::SlotOutOfBounds { .. })
    ));
}

/// What lies idle in the arena is not looked at: only nodes the tree reaches are.
#[test]
fn a_stored_node_that_is_not_reached_is_not_checked() {
    let mut tree = Contree::empty(2);
    let slot = tree.arena_mut().alloc_nodes(1);
    tree.arena_mut().set_node(slot, Node::subdivided(u64::MAX, u32::MAX - 3));
    assert_eq!(tree.check_canonical(), Ok(()));
}
