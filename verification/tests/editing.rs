use bevox::address::UVec3;
use bevox::contree::Contree;
use bevox::dense::DenseVolume;
use bevox::material::MaterialId;
use bevox::node::Node;
use glam::Vec3;

/// Paints a sphere. The empty material erases.
fn apply_sphere(tree: &mut Contree, center: Vec3, radius: f32, material: MaterialId) {
    let touches = |corner: UVec3, extent: u32| {
        let lo = Vec3::new(corner.x as f32, corner.y as f32, corner.z as f32);
        let closest = center.clamp(lo, lo + Vec3::splat(extent as f32));
        closest.distance_squared(center) <= radius * radius
    };
    let covers = |p: UVec3| {
        let c = Vec3::new(p.x as f32, p.y as f32, p.z as f32) + Vec3::splat(0.5);
        c.distance_squared(center) <= radius * radius
    };
    tree.apply_sphere(touches, covers, material);
}

/// Ground truth: the same sphere applied to a flat volume.
fn dense_sphere(extent: u32, center: Vec3, radius: f32, material: MaterialId) -> DenseVolume {
    let mut dense = DenseVolume::new(extent).unwrap();
    for z in 0..extent {
        for y in 0..extent {
            for x in 0..extent {
                let c = Vec3::new(x as f32, y as f32, z as f32) + Vec3::splat(0.5);
                if c.distance(center) <= radius {
                    dense.set(UVec3::new(x, y, z), material);
                }
            }
        }
    }
    dense
}

#[test]
fn a_sphere_added_to_an_empty_tree_matches_the_dense_result() {
    let mut tree = Contree::empty(2); // 16 voxels per axis
    let center = Vec3::splat(8.0);
    apply_sphere(&mut tree, center, 5.0, MaterialId(2));
    assert_eq!(tree.to_dense(), dense_sphere(16, center, 5.0, MaterialId(2)));
    assert_eq!(tree.check_canonical(), Ok(()));
}

#[test]
fn voxels_outside_the_radius_are_untouched() {
    let mut dense = DenseVolume::new(16).unwrap();
    dense.set(UVec3::new(0, 0, 0), MaterialId(7));
    dense.set(UVec3::new(15, 15, 15), MaterialId(7));
    let mut tree = Contree::from_dense(&dense);

    apply_sphere(&mut tree, Vec3::splat(8.0), 2.0, MaterialId(2));

    assert_eq!(tree.get(UVec3::new(0, 0, 0)), MaterialId(7));
    assert_eq!(tree.get(UVec3::new(15, 15, 15)), MaterialId(7));
    assert_eq!(tree.get(UVec3::splat(8)), MaterialId(2));
}

#[test]
fn erasing_with_the_empty_material_removes_voxels_and_recollapses() {
    let mut dense = DenseVolume::new(16).unwrap();
    for z in 0..16 {
        for y in 0..16 {
            for x in 0..16 {
                dense.set(UVec3::new(x, y, z), MaterialId(1));
            }
        }
    }
    let mut tree = Contree::from_dense(&dense);
    assert!(tree.root().is_uniform_solid());

    // A radius large enough to cover the whole volume.
    apply_sphere(&mut tree, Vec3::splat(8.0), 64.0, MaterialId::empty());

    assert!(tree.root().is_empty());
    assert_eq!(tree.check_canonical(), Ok(()));
}

#[test]
fn filling_everything_collapses_back_to_a_uniform_root() {
    let mut tree = Contree::empty(2);
    apply_sphere(&mut tree, Vec3::splat(8.0), 64.0, MaterialId(4));
    assert!(tree.root().is_uniform_solid());
    assert_eq!(tree.root().material(), MaterialId(4));
    assert_eq!(tree.check_canonical(), Ok(()));
}

#[test]
fn dirty_ranges_are_sufficient_to_reproduce_the_edited_buffers() {
    let mut tree = Contree::empty(3); // 64 voxels per axis
    apply_sphere(&mut tree, Vec3::splat(32.0), 10.0, MaterialId(1));

    // Snapshot the buffers as a GPU would hold them, then clear the flags.
    let mut mirror_nodes = tree.arena().nodes().to_vec();
    let mut mirror_voxels = tree.arena().voxels().to_vec();
    tree.arena_mut().clear_dirty();

    apply_sphere(&mut tree, Vec3::new(40.0, 32.0, 32.0), 6.0, MaterialId(2));

    // Apply only the dirty ranges to the mirror, exactly as an upload would.
    mirror_nodes.resize(tree.arena().nodes().len(), Node::empty());
    mirror_voxels.resize(tree.arena().voxels().len(), 0);
    for r in tree.arena().dirty_nodes() {
        let range = r.start as usize..r.end as usize;
        mirror_nodes[range.clone()].copy_from_slice(&tree.arena().nodes()[range]);
    }
    for r in tree.arena().dirty_voxels() {
        let range = r.start as usize..r.end as usize;
        mirror_voxels[range.clone()].copy_from_slice(&tree.arena().voxels()[range]);
    }

    assert_eq!(mirror_nodes, tree.arena().nodes());
    assert_eq!(mirror_voxels, tree.arena().voxels());
}

#[test]
fn repeated_identical_edits_are_stable() {
    let mut tree = Contree::empty(2);
    apply_sphere(&mut tree, Vec3::splat(8.0), 4.0, MaterialId(3));
    let after_first = tree.to_dense();
    apply_sphere(&mut tree, Vec3::splat(8.0), 4.0, MaterialId(3));
    assert_eq!(tree.to_dense(), after_first);
    assert_eq!(tree.check_canonical(), Ok(()));
}

#[test]
fn painting_then_erasing_the_same_sphere_restores_the_tree() {
    // The property the brush rests on: erase is paint with EMPTY, and the
    // two compose back to where they started. If they do not, repeated
    // editing drifts and the arena grows without bound.
    let mut dense = DenseVolume::new(64).unwrap();
    for z in 0..64 {
        for x in 0..64 {
            for y in 0..6 {
                dense.set(UVec3::new(x, y, z), MaterialId(1));
            }
        }
    }
    let tree = dense.into_contree();
    let before = tree.to_dense();

    let mut edited = tree;
    apply_sphere(&mut edited, Vec3::new(32.0, 3.0, 32.0), 5.0, MaterialId(2));
    assert_ne!(edited.to_dense(), before, "the paint did nothing");

    // Erase exactly what was painted, then repaint the floor it removed.
    apply_sphere(&mut edited, Vec3::new(32.0, 3.0, 32.0), 5.0, MaterialId::empty());
    for z in 0..64 {
        for x in 0..64 {
            for y in 0..6 {
                let p = UVec3::new(x, y, z);
                if before.get(p) != MaterialId::empty() && edited.get(p) == MaterialId::empty() {
                    apply_sphere(&mut edited, Vec3::new(p.x as f32, p.y as f32, p.z as f32) + Vec3::splat(0.5), 0.4, MaterialId(1));
                }
            }
        }
    }
    assert_eq!(edited.to_dense(), before, "paint then erase did not round trip");
    edited.check_canonical().expect("the tree stopped being canonical");
}

/// Clearing takes exactly the voxels named and leaves the rest alone.
#[test]
fn clear_voxels_removes_only_what_it_is_given() {
    let mut dense = DenseVolume::new(16).unwrap();
    for z in 0..8 {
        for y in 0..8 {
            for x in 0..8 {
                dense.set(UVec3::new(x, y, z), MaterialId(1));
            }
        }
    }
    let mut tree = dense.into_contree();
    let gone: Vec<UVec3> = (0..8).map(|x| UVec3::new(x, 3, 3)).collect();
    tree.clear_voxels(&gone);

    for p in &gone {
        assert!(tree.get(*p).is_empty(), "{p:?} survived");
    }
    assert_eq!(tree.voxels().len(), 8 * 8 * 8 - gone.len());
    assert!(tree.check_canonical().is_ok(), "the tree is no longer canonical");
}

/// The edit goes through the arena, so the render world can upload a delta
/// rather than rebuilding. A piece that vanished any other way would keep being
/// drawn.
#[test]
fn clear_voxels_marks_the_arena_dirty() {
    let mut dense = DenseVolume::new(16).unwrap();
    for x in 0..8 {
        dense.set(UVec3::new(x, 0, 0), MaterialId(1));
    }
    let mut tree = dense.into_contree();
    tree.arena_mut().clear_dirty();
    tree.clear_voxels(&[UVec3::new(3, 0, 0)]);
    let dirty = tree.arena().dirty_nodes().len() + tree.arena().dirty_voxels().len();
    assert!(dirty > 0, "nothing was marked dirty");
}

/// Clearing nothing changes nothing.
#[test]
fn clear_voxels_of_nothing_is_a_no_op() {
    let mut tree = Contree::from_voxels(16, &[(UVec3::new(1, 2, 3), MaterialId(1))]);
    tree.clear_voxels(&[]);
    assert_eq!(tree.voxels().len(), 1);
}

/// A volume of 16 voxels per axis with every other voxel solid: 64 bricks of 32
/// voxels each, one after the other.
fn checkered() -> Contree {
    let mut dense = DenseVolume::new(16).unwrap();
    for z in 0..16 {
        for y in 0..16 {
            for x in 0..16 {
                if (x + y + z) % 2 == 0 {
                    dense.set(UVec3::new(x, y, z), MaterialId(1));
                }
            }
        }
    }
    dense.into_contree()
}

/// The sphere reaches into the first brick and its three neighbours by a face, not
/// into those by an edge or a corner, though its bounding box does. The first brick
/// loses 13 voxels and moves to the end; the others are written where they were.
#[test]
fn an_edit_marks_only_what_the_sphere_reaches() {
    let mut tree = checkered();
    assert_eq!(tree.arena().voxels().len(), 2048);
    tree.arena_mut().clear_dirty();
    apply_sphere(&mut tree, Vec3::splat(2.5), 1.9, MaterialId::empty());
    assert_eq!(tree.arena().dirty_voxels(), vec![32..64, 128..160, 512..544, 2048..2067]);
    assert_eq!(tree.arena().dirty_nodes(), vec![0..64]);
    assert_eq!(tree.arena().voxels().len(), 2067);
    assert_eq!(tree.voxels().len(), 2048 - 13);
}

/// The blocks an edit frees are the ones it takes again.
#[test]
fn repeating_an_edit_takes_no_slots() {
    let mut tree = checkered();
    apply_sphere(&mut tree, Vec3::splat(8.0), 4.0, MaterialId(3));
    let (nodes, voxels) = (tree.arena().nodes().to_vec(), tree.arena().voxels().to_vec());
    for _ in 0..3 {
        apply_sphere(&mut tree, Vec3::splat(8.0), 4.0, MaterialId(3));
        assert_eq!(tree.arena().nodes(), nodes);
        assert_eq!(tree.arena().voxels(), voxels);
    }
}

/// What an edit replaces is free for the next: painting and erasing in turn does
/// not grow the arena.
#[test]
fn painting_and_erasing_in_turn_takes_no_more_slots() {
    let mut tree = Contree::empty(3);
    apply_sphere(&mut tree, Vec3::splat(30.0), 9.0, MaterialId(1));
    let (nodes, voxels) = (tree.arena().nodes().len(), tree.arena().voxels().len());
    for _ in 0..4 {
        apply_sphere(&mut tree, Vec3::splat(30.0), 9.0, MaterialId::empty());
        assert!(tree.root().is_empty());
        apply_sphere(&mut tree, Vec3::splat(30.0), 9.0, MaterialId(1));
        assert_eq!(tree.arena().nodes().len(), nodes);
        assert_eq!(tree.arena().voxels().len(), voxels);
    }
}

/// An edit that touches nothing leaves everything as it is, marks included.
#[test]
fn an_edit_out_of_reach_changes_nothing() {
    let mut tree = checkered();
    tree.arena_mut().clear_dirty();
    let before = tree.root();
    apply_sphere(&mut tree, Vec3::splat(-20.0), 3.0, MaterialId(2));
    assert_eq!(tree.root(), before);
    assert!(tree.arena().dirty_nodes().is_empty());
    assert!(tree.arena().dirty_voxels().is_empty());
}

/// A volume too large to be stored voxel by voxel has room for small edits, and
/// none for one of the whole.
#[test]
fn a_large_volume_has_room_for_small_edits() {
    let mut tree = Contree::empty(6);
    assert_eq!(tree.extent(), 4096);
    let near = |v: u32, extent: u32| v <= 2001 && v + extent > 1999;
    let touches = |c: UVec3, extent: u32| near(c.x, extent) && near(c.y, extent) && near(c.z, extent);
    let covers = |p: UVec3| near(p.x, 1) && near(p.y, 1) && near(p.z, 1);
    assert!(tree.has_room_to_touch(touches));
    tree.apply_sphere(touches, covers, MaterialId(7));
    assert_eq!(tree.voxels().len(), 27);
    assert_eq!(tree.get(UVec3::new(2000, 1999, 2001)), MaterialId(7));
    assert_eq!(tree.get(UVec3::new(2002, 2000, 2000)), MaterialId::empty());
    assert_eq!(tree.check_canonical(), Ok(()));
    assert!(tree.has_room_in_box(UVec3::new(0, 0, 0), UVec3::new(63, 63, 63)));
    assert!(!tree.has_room_in_box(UVec3::new(0, 0, 0), UVec3::new(4095, 4095, 4095)));
    assert!(tree.has_room_for_count(1_000_000));
    assert!(!tree.has_room_for_count(67_108_864));
    assert!(Contree::empty(3).has_room_in_box(UVec3::new(0, 0, 0), UVec3::new(63, 63, 63)));
}

/// Voxels far apart in a volume too large to be stored voxel by voxel can be written:
/// each takes a block on each level at most.
#[test]
fn a_large_volume_takes_voxels_far_apart() {
    let mut tree = Contree::empty(6);
    let (near, far) = (UVec3::new(0, 0, 0), UVec3::new(255, 4095, 17));
    assert!(tree.has_room_for_count(2));
    tree.fill_voxels(&[(near, MaterialId(3)), (near, MaterialId(4))]);
    tree.fill_voxels(&[(far, MaterialId(5))]);
    assert_eq!(tree.get(near), MaterialId(4));
    assert_eq!(tree.get(far), MaterialId(5));
    assert_eq!(tree.voxels().len(), 2);
    assert_eq!(tree.arena().voxels().len(), 2);
    tree.clear_voxels(&[near]);
    tree.clear_voxels(&[far]);
    assert!(tree.root().is_empty());
    assert_eq!(tree.check_canonical(), Ok(()));
}

/// A volume of 16 voxels per axis whose only brick, above the ground, is stored
/// voxel by voxel though all its voxels are alike: no build stores it so, and the
/// check lets it pass.
fn spelled_out() -> Contree {
    let mut tree = Contree::empty(2);
    let arena = tree.arena_mut();
    let bytes = arena.alloc_voxels(64);
    for i in 0..64 {
        arena.set_voxel(bytes + i, 2);
    }
    let base = arena.alloc_nodes(1);
    arena.set_node(base, Node::subdivided(u64::MAX, bytes));
    tree.set_root_for_test(Node::subdivided(1 << 4, base));
    tree
}

/// Repeating an edit takes no slots in any tree that passes the check, whether the
/// edit meets the brick or not.
#[test]
fn repeating_an_edit_takes_no_slots_in_any_accepted_tree() {
    for center in [Vec3::splat(12.0), Vec3::new(4.0, 6.0, 2.0), Vec3::new(2.0, 6.0, 2.0)] {
        let mut tree = spelled_out();
        assert_eq!(tree.check_canonical(), Ok(()));
        apply_sphere(&mut tree, center, 1.9, MaterialId(3));
        assert_eq!(tree.check_canonical(), Ok(()));
        let read = tree.voxels();
        let (nodes, voxels) = (tree.arena().nodes().to_vec(), tree.arena().voxels().to_vec());
        for _ in 0..3 {
            apply_sphere(&mut tree, center, 1.9, MaterialId(3));
            assert_eq!(tree.check_canonical(), Ok(()));
            assert_eq!(tree.voxels(), read);
            assert_eq!(tree.arena().nodes(), nodes);
            assert_eq!(tree.arena().voxels(), voxels);
        }
    }
}
