use bevox::address::{IVec3, UVec3};
use bevox::body::{grown_to_fit, occupied_bounds};
use bevox::contree::Contree;
use bevox::dense::DenseVolume;
use bevox::material::MaterialId;
use bevox::node::Node;
use bevox::testing::XorShift64;

#[test]
fn an_empty_volume_has_no_bounds() {
    assert_eq!(occupied_bounds(&Contree::empty(3)), None);
}

/// The bound must contain every occupied voxel. That is the whole promise:
/// a cull that trusts a bound missing a voxel removes a body that is on
/// screen, and the pixels change.
#[test]
fn the_bounds_contain_every_occupied_voxel() {
    let mut rng = XorShift64::new(9_17);
    let mut voxels = Vec::new();
    for _ in 0..60 {
        voxels.push((
            UVec3::new(rng.next_below(64), rng.next_below(64), rng.next_below(64)),
            MaterialId(1),
        ));
    }
    let tree = Contree::from_voxels(64, &voxels);
    let (lo, hi) = occupied_bounds(&tree).expect("the volume has voxels");
    for (p, _) in &voxels {
        assert!(
            lo.x <= p.x && p.x < hi.x && lo.y <= p.y && p.y < hi.y && lo.z <= p.z && p.z < hi.z,
            "voxel {p:?} lies outside the bounds {lo:?}..{hi:?}"
        );
    }
}

/// Node-granular, so conservative by at most one brick (4 voxels) per side
/// -- and no looser, or a small body is bounded as a large one and the
/// rectangle cull stops helping.
///
/// Builds its own cube rather than using `cube()`. That helper fills 24..40,
/// which is aligned to the brick grid and so collapses to uniform nodes whose
/// boxes happen to be exact -- it would not exercise the rounding at all.
/// 25..41 is deliberately off-grid, so the bound must round outward.
#[test]
fn the_bounds_are_tight_to_within_a_brick() {
    let mut dense = DenseVolume::new(64).unwrap();
    for z in 25..41 {
        for y in 25..41 {
            for x in 25..41 {
                dense.set(UVec3::new(x, y, z), MaterialId(1));
            }
        }
    }
    let tree = dense.into_contree();
    let (lo, hi) = occupied_bounds(&tree).expect("the cube has voxels");
    for (lo, hi) in [(lo.x, hi.x), (lo.y, hi.y), (lo.z, hi.z)] {
        assert!(lo <= 25 && lo + 4 > 25, "min {lo:?} is looser than a brick");
        assert!(hi >= 41 && hi < 41 + 4, "max {hi:?} is looser than a brick");
    }
}

/// Neither test above can catch a transposed axis in the child-origin
/// decode: the random-voxel test spans close to the full 0..64 range on
/// every axis regardless of which range lands on which axis, and the
/// tightness cube is 25..41 on all three axes, so permuting axes leaves it
/// unchanged. A box with a different, non-overlapping range per axis makes
/// a swap between axes show up as a bound on the wrong values.
#[test]
fn the_bounds_do_not_transpose_axes() {
    let mut dense = DenseVolume::new(64).unwrap();
    for z in 50..54 {
        for y in 4..8 {
            for x in 25..41 {
                dense.set(UVec3::new(x, y, z), MaterialId(1));
            }
        }
    }
    let tree = dense.into_contree();
    let (lo, hi) = occupied_bounds(&tree).expect("the box has voxels");
    let within_a_brick = |lo: u32, hi: u32, min: u32, max: u32| {
        lo <= min && lo + 4 > min && hi >= max && hi < max + 4
    };
    assert!(
        within_a_brick(lo.x, hi.x, 25, 41),
        "x bound {lo:?}..{hi:?} is not within a brick of 25..41"
    );
    assert!(
        within_a_brick(lo.y, hi.y, 4, 8),
        "y bound {lo:?}..{hi:?} is not within a brick of 4..8"
    );
    assert!(
        within_a_brick(lo.z, hi.z, 50, 54),
        "z bound {lo:?}..{hi:?} is not within a brick of 50..54"
    );
}

/// The bound of a tree that stores an empty brick is loose, and still holds every
/// voxel.
#[test]
fn the_bounds_of_an_untidy_tree_still_hold_its_voxels() {
    let mut tree = Contree::from_voxels(16, &[(UVec3::new(1, 2, 3), MaterialId(1))]);
    let arena = tree.arena_mut();
    let empty = arena.alloc_voxels(1);
    let base = arena.alloc_nodes(2);
    let brick = arena.node(0);
    arena.set_node(base, brick);
    arena.set_node(base + 1, Node::subdivided(1, empty));
    tree.set_root_for_test(Node::subdivided(0b11, base));
    assert_eq!(
        occupied_bounds(&tree),
        Some((UVec3::new(0, 0, 0), UVec3::new(8, 4, 4)))
    );
}

/// A box that reaches below the corner moves the voxels up, and the volume becomes
/// the smallest that holds both.
#[test]
fn a_volume_grows_to_fit_a_box() {
    let listed = [(UVec3::new(1, 2, 3), MaterialId(1)), (UVec3::new(3, 0, 0), MaterialId(2))];
    let tree = Contree::from_voxels(4, &listed);

    let (larger, shift) = grown_to_fit(&tree, IVec3::new(-3, 0, 1), IVec3::new(2, 5, 4)).unwrap();
    assert_eq!(shift, UVec3::new(3, 0, 0));
    assert_eq!(larger.extent(), 16);
    assert_eq!(larger.voxels().len(), 2);
    assert_eq!(larger.get(UVec3::new(4, 2, 3)), MaterialId(1));
    assert_eq!(larger.get(UVec3::new(6, 0, 0)), MaterialId(2));
    assert_eq!(larger.check_canonical(), Ok(()));

    let (larger, shift) = grown_to_fit(&tree, IVec3::new(0, 0, 0), IVec3::new(4, 4, 17)).unwrap();
    assert_eq!(shift, UVec3::new(0, 0, 0));
    assert_eq!(larger.extent(), 64);
    assert_eq!(larger.get(UVec3::new(3, 0, 0)), MaterialId(2));
}

/// A volume that holds the box stays as it is, and so does one that would have to
/// be larger than any body's.
#[test]
fn a_volume_that_need_not_or_cannot_grow_does_not() {
    let tree = Contree::from_voxels(4, &[(UVec3::new(1, 2, 3), MaterialId(1))]);
    assert!(grown_to_fit(&tree, IVec3::new(0, 1, 0), IVec3::new(4, 4, 4)).is_none());
    assert!(grown_to_fit(&tree, IVec3::new(2, 9, 2), IVec3::new(1, 1, 1)).is_none());
    assert!(grown_to_fit(&tree, IVec3::new(-1021, 0, 0), IVec3::new(4, 4, 4)).is_none());
    assert!(grown_to_fit(&tree, IVec3::splat(i32::MIN), IVec3::splat(i32::MAX)).is_none());
    let (larger, _) = grown_to_fit(&tree, IVec3::new(-1020, 0, 0), IVec3::new(4, 4, 4)).unwrap();
    assert_eq!(larger.extent(), 1024);
    assert_eq!(larger.get(UVec3::new(1021, 2, 3)), MaterialId(1));
}
