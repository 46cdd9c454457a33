use bevox::address::UVec3;
use bevox::contree::{level_extent, Contree};
use bevox::dense::DenseVolume;
use bevox::material::MaterialId;
use bevox::testing::XorShift64;

#[test]
fn level_extents_are_powers_of_four() {
    assert_eq!(level_extent(0), 4);
    assert_eq!(level_extent(1), 16);
    assert_eq!(level_extent(4), 1024);
}

#[test]
fn an_empty_volume_collapses_to_an_empty_root() {
    let tree = Contree::from_dense(&DenseVolume::new(64).unwrap());
    assert!(tree.root().is_empty());
    assert_eq!(tree.arena().nodes().len(), 0);
    assert_eq!(tree.arena().voxels().len(), 0);
}

#[test]
fn a_completely_full_volume_collapses_to_a_uniform_root() {
    let mut dense = DenseVolume::new(64).unwrap();
    for z in 0..64 {
        for y in 0..64 {
            for x in 0..64 {
                dense.set(UVec3::new(x, y, z), MaterialId(5));
            }
        }
    }
    let tree = Contree::from_dense(&dense);
    assert!(tree.root().is_uniform_solid());
    assert_eq!(tree.root().material(), MaterialId(5));
    assert_eq!(tree.arena().nodes().len(), 0);
}

#[test]
fn a_single_voxel_is_readable() {
    let mut dense = DenseVolume::new(16).unwrap();
    dense.set(UVec3::new(7, 2, 11), MaterialId(3));
    let tree = Contree::from_dense(&dense);
    assert_eq!(tree.get(UVec3::new(7, 2, 11)), MaterialId(3));
    assert_eq!(tree.get(UVec3::new(7, 2, 10)), MaterialId::empty());
    assert_eq!(tree.depth(), 2);
    assert_eq!(tree.extent(), 16);
}

#[test]
fn every_voxel_of_a_random_volume_round_trips() {
    let mut rng = XorShift64::new(0xDEAD_BEEF);
    let mut dense = DenseVolume::new(16).unwrap();
    for z in 0..16 {
        for y in 0..16 {
            for x in 0..16 {
                // Sparse-ish: roughly one voxel in four is solid.
                if rng.next_below(4) == 0 {
                    let m = MaterialId(1 + rng.next_below(8) as u8);
                    dense.set(UVec3::new(x, y, z), m);
                }
            }
        }
    }
    let tree = Contree::from_dense(&dense);
    assert_eq!(tree.to_dense(), dense);
}

#[test]
fn empty_tree_reads_as_empty_everywhere() {
    let tree = Contree::empty(2);
    assert_eq!(tree.extent(), 16);
    assert_eq!(tree.get(UVec3::new(15, 15, 15)), MaterialId::empty());
}

/// Every slot of a tree that was just built is marked, so that a first upload is an
/// upload of everything.
#[test]
fn a_new_tree_is_marked_throughout() {
    let mut dense = DenseVolume::new(16).unwrap();
    dense.set(UVec3::new(7, 2, 11), MaterialId(3));
    dense.set(UVec3::new(0, 0, 0), MaterialId(1));
    let listed = [
        (UVec3::new(7, 2, 11), MaterialId(3)),
        (UVec3::new(0, 0, 0), MaterialId(1)),
    ];
    for tree in [dense.into_contree(), Contree::from_voxels(16, &listed)] {
        assert_eq!(tree.arena().dirty_nodes(), vec![0..2]);
        assert_eq!(tree.arena().dirty_voxels(), vec![0..2]);
        assert_eq!(tree.arena().nodes().len(), 2);
        assert_eq!(tree.arena().voxels().len(), 2);
    }
}
