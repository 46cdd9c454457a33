use bevox::address::UVec3;
use bevox::dense::{DenseVolume, VolumeError};
use bevox::material::MaterialId;

#[test]
fn extents_that_are_not_powers_of_four_are_rejected() {
    for bad in [0u32, 1, 2, 8, 15, 32, 100] {
        assert_eq!(
            DenseVolume::new(bad),
            Err(VolumeError::InvalidExtent { extent: bad }),
            "extent {bad} should have been rejected"
        );
    }
    for good in [4u32, 16, 64, 256] {
        assert!(DenseVolume::new(good).is_ok(), "extent {good} should be legal");
    }
}

#[test]
fn a_new_volume_is_entirely_empty() {
    let volume = DenseVolume::new(16).unwrap();
    assert_eq!(volume.extent(), 16);
    assert_eq!(volume.get(UVec3::new(3, 4, 5)), MaterialId::empty());
}

#[test]
fn set_then_get_returns_the_material() {
    let mut volume = DenseVolume::new(16).unwrap();
    volume.set(UVec3::new(3, 4, 5), MaterialId(9));
    assert_eq!(volume.get(UVec3::new(3, 4, 5)), MaterialId(9));
    assert_eq!(volume.get(UVec3::new(3, 4, 6)), MaterialId::empty());
}
