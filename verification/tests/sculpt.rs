use bevox::address::UVec3;
use bevox::contree::Contree;
use bevox::material::MaterialId;
use bevox::physics::detach::components;
use bevox::physics::sculpt::{split, Cut};
use glam::Vec3;

/// A solid `n`-cubed block at the origin of an `extent` volume.
fn cube_of(n: u32, extent: u32, material: MaterialId) -> Contree {
    let mut voxels = Vec::new();
    for z in 0..n {
        for y in 0..n {
            for x in 0..n {
                voxels.push((UVec3::new(x, y, z), material));
            }
        }
    }
    Contree::from_voxels(extent, &voxels)
}

/// Erases a sphere, given in volume coordinates.
fn erase(volume: &mut Contree, centre: Vec3, radius: f32) {
    let gone: Vec<UVec3> = volume
        .voxels()
        .iter()
        .map(|(p, _)| *p)
        .filter(|p| {
            let c = Vec3::new(p.x as f32, p.y as f32, p.z as f32) + 0.5;
            c.distance_squared(centre) <= radius * radius
        })
        .collect();
    volume.clear_voxels(&gone);
}

fn bar(width: u32) -> Vec<(UVec3, MaterialId)> {
    (0..12)
        .flat_map(|x| (0..width).map(move |z| (UVec3::new(x, 0, z), MaterialId(1))))
        .collect()
}

/// Erasing a bar through its middle leaves two volumes, with the same voxels in
/// the same places.
#[test]
fn a_bar_cut_through_its_middle_is_two_volumes() {
    let mut volume = Contree::from_voxels(16, &bar(2));
    erase(&mut volume, Vec3::new(6.0, 0.5, 1.0), 1.2);
    let left: Vec<_> = volume.voxels();
    assert!(left.len() < 24, "nothing was erased");
    let Cut::Apart(parts) = split(&mut volume, 1, 16) else {
        panic!("the bar did not split");
    };
    assert_eq!(parts.len(), 1);
    let mut after = volume.voxels();
    assert!(after.len() >= parts[0].voxels().len(), "the larger piece did not stay");
    after.extend(parts[0].voxels());
    assert_eq!(after.len(), left.len());
    for v in &left {
        assert!(after.contains(v), "voxel {v:?} was lost");
    }
}

/// With no room for another body, the pieces stay together.
#[test]
fn a_split_with_no_room_keeps_the_pieces_together() {
    let mut volume = Contree::from_voxels(16, &bar(1));
    erase(&mut volume, Vec3::new(6.0, 0.5, 0.5), 1.2);
    assert!(matches!(split(&mut volume, 1, 1), Cut::Whole), "the split went past the cap");
    assert_eq!(components(&volume).len(), 2, "the erase did not cut the bar");
}

#[test]
fn a_body_erased_to_nothing_is_removed() {
    let mut volume = cube_of(4, 4, MaterialId(1));
    erase(&mut volume, Vec3::splat(2.0), 10.0);
    assert!(matches!(split(&mut volume, 1, 16), Cut::Gone));
}

/// One piece stays one body, whatever its shape and however full the scene.
#[test]
fn a_body_in_one_piece_stays_whole() {
    let mut volume = cube_of(4, 4, MaterialId(1));
    erase(&mut volume, Vec3::splat(0.5), 0.9);
    assert!(matches!(split(&mut volume, 16, 16), Cut::Whole));
    assert_eq!(volume.voxels().len(), 63);
}
