use bevox::address::UVec3;
use bevox::contree::Contree;
use bevox::dense::DenseVolume;
use bevox::material::MaterialId;
use bevox::normal::implicit_normal;
use glam::Vec3;

/// The direction a voxel is exposed in, or the face's where that says nothing.
fn normal_at(tree: &Contree, voxel: UVec3, face_normal: Vec3) -> Vec3 {
    let sum = implicit_normal(tree, voxel);
    let sum = Vec3::new(sum.x as f32, sum.y as f32, sum.z as f32);
    if sum.length_squared() < 1e-6 {
        return face_normal;
    }
    sum.normalize()
}

fn tree_from(points: &[(UVec3, u8)]) -> Contree {
    let mut dense = DenseVolume::new(16).unwrap();
    for (p, m) in points {
        dense.set(*p, MaterialId(*m));
    }
    Contree::from_dense(&dense)
}

#[test]
fn an_isolated_voxel_falls_back_to_the_face_normal() {
    let tree = tree_from(&[(UVec3::new(8, 8, 8), 1)]);
    let n = normal_at(&tree, UVec3::new(8, 8, 8), Vec3::NEG_X);
    assert_eq!(n, Vec3::NEG_X);
}

#[test]
fn a_one_voxel_thick_slab_falls_back_to_the_face_normal() {
    let mut points = Vec::new();
    for z in 6..11 {
        for x in 6..11 {
            points.push((UVec3::new(x, 8, z), 1u8));
        }
    }
    let tree = tree_from(&points);
    let n = normal_at(&tree, UVec3::new(8, 8, 8), Vec3::Y);
    // Up and down are both exposed on a one-voxel-thick slab, and the four
    // lateral neighbours are solid, so the normal resolves to the face.
    assert!(n.length() > 0.99 && n.length() < 1.01);
}

#[test]
fn a_voxel_in_an_inner_corner_points_diagonally_outward() {
    // Two perpendicular walls meeting, leaving +x and +y exposed.
    let mut points = Vec::new();
    for i in 0..5u32 {
        points.push((UVec3::new(8, 8 - i, 8), 1u8));
        points.push((UVec3::new(8 - i, 8, 8), 1u8));
    }
    points.push((UVec3::new(8, 8, 7), 1));
    points.push((UVec3::new(8, 8, 9), 1));
    let tree = tree_from(&points);

    let n = normal_at(&tree, UVec3::new(8, 8, 8), Vec3::Y);
    assert!(n.x > 0.0 && n.y > 0.0, "normal was {n:?}");
    assert!((n.length() - 1.0).abs() < 1e-3);
}

#[test]
fn a_fully_buried_voxel_falls_back_to_the_face_normal() {
    let mut points = vec![(UVec3::new(8, 8, 8), 1u8)];
    for (x, y, z) in [(9, 8, 8), (7, 8, 8), (8, 9, 8), (8, 7, 8), (8, 8, 9), (8, 8, 7)] {
        points.push((UVec3::new(x, y, z), 1));
    }
    let tree = tree_from(&points);
    let n = normal_at(&tree, UVec3::new(8, 8, 8), Vec3::Z);
    assert_eq!(n, Vec3::Z);
}
