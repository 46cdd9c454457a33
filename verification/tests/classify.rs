use bevox::address::{IVec3, UVec3};
use bevox::contree::Contree;
use bevox::material::MaterialId;
use bevox::physics::classify::{classify, features, solid_at, Shape};

/// A solid `n`-cubed block of material 1 at the origin of an `extent` volume.
fn cube(n: u32, extent: u32) -> Contree {
    let mut voxels = Vec::new();
    for z in 0..n {
        for y in 0..n {
            for x in 0..n {
                voxels.push((UVec3::new(x, y, z), MaterialId(1)));
            }
        }
    }
    Contree::from_voxels(extent, &voxels)
}

fn shapes_of(tree: &Contree) -> Vec<Shape> {
    tree.voxels()
        .iter()
        .map(|(p, _)| classify(|q| solid_at(tree, q), IVec3::new(p.x as i32, p.y as i32, p.z as i32)))
        .collect()
}

/// Only corners and edges can be touched first, so only they are kept.
#[test]
fn a_cube_keeps_its_eight_corners_and_twelve_runs_of_edges() {
    for n in [2u32, 4, 5] {
        let tree = cube(n, 16);
        let f = features(&tree, &tree.voxels());
        assert_eq!(f.corners.len(), 8, "{n}-cube corners");
        assert_eq!(f.edges.len(), 12 * (n as usize - 2), "{n}-cube edges");
    }
}

/// Every voxel gets exactly one label, and the counts are the textbook ones.
#[test]
fn every_voxel_of_a_cube_is_labelled_once() {
    let n = 5usize;
    let shapes = shapes_of(&cube(n as u32, 16));
    let count = |f: fn(&Shape) -> bool| shapes.iter().filter(|s| f(s)).count();
    assert_eq!(count(|s| matches!(s, Shape::Corner)), 8);
    assert_eq!(count(|s| matches!(s, Shape::Edge(_))), 12 * (n - 2));
    assert_eq!(count(|s| matches!(s, Shape::Face { .. })), 6 * (n - 2) * (n - 2));
    assert_eq!(count(|s| matches!(s, Shape::Interior)), (n - 2).pow(3));
}

#[test]
fn a_bar_has_corner_ends_and_an_edge_along_it() {
    let tree = Contree::from_voxels(
        4,
        &[
            (UVec3::new(0, 1, 1), MaterialId(1)),
            (UVec3::new(1, 1, 1), MaterialId(1)),
            (UVec3::new(2, 1, 1), MaterialId(1)),
        ],
    );
    let solid = |q| solid_at(&tree, q);
    assert_eq!(classify(solid, IVec3::new(0, 1, 1)), Shape::Corner);
    assert_eq!(classify(solid, IVec3::new(1, 1, 1)), Shape::Edge(0));
    assert_eq!(classify(solid, IVec3::new(2, 1, 1)), Shape::Corner);
}

/// A one-voxel plate is a face open on both sides, which is how a thin floor
/// is seen from above and below.
#[test]
fn a_plate_is_open_on_both_sides() {
    let mut voxels = Vec::new();
    for z in 0..3 {
        for x in 0..3 {
            voxels.push((UVec3::new(x, 1, z), MaterialId(1)));
        }
    }
    let tree = Contree::from_voxels(4, &voxels);
    assert_eq!(
        classify(|q| solid_at(&tree, q), IVec3::new(1, 1, 1)),
        Shape::Face { axis: 1, open_plus: true, open_minus: true }
    );
}

/// Outside the volume is empty, so a voxel on the volume's boundary is
/// exposed there.
#[test]
fn outside_the_volume_is_empty() {
    let tree = cube(4, 4);
    assert!(!solid_at(&tree, IVec3::new(-1, 0, 0)));
    assert!(!solid_at(&tree, IVec3::new(0, 4, 0)));
    assert!(solid_at(&tree, IVec3::new(3, 3, 3)));
}
