use bevox::address::{IVec3, UVec3};
use bevox::body::BodyId;
use bevox::contree::Contree;
use bevox::distance_field::{DistanceField, CELL_VOXELS};
use bevox::material::MaterialId;
use bevox::physics::classify::Shape;
use bevox::physics::contact::{
    corners_in_box, facing, first_of_each, free_box, near_edges, near_solids, ContactKey,
};
use glam::Vec3;

/// A solid `n`-cubed block at the origin of an `extent` volume.
fn cube_of(n: u32, extent: u32, material: MaterialId) -> Contree {
    let mut voxels = Vec::new();
    for z in 0..n {
        for y in 0..n {
            for x in 0..n {
                voxels.push((UVec3::new(x, y, z), material));
            }
        }
    }
    Contree::from_voxels(extent, &voxels)
}

/// A world whose layers below `top` are solid across the whole volume.
fn slab(extent: u32, top: u32) -> Contree {
    let mut voxels = Vec::new();
    for z in 0..extent {
        for y in 0..top {
            for x in 0..extent {
                voxels.push((UVec3::new(x, y, z), MaterialId(1)));
            }
        }
    }
    Contree::from_voxels(extent, &voxels)
}

/// Whether the distance field promises that no world voxel lies in the box.
fn field_clears(field: &DistanceField, min: Vec3, max: Vec3) -> bool {
    let cell = ((min + max) * 0.5 / CELL_VOXELS as f32).floor().as_ivec3();
    let Some((lo, hi)) = free_box(field, IVec3::new(cell.x, cell.y, cell.z)) else {
        return false;
    };
    let lo = Vec3::new(lo.x as f32, lo.y as f32, lo.z as f32);
    let hi = Vec3::new(hi.x as f32, hi.y as f32, hi.z as f32);
    min.cmpge(lo).all() && max.cmple(hi).all()
}

/// The field clears a box only inside the cube its cell promises.
#[test]
fn the_field_clears_only_what_it_promises() {
    let world = slab(64, 8);
    let field = DistanceField::build(&world);
    // Cell y = 2 (voxels 32..48) is two cells from the floor's cell row:
    // free from voxel 16 up.
    assert!(field_clears(&field, Vec3::new(20.0, 38.0, 20.0), Vec3::new(28.0, 46.0, 28.0)));
    // Centred in cell y = 1 (16..32), one cell from the floor, so it
    // promises only its own cell. This box reaches below 16.
    assert!(!field_clears(&field, Vec3::new(20.0, 14.0, 20.0), Vec3::new(28.0, 20.0, 28.0)));
    assert!(!field_clears(&field, Vec3::new(20.0, 4.0, 20.0), Vec3::new(28.0, 10.0, 28.0)));
}

#[test]
fn a_promised_box_has_these_corners() {
    let field = DistanceField::build(&slab(64, 8));
    assert_eq!(
        free_box(&field, IVec3::new(1, 2, 1)),
        Some((IVec3::new(0, 16, 0), IVec3::new(48, 64, 48)))
    );
    assert_eq!(free_box(&field, IVec3::new(1, 0, 1)), None);
    assert_eq!(free_box(&field, IVec3::new(-1, 2, 1)), None);
}

fn key(other: u64, mine: u32, theirs: u32) -> ContactKey {
    ContactKey { other: BodyId(other), mine: [mine, 0, 0], theirs: [theirs, 0, 0] }
}

/// Touches come out sorted by key, and of two with one key the first stands.
#[test]
fn the_first_touch_of_each_pair_is_kept() {
    let keys = [key(2, 0, 0), key(0, 5, 1), key(0, 5, 1), key(0, 4, 9), key(2, 0, 0)];
    assert_eq!(first_of_each(&keys), vec![3, 1, 0]);
    assert!(first_of_each(&[]).is_empty());
}

/// Around a corner of a cube, everything solid within a voxel is found with its
/// shape.
#[test]
fn the_neighbours_of_a_corner_are_found() {
    let cube = cube_of(4, 16, MaterialId(1));
    let near = near_solids(&cube, IVec3::splat(0), 1);
    assert_eq!(near.len(), 8);
    assert_eq!(near[0], (UVec3::splat(0), Shape::Corner));
    assert_eq!(near[1], (UVec3::new(1, 0, 0), Shape::Edge(0)));
    assert_eq!(near[7], (UVec3::splat(1), Shape::Interior));
    let edges = near_edges(&cube, IVec3::splat(0), 1);
    assert_eq!(
        edges,
        vec![(UVec3::new(1, 0, 0), 0), (UVec3::new(0, 1, 0), 1), (UVec3::new(0, 0, 1), 2)]
    );
    assert!(near_solids(&cube, IVec3::splat(-2), 1).is_empty());
}

/// A cube has eight corners, and a box holds those inside it.
#[test]
fn a_box_holds_the_corners_inside_it() {
    let cube = cube_of(4, 16, MaterialId(1));
    let all = corners_in_box(&cube, IVec3::splat(-5), IVec3::splat(99));
    assert_eq!(all.len(), 8);
    let low = corners_in_box(&cube, IVec3::splat(0), IVec3::new(4, 1, 4));
    assert_eq!(
        low,
        vec![UVec3::new(0, 0, 0), UVec3::new(3, 0, 0), UVec3::new(0, 0, 3), UVec3::new(3, 0, 3)]
    );
}

#[test]
fn a_face_owns_touches_on_its_open_side() {
    assert_eq!(facing(true, true, true), Some(true));
    assert_eq!(facing(true, true, false), Some(false));
    assert_eq!(facing(true, false, false), Some(true));
    assert_eq!(facing(false, true, true), Some(false));
    assert_eq!(facing(false, false, true), None);
}

/// A search may reach as far as coordinates do; nothing is solid out there.
#[test]
fn a_search_at_the_edge_of_the_coordinates_finds_nothing() {
    let cube = cube_of(4, 16, MaterialId(1));
    assert!(near_solids(&cube, IVec3::splat(i32::MAX - 2), 2).is_empty());
    assert!(near_solids(&cube, IVec3::splat(i32::MIN + 2), 2).is_empty());
    assert!(near_edges(&cube, IVec3::new(i32::MAX - 1, 0, i32::MIN + 1), 1).is_empty());
}
