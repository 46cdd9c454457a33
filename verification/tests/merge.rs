use bevox::address::{IVec3, UVec3};
use bevox::body::BodyId;
use bevox::contree::Contree;
use bevox::material::MaterialId;
use bevox::physics::joint::JointEnds;
use bevox::physics::merge::{may_merge, merge};
use glam::{EulerRot, Quat, Vec3};

/// A solid `n`-cubed block at the origin of an `extent` volume.
fn cube_of(n: u32, extent: u32, material: MaterialId) -> Contree {
    let mut voxels = Vec::new();
    for z in 0..n {
        for y in 0..n {
            for x in 0..n {
                voxels.push((UVec3::new(x, y, z), material));
            }
        }
    }
    Contree::from_voxels(extent, &voxels)
}

/// The world voxels under a placed volume's voxel centres.
fn landed(volume: &Contree, position: Vec3, orientation: Quat) -> Vec<(IVec3, MaterialId)> {
    volume
        .voxels()
        .iter()
        .map(|(p, m)| {
            let centre = Vec3::new(p.x as f32, p.y as f32, p.z as f32) + 0.5;
            let at = (orientation * centre + position).floor().as_ivec3();
            (IVec3::new(at.x, at.y, at.z), *m)
        })
        .collect()
}

/// An unturned body on whole coordinates merges voxel for voxel, each with
/// its own material.
#[test]
fn an_aligned_body_merges_voxel_for_voxel() {
    let mut world = Contree::empty(3);
    let body = cube_of(4, 4, MaterialId(2));
    let written = merge(&landed(&body, Vec3::new(10.0, 20.0, 10.0), Quat::IDENTITY), &mut world);
    assert_eq!(written.len(), 64);
    for z in 10..14 {
        for y in 20..24 {
            for x in 10..14 {
                assert_eq!(world.get(UVec3::new(x, y, z)), MaterialId(2), "({x}, {y}, {z})");
            }
        }
    }
    assert_eq!(world.voxels().len(), 64, "voxels landed outside the body");
}

/// A turned body snaps: the world voxel under every one of its voxel
/// centres ends up solid.
#[test]
fn a_turned_body_lands_under_its_voxel_centres() {
    let mut world = Contree::empty(3);
    let turn = Quat::from_euler(EulerRot::XYZ, 0.4, 0.7, -0.2);
    let body = cube_of(4, 4, MaterialId(2));
    let under = landed(&body, Vec3::new(30.0, 30.0, 30.0), turn);
    let written = merge(&under, &mut world);
    for (p, _) in &under {
        let cell = UVec3::new(p.x as u32, p.y as u32, p.z as u32);
        assert!(!world.get(cell).is_empty(), "nothing landed under body voxel {p:?}");
    }
    assert!(written.len() > 48, "only {} of 64 voxels found a cell of their own", written.len());
}

/// A merge adds and never overwrites, and drops what lies past the world.
#[test]
fn merging_keeps_the_world_and_stays_inside_it() {
    let mut world = Contree::from_voxels(64, &[(UVec3::new(11, 21, 11), MaterialId(1))]);
    let body = cube_of(4, 4, MaterialId(2));
    let written = merge(&landed(&body, Vec3::new(10.0, 20.0, 10.0), Quat::IDENTITY), &mut world);
    assert_eq!(world.get(UVec3::new(11, 21, 11)), MaterialId(1), "the merge overwrote the world");
    assert_eq!(written.len(), 63);

    // Half past the world's far edge at x = 64.
    let mut world = Contree::empty(3);
    let written = merge(&landed(&body, Vec3::new(62.0, 20.0, 10.0), Quat::IDENTITY), &mut world);
    assert_eq!(written.len(), 32, "voxels past the edge were not dropped");
    assert!(written.iter().all(|p| p.x < 64));
}

/// Two voxels that snap to one cell keep the first.
#[test]
fn the_first_voxel_in_a_cell_stands() {
    let mut world = Contree::empty(2);
    let at = IVec3::new(3, 3, 3);
    let written = merge(&[(at, MaterialId(5)), (at, MaterialId(6))], &mut world);
    assert_eq!(written, vec![UVec3::splat(3)]);
    assert_eq!(world.get(UVec3::splat(3)), MaterialId(5));
}

/// No merge in view, while jointed, while grabbed, or before its time.
#[test]
fn a_body_that_is_seen_or_held_stays() {
    let id = BodyId(7);
    assert!(may_merge(id, true, true, &[], None));
    assert!(!may_merge(id, false, true, &[], None), "a body merged before its time");
    assert!(!may_merge(id, true, false, &[], None), "a body in view merged");
    let joint = JointEnds { a: BodyId(3), b: Some(id) };
    assert!(!may_merge(id, true, true, &[joint], None), "a jointed body merged");
    let held = JointEnds { a: id, b: None };
    assert!(!may_merge(id, true, true, &[], Some(held)), "a grabbed body merged");
    assert!(may_merge(BodyId(8), true, true, &[joint], Some(held)));
}
