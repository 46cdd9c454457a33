use bevox::address::UVec3;
use bevox::contree::Contree;
use bevox::dense::DenseVolume;
use bevox::march::MarchStats;
use bevox::material::MaterialId;
use glam::{Affine3A, Vec3};

struct Hit {
    t: f32,
    voxel: UVec3,
    material: MaterialId,
    face_normal: Vec3,
}

/// A key that orders distances: the bits of the number, flipped so that they
/// count up.
fn key(t: f32) -> u32 {
    let bits = (t + 0.0).to_bits();
    if bits >> 31 == 1 { !bits } else { bits | 0x8000_0000 }
}

/// The distance a key stands for.
fn distance(key: u32) -> f32 {
    f32::from_bits(if key >> 31 == 1 { key & 0x7FFF_FFFF } else { !key })
}

/// Where a ray enters and leaves a box.
fn ray_box(origin: Vec3, inv_dir: Vec3, lo: Vec3, hi: Vec3) -> Option<(f32, f32)> {
    let t0 = (lo - origin) * inv_dir;
    let t1 = (hi - origin) * inv_dir;
    let t_enter = t0.min(t1).max_element();
    let t_exit = t0.max(t1).min_element();
    if t_enter <= t_exit && t_exit >= 0.0 { Some((t_enter, t_exit)) } else { None }
}

/// Which face of a box a ray enters through.
fn entry_normal(origin: Vec3, inv_dir: Vec3, lo: Vec3, hi: Vec3) -> Vec3 {
    let near = ((lo - origin) * inv_dir).min((hi - origin) * inv_dir);
    if near.x >= near.y && near.x >= near.z {
        if inv_dir.x >= 0.0 { Vec3::NEG_X } else { Vec3::X }
    } else if near.y >= near.z {
        if inv_dir.y >= 0.0 { Vec3::NEG_Y } else { Vec3::Y }
    } else if inv_dir.z >= 0.0 {
        Vec3::NEG_Z
    } else {
        Vec3::Z
    }
}

/// Marches a world-space ray through a placed volume.
fn march(
    tree: &Contree,
    volume_to_world: Affine3A,
    origin: Vec3,
    dir: Vec3,
    max_dist: f32,
    any_hit: bool,
    stats: &mut MarchStats,
) -> Option<Hit> {
    let world_to_volume = volume_to_world.inverse();
    let origin = world_to_volume.transform_point3(origin);
    let dir = world_to_volume.transform_vector3(dir);
    let inverse = |d: f32| if d == 0.0 { f32::INFINITY } else { 1.0 / d };
    let inv_dir = Vec3::new(inverse(dir.x), inverse(dir.y), inverse(dir.z));
    let corner_of = |p: UVec3| Vec3::new(p.x as f32, p.y as f32, p.z as f32);
    let crosses = |corner: UVec3, extent: u32| {
        let lo = corner_of(corner);
        ray_box(origin, inv_dir, lo, lo + Vec3::splat(extent as f32)).map(|(a, b)| (key(a), key(b)))
    };
    let hit = bevox::march::march(tree, crosses, key(0.0), key(max_dist), any_hit, stats)?;
    let t = distance(hit.t);
    let lo = corner_of(hit.corner);
    let point = origin + dir * t;
    let last = Vec3::splat(hit.extent as f32 - 1.0);
    let voxel = point.floor().clamp(lo, lo + last);
    Some(Hit {
        t,
        voxel: UVec3::new(voxel.x as u32, voxel.y as u32, voxel.z as u32),
        material: hit.material,
        face_normal: entry_normal(origin, inv_dir, lo, lo + Vec3::splat(hit.extent as f32)),
    })
}

fn single_voxel_tree() -> Contree {
    let mut dense = DenseVolume::new(16).unwrap();
    dense.set(UVec3::new(8, 8, 8), MaterialId(3));
    Contree::from_dense(&dense)
}

#[test]
fn a_ray_aimed_at_a_lone_voxel_hits_it() {
    let tree = single_voxel_tree();
    let mut stats = MarchStats::default();
    let hit = march(
        &tree,
        Affine3A::IDENTITY,
        Vec3::new(-5.0, 8.5, 8.5),
        Vec3::X,
        100.0,
        false,
        &mut stats,
    )
    .expect("expected a hit");

    assert_eq!(hit.voxel, UVec3::new(8, 8, 8));
    assert_eq!(hit.material, MaterialId(3));
    assert!((hit.t - 13.0).abs() < 1e-3, "t was {}", hit.t);
    assert_eq!(hit.face_normal, Vec3::NEG_X);
    assert_eq!(stats.overruns, 0);
}

#[test]
fn a_ray_that_misses_returns_nothing() {
    let tree = single_voxel_tree();
    let mut stats = MarchStats::default();
    let hit = march(
        &tree,
        Affine3A::IDENTITY,
        Vec3::new(-5.0, 0.5, 0.5),
        Vec3::X,
        100.0,
        false,
        &mut stats,
    );
    assert!(hit.is_none());
}

#[test]
fn an_empty_tree_is_never_hit() {
    let tree = Contree::empty(2);
    let mut stats = MarchStats::default();
    assert!(
        march(
            &tree,
            Affine3A::IDENTITY,
            Vec3::new(-5.0, 8.5, 8.5),
            Vec3::X,
            100.0,
            false,
            &mut stats
        )
        .is_none()
    );
}

#[test]
fn the_nearer_of_two_voxels_is_returned() {
    let mut dense = DenseVolume::new(16).unwrap();
    dense.set(UVec3::new(4, 8, 8), MaterialId(1));
    dense.set(UVec3::new(12, 8, 8), MaterialId(2));
    let tree = Contree::from_dense(&dense);

    let mut stats = MarchStats::default();
    let hit = march(
        &tree,
        Affine3A::IDENTITY,
        Vec3::new(-5.0, 8.5, 8.5),
        Vec3::X,
        100.0,
        false,
        &mut stats,
    )
    .unwrap();
    assert_eq!(hit.voxel, UVec3::new(4, 8, 8));

    // From the far side, the other voxel is nearer.
    let hit = march(
        &tree,
        Affine3A::IDENTITY,
        Vec3::new(25.0, 8.5, 8.5),
        Vec3::NEG_X,
        100.0,
        false,
        &mut stats,
    )
    .unwrap();
    assert_eq!(hit.voxel, UVec3::new(12, 8, 8));
    assert_eq!(hit.face_normal, Vec3::X);
}

#[test]
fn max_dist_stops_the_ray_short() {
    let tree = single_voxel_tree();
    let mut stats = MarchStats::default();
    let hit = march(
        &tree,
        Affine3A::IDENTITY,
        Vec3::new(-5.0, 8.5, 8.5),
        Vec3::X,
        10.0, // the voxel is 13 units away
        false,
        &mut stats,
    );
    assert!(hit.is_none());
}

#[test]
fn any_hit_finds_something_without_visiting_more_than_closest_hit() {
    let mut dense = DenseVolume::new(16).unwrap();
    for x in 0..16 {
        dense.set(UVec3::new(x, 8, 8), MaterialId(1));
    }
    let tree = Contree::from_dense(&dense);

    let mut closest_stats = MarchStats::default();
    let closest = march(
        &tree,
        Affine3A::IDENTITY,
        Vec3::new(-5.0, 8.5, 8.5),
        Vec3::X,
        100.0,
        false,
        &mut closest_stats,
    );

    let mut any_stats = MarchStats::default();
    let any = march(
        &tree,
        Affine3A::IDENTITY,
        Vec3::new(-5.0, 8.5, 8.5),
        Vec3::X,
        100.0,
        true,
        &mut any_stats,
    );

    assert!(closest.is_some() && any.is_some());
    assert!(any_stats.steps <= closest_stats.steps);
}

#[test]
fn a_translated_volume_hits_the_same_voxel() {
    let tree = single_voxel_tree();
    let shift = Vec3::new(100.0, 0.0, 0.0);
    let mut stats = MarchStats::default();

    let hit = march(
        &tree,
        Affine3A::from_translation(shift),
        Vec3::new(-5.0, 8.5, 8.5) + shift,
        Vec3::X,
        100.0,
        false,
        &mut stats,
    )
    .expect("expected a hit through the transform");

    assert_eq!(hit.voxel, UVec3::new(8, 8, 8));
    assert!((hit.t - 13.0).abs() < 1e-3);
}

/// Every child that exists in a node the ray goes into is one step.
#[test]
fn each_child_tested_is_one_step() {
    let mut dense = DenseVolume::new(16).unwrap();
    dense.set(UVec3::new(0, 0, 0), MaterialId(1));
    dense.set(UVec3::new(3, 0, 0), MaterialId(2));
    dense.set(UVec3::new(15, 15, 15), MaterialId(3));
    let tree = Contree::from_dense(&dense);
    let mut stats = MarchStats::default();
    let origin = Vec3::new(20.0, 0.5, 0.5);
    let hit = march(&tree, Affine3A::IDENTITY, origin, Vec3::NEG_X, 500.0, false, &mut stats);
    let hit = hit.expect("the ray runs along the bottom row");
    assert_eq!(hit.voxel, UVec3::new(3, 0, 0));
    assert_eq!(hit.t, 16.0);
    // Two bricks below the root, and two voxels in the one the ray goes into.
    assert_eq!(stats, MarchStats { steps: 4, overruns: 0 });
}

/// A ray that goes into every node and meets no voxel runs out of steps.
#[test]
fn a_ray_that_uses_up_its_steps_is_a_miss() {
    let mut dense = DenseVolume::new(64).unwrap();
    for z in 0..64 {
        for y in 0..64 {
            for x in 0..64 {
                if (x + y + z) % 2 == 0 {
                    dense.set(UVec3::new(x, y, z), MaterialId(1));
                }
            }
        }
    }
    let tree = Contree::from_dense(&dense);
    let mut stats = MarchStats { steps: 7, overruns: 2 };
    let crosses = |_: UVec3, extent: u32| if extent > 1 { Some((5, 9)) } else { None };
    let hit = bevox::march::march(&tree, crosses, 0, 100, false, &mut stats);
    assert!(hit.is_none());
    assert_eq!(stats, MarchStats { steps: 7 + bevox::march::MAX_STEPS + 1, overruns: 3 });
}

/// Where any hit will do, children are taken in their order; else the nearest.
#[test]
fn any_hit_takes_the_first_child_and_closest_the_nearest() {
    let mut dense = DenseVolume::new(4).unwrap();
    dense.set(UVec3::new(0, 0, 0), MaterialId(1));
    dense.set(UVec3::new(3, 0, 0), MaterialId(2));
    let tree = Contree::from_dense(&dense);
    let crosses = |p: UVec3, extent: u32| Some((if extent == 4 { 1 } else { 10 - p.x }, 20));
    let mut stats = MarchStats::default();
    let near = bevox::march::march(&tree, crosses, 0, 100, false, &mut stats).unwrap();
    assert_eq!((near.material, near.t), (MaterialId(2), 7));
    let any = bevox::march::march(&tree, crosses, 0, 100, true, &mut stats).unwrap();
    assert_eq!((any.material, any.t), (MaterialId(1), 10));
}

/// A region of one material is hit as a whole, whichever part of it the ray meets.
#[test]
fn a_hit_names_the_whole_region() {
    let mut dense = DenseVolume::new(64).unwrap();
    for z in 16..32 {
        for y in 32..48 {
            for x in 16..32 {
                dense.set(UVec3::new(x, y, z), MaterialId(4));
            }
        }
    }
    let tree = Contree::from_dense(&dense);
    let crosses = |_: UVec3, _: u32| Some((3, 9));
    for any_hit in [false, true] {
        let mut stats = MarchStats::default();
        let hit = bevox::march::march(&tree, crosses, 0, 100, any_hit, &mut stats).unwrap();
        assert_eq!((hit.corner, hit.extent), (UVec3::new(16, 32, 16), 16));
        assert_eq!((hit.material, hit.t), (MaterialId(4), 3));
    }
}
