use bevox::address::UVec3;
use bevox::contree::Contree;
use bevox::dense::DenseVolume;
use bevox::march::MarchStats;
use bevox::material::MaterialId;
use glam::{Affine3A, Vec3};

struct Hit {
    t: f32,
    voxel: UVec3,
    face_normal: Vec3,
}

/// A key that orders distances: the bits of the number, flipped so that they
/// count up.
fn key(t: f32) -> u32 {
    let bits = (t + 0.0).to_bits();
    if bits >> 31 == 1 { !bits } else { bits | 0x8000_0000 }
}

/// The distance a key stands for.
fn distance(key: u32) -> f32 {
    f32::from_bits(if key >> 31 == 1 { key & 0x7FFF_FFFF } else { !key })
}

/// Where a ray enters and leaves a box.
fn ray_box(origin: Vec3, inv_dir: Vec3, lo: Vec3, hi: Vec3) -> Option<(f32, f32)> {
    let t0 = (lo - origin) * inv_dir;
    let t1 = (hi - origin) * inv_dir;
    let t_enter = t0.min(t1).max_element();
    let t_exit = t0.max(t1).min_element();
    if t_enter <= t_exit && t_exit >= 0.0 { Some((t_enter, t_exit)) } else { None }
}

/// Which face of a box a ray enters through.
fn entry_normal(origin: Vec3, inv_dir: Vec3, lo: Vec3, hi: Vec3) -> Vec3 {
    let near = ((lo - origin) * inv_dir).min((hi - origin) * inv_dir);
    if near.x >= near.y && near.x >= near.z {
        if inv_dir.x >= 0.0 { Vec3::NEG_X } else { Vec3::X }
    } else if near.y >= near.z {
        if inv_dir.y >= 0.0 { Vec3::NEG_Y } else { Vec3::Y }
    } else if inv_dir.z >= 0.0 {
        Vec3::NEG_Z
    } else {
        Vec3::Z
    }
}

/// Marches a world-space ray through a placed volume.
fn march(
    tree: &Contree,
    volume_to_world: Affine3A,
    origin: Vec3,
    dir: Vec3,
    max_dist: f32,
    any_hit: bool,
    stats: &mut MarchStats,
) -> Option<Hit> {
    let world_to_volume = volume_to_world.inverse();
    let origin = world_to_volume.transform_point3(origin);
    let dir = world_to_volume.transform_vector3(dir);
    let inverse = |d: f32| if d == 0.0 { f32::INFINITY } else { 1.0 / d };
    let inv_dir = Vec3::new(inverse(dir.x), inverse(dir.y), inverse(dir.z));
    let corner_of = |p: UVec3| Vec3::new(p.x as f32, p.y as f32, p.z as f32);
    let crosses = |corner: UVec3, extent: u32| {
        let lo = corner_of(corner);
        ray_box(origin, inv_dir, lo, lo + Vec3::splat(extent as f32)).map(|(a, b)| (key(a), key(b)))
    };
    let hit = bevox::march::march(tree, crosses, key(0.0), key(max_dist), any_hit, stats)?;
    let t = distance(hit.t);
    let lo = corner_of(hit.corner);
    let point = origin + dir * t;
    let last = Vec3::splat(hit.extent as f32 - 1.0);
    let voxel = point.floor().clamp(lo, lo + last);
    Some(Hit {
        t,
        voxel: UVec3::new(voxel.x as u32, voxel.y as u32, voxel.z as u32),
        face_normal: entry_normal(origin, inv_dir, lo, lo + Vec3::splat(hit.extent as f32)),
    })
}

/// A floor slab with a block standing on it.
fn scene() -> Contree {
    let mut dense = DenseVolume::new(64).unwrap();
    for z in 0..64 {
        for x in 0..64 {
            for y in 0..8 {
                dense.set(UVec3::new(x, y, z), MaterialId(1));
            }
        }
    }
    for z in 28..36 {
        for y in 8..24 {
            for x in 28..36 {
                dense.set(UVec3::new(x, y, z), MaterialId(2));
            }
        }
    }
    dense.into_contree()
}

#[test]
fn rendering_the_same_scene_twice_produces_identical_output() {
    let tree = scene();
    let a = render(&tree);
    let b = render(&tree);
    assert_eq!(a, b);
}

#[test]
fn the_reference_render_hits_the_floor_and_misses_the_sky() {
    let tree = scene();
    let mut stats = MarchStats::default();

    // Straight down onto the floor.
    let down = march(
        &tree,
        Affine3A::IDENTITY,
        Vec3::new(10.0, 40.0, 10.0),
        Vec3::NEG_Y,
        200.0,
        false,
        &mut stats,
    );
    assert!(down.is_some());
    assert_eq!(down.unwrap().voxel.y, 7);

    // Straight up into nothing.
    let up = march(
        &tree,
        Affine3A::IDENTITY,
        Vec3::new(10.0, 40.0, 10.0),
        Vec3::Y,
        200.0,
        false,
        &mut stats,
    );
    assert!(up.is_none());
    assert_eq!(stats.overruns, 0);
}

/// Renders a tiny image and returns the raw pixels.
fn render(tree: &Contree) -> Vec<u8> {
    let (w, h) = (32u32, 32u32);
    let mut pixels = Vec::with_capacity((w * h * 3) as usize);
    let mut stats = MarchStats::default();
    let eye = Vec3::new(-40.0, 40.0, -40.0);
    for py in 0..h {
        for px in 0..w {
            let u = px as f32 / w as f32 - 0.5;
            let v = 0.5 - py as f32 / h as f32;
            let dir = (Vec3::new(32.0, 16.0, 32.0) - eye).normalize()
                + Vec3::new(u, v, 0.0);
            match march(tree, Affine3A::IDENTITY, eye, dir.normalize(), 500.0, false, &mut stats) {
                Some(hit) => {
                    let shade = (hit.face_normal.dot(Vec3::new(0.3, 0.9, 0.2).normalize())
                        * 0.5
                        + 0.5)
                        * 255.0;
                    pixels.extend_from_slice(&[shade as u8, shade as u8, shade as u8]);
                }
                None => pixels.extend_from_slice(&[20, 30, 50]),
            }
        }
    }
    pixels
}
