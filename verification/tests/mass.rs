use bevox::address::UVec3;
use bevox::contree::Contree;
use bevox::material::{Material, MaterialId, MaterialTable, DEFAULT_STRENGTH};
use bevox::physics::classify::features;
use bevox::physics::mass::{moments, spread};
use glam::{DMat3, DVec3, Vec3};

/// Material 1 weighs 1000 and grips; 2 weighs 3000 and grips; 3 is
/// frictionless ice; 4 is bouncy; 5 is nearly elastic.
fn materials() -> MaterialTable {
    let mut table = MaterialTable::new();
    for (density, friction, restitution) in
        [(1000, 60, 0), (3000, 60, 0), (1000, 0, 0), (1000, 60, 80), (1000, 60, 99)]
    {
        table
            .push(Material {
                color: [200, 200, 200, 255],
                density,
                friction,
                restitution,
                strength: DEFAULT_STRENGTH,
            })
            .unwrap();
    }
    table
}

/// A solid `n`-cubed block at the origin of an `extent` volume.
fn cube_of(n: u32, extent: u32, material: MaterialId) -> Contree {
    let mut voxels = Vec::new();
    for z in 0..n {
        for y in 0..n {
            for x in 0..n {
                voxels.push((UVec3::new(x, y, z), material));
            }
        }
    }
    Contree::from_voxels(extent, &voxels)
}

/// Mass, inverse inertia about the centre of mass, and that centre.
fn mass_properties(
    voxels: &[(UVec3, MaterialId)],
    materials: &MaterialTable,
) -> Option<(f32, glam::Mat3, Vec3)> {
    let m = moments(voxels, materials)?;
    let s = spread(voxels, materials);
    let mass = m.mass as f64;
    let com = DVec3::new(m.x as f64, m.y as f64, m.z as f64) / (2.0 * mass);
    let about = |total: u128, a: f64, b: f64| total as f64 / 4.0 - mass * a * b;
    let (xx, yy, zz) =
        (about(s.xx, com.x, com.x), about(s.yy, com.y, com.y), about(s.zz, com.z, com.z));
    let (xy, xz, yz) =
        (about(s.xy, com.x, com.y), about(s.xz, com.x, com.z), about(s.yz, com.y, com.z));
    let own = mass / 6.0;
    let inertia = DMat3::from_cols(
        DVec3::new(own + yy + zz, -xy, -xz),
        DVec3::new(-xy, own + xx + zz, -yz),
        DVec3::new(-xz, -yz, own + xx + yy),
    );
    Some((mass as f32, inertia.inverse().as_mat3(), com.as_vec3()))
}

/// Summing unit-cube inertias with the parallel-axis theorem is exact for a
/// block, so this is equality with the continuous formula rather than an
/// estimate: I = m * n^2 / 6 about each axis.
#[test]
fn mass_a_solid_cube_has_the_textbook_inertia() {
    let (mass, got, com) =
        mass_properties(&cube_of(4, 4, MaterialId(1)).voxels(), &materials()).unwrap();
    assert_eq!(mass, 64_000.0);
    assert_eq!(com, Vec3::splat(2.0));
    let want = 6.0 / (64_000.0 * 16.0);
    for (i, col) in [got.x_axis, got.y_axis, got.z_axis].iter().enumerate() {
        for (j, value) in col.to_array().iter().enumerate() {
            let expected = if i == j { want } else { 0.0 };
            assert!(
                (value - expected).abs() <= want * 1e-5,
                "inverse inertia [{i}][{j}] is {value}, want {expected}"
            );
        }
    }
}

/// A voxel of material 2 is three times as heavy, so the centre of mass sits
/// three quarters of the way toward it.
#[test]
fn mass_the_centre_of_mass_leans_toward_the_denser_voxel() {
    let voxels = [(UVec3::new(0, 0, 0), MaterialId(1)), (UVec3::new(1, 0, 0), MaterialId(2))];
    let (mass, _, com) = mass_properties(&voxels, &materials()).unwrap();
    assert_eq!(mass, 4000.0);
    assert!((com - Vec3::new(1.25, 0.5, 0.5)).length() < 1e-6, "centre of mass {com:?}");
}

/// Nothing to simulate: no voxels, or voxels that weigh nothing.
#[test]
fn mass_weightless_voxels_have_no_mass_properties() {
    assert!(mass_properties(&[], &materials()).is_none());
    let air = [(UVec3::splat(0), MaterialId::empty())];
    assert!(mass_properties(&air, &materials()).is_none());
}

#[test]
fn mass_recompute_classifies_the_voxels() {
    let tree = cube_of(4, 4, MaterialId(1));
    let found = features(&tree, &tree.voxels());
    assert_eq!(found.corners.len(), 8);
    assert_eq!(found.edges.len(), 24);
}

#[test]
fn mass_a_body_with_no_voxels_does_not_recompute() {
    assert!(moments(&Contree::empty(2).voxels(), &materials()).is_none());
}

/// The sums themselves, for one voxel: centred at (2.5, 0.5, 1.5), weighing 3000.
#[test]
fn one_voxel_has_these_moments() {
    let voxels = [(UVec3::new(2, 0, 1), MaterialId(2))];
    let m = moments(&voxels, &materials()).unwrap();
    assert_eq!((m.mass, m.x, m.y, m.z), (3000, 15_000, 3000, 9000));
    let s = spread(&voxels, &materials());
    assert_eq!((s.xx, s.yy, s.zz), (75_000, 3000, 27_000));
    assert_eq!((s.xy, s.xz, s.yz), (15_000, 45_000, 9000));
}

/// Cut in two, the parts weigh what the whole did, about every axis.
#[test]
fn the_parts_weigh_what_the_whole_did() {
    let voxels = cube_of(4, 4, MaterialId(2)).voxels();
    let (some, rest) = voxels.split_at(23);
    let (a, b, all) = (
        moments(some, &materials()).unwrap(),
        moments(rest, &materials()).unwrap(),
        moments(&voxels, &materials()).unwrap(),
    );
    assert_eq!(a.mass + b.mass, all.mass);
    assert_eq!((a.x + b.x, a.y + b.y, a.z + b.z), (all.x, all.y, all.z));
    let (a, b, all) =
        (spread(some, &materials()), spread(rest, &materials()), spread(&voxels, &materials()));
    assert_eq!((a.xx + b.xx, a.yz + b.yz), (all.xx, all.yz));
}
