use bevox::address::{IVec3, UVec3};
use bevox::contree::Contree;
use bevox::dense::DenseVolume;
use bevox::distance_field::{DistanceField, CELL_VOXELS, MAX_DISTANCE};
use bevox::material::MaterialId;
use bevox::testing::XorShift64;
use glam::Vec3;

/// The sum of two positions.
fn plus(a: UVec3, b: UVec3) -> UVec3 {
    UVec3::new(a.x + b.x, a.y + b.y, a.z + b.z)
}

/// Paints a sphere. The empty material erases.
fn apply_sphere(tree: &mut Contree, center: Vec3, radius: f32, material: MaterialId) {
    let touches = |corner: UVec3, extent: u32| {
        let lo = Vec3::new(corner.x as f32, corner.y as f32, corner.z as f32);
        let closest = center.clamp(lo, lo + Vec3::splat(extent as f32));
        closest.distance_squared(center) <= radius * radius
    };
    let covers = |p: UVec3| {
        let c = Vec3::new(p.x as f32, p.y as f32, p.z as f32) + Vec3::splat(0.5);
        c.distance_squared(center) <= radius * radius
    };
    tree.apply_sphere(touches, covers, material);
}

/// Lowers the field to account for new geometry in a sphere.
fn lower_around(field: &mut DistanceField, centre: Vec3, radius: f32) -> std::ops::Range<u32> {
    let size = CELL_VOXELS as f32;
    let reach = radius / size + MAX_DISTANCE as f32 + 1.0;
    let last = Vec3::splat((field.edge() - 1) as f32);
    let lo = (centre / size - Vec3::splat(reach)).max(Vec3::ZERO).as_uvec3();
    let hi = (centre / size + Vec3::splat(reach)).min(last).as_uvec3();
    let solid_lo = ((centre - Vec3::splat(radius)) / size).floor().as_ivec3();
    let solid_hi = ((centre + Vec3::splat(radius)) / size).ceil().as_ivec3();
    field.lower_around(
        UVec3::new(lo.x, lo.y, lo.z),
        UVec3::new(hi.x, hi.y, hi.z),
        IVec3::new(solid_lo.x, solid_lo.y, solid_lo.z),
        IVec3::new(solid_hi.x, solid_hi.y, solid_hi.z),
    )
}

/// Sparse on purpose: a dense volume at extent 512 would allocate 134 MB
/// just to hold one voxel.
fn one_voxel_at(extent: u32, p: UVec3) -> Contree {
    Contree::from_voxels(extent, &[(p, MaterialId(1))])
}

/// The cell containing a solid voxel is at distance zero. Anything else
/// would let a ray skip the voxel it is standing on.
#[test]
fn a_cell_holding_geometry_is_zero() {
    let tree = one_voxel_at(64, UVec3::new(20, 20, 20));
    let field = DistanceField::build(&tree);
    assert_eq!(field.get(UVec3::new(20 / CELL_VOXELS, 20 / CELL_VOXELS, 20 / CELL_VOXELS)), 0);
}

/// An empty volume is empty everywhere, so every cell saturates.
#[test]
fn an_empty_volume_is_uniformly_the_cap() {
    let tree = Contree::empty(3);
    let field = DistanceField::build(&tree);
    assert!(field.cells().iter().all(|d| *d == MAX_DISTANCE));
}

/// Distance grows with separation, and stops at the cap rather than
/// running away.
#[test]
fn distance_grows_away_from_geometry_and_saturates() {
    // Extent 1024 is 64 cells per axis, so the saturation probe below is
    // inside the grid; at 256 it would fall outside and read as zero.
    // (512 itself is not a legal extent here: this tree is 4-ary, so an
    // extent must be a power of four -- 256 or 1024, never 512.)
    let tree = one_voxel_at(1024, UVec3::splat(8));
    let field = DistanceField::build(&tree);
    let solid = UVec3::splat(0);
    assert_eq!(field.get(solid), 0);
    assert_eq!(field.get(plus(solid, UVec3::new(1, 0, 0))), 1);
    assert_eq!(field.get(plus(solid, UVec3::new(3, 0, 0))), 3);
    // Chebyshev, not Euclidean: a diagonal neighbour is as near as an
    // axial one.
    assert_eq!(field.get(plus(solid, UVec3::new(3, 3, 3))), 3);
    assert_eq!(field.get(plus(solid, UVec3::splat(MAX_DISTANCE as u32 + 4))), MAX_DISTANCE);
}

/// The invariant the whole feature rests on, checked exhaustively against
/// the tree itself on a scene with awkward geometry.
#[test]
fn the_field_never_over_estimates() {
    let mut rng = XorShift64::new(20260914);
    // 128 is not a legal extent for this 4-ary tree (a power of four is
    // required); 64 is the nearest valid size and keeps the O(cells x
    // claimed^3) exhaustive check below fast.
    let extent = 64u32;
    let mut dense = DenseVolume::new(extent).unwrap();
    for _ in 0..300 {
        dense.set(
            UVec3::new(
                rng.next_below(extent),
                rng.next_below(extent),
                rng.next_below(extent),
            ),
            MaterialId(1),
        );
    }
    let tree = dense.into_contree();
    let field = DistanceField::build(&tree);

    let cells = extent / CELL_VOXELS;
    for cz in 0..cells {
        for cy in 0..cells {
            for cx in 0..cells {
                let c = UVec3::new(cx, cy, cz);
                let claimed = field.get(c);
                // Every cell strictly inside the claimed cube must be
                // empty, or the claim is a lie a ray would act on.
                for dz in 0..claimed as u32 {
                    for dy in 0..claimed as u32 {
                        for dx in 0..claimed as u32 {
                            let n = plus(c, UVec3::new(dx, dy, dz));
                            if n.x >= cells || n.y >= cells || n.z >= cells {
                                continue;
                            }
                            assert!(
                                cell_is_empty(&tree, n),
                                "cell {c:?} claims {claimed} but {n:?} holds geometry"
                            );
                        }
                    }
                }
            }
        }
    }
}

fn cell_is_empty(tree: &Contree, cell: UVec3) -> bool {
    let base =
        UVec3::new(cell.x * CELL_VOXELS, cell.y * CELL_VOXELS, cell.z * CELL_VOXELS);
    for z in 0..CELL_VOXELS {
        for y in 0..CELL_VOXELS {
            for x in 0..CELL_VOXELS {
                if tree.get(plus(base, UVec3::new(x, y, z))) != MaterialId::empty() {
                    return false;
                }
            }
        }
    }
    true
}

/// Painting lowers the field near the edit, and lowering is all an edit
/// ever does -- a value that went up would be a ray jumping over the new
/// geometry.
#[test]
fn painting_only_lowers_the_field() {
    let tree = Contree::empty(3);
    let mut field = DistanceField::build(&tree);
    let before: Vec<u8> = field.cells().to_vec();
    lower_around(&mut field, Vec3::splat(32.0), 6.0);
    for (after, before) in field.cells().iter().zip(before.iter()) {
        assert!(after <= before, "a cell rose from {before} to {after}");
    }
    assert!(field.cells().iter().zip(before.iter()).any(|(a, b)| a < b), "nothing changed");
}

/// After a paint, the field must still never over-estimate -- checked
/// against the tree the paint actually produced.
#[test]
fn the_field_is_still_conservative_after_a_paint() {
    let mut tree = Contree::empty(3);
    let mut field = DistanceField::build(&tree);

    let centre = Vec3::new(30.0, 30.0, 30.0);
    apply_sphere(&mut tree, centre, 5.0, MaterialId(1));
    lower_around(&mut field, centre, 5.0);

    let cells = tree.extent() / CELL_VOXELS;
    for cz in 0..cells {
        for cy in 0..cells {
            for cx in 0..cells {
                let c = UVec3::new(cx, cy, cz);
                let claimed = field.get(c) as u32;
                for dz in 0..claimed {
                    for dy in 0..claimed {
                        for dx in 0..claimed {
                            let n = plus(c, UVec3::new(dx, dy, dz));
                            if n.x >= cells || n.y >= cells || n.z >= cells {
                                continue;
                            }
                            assert!(
                                cell_is_empty(&tree, n),
                                "after painting, cell {c:?} claims {claimed} but {n:?} is solid"
                            );
                        }
                    }
                }
            }
        }
    }
}

/// The lowered range is what gets re-uploaded, so it must cover every cell
/// the paint actually changed.
#[test]
fn the_returned_range_covers_every_changed_cell() {
    let tree = Contree::empty(3);
    let mut field = DistanceField::build(&tree);
    let before: Vec<u8> = field.cells().to_vec();
    let range = lower_around(&mut field, Vec3::splat(32.0), 4.0);
    for (i, (a, b)) in field.cells().iter().zip(before.iter()).enumerate() {
        if a != b {
            let i = i as u32;
            assert!(
                range.contains(&i),
                "cell {i} changed but is outside the reported range {range:?}"
            );
        }
    }
}
