use bevox::address::{IVec3, UVec3};
use bevox::contree::Contree;
use bevox::dense::DenseVolume;
use bevox::distance_field::CELL_VOXELS;
use bevox::fullness::Fullness;
use bevox::material::MaterialId;
use bevox::testing::XorShift64;
use glam::Vec3;

/// The sum of two positions.
fn plus(a: UVec3, b: UVec3) -> UVec3 {
    UVec3::new(a.x + b.x, a.y + b.y, a.z + b.z)
}

/// A position scaled.
fn times(a: UVec3, n: u32) -> UVec3 {
    UVec3::new(a.x * n, a.y * n, a.z * n)
}

/// Paints a sphere. The empty material erases.
fn apply_sphere(tree: &mut Contree, center: Vec3, radius: f32, material: MaterialId) {
    let touches = |corner: UVec3, extent: u32| {
        let lo = Vec3::new(corner.x as f32, corner.y as f32, corner.z as f32);
        let closest = center.clamp(lo, lo + Vec3::splat(extent as f32));
        closest.distance_squared(center) <= radius * radius
    };
    let covers = |p: UVec3| {
        let c = Vec3::new(p.x as f32, p.y as f32, p.z as f32) + Vec3::splat(0.5);
        c.distance_squared(center) <= radius * radius
    };
    tree.apply_sphere(touches, covers, material);
}

/// Counts the cells the slow way, one voxel at a time.
fn brute(tree: &Contree, edge: u32) -> Vec<u8> {
    let mut counts = vec![0u32; (edge * edge * edge) as usize];
    for (p, _) in tree.voxels() {
        let c = UVec3::new(p.x / CELL_VOXELS, p.y / CELL_VOXELS, p.z / CELL_VOXELS);
        counts[(c.x + c.y * edge + c.z * edge * edge) as usize] += 1;
    }
    counts.iter().map(|&n| (n * 255 / 4096) as u8).collect()
}

/// A solid cell reads full, an empty one reads empty, and a half-filled one
/// reads about half.
#[test]
fn a_cell_reads_how_full_it_is() {
    let mut dense = DenseVolume::new(64).unwrap();
    for z in 0..16 {
        for y in 0..16 {
            for x in 0..16 {
                dense.set(UVec3::new(x, y, z), MaterialId(1));
            }
        }
    }
    // Half of the next cell along x.
    for z in 0..16 {
        for y in 0..8 {
            for x in 16..32 {
                dense.set(UVec3::new(x, y, z), MaterialId(1));
            }
        }
    }
    let full = Fullness::build(&dense.into_contree());
    assert_eq!(full.get(UVec3::new(0, 0, 0)), 255);
    assert_eq!(full.get(UVec3::new(2, 0, 0)), 0);
    let half = full.get(UVec3::new(1, 0, 0));
    assert!((120..=130).contains(&half), "a half-full cell reads {half}");
    assert_eq!(full.get(UVec3::new(99, 0, 0)), 0, "outside the grid is not empty");
}

/// The tree walk counts what counting voxels one at a time counts, on
/// scenes with uniform nodes of every size and loose voxels between them.
#[test]
fn the_walk_counts_what_the_voxels_say() {
    let mut rng = XorShift64::new(0x000a_0cc1);
    for case in 0..40 {
        let mut dense = DenseVolume::new(64).unwrap();
        // Blocks of 16, blocks of 4, then loose voxels: every node size.
        for _ in 0..6 {
            let at = times(UVec3::new(rng.next_below(4), rng.next_below(4), rng.next_below(4)), 16);
            for z in 0..16 {
                for y in 0..16 {
                    for x in 0..16 {
                        dense.set(plus(at, UVec3::new(x, y, z)), MaterialId(1));
                    }
                }
            }
        }
        for _ in 0..40 {
            let at = times(UVec3::new(rng.next_below(16), rng.next_below(16), rng.next_below(16)), 4);
            for z in 0..4 {
                for y in 0..4 {
                    for x in 0..4 {
                        dense.set(plus(at, UVec3::new(x, y, z)), MaterialId(2));
                    }
                }
            }
        }
        for _ in 0..400 {
            let at = UVec3::new(rng.next_below(64), rng.next_below(64), rng.next_below(64));
            dense.set(at, MaterialId(1));
        }
        let tree = dense.into_contree();
        let full = Fullness::build(&tree);
        assert_eq!(full.cells(), brute(&tree, full.edge()), "case {case}");
    }
}

/// After an edit, a recount of what it touched matches a fresh build, and
/// says which cells to upload.
#[test]
fn a_recount_matches_a_fresh_build() {
    let mut dense = DenseVolume::new(64).unwrap();
    for z in 0..64 {
        for y in 0..20 {
            for x in 0..64 {
                dense.set(UVec3::new(x, y, z), MaterialId(1));
            }
        }
    }
    let mut tree = dense.into_contree();
    let mut full = Fullness::build(&tree);

    let (centre, radius) = (Vec3::new(30.0, 19.0, 30.0), 6.0f32);
    apply_sphere(&mut tree, centre, radius, MaterialId::empty());
    let reach = radius.ceil() as i32 + 1;
    let lo = IVec3::new(30 - reach, 19 - reach, 30 - reach);
    let hi = IVec3::new(30 + reach, 19 + reach, 30 + reach);
    let range = full.recount(&tree, lo, hi);
    assert_eq!(full.cells(), Fullness::build(&tree).cells(), "the recount disagrees with a build");
    assert!(range.end > range.start, "the recount uploaded nothing");

    // And painting it back.
    apply_sphere(&mut tree, centre, radius, MaterialId(2));
    full.recount(&tree, lo, hi);
    assert_eq!(full.cells(), Fullness::build(&tree).cells(), "the recount after painting disagrees");
}
