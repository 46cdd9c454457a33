use bevox::address::{IVec3, UVec3};
use bevox::body::BodyId;
use bevox::contree::Contree;
use bevox::material::MaterialId;
use bevox::physics::detach::loose_pieces;
use bevox::physics::fracture::{crack_volume, cracks, seed_of, world_first};
use bevox::testing::XorShift64;
use glam::Vec3;

/// A solid `n`-cubed block at the origin of an `extent` volume.
fn cube_of(n: u32, extent: u32, material: MaterialId) -> Contree {
    let mut voxels = Vec::new();
    for z in 0..n {
        for y in 0..n {
            for x in 0..n {
                voxels.push((UVec3::new(x, y, z), material));
            }
        }
    }
    Contree::from_voxels(extent, &voxels)
}

/// A unit vector, near enough evenly spread for cracks.
fn direction(rng: &mut XorShift64) -> Vec3 {
    loop {
        let unit = |v: u64| (v % 2001) as f32 / 1000.0 - 1.0;
        let v = Vec3::new(unit(rng.next_u64()), unit(rng.next_u64()), unit(rng.next_u64()));
        let length = v.length();
        if length > 0.1 {
            return v / length;
        }
    }
}

fn reach_of(over: f32) -> u32 {
    (2.0 * over.max(1.0).sqrt()).round().clamp(2.0, 12.0) as u32
}

fn planes_of(over: f32) -> u32 {
    (over.max(1.0).sqrt().round() as u32).clamp(2, 6)
}

/// The cracks of a hit `over` times the strength.
fn cracks_of(at: IVec3, over: f32, seed: u64) -> Vec<IVec3> {
    let mut rng = XorShift64::new(seed | 1);
    let normals: Vec<Vec3> = (0..planes_of(over)).map(|_| direction(&mut rng)).collect();
    cracks(at, reach_of(over), |p: IVec3| {
        let p = Vec3::new(p.x as f32, p.y as f32, p.z as f32);
        normals.iter().any(|n| n.dot(p).abs() <= 0.5)
    })
}

/// Cracks stay inside the reach they claim, and the same seed gives the
/// same cracks -- without which no test here could say anything.
#[test]
fn cracks_are_bounded_and_repeatable() {
    let at = IVec3::new(40, 40, 40);
    let once = cracks_of(at, 4.0, 7);
    let twice = cracks_of(at, 4.0, 7);
    assert_eq!(once, twice, "the same hit cracked differently the second time");
    assert!(!once.is_empty(), "a hit four times over strength cracked nothing");
    let reach = reach_of(4.0) as i32;
    for c in &once {
        let far = (c.x - at.x).abs().max((c.y - at.y).abs()).max((c.z - at.z).abs());
        assert!(far <= reach, "{c:?} is {far} voxels out, past a reach of {reach}");
    }
}

/// The point of the whole exercise: after the cracks, the block is in
/// pieces. Counted with the detachment search, which is the same code that
/// will make the bodies.
#[test]
fn cracks_cut_a_solid_block_into_pieces() {
    let pieces = |over: f32, seed: u64| {
        let mut tree = cube_of(16, 16, MaterialId(1));
        crack_volume(&mut tree, &cracks_of(IVec3::splat(8), over, seed));
        // Everything still touching the block's floor is one piece; the
        // search counts what came away from the rest.
        loose_pieces(&tree, IVec3::splat(0), IVec3::splat(15), 64).len()
    };

    let hard = pieces(9.0, 11);
    assert!(hard >= 2, "a hit nine times over strength left {hard} pieces");
    let soft = pieces(1.2, 11);
    assert!(
        soft < hard,
        "a hit just over strength left {soft} pieces and a hard one {hard}: the impulse \
         is not reaching the crack pattern"
    );
}

/// A reach of one is the middle and its six neighbours, in scan order.
#[test]
fn the_smallest_ball_has_seven_voxels() {
    let found = cracks(IVec3::splat(5), 1, |_| true);
    assert_eq!(found, vec![
        IVec3::new(5, 5, 4),
        IVec3::new(5, 4, 5),
        IVec3::new(4, 5, 5),
        IVec3::new(5, 5, 5),
        IVec3::new(6, 5, 5),
        IVec3::new(5, 6, 5),
        IVec3::new(5, 5, 6),
    ]);
}

/// Cracks past the volume's edge cut nothing, and nothing says so.
#[test]
fn cracks_outside_the_volume_change_nothing() {
    let mut tree = cube_of(4, 4, MaterialId(1));
    assert!(!crack_volume(&mut tree, &[IVec3::new(-1, 0, 0), IVec3::new(0, 4, 0)]));
    assert_eq!(tree.voxels().len(), 64);
    assert!(crack_volume(&mut tree, &[IVec3::new(-1, 0, 0), IVec3::new(0, 3, 0)]));
    assert_eq!(tree.get(UVec3::new(0, 3, 0)), MaterialId::empty());
    assert_eq!(tree.voxels().len(), 63);
}

#[test]
fn the_seed_mixes_the_voxel_and_the_impulse() {
    assert_eq!(seed_of(UVec3::new(1, 2, 3), 0), (1 << 40) ^ (2 << 20) ^ 3);
    assert_eq!(seed_of(UVec3::new(0, 0, 0), 5), 40);
    assert_ne!(seed_of(UVec3::new(1, 2, 3), 9), seed_of(UVec3::new(1, 3, 2), 9));
}

#[test]
fn the_world_breaks_before_the_bodies() {
    let order = world_first(&[Some(BodyId(1)), None, Some(BodyId(2)), None]);
    assert_eq!(order, vec![1, 3, 0, 2]);
}

/// The ball may lie anywhere that has coordinates.
#[test]
fn a_ball_reaches_the_last_coordinate() {
    let found = cracks(IVec3::splat(i32::MAX - 1), 1, |p: IVec3| p.y == 0 && p.z == 0);
    assert_eq!(found, vec![
        IVec3::new(i32::MAX - 2, i32::MAX - 1, i32::MAX - 1),
        IVec3::splat(i32::MAX - 1),
        IVec3::new(i32::MAX, i32::MAX - 1, i32::MAX - 1),
    ]);
}
