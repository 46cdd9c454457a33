use bevox::address::{IVec3, UVec3};
use bevox::body::BodyId;
use bevox::contree::Contree;
use bevox::material::MaterialId;
use bevox::physics::classify::solid_at;
use bevox::physics::joint::{
    acts_at_first_anchor, angular_first, follow, friction_rows, takes_motor, AngularPart,
    JointEnds, LinearPart, Rows,
};
use bevox::physics::sculpt::{split, Cut};
use bevox::physics::solver::{link_joints, pair_key, pairs_to_test};

/// A solid `n`-cubed block at the origin of an `extent` volume.
fn cube_of(n: u32, extent: u32, material: MaterialId) -> Contree {
    let mut voxels = Vec::new();
    for z in 0..n {
        for y in 0..n {
            for x in 0..n {
                voxels.push((UVec3::new(x, y, z), material));
            }
        }
    }
    Contree::from_voxels(extent, &voxels)
}

const A: BodyId = BodyId(1);
const B: BodyId = BodyId(2);

fn to_world(a: BodyId) -> JointEnds {
    JointEnds { a, b: None }
}

/// Cut a bar in two, and a joint pinned to its far end follows the piece
/// that end is on.
#[test]
fn a_joint_follows_its_pivot_across_a_split() {
    let bar: Vec<_> = (0..12).map(|x| (UVec3::new(x, 0, 0), MaterialId(1))).collect();
    let mut volume = Contree::from_voxels(16, &bar);
    // Near the far end, so the joint's end is on the smaller piece, which
    // leaves as a new body.
    volume.clear_voxels(&[UVec3::new(8, 0, 0), UVec3::new(9, 0, 0)]);
    let Cut::Apart(parts) = split(&mut volume, 1, 16) else {
        panic!("the bar did not split");
    };
    assert_eq!(parts.len(), 1, "the bar did not split");
    let held =
        follow(to_world(A), IVec3::new(11, 0, 0), &[A, B], &[&volume, &parts[0]], &[true, true]);
    assert_eq!(held, Some(B), "the joint stayed on the piece without its pivot");
}

/// Erase the pivot, or the body, and the joint goes.
#[test]
fn a_joint_without_its_pivot_is_removed() {
    let mut volume = cube_of(4, 4, MaterialId(1));
    volume.clear_voxels(&[UVec3::splat(0)]);
    assert!(!volume.voxels().is_empty(), "the whole body went, so this tests the wrong thing");
    let held = follow(to_world(A), IVec3::splat(0), &[A], &[&volume], &[true]);
    assert!(held.is_none(), "a joint outlived its pivot voxel");

    let held = follow(to_world(A), IVec3::splat(0), &[], &[], &[]);
    assert!(held.is_none(), "a joint outlived its body");

    let volume = cube_of(4, 4, MaterialId(1));
    let pair = JointEnds { a: A, b: Some(B) };
    let held = follow(pair, IVec3::splat(0), &[A], &[&volume], &[true]);
    assert!(held.is_none(), "a joint outlived its second body");
}

/// A joint whose pivot is untouched stays exactly as it was.
#[test]
fn an_untouched_joint_is_kept() {
    let volume = cube_of(4, 4, MaterialId(1));
    let held = follow(to_world(A), IVec3::splat(0), &[A], &[&volume], &[true]);
    assert_eq!(held, Some(A));
}

/// Another body with a voxel at the same coordinates, somewhere else in the
/// world, is not the piece that holds the pivot: its voxel is not where the
/// pivot was.
#[test]
fn a_joint_does_not_jump_to_an_unrelated_body() {
    let mut volume = cube_of(4, 4, MaterialId(1));
    let other = cube_of(4, 4, MaterialId(1));
    volume.clear_voxels(&[UVec3::splat(0)]);
    assert!(solid_at(&other, IVec3::splat(0)), "the other body lacks the voxel");
    let held =
        follow(to_world(A), IVec3::splat(0), &[A, B], &[&volume, &other], &[true, false]);
    assert!(held.is_none(), "the joint jumped to a body that never held its pivot");
}

/// A joint whose body is gone, or has no mass, sits the tick out.
#[test]
fn a_joint_links_bodies_that_are_here_and_heavy() {
    let c = BodyId(3);
    let joints = [
        to_world(A),
        JointEnds { a: B, b: Some(A) },
        JointEnds { a: A, b: Some(c) },
        to_world(BodyId(9)),
    ];
    let links = link_joints(&[A, B, c], &[true, true, false], &joints);
    assert_eq!(links, vec![Some((0, None)), Some((1, Some(0))), None, None]);
}

/// Jointed pairs do not collide, and nothing collides with a body without mass.
#[test]
fn each_pair_is_tested_once() {
    assert_eq!(pair_key(B, A), (A, B));
    assert_eq!(pair_key(A, B), (A, B));
    let ids = [A, B, BodyId(3), BodyId(4)];
    let joints = [JointEnds { a: BodyId(3), b: Some(A) }];
    let pairs = pairs_to_test(&ids, &[true, true, true, false], &joints);
    assert_eq!(pairs, vec![(0, 1), (1, 2)]);
}

const LINEARS: [LinearPart; 4] =
    [LinearPart::Free, LinearPart::Point, LinearPart::Line, LinearPart::Distance];
const ANGULARS: [AngularPart; 4] =
    [AngularPart::Free, AngularPart::Locked, AngularPart::Axis, AngularPart::Cone];

/// A motor needs exactly one of a line and an axis.
#[test]
fn six_of_the_sixteen_joints_take_a_motor() {
    let mut taken = 0;
    for l in LINEARS {
        for a in ANGULARS {
            if takes_motor(l, a) {
                taken += 1;
            }
        }
    }
    assert_eq!(taken, 6);
    assert!(takes_motor(LinearPart::Point, AngularPart::Axis));
    assert!(!takes_motor(LinearPart::Line, AngularPart::Axis));
    assert!(!takes_motor(LinearPart::Point, AngularPart::Free));
}

#[test]
fn a_cone_is_solved_before_all_but_a_rope() {
    for l in LINEARS {
        assert_eq!(angular_first(l, AngularPart::Cone), l != LinearPart::Distance);
        assert!(!angular_first(l, AngularPart::Locked));
        assert_eq!(acts_at_first_anchor(l), l == LinearPart::Line);
    }
}

/// A motor replaces friction on the motion it drives.
#[test]
fn friction_resists_what_is_left_free() {
    let rows = |l, a, driven| friction_rows(l, a, driven);
    assert_eq!(rows(LinearPart::Free, AngularPart::Free, false), (Rows::All, Rows::All));
    assert_eq!(rows(LinearPart::Point, AngularPart::Axis, false), (Rows::Nothing, Rows::Along));
    assert_eq!(rows(LinearPart::Point, AngularPart::Axis, true), (Rows::Nothing, Rows::Nothing));
    assert_eq!(rows(LinearPart::Line, AngularPart::Locked, false), (Rows::Along, Rows::Nothing));
    assert_eq!(rows(LinearPart::Distance, AngularPart::Cone, true), (Rows::All, Rows::All));
}
