use bevox::body::BodyId;
use bevox::physics::joint::JointEnds;
use bevox::physics::sleep::{count, driven, settle, wake, Count};

/// A table of which boxes overlap, from the pairs that do.
fn table(n: usize, pairs: &[(usize, usize)]) -> Vec<Vec<bool>> {
    let mut t = vec![vec![false; n]; n];
    for &(i, j) in pairs {
        t[i][j] = true;
        t[j][i] = true;
    }
    t
}

fn ids(n: u64) -> Vec<BodyId> {
    (1..=n).map(BodyId).collect()
}

/// A body dropped on a sleeping stack wakes all of it, down to the bottom, in the
/// tick it arrives.
#[test]
fn a_stack_wakes_from_the_top_down() {
    let touching = table(4, &[(0, 1), (1, 2), (2, 3)]);
    let woken = wake(&[true, true, true, false], &[true; 4], &touching, &ids(4), &[], None);
    assert_eq!(woken.asleep, vec![false; 4]);
    assert_eq!(woken.restarted, vec![true, true, true, false]);
}

/// A joint wakes its other side: kick one of two jointed sleepers and the
/// other wakes the same tick.
#[test]
fn a_joint_wakes_its_partner() {
    let joint = JointEnds { a: BodyId(1), b: Some(BodyId(2)) };
    let woken = wake(&[false, true], &[true, true], &table(2, &[]), &ids(2), &[joint], None);
    assert!(!woken.asleep[1], "a joint left its partner asleep");
    assert_eq!(woken.restarted, vec![true, true]);
}

/// The mouse grab wakes what it holds, and nothing else; a joint to the world
/// wakes nothing.
#[test]
fn only_what_is_held_wakes() {
    let joint = JointEnds { a: BodyId(2), b: None };
    let held = Some(BodyId(1));
    let woken = wake(&[true, true], &[true, true], &table(2, &[]), &ids(2), &[joint], held);
    assert_eq!(woken.asleep, vec![false, true]);
    assert_eq!(woken.restarted, vec![true, false]);
}

/// A body without mass pushes nothing.
#[test]
fn a_massless_body_wakes_no_one() {
    let touching = table(2, &[(0, 1)]);
    let woken = wake(&[false, true], &[false, true], &touching, &ids(2), &[], None);
    assert_eq!(woken.asleep, vec![false, true]);
}

/// Touching or jointed bodies fall asleep together or not at all.
#[test]
fn a_group_sleeps_when_all_of_it_has_rested() {
    let touching = table(5, &[(0, 1)]);
    let joint = JointEnds { a: BodyId(3), b: Some(BodyId(4)) };
    let falls = settle(
        &[true, true, true, true, false],
        &[true, false, true, true, true],
        &touching,
        &ids(5),
        &[joint],
    );
    assert_eq!(falls, vec![false, false, true, true, false]);
    let falls = settle(
        &[true, true, true, true, true],
        &[true, true, true, false, true],
        &touching,
        &ids(5),
        &[joint],
    );
    assert_eq!(falls, vec![true, true, false, false, true]);
}

#[test]
fn a_motor_drives_both_its_bodies() {
    let joints = [JointEnds { a: BodyId(1), b: None }, JointEnds { a: BodyId(3), b: Some(BodyId(4)) }];
    assert_eq!(driven(&ids(4), &joints), vec![true, false, true, true]);
    assert_eq!(driven(&ids(2), &[]), vec![false, false]);
}

#[test]
fn stillness_counts_while_nothing_moves_the_body() {
    assert_eq!(count(false, false, true, false), Count::Stays);
    assert_eq!(count(true, true, false, true), Count::Grows);
    assert_eq!(count(true, false, true, false), Count::Grows);
    assert_eq!(count(true, false, true, true), Count::Restarts);
    assert_eq!(count(true, false, false, false), Count::Restarts);
}
