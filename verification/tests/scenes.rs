use bevox::address::{IVec3, UVec3};
use bevox::body::BodyId;
use bevox::fullness::Fullness;
use bevox::material::{MaterialId, UNBREAKABLE};
use bevox::physics::detach::detach;
use bevox::physics::mass::moments;
use bevox::scenes::{brick, demo_cube, demo_scene, joint_world, SceneKind};
use bevox::tools::{
    grab_frame, stroke, stroke_material, toggle_grab, Buttons, GrabAction, Stroke, Target,
};

/// The demo floor has an ice strip and a rubber patch, so dropping bodies
/// shows friction and bounce without editing anything.
#[test]
fn the_demo_scene_has_something_slippery_and_something_bouncy() {
    let (tree, materials) = demo_scene();
    let has =
        |m: MaterialId| (0..64).any(|x| (0..64).any(|z| tree.get(UVec3::new(x, 5, z)) == m));
    assert!(has(MaterialId(3)), "no ice on the floor");
    assert!(has(MaterialId(4)), "no rubber on the floor");
    assert_eq!(materials.get(MaterialId(3)).friction, 4);
    assert_eq!(materials.get(MaterialId(4)).restitution, 80);
}

/// The demo scene's materials break in the order they look like they should:
/// ice shatters first, brick before stone, and rubber never.
///
/// Equal strengths would leave fracture looking like a property of the
/// impact alone, which is the thing per-material strength exists to avoid.
#[test]
fn the_demo_scene_breaks_in_the_right_order() {
    let (_, materials) = demo_scene();
    let strength = |m: u8| materials.get(MaterialId(m)).strength;
    assert!(strength(3) < strength(2), "ice is not more brittle than brick");
    assert!(strength(2) < strength(1), "brick is not more brittle than stone");
    assert_eq!(
        strength(4),
        UNBREAKABLE,
        "the bouncy patch is breakable, so a hard landing would shatter the floor"
    );
}

/// Erasing the base of the demo scene's column drops it: the erase runs
/// detachment, and the freed piece arrives as a body.
#[test]
fn erasing_the_column_frees_it() {
    let (mut tree, materials) = demo_scene();
    let mut fullness = Fullness::build(&tree);
    // The demo column stands on the floor at x = 28..36, z = 28..36, from
    // y = 6; a radius-5 sphere at its foot cuts the whole cross-section.
    let touches = |corner: UVec3, extent: u32| {
        let d = |v: u32, c: i64| c.clamp(v as i64, v as i64 + extent as i64) - c;
        d(corner.x, 32).pow(2) + d(corner.y, 7).pow(2) + d(corner.z, 32).pow(2) <= 25
    };
    let covers = |p: UVec3| {
        let d = |v: u32, c: i64| 2 * v as i64 + 1 - 2 * c;
        d(p.x, 32).pow(2) + d(p.y, 7).pow(2) + d(p.z, 32).pow(2) <= 100
    };
    tree.apply_sphere(touches, covers, MaterialId::empty());
    let freed = detach(&mut tree, IVec3::new(26, 1, 26), IVec3::new(38, 13, 38), 16);
    assert_eq!(freed.len(), 1, "the column did not come free");
    assert!(moments(&freed[0], &materials).unwrap().mass > 0);
    assert!(
        tree.get(UVec3::new(32, 20, 32)).is_empty() && tree.get(UVec3::new(29, 20, 29)).is_empty(),
        "the column is still in the world as well"
    );
    // The column reaches far above the sphere that cut its foot.
    fullness.recount(&tree, IVec3::splat(0), IVec3::splat(63));
    assert_eq!(fullness.cells(), Fullness::build(&tree).cells());
}

/// `G` switches grab mode on and off, and switching it off lets go.
#[test]
fn g_toggles_grab_mode() {
    let (enabled, held) = toggle_grab(false);
    assert!(enabled);
    assert!(held.is_none());
    let (enabled, held) = toggle_grab(true);
    assert!(!enabled);
    assert!(held.is_none(), "leaving grab mode did not let go");
}

#[test]
fn the_left_mouse_picks_pulls_and_lets_go() {
    let (ids, id) = ([BodyId(1), BodyId(2)], BodyId(2));
    let up = Buttons { pressed: false, down: false, released: false };
    let press = Buttons { pressed: true, down: true, released: false };
    let hold = Buttons { pressed: false, down: true, released: false };
    let release = Buttons { pressed: false, down: false, released: true };
    assert_eq!(grab_frame(true, press, None, &ids, true), (None, GrabAction::Pick));
    assert_eq!(grab_frame(true, hold, Some(id), &ids, true), (Some(id), GrabAction::Pull));
    assert_eq!(grab_frame(true, hold, Some(id), &ids, false), (Some(id), GrabAction::Idle));
    assert_eq!(grab_frame(true, release, Some(id), &ids, true), (None, GrabAction::Idle));
    assert_eq!(grab_frame(true, up, Some(id), &ids, true), (Some(id), GrabAction::Idle));
    // A held body that was erased away is no longer held.
    assert_eq!(grab_frame(true, hold, Some(BodyId(7)), &ids, true), (None, GrabAction::Idle));
    assert_eq!(grab_frame(false, press, Some(id), &ids, true), (Some(id), GrabAction::Idle));
}

#[test]
fn a_stroke_edits_what_it_lands_on() {
    let brush = MaterialId(1);
    assert_eq!(stroke_material(true, false, false, brush), Some(brush));
    assert_eq!(stroke_material(true, false, true, brush), None, "grab mode painted");
    assert_eq!(stroke_material(true, true, true, brush), Some(MaterialId::empty()));
    assert_eq!(stroke_material(false, false, false, brush), None);
    assert_eq!(stroke(Target::World, MaterialId::empty()), Stroke::EraseAndDetach);
    assert_eq!(stroke(Target::World, brush), Stroke::Paint);
    assert_eq!(stroke(Target::Body(3), brush), Stroke::Sculpt(3));
}

#[test]
fn the_scenes_hold_what_they_say() {
    let (tree, materials) = demo_scene();
    assert_eq!(materials.len(), 5);
    assert_eq!(tree.get(UVec3::new(0, 0, 0)), MaterialId(1));
    assert_eq!(tree.get(UVec3::new(8, 5, 0)), MaterialId(3));
    assert_eq!(tree.get(UVec3::new(40, 5, 40)), MaterialId(4));
    assert_eq!(tree.get(UVec3::new(28, 25, 28)), MaterialId(2));
    assert!(tree.get(UVec3::new(32, 18, 32)).is_empty(), "the ball was not carved");
    assert!(tree.get(UVec3::new(28, 26, 28)).is_empty());
    assert_eq!(demo_cube().voxels().len(), 216);
    assert_eq!(brick(UVec3::new(8, 12, 1)).voxels().len(), 96);
    let world = joint_world();
    assert_eq!(world.get(UVec3::new(4, 44, 44)), MaterialId(1));
    assert!(world.get(UVec3::new(30, 43, 44)).is_empty());
}

#[test]
fn number_keys_choose_scenes() {
    assert_eq!(SceneKind::of_keys(true, true), Some(SceneKind::Demo));
    assert_eq!(SceneKind::of_keys(false, true), Some(SceneKind::Joints));
    assert_eq!(SceneKind::of_keys(false, false), None);
    assert_eq!(SceneKind::Demo.name(), "demo");
    assert_eq!(SceneKind::Joints.name(), "joints");
}
