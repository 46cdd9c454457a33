//! Joints: two bodies, or a body and the world, held together.

use crate::address::IVec3;
use crate::body::{position_of, stands_at, BodyId};
use crate::contree::Contree;
use crate::physics::classify::{is_solid, solid_at};
use vstd::prelude::*;

verus! {

/// What a joint joins: body `a` and body `b`, or the world when `b` is `None`.
#[derive(Clone, Copy, Debug, PartialEq, Eq, Structural)]
pub struct JointEnds {
    pub a: BodyId,
    pub b: Option<BodyId>,
}

/// Whether a body other than `a` holds the voxel a joint is fastened to, in the
/// same place.
pub open spec fn takes_over(
    a: BodyId,
    voxel: IVec3,
    ids: Seq<BodyId>,
    volumes: Seq<&Contree>,
    same_place: Seq<bool>,
    k: int,
) -> bool {
    &&& 0 <= k < ids.len()
    &&& ids[k] != a
    &&& is_solid(*volumes[k], voxel)
    &&& same_place[k]
}

/// Whether a joint's bodies are both still there.
pub open spec fn ends_present(joint: JointEnds, ids: Seq<BodyId>) -> bool {
    &&& ids.contains(joint.a)
    &&& joint.b matches Some(b) ==> ids.contains(b)
}

/// What a joint does with the two anchors.
#[derive(Clone, Copy, Debug, PartialEq, Eq, Structural)]
pub enum LinearPart {
    /// Nothing.
    Free,
    /// They stay together.
    Point,
    /// The first stays on the line through the second, along the axis.
    Line,
    /// They stay at most so far apart: a rope, which pulls and never pushes.
    Distance,
}

/// What a joint does with the two bodies' orientations.
#[derive(Clone, Copy, Debug, PartialEq, Eq, Structural)]
pub enum AngularPart {
    /// Nothing.
    Free,
    /// They keep the relative orientation they had when joined.
    Locked,
    /// They turn relative to each other only about the axis.
    Axis,
    /// Their axes stay close to each other; twist is free.
    Cone,
}

/// Whether a joint has a single motion for a motor to drive: along its line, or
/// about its axis. With neither there is none, and with both there are two.
pub fn takes_motor(linear: LinearPart, angular: AngularPart) -> (r: bool)
    ensures
        r == ((linear == LinearPart::Line) != (angular == AngularPart::Axis)),
        linear == LinearPart::Line && angular != AngularPart::Axis ==> r,
        linear != LinearPart::Line && angular == AngularPart::Axis ==> r,
        linear == LinearPart::Line && angular == AngularPart::Axis ==> !r,
        linear != LinearPart::Line && angular != AngularPart::Axis ==> !r,
{
    let line = match linear {
        LinearPart::Line => true,
        _ => false,
    };
    let axis = match angular {
        AngularPart::Axis => true,
        _ => false,
    };
    line != axis
}

/// Whether the angular part is solved before the linear one. Rows that resist only
/// one way come before equalities, so that the hard constraints have the last word:
/// a cone before a point, a rope before a lock.
pub fn angular_first(linear: LinearPart, angular: AngularPart) -> (r: bool)
    ensures
        r == (angular == AngularPart::Cone && linear != LinearPart::Distance),
        r ==> angular == AngularPart::Cone,
        linear == LinearPart::Distance ==> !r,
        angular == AngularPart::Cone && !r ==> linear == LinearPart::Distance,
{
    match (linear, angular) {
        (LinearPart::Distance, _) => false,
        (_, AngularPart::Cone) => true,
        _ => false,
    }
}

/// Whether a linear part acts on the second body at the first body's anchor. A
/// line's offset is measured there, and pushing the second body anywhere else would
/// twist the pair.
pub fn acts_at_first_anchor(linear: LinearPart) -> (r: bool)
    ensures
        r == (linear == LinearPart::Line),
{
    match linear {
        LinearPart::Line => true,
        _ => false,
    }
}

/// The directions a joint's friction resists.
#[derive(Clone, Copy, Debug, PartialEq, Eq, Structural)]
pub enum Rows {
    /// None of them.
    Nothing,
    /// Every one.
    All,
    /// The one along the line, or about the axis.
    Along,
}

/// What friction acts on: the motion the joint leaves free. A motor replaces
/// friction on the motion it drives.
pub fn friction_rows(linear: LinearPart, angular: AngularPart, driven: bool) -> (rows: (Rows, Rows))
    ensures
        rows.0 == match linear {
            LinearPart::Free => Rows::All,
            LinearPart::Distance => Rows::All,
            LinearPart::Line => if driven {
                Rows::Nothing
            } else {
                Rows::Along
            },
            LinearPart::Point => Rows::Nothing,
        },
        rows.1 == match angular {
            AngularPart::Free => Rows::All,
            AngularPart::Cone => Rows::All,
            AngularPart::Axis => if driven {
                Rows::Nothing
            } else {
                Rows::Along
            },
            AngularPart::Locked => Rows::Nothing,
        },
        linear == LinearPart::Point <==> rows.0 == Rows::Nothing && !(driven && linear
            == LinearPart::Line),
        angular == AngularPart::Locked <==> rows.1 == Rows::Nothing && !(driven && angular
            == AngularPart::Axis),
        rows.0 == Rows::Along <==> linear == LinearPart::Line && !driven,
        rows.1 == Rows::Along <==> angular == AngularPart::Axis && !driven,
{
    let along = if driven {
        Rows::Nothing
    } else {
        Rows::Along
    };
    let first = match linear {
        LinearPart::Free | LinearPart::Distance => Rows::All,
        LinearPart::Line => along,
        LinearPart::Point => Rows::Nothing,
    };
    let second = match angular {
        AngularPart::Free | AngularPart::Cone => Rows::All,
        AngularPart::Axis => along,
        AngularPart::Locked => Rows::Nothing,
    };
    (first, second)
}

/// After an edit, which body a joint's first end is fastened to: whichever piece
/// now holds its pivot. `None` when the pivot, the first body or the second body is
/// gone, and the joint with it.
///
/// The first body's anchor sits inside `voxel`, the voxel that was clicked, so "the
/// piece that holds the pivot" is the one holding that voxel. A split keeps volume
/// coordinates, since every piece is built in the parent's frame, so the voxel has
/// the same coordinates in the piece; `same_place` tells of each body whether it
/// also puts the anchor where the first body does in the world, which rules out an
/// unrelated body that happens to have a voxel there. The second body was fastened
/// wherever it was clicked, which need not be inside it, so it stays with whichever
/// piece keeps its identity.
pub fn follow(
    joint: JointEnds,
    voxel: IVec3,
    ids: &[BodyId],
    volumes: &[&Contree],
    same_place: &[bool],
) -> (held: Option<BodyId>)
    requires
        volumes@.len() == ids@.len(),
        same_place@.len() == ids@.len(),
        forall|k: int| 0 <= k < volumes@.len() ==> (#[trigger] volumes@[k]).readable(),
    ensures
        !ends_present(joint, ids@) ==> held is None,
        held matches Some(id) ==> {
            &&& exists|i: int| 0 <= i < ids@.len() && #[trigger] ids@[i] == joint.a
            &&& joint.b matches Some(b) ==> exists|i: int|
                0 <= i < ids@.len() && #[trigger] ids@[i] == b
            &&& exists|k: int|
                0 <= k < ids@.len() && #[trigger] ids@[k] == id && is_solid(*volumes@[k], voxel)
                    && (id == joint.a || same_place@[k])
        },
        held is None && (exists|i: int| 0 <= i < ids@.len() && #[trigger] ids@[i] == joint.a) && (
        joint.b is None || exists|i: int|
            0 <= i < ids@.len() && #[trigger] ids@[i] == joint.b->0) ==> forall|k: int|
            0 <= k < ids@.len() && #[trigger] ids@[k] != joint.a && same_place@[k]
                ==> !is_solid(*volumes@[k], voxel),
        ends_present(joint, ids@) ==> exists|i: int| #[trigger]
            stands_at(ids@, joint.a, i) && if is_solid(*volumes@[i], voxel) {
                held == Some(joint.a)
            } else {
                match held {
                    Some(id) => exists|k: int| #[trigger]
                        takes_over(joint.a, voxel, ids@, volumes@, same_place@, k) && ids@[k] == id
                            && forall|j: int|
                            0 <= j < k ==> !#[trigger] takes_over(
                                joint.a,
                                voxel,
                                ids@,
                                volumes@,
                                same_place@,
                                j,
                            ),
                    None => forall|k: int|
                        !#[trigger] takes_over(joint.a, voxel, ids@, volumes@, same_place@, k),
                }
            },
{
    if let Some(b) = joint.b {
        if position_of(ids, b).is_none() {
            return None;
        }
    }
    let at = match position_of(ids, joint.a) {
        Some(i) => i,
        None => return None,
    };
    proof {
        assert(ids@.contains(joint.a));
        if joint.b is Some {
            assert(ids@.contains(joint.b->0));
        }
        assert(volumes@[at as int].readable());
    }
    if solid_at(volumes[at], voxel) {
        assert(ids@[at as int] == joint.a);
        return Some(joint.a);
    }
    for k in 0..ids.len()
        invariant
            volumes@.len() == ids@.len(),
            same_place@.len() == ids@.len(),
            forall|k: int| 0 <= k < volumes@.len() ==> (#[trigger] volumes@[k]).readable(),
            stands_at(ids@, joint.a, at as int),
            !is_solid(*volumes@[at as int], voxel),
            ends_present(joint, ids@),
            forall|j: int|
                0 <= j < k ==> !#[trigger] takes_over(
                    joint.a,
                    voxel,
                    ids@,
                    volumes@,
                    same_place@,
                    j,
                ),
    {
        proof {
            assert(volumes@[k as int].readable());
        }
        if ids[k].0 != joint.a.0 && solid_at(volumes[k], voxel) && same_place[k] {
            assert(takes_over(joint.a, voxel, ids@, volumes@, same_place@, k as int));
            assert(ids@[at as int] == joint.a);
            return Some(ids[k]);
        }
    }
    proof {
        assert forall|k: int|
            0 <= k < ids@.len() && #[trigger] ids@[k] != joint.a
                && same_place@[k] implies !is_solid(*volumes@[k], voxel) by {
            assert(!takes_over(joint.a, voxel, ids@, volumes@, same_place@, k));
        }
    }
    None
}

/// A joint passes to another body only where that body is solid at the pivot's voxel
/// and puts it in the same place, and passes to the first that is.
pub proof fn law_a_joint_passes_to_what_holds_its_pivot(
    a: BodyId,
    voxel: IVec3,
    ids: Seq<BodyId>,
    volumes: Seq<&Contree>,
    same_place: Seq<bool>,
    k: int,
)
    ensures
        takes_over(a, voxel, ids, volumes, same_place, k) <==> {
            &&& 0 <= k < ids.len()
            &&& ids[k] != a
            &&& same_place[k]
            &&& 0 <= voxel.x < volumes[k].side()
            &&& 0 <= voxel.y < volumes[k].side()
            &&& 0 <= voxel.z < volumes[k].side()
            &&& volumes[k].at(
                crate::address::UVec3 {
                    x: voxel.x as u32,
                    y: voxel.y as u32,
                    z: voxel.z as u32,
                },
            ).0 != 0
        },
{
}

/// A joint is gone as soon as one of the bodies it joins is.
pub proof fn law_a_joint_needs_both_its_bodies(joint: JointEnds, ids: Seq<BodyId>)
    ensures
        ends_present(joint, ids) <==> {
            &&& exists|i: int| 0 <= i < ids.len() && #[trigger] ids[i] == joint.a
            &&& joint.b is None || exists|i: int| 0 <= i < ids.len() && #[trigger] ids[i] == joint.b->0
        },
{
}

} // verus!
