//! Per-voxel normals, generated from neighbour occupancy rather than stored.
//!
//! Storing normals in voxel data would make every fill, copy and delete
//! responsible for fixing up its neighbours.

use crate::address::{IVec3, UVec3};
use crate::contree::Contree;
use crate::physics::classify::{beside, is_solid, solid_at};
use vstd::prelude::*;

verus! {

/// How a voxel is exposed along an axis: one towards each open side.
pub open spec fn exposed_along(tree: Contree, p: IVec3, axis: int) -> int {
    (if is_solid(tree, beside(p, axis, 1)) {
        0int
    } else {
        1
    }) - (if is_solid(tree, beside(p, axis, -1)) {
        0int
    } else {
        1
    })
}

/// Whether a normal's part along an axis points from the solid side to the open one:
/// up where only the upper neighbour is empty, down where only the lower one is, and
/// neither way where both are alike.
pub open spec fn points_where_open(part: i32, upper: bool, lower: bool) -> bool {
    &&& part == 1 <==> !upper && lower
    &&& part == -1 <==> upper && !lower
    &&& part == 0 <==> upper == lower
}

/// The sum of the directions in which a voxel is exposed, which points where its
/// surface normal does. Outside the volume is empty. Zero carries no
/// information, which happens for isolated and fully buried voxels and for slabs
/// one voxel thick.
pub fn implicit_normal(volume: &Contree, voxel: UVec3) -> (sum: IVec3)
    requires
        volume.readable(),
        voxel.within(volume.side()),
    ensures
        ({
            let p = IVec3 { x: voxel.x as i32, y: voxel.y as i32, z: voxel.z as i32 };
            &&& sum.x == exposed_along(*volume, p, 0)
            &&& sum.y == exposed_along(*volume, p, 1)
            &&& sum.z == exposed_along(*volume, p, 2)
            &&& points_where_open(
                sum.x,
                is_solid(*volume, IVec3 { x: (p.x + 1) as i32, ..p }),
                is_solid(*volume, IVec3 { x: (p.x - 1) as i32, ..p }),
            )
            &&& points_where_open(
                sum.y,
                is_solid(*volume, IVec3 { y: (p.y + 1) as i32, ..p }),
                is_solid(*volume, IVec3 { y: (p.y - 1) as i32, ..p }),
            )
            &&& points_where_open(
                sum.z,
                is_solid(*volume, IVec3 { z: (p.z + 1) as i32, ..p }),
                is_solid(*volume, IVec3 { z: (p.z - 1) as i32, ..p }),
            )
        }),
{
    proof {
        crate::dense::lemma_extent_levels(volume.height());
        if volume.height() < 14 {
            crate::dense::lemma_extent_strict(volume.height(), 14);
        }
    }
    let x = voxel.x as i32;
    let y = voxel.y as i32;
    let z = voxel.z as i32;
    IVec3::new(
        open_weight(volume, IVec3::new(x + 1, y, z)) - open_weight(volume, IVec3::new(x - 1, y, z)),
        open_weight(volume, IVec3::new(x, y + 1, z)) - open_weight(volume, IVec3::new(x, y - 1, z)),
        open_weight(volume, IVec3::new(x, y, z + 1)) - open_weight(volume, IVec3::new(x, y, z - 1)),
    )
}

/// One for an open neighbour, nothing for a solid one.
fn open_weight(volume: &Contree, p: IVec3) -> (weight: i32)
    requires
        volume.readable(),
    ensures
        weight == if is_solid(*volume, p) {
            0int
        } else {
            1
        },
{
    if solid_at(volume, p) {
        0
    } else {
        1
    }
}

/// A normal points out of the solid along every axis: away from the one solid
/// neighbour, and nowhere where both sides are alike.
pub proof fn law_a_normal_points_away_from_the_solid(tree: Contree, p: IVec3)
    ensures
        exposed_along(tree, p, 0) == 1 <==> !is_solid(
            tree,
            IVec3 { x: (p.x + 1) as i32, y: p.y, z: p.z },
        ) && is_solid(tree, IVec3 { x: (p.x - 1) as i32, y: p.y, z: p.z }),
        exposed_along(tree, p, 0) == -1 <==> is_solid(
            tree,
            IVec3 { x: (p.x + 1) as i32, y: p.y, z: p.z },
        ) && !is_solid(tree, IVec3 { x: (p.x - 1) as i32, y: p.y, z: p.z }),
        exposed_along(tree, p, 1) == 1 <==> !is_solid(
            tree,
            IVec3 { x: p.x, y: (p.y + 1) as i32, z: p.z },
        ) && is_solid(tree, IVec3 { x: p.x, y: (p.y - 1) as i32, z: p.z }),
        exposed_along(tree, p, 1) == -1 <==> is_solid(
            tree,
            IVec3 { x: p.x, y: (p.y + 1) as i32, z: p.z },
        ) && !is_solid(tree, IVec3 { x: p.x, y: (p.y - 1) as i32, z: p.z }),
        exposed_along(tree, p, 2) == 1 <==> !is_solid(
            tree,
            IVec3 { x: p.x, y: p.y, z: (p.z + 1) as i32 },
        ) && is_solid(tree, IVec3 { x: p.x, y: p.y, z: (p.z - 1) as i32 }),
        exposed_along(tree, p, 2) == -1 <==> is_solid(
            tree,
            IVec3 { x: p.x, y: p.y, z: (p.z + 1) as i32 },
        ) && !is_solid(tree, IVec3 { x: p.x, y: p.y, z: (p.z - 1) as i32 }),
        -1 <= exposed_along(tree, p, 0) <= 1,
        -1 <= exposed_along(tree, p, 1) <= 1,
        -1 <= exposed_along(tree, p, 2) <= 1,
{
}

} // verus!
