//! The worlds the scenes start with, and what they are made of.

use crate::address::UVec3;
use crate::contree::Contree;
use crate::dense::{is_extent, DenseVolume};
use crate::grid::cell_count;
use crate::material::{Material, MaterialId, MaterialTable, UNBREAKABLE};
use crate::tree::extent_of;
use vstd::prelude::*;

verus! {

/// Whether a voxel lies in a box, minimum inclusive and maximum exclusive.
pub open spec fn boxed(lo: UVec3, hi: UVec3, p: UVec3) -> bool {
    lo.x <= p.x < hi.x && lo.y <= p.y < hi.y && lo.z <= p.z < hi.z
}

/// Which scene is loaded.
#[derive(Clone, Copy, Debug, PartialEq, Eq, Structural)]
pub enum SceneKind {
    Demo,
    Joints,
}

impl SceneKind {
    /// `1` loads the demo scene and `2` the joint scene; pressing either again
    /// resets it. `None` where neither is pressed.
    pub fn of_keys(one: bool, two: bool) -> (kind: Option<SceneKind>)
        ensures
            kind == if one {
                Some(SceneKind::Demo)
            } else if two {
                Some(SceneKind::Joints)
            } else {
                None
            },
    {
        if one {
            Some(SceneKind::Demo)
        } else if two {
            Some(SceneKind::Joints)
        } else {
            None
        }
    }

    pub fn name(self) -> (name: &'static str)
        ensures
            name@ == match self {
                SceneKind::Demo => "demo"@,
                SceneKind::Joints => "joints"@,
            },
    {
        match self {
            SceneKind::Demo => "demo",
            SceneKind::Joints => "joints",
        }
    }
}

/// Fills a box of a volume with one material.
pub fn fill_box(dense: &mut DenseVolume, lo: UVec3, hi: UVec3, material: MaterialId)
    requires
        lo.x <= hi.x <= old(dense).side(),
        lo.y <= hi.y <= old(dense).side(),
        lo.z <= hi.z <= old(dense).side(),
    ensures
        final(dense).side() == old(dense).side(),
        forall|p: UVec3|
            p.within(old(dense).side() as int) ==> #[trigger] final(dense).at(p) == if boxed(
                lo,
                hi,
                p,
            ) {
                material
            } else {
                old(dense).at(p)
            },
        forall|p: UVec3|
            p.within(old(dense).side() as int) ==> {
                &&& lo.x <= p.x < hi.x && lo.y <= p.y < hi.y && lo.z <= p.z < hi.z
                    ==> #[trigger] final(dense).at(p) == material
                &&& p.x < lo.x || hi.x <= p.x || p.y < lo.y || hi.y <= p.y || p.z < lo.z || hi.z
                    <= p.z ==> final(dense).at(p) == old(dense).at(p)
            },
{
    let ghost was = *dense;
    for z in lo.z..hi.z
        invariant
            dense.side() == was.side(),
            lo.x <= hi.x <= was.side() && lo.y <= hi.y <= was.side(),
            hi.z <= was.side(),
            forall|p: UVec3|
                p.within(was.side() as int) ==> #[trigger] dense.at(p) == if boxed(lo, hi, p) && p.z
                    < z {
                    material
                } else {
                    was.at(p)
                },
    {
        for y in lo.y..hi.y
            invariant
                lo.z <= z < hi.z,
                dense.side() == was.side(),
                lo.x <= hi.x <= was.side() && lo.y <= hi.y <= was.side(),
                hi.z <= was.side(),
                forall|p: UVec3|
                    p.within(was.side() as int) ==> #[trigger] dense.at(p) == if boxed(lo, hi, p)
                        && (p.z < z || (p.z == z && p.y < y)) {
                        material
                    } else {
                        was.at(p)
                    },
        {
            for x in lo.x..hi.x
                invariant
                    lo.z <= z < hi.z,
                    lo.y <= y < hi.y,
                    dense.side() == was.side(),
                    lo.x <= hi.x <= was.side() && lo.y <= hi.y <= was.side(),
                    hi.z <= was.side(),
                    forall|p: UVec3|
                        p.within(was.side() as int) ==> #[trigger] dense.at(p) == if boxed(
                            lo,
                            hi,
                            p,
                        ) && (p.z < z || (p.z == z && (p.y < y || (p.y == y && p.x < x)))) {
                            material
                        } else {
                            was.at(p)
                        },
            {
                dense.set(UVec3::new(x, y, z), material);
            }
        }
    }
}

/// Whether a voxel's centre lies in the ball of a radius around a corner of the
/// grid: everything twice over, so that it stays whole.
pub open spec fn in_ball(centre: UVec3, radius: int, p: UVec3) -> bool {
    let (x, y, z) = (
        2 * p.x + 1 - 2 * centre.x,
        2 * p.y + 1 - 2 * centre.y,
        2 * p.z + 1 - 2 * centre.z,
    );
    x * x + y * y + z * z <= 4 * radius * radius
}

/// Carves a ball out of a volume.
pub fn carve_ball(dense: &mut DenseVolume, centre: UVec3, radius: u32)
    ensures
        final(dense).side() == old(dense).side(),
        forall|p: UVec3|
            p.within(old(dense).side() as int) ==> #[trigger] final(dense).at(p) == if in_ball(
                centre,
                radius as int,
                p,
            ) {
                MaterialId(0)
            } else {
                old(dense).at(p)
            },
        forall|p: UVec3|
            p.within(old(dense).side() as int) ==> {
                let (x, y, z) = (
                    2 * p.x + 1 - 2 * centre.x,
                    2 * p.y + 1 - 2 * centre.y,
                    2 * p.z + 1 - 2 * centre.z,
                );
                &&& x * x + y * y + z * z <= 4 * radius * radius ==> (#[trigger] final(dense).at(
                    p,
                )).0 == 0
                &&& x * x + y * y + z * z > 4 * radius * radius ==> final(dense).at(p) == old(
                    dense,
                ).at(p)
            },
{
    let ghost was = *dense;
    let n: u32 = dense.extent();
    let r: i128 = radius as i128;
    proof {
        lemma_square(r as int);
    }
    let limit: i128 = 4 * (r * r);
    assert(limit == 4 * radius * radius) by (nonlinear_arith)
        requires
            limit == 4 * (radius * radius),
    ;
    for z in 0..n
        invariant
            n == was.side(),
            limit == 4 * radius * radius,
            dense.side() == n,
            forall|p: UVec3|
                p.within(n as int) ==> #[trigger] dense.at(p) == if in_ball(centre, radius as int, p)
                    && p.z < z {
                    MaterialId(0)
                } else {
                    was.at(p)
                },
    {
        for y in 0..n
            invariant
                z < n,
                n == was.side(),
                limit == 4 * radius * radius,
                dense.side() == n,
                forall|p: UVec3|
                    p.within(n as int) ==> #[trigger] dense.at(p) == if in_ball(
                        centre,
                        radius as int,
                        p,
                    ) && (p.z < z || (p.z == z && p.y < y)) {
                        MaterialId(0)
                    } else {
                        was.at(p)
                    },
        {
            for x in 0..n
                invariant
                    z < n,
                    y < n,
                    n == was.side(),
                    limit == 4 * radius * radius,
                    dense.side() == n,
                    forall|p: UVec3|
                        p.within(n as int) ==> #[trigger] dense.at(p) == if in_ball(
                            centre,
                            radius as int,
                            p,
                        ) && (p.z < z || (p.z == z && (p.y < y || (p.y == y && p.x < x)))) {
                            MaterialId(0)
                        } else {
                            was.at(p)
                        },
            {
                let dx: i128 = 2 * (x as i128) + 1 - 2 * (centre.x as i128);
                let dy: i128 = 2 * (y as i128) + 1 - 2 * (centre.y as i128);
                let dz: i128 = 2 * (z as i128) + 1 - 2 * (centre.z as i128);
                proof {
                    lemma_square(dx as int);
                    lemma_square(dy as int);
                    lemma_square(dz as int);
                }
                let p = UVec3::new(x, y, z);
                if dx * dx + dy * dy + dz * dz <= limit {
                    assert(in_ball(centre, radius as int, p));
                    dense.set(p, MaterialId::empty());
                } else {
                    assert(!in_ball(centre, radius as int, p));
                }
            }
        }
    }
}

proof fn lemma_square(v: int)
    requires
        -0x2_0000_0000 <= v <= 0x2_0000_0000,
    ensures
        0 <= v * v <= 0x2_0000_0000 * 0x2_0000_0000,
{
    assert(0 <= v * v <= 0x2_0000_0000 * 0x2_0000_0000) by (nonlinear_arith)
        requires
            -0x2_0000_0000 <= v <= 0x2_0000_0000,
    ;
}

/// An empty volume of 64 voxels along each axis, or of 16.
fn blank(extent: u32) -> (dense: DenseVolume)
    requires
        extent == 16 || extent == 64,
    ensures
        dense.side() == extent,
        forall|p: UVec3| p.within(extent as int) ==> #[trigger] dense.at(p) == MaterialId(0),
{
    proof {
        reveal_with_fuel(extent_of, 4);
        assert(extent_of(1) == 16);
        assert(extent_of(2) == 64);
        assert(is_extent(extent as int));
        assert(cell_count(16) == 4096) by (nonlinear_arith);
        assert(cell_count(64) == 262144) by (nonlinear_arith);
    }
    DenseVolume::new(extent).unwrap()
}

/// What the demo world holds: a stone floor with an ice strip and a rubber patch in
/// its top layer, a brick column, and a ball carved out of the column.
pub open spec fn demo_at(p: UVec3) -> u8 {
    if in_ball(UVec3 { x: 32, y: 18, z: 32 }, 5, p) {
        0
    } else if 28 <= p.x < 36 && 6 <= p.y < 26 && 28 <= p.z < 36 {
        2
    } else if 40 <= p.x < 56 && p.y == 5 && 40 <= p.z < 56 {
        4
    } else if 8 <= p.x < 24 && p.y == 5 {
        3
    } else if p.y < 6 {
        1
    } else {
        0
    }
}

/// The demo world and the materials it is made of.
pub fn demo_scene() -> (scene: (Contree, MaterialTable))
    ensures
        scene.0.side() == 64,
        scene.0.sound(),
        scene.0.accounted(),
        scene.0.canonical(),
        scene.0.orderly(),
        forall|p: UVec3| p.within(64) ==> #[trigger] scene.0.at(p) == MaterialId(demo_at(p)),
        scene.1@ == palette_materials(),
        forall|p: UVec3|
            p.within(64) ==> {
                let m = (#[trigger] scene.0.at(p)).0;
                &&& p.y < 5 ==> m == 1
                &&& p.y == 5 && 8 <= p.x < 24 ==> m == 3
                &&& p.y == 5 && 40 <= p.x < 56 && 40 <= p.z < 56 ==> m == 4
                &&& p.y == 5 && !(8 <= p.x < 24) && !(40 <= p.x < 56 && 40 <= p.z < 56) ==> m == 1
                &&& p.y >= 6 && !(28 <= p.x < 36 && 28 <= p.z < 36) ==> m == 0
                &&& p.y >= 26 ==> m == 0
                &&& 6 <= p.y < 13 && 28 <= p.x < 36 && 28 <= p.z < 36 ==> m == 2
                &&& 23 <= p.y < 26 && 28 <= p.x < 36 && 28 <= p.z < 36 ==> m == 2
            },
{
    let mut dense = blank(64);
    fill_box(&mut dense, UVec3::new(0, 0, 0), UVec3::new(64, 6, 64), MaterialId(1));
    // A slippery strip and a bouncy patch in the floor's top layer, so a dropped
    // body shows friction and restitution without any editing.
    fill_box(&mut dense, UVec3::new(8, 5, 0), UVec3::new(24, 6, 64), MaterialId(3));
    fill_box(&mut dense, UVec3::new(40, 5, 40), UVec3::new(56, 6, 56), MaterialId(4));
    fill_box(&mut dense, UVec3::new(28, 6, 28), UVec3::new(36, 26, 36), MaterialId(2));
    carve_ball(&mut dense, UVec3::new(32, 18, 32), 5);
    proof {
        assert forall|p: UVec3| p.y < 13 || p.y >= 23 implies !#[trigger] in_ball(
            UVec3 { x: 32, y: 18, z: 32 },
            5,
            p,
        ) by {
            let (x, y, z) = (2 * p.x + 1 - 2 * 32, 2 * p.y + 1 - 2 * 18, 2 * p.z + 1 - 2 * 32);
            assert(x * x + y * y + z * z > 100) by (nonlinear_arith)
                requires
                    y <= -11 || y >= 11,
            ;
        }
    }
    (dense.into_contree(), palette())
}

/// Stone, brick, ice and rubber.
pub open spec fn palette_materials() -> Seq<Material> {
    seq![
        crate::material::empty_material(),
        Material { color: [140, 140, 150, 255], density: 2600, friction: 60, restitution: 5, strength: 45 },
        Material { color: [180, 90, 70, 255], density: 1900, friction: 70, restitution: 5, strength: 25 },
        Material { color: [170, 210, 235, 255], density: 900, friction: 4, restitution: 10, strength: 12 },
        Material { color: [40, 40, 45, 255], density: 1100, friction: 80, restitution: 80, strength: UNBREAKABLE },
    ]
}

/// Stone, brick, ice and rubber.
pub fn palette() -> (materials: MaterialTable)
    ensures
        materials.wf(),
        materials@ == palette_materials(),
{
    let mut materials = MaterialTable::new();
    let _stone = materials.push(
        Material { color: [140, 140, 150, 255], density: 2600, friction: 60, restitution: 5, strength: 45 },
    );
    let _brick = materials.push(
        Material { color: [180, 90, 70, 255], density: 1900, friction: 70, restitution: 5, strength: 25 },
    );
    let _ice = materials.push(
        Material { color: [170, 210, 235, 255], density: 900, friction: 4, restitution: 10, strength: 12 },
    );
    let _rubber = materials.push(
        Material { color: [40, 40, 45, 255], density: 1100, friction: 80, restitution: 80, strength: UNBREAKABLE },
    );
    assert(materials@ =~= palette_materials());
    materials
}

/// The volume of the demo body: a six-voxel cube of brick in the middle of a
/// 16-voxel volume.
///
/// Off the 4-voxel brick grid, so its bricks are partial and it owns real voxel
/// bytes rather than collapsing to uniform nodes.
pub fn demo_cube() -> (tree: Contree)
    ensures
        tree.side() == 16,
        tree.sound(),
        tree.accounted(),
        tree.canonical(),
        tree.orderly(),
        forall|p: UVec3|
            p.within(16) ==> #[trigger] tree.at(p) == if 5 <= p.x < 11 && 5 <= p.y < 11 && 5 <= p.z
                < 11 {
                MaterialId(2)
            } else {
                MaterialId(0)
            },
{
    let mut dense = blank(16);
    fill_box(&mut dense, UVec3::new(5, 5, 5), UVec3::new(11, 11, 11), MaterialId(2));
    dense.into_contree()
}

/// A solid brick box of `size` voxels at the corner of a 16-voxel volume.
pub fn brick(size: UVec3) -> (tree: Contree)
    requires
        size.x <= 16,
        size.y <= 16,
        size.z <= 16,
    ensures
        tree.side() == 16,
        tree.sound(),
        tree.accounted(),
        tree.canonical(),
        tree.orderly(),
        forall|p: UVec3|
            p.within(16) ==> #[trigger] tree.at(p) == if p.x < size.x && p.y < size.y && p.z
                < size.z {
                MaterialId(2)
            } else {
                MaterialId(0)
            },
{
    let mut dense = blank(16);
    fill_box(&mut dense, UVec3::new(0, 0, 0), size, MaterialId(2));
    dense.into_contree()
}

/// What the joint world holds: a floor; a wall along the back, z 8..10; and a beam
/// across the front at height 44 on two posts, z 44..46.
pub open spec fn joint_world_at(p: UVec3) -> bool {
    ||| p.y < 6
    ||| 4 <= p.x < 60 && 6 <= p.y < 34 && 8 <= p.z < 10
    ||| (4 <= p.x < 6 || 58 <= p.x < 60) && 6 <= p.y < 44 && 44 <= p.z < 46
    ||| 4 <= p.x < 60 && 44 <= p.y < 46 && 44 <= p.z < 46
}

/// The world the joints are fastened to, all of stone.
pub fn joint_world() -> (tree: Contree)
    ensures
        tree.side() == 64,
        tree.sound(),
        tree.accounted(),
        tree.canonical(),
        tree.orderly(),
        forall|p: UVec3|
            p.within(64) ==> #[trigger] tree.at(p) == if joint_world_at(p) {
                MaterialId(1)
            } else {
                MaterialId(0)
            },
        forall|p: UVec3|
            p.within(64) ==> {
                let m = (#[trigger] tree.at(p)).0;
                &&& p.y < 6 ==> m == 1
                &&& 6 <= p.y < 34 && 8 <= p.z < 10 ==> (m == 1 <==> 4 <= p.x < 60)
                &&& 6 <= p.y < 44 && 44 <= p.z < 46 ==> (m == 1 <==> 4 <= p.x < 6 || 58 <= p.x
                    < 60)
                &&& 44 <= p.y < 46 && 44 <= p.z < 46 ==> (m == 1 <==> 4 <= p.x < 60)
                &&& p.y >= 6 && !(8 <= p.z < 10) && !(44 <= p.z < 46) ==> m == 0
                &&& p.y >= 34 && 8 <= p.z < 10 ==> m == 0
                &&& p.y >= 46 ==> m == 0
                &&& m <= 1
            },
{
    let mut dense = blank(64);
    fill_box(&mut dense, UVec3::new(0, 0, 0), UVec3::new(64, 6, 64), MaterialId(1));
    fill_box(&mut dense, UVec3::new(4, 6, 8), UVec3::new(60, 34, 10), MaterialId(1));
    fill_box(&mut dense, UVec3::new(4, 6, 44), UVec3::new(6, 44, 46), MaterialId(1));
    fill_box(&mut dense, UVec3::new(58, 6, 44), UVec3::new(60, 44, 46), MaterialId(1));
    fill_box(&mut dense, UVec3::new(4, 44, 44), UVec3::new(60, 46, 46), MaterialId(1));
    dense.into_contree()
}

} // verus!
