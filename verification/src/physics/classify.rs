//! Which voxels of a volume can be touched first, and in what shape.
//!
//! A voxel is labelled by how many axes it has solid neighbours on both sides.
//! Only corners and edges ever need testing against another volume. A face voxel
//! is touched only where a corner of the other volume reaches it, and an interior
//! voxel never is.

use crate::address::{IVec3, UVec3};
use crate::contree::Contree;
use crate::material::MaterialId;
use vstd::prelude::*;

verus! {

/// A solid voxel's collision shape: a cube rounded at its corners and edges,
/// full across its faces.
#[derive(Clone, Copy, Debug, PartialEq, Eq, Structural)]
pub enum Shape {
    /// Solid on both sides along no axis: a sphere of radius 0.5.
    Corner,
    /// Along exactly the named axis: a cylinder of radius 0.5 along it.
    Edge(usize),
    /// Along two axes: flat across `axis`, on whichever sides are open.
    Face { axis: usize, open_plus: bool, open_minus: bool },
    /// Along all three: never touched first.
    Interior,
}

/// Whether a position is a solid voxel of a tree. Outside the volume is empty.
pub open spec fn is_solid(tree: Contree, p: IVec3) -> bool {
    &&& 0 <= p.x < tree.side()
    &&& 0 <= p.y < tree.side()
    &&& 0 <= p.z < tree.side()
    &&& tree.at(UVec3 { x: p.x as u32, y: p.y as u32, z: p.z as u32 }) != MaterialId(0)
}

/// The solid voxels of a tree.
pub open spec fn solid_in_volume(tree: Contree) -> spec_fn(IVec3) -> bool {
    |p: IVec3| is_solid(tree, p)
}

/// Whether `p` is a solid voxel of `tree`. Outside the volume is empty.
pub fn solid_at(tree: &Contree, p: IVec3) -> (solid: bool)
    requires
        tree.readable(),
    ensures
        solid == is_solid(*tree, p),
        solid <==> {
            &&& p.x >= 0 && p.y >= 0 && p.z >= 0
            &&& p.x < tree.side() && p.y < tree.side() && p.z < tree.side()
            &&& tree.at(UVec3 { x: p.x as u32, y: p.y as u32, z: p.z as u32 }).0 != 0
        },
{
    proof {
        crate::dense::lemma_extent_levels(tree.height());
        if tree.height() < 14 {
            crate::dense::lemma_extent_strict(tree.height(), 14);
        }
    }
    let n = tree.extent() as i32;
    if p.x < 0 || p.y < 0 || p.z < 0 || p.x >= n || p.y >= n || p.z >= n {
        return false;
    }
    !tree.get(UVec3::new(p.x as u32, p.y as u32, p.z as u32)).is_empty()
}

/// A step along an axis.
pub open spec fn beside(p: IVec3, axis: int, by: int) -> IVec3 {
    IVec3 {
        x: (if axis == 0 { p.x + by } else { p.x as int }) as i32,
        y: (if axis == 1 { p.y + by } else { p.y as int }) as i32,
        z: (if axis == 2 { p.z + by } else { p.z as int }) as i32,
    }
}

/// Whether a voxel is solid on both sides along an axis.
pub open spec fn enclosed(solid: spec_fn(IVec3) -> bool, p: IVec3, axis: int) -> bool {
    solid(beside(p, axis, 1)) && solid(beside(p, axis, -1))
}

/// The shape of a voxel, from its six neighbours.
pub open spec fn shape_of(solid: spec_fn(IVec3) -> bool, p: IVec3) -> Shape {
    let (x, y, z) = (enclosed(solid, p, 0), enclosed(solid, p, 1), enclosed(solid, p, 2));
    if x && y && z {
        Shape::Interior
    } else if !x && !y && !z {
        Shape::Corner
    } else if x && !y && !z {
        Shape::Edge(0)
    } else if !x && y && !z {
        Shape::Edge(1)
    } else if !x && !y && z {
        Shape::Edge(2)
    } else {
        let axis: int = if !x {
            0
        } else if !y {
            1
        } else {
            2
        };
        Shape::Face {
            axis: axis as usize,
            open_plus: !solid(beside(p, axis, 1)),
            open_minus: !solid(beside(p, axis, -1)),
        }
    }
}

/// Whether a closure answers as a function of position does.
pub open spec fn answers<F: Fn(IVec3) -> bool>(
    solid: F,
    says: spec_fn(IVec3) -> bool,
) -> bool {
    forall|q: IVec3, b: bool| #[trigger] call_ensures(solid, (q,), b) ==> b == says(q)
}

/// What a label says of the six neighbours, each told by whether it is solid: along
/// which axes both are, and on which sides of a face none is.
pub open spec fn told_by_neighbours(
    shape: Shape,
    plus_x: bool,
    minus_x: bool,
    plus_y: bool,
    minus_y: bool,
    plus_z: bool,
    minus_z: bool,
) -> bool {
    match shape {
        Shape::Interior => plus_x && minus_x && plus_y && minus_y && plus_z && minus_z,
        Shape::Corner => {
            &&& !plus_x || !minus_x
            &&& !plus_y || !minus_y
            &&& !plus_z || !minus_z
        },
        Shape::Edge(axis) => {
            &&& axis < 3
            &&& axis == 0 <==> plus_x && minus_x
            &&& axis == 1 <==> plus_y && minus_y
            &&& axis == 2 <==> plus_z && minus_z
        },
        Shape::Face { axis, open_plus, open_minus } => {
            &&& axis < 3
            &&& open_plus || open_minus
            &&& axis == 0 <==> !plus_x || !minus_x
            &&& axis == 1 <==> !plus_y || !minus_y
            &&& axis == 2 <==> !plus_z || !minus_z
            &&& axis == 0 ==> open_plus == !plus_x && open_minus == !minus_x
            &&& axis == 1 ==> open_plus == !plus_y && open_minus == !minus_y
            &&& axis == 2 ==> open_plus == !plus_z && open_minus == !minus_z
        },
    }
}

/// The shape of the solid voxel at `p`, from its six neighbours, as `solid` tells
/// of them.
pub fn classify<F: Fn(IVec3) -> bool>(solid: F, p: IVec3) -> (shape: Shape)
    requires
        i32::MIN < p.x < i32::MAX,
        i32::MIN < p.y < i32::MAX,
        i32::MIN < p.z < i32::MAX,
        forall|q: IVec3| call_requires(solid, (q,)),
    ensures
        forall|says: spec_fn(IVec3) -> bool| #[trigger]
            answers(solid, says) ==> shape == shape_of(says, p),
        forall|says: spec_fn(IVec3) -> bool| #[trigger]
            answers(solid, says) ==> told_by_neighbours(
                shape,
                says(IVec3 { x: (p.x + 1) as i32, y: p.y, z: p.z }),
                says(IVec3 { x: (p.x - 1) as i32, y: p.y, z: p.z }),
                says(IVec3 { x: p.x, y: (p.y + 1) as i32, z: p.z }),
                says(IVec3 { x: p.x, y: (p.y - 1) as i32, z: p.z }),
                says(IVec3 { x: p.x, y: p.y, z: (p.z + 1) as i32 }),
                says(IVec3 { x: p.x, y: p.y, z: (p.z - 1) as i32 }),
            ),
{
    let plus_x = solid(IVec3::new(p.x + 1, p.y, p.z));
    let minus_x = solid(IVec3::new(p.x - 1, p.y, p.z));
    let plus_y = solid(IVec3::new(p.x, p.y + 1, p.z));
    let minus_y = solid(IVec3::new(p.x, p.y - 1, p.z));
    let plus_z = solid(IVec3::new(p.x, p.y, p.z + 1));
    let minus_z = solid(IVec3::new(p.x, p.y, p.z - 1));
    assert forall|says: spec_fn(IVec3) -> bool| #[trigger] answers(solid, says) implies {
        &&& plus_x == says(beside(p, 0, 1)) && minus_x == says(beside(p, 0, -1))
        &&& plus_y == says(beside(p, 1, 1)) && minus_y == says(beside(p, 1, -1))
        &&& plus_z == says(beside(p, 2, 1)) && minus_z == says(beside(p, 2, -1))
    } by {}
    let x = plus_x && minus_x;
    let y = plus_y && minus_y;
    let z = plus_z && minus_z;
    if x && y && z {
        Shape::Interior
    } else if !x && !y && !z {
        Shape::Corner
    } else if x && !y && !z {
        Shape::Edge(0)
    } else if !x && y && !z {
        Shape::Edge(1)
    } else if !x && !y && z {
        Shape::Edge(2)
    } else if !x {
        Shape::Face { axis: 0, open_plus: !plus_x, open_minus: !minus_x }
    } else if !y {
        Shape::Face { axis: 1, open_plus: !plus_y, open_minus: !minus_y }
    } else {
        Shape::Face { axis: 2, open_plus: !plus_z, open_minus: !minus_z }
    }
}

/// A body's corner and edge voxels, the only ones tested against the world.
#[derive(Clone, Debug, Default)]
pub struct Features {
    pub corners: Vec<UVec3>,
    /// With the axis each edge runs along.
    pub edges: Vec<(UVec3, usize)>,
}

/// The shape of a voxel of a tree.
pub open spec fn voxel_shape(tree: Contree, p: UVec3) -> Shape {
    shape_of(
        solid_in_volume(tree),
        IVec3 { x: p.x as i32, y: p.y as i32, z: p.z as i32 },
    )
}

/// Those of the voxels that are corners, in order.
pub open spec fn corners_of(tree: Contree, voxels: Seq<(UVec3, MaterialId)>) -> Seq<UVec3>
    decreases voxels.len(),
{
    if voxels.len() == 0 {
        Seq::empty()
    } else {
        let p = voxels.last().0;
        let before = corners_of(tree, voxels.drop_last());
        if voxel_shape(tree, p) == Shape::Corner {
            before.push(p)
        } else {
            before
        }
    }
}

/// Those of the voxels that are edges, in order, each with its axis.
pub open spec fn edges_of(tree: Contree, voxels: Seq<(UVec3, MaterialId)>) -> Seq<(UVec3, usize)>
    decreases voxels.len(),
{
    if voxels.len() == 0 {
        Seq::empty()
    } else {
        let p = voxels.last().0;
        let before = edges_of(tree, voxels.drop_last());
        match voxel_shape(tree, p) {
            Shape::Edge(axis) => before.push((p, axis)),
            _ => before,
        }
    }
}

/// Classifies every one of `voxels`, which must be `tree`'s own.
pub fn features(tree: &Contree, voxels: &[(UVec3, MaterialId)]) -> (out: Features)
    requires
        tree.readable(),
        forall|k: int| 0 <= k < voxels@.len() ==> (#[trigger] voxels@[k]).0.within(tree.side()),
    ensures
        out.corners@ == corners_of(*tree, voxels@),
        out.edges@ == edges_of(*tree, voxels@),
{
    let mut out = Features { corners: Vec::new(), edges: Vec::new() };
    proof {
        crate::dense::lemma_extent_levels(tree.height());
        if tree.height() < 14 {
            crate::dense::lemma_extent_strict(tree.height(), 14);
        }
    }
    for k in 0..voxels.len()
        invariant
            tree.readable(),
            tree.side() <= 0x4000_0000,
            forall|k: int| 0 <= k < voxels@.len() ==> (#[trigger] voxels@[k]).0.within(tree.side()),
            out.corners@ == corners_of(*tree, voxels@.take(k as int)),
            out.edges@ == edges_of(*tree, voxels@.take(k as int)),
    {
        let (p, m) = voxels[k];
        proof {
            let entry = voxels@[k as int];
            let more = voxels@.take(k + 1);
            assert(more.drop_last() =~= voxels@.take(k as int));
            assert(more.last() == (p, m));
        }
        let solid = |q: IVec3| -> (b: bool)
            ensures
                b == is_solid(*tree, q),
            { solid_at(tree, q) };
        let shape = classify(solid, IVec3::new(p.x as i32, p.y as i32, p.z as i32));
        proof {
            assert(answers(solid, |q: IVec3| is_solid(*tree, q)));
        }
        match shape {
            Shape::Corner => {
                out.corners.push(p);
            },
            Shape::Edge(axis) => {
                out.edges.push((p, axis));
            },
            Shape::Face { .. } => {},
            Shape::Interior => {},
        }
    }
    assert(voxels@.take(voxels@.len() as int) =~= voxels@);
    out
}

/// Every voxel gets exactly one label: interior where it is enclosed along all
/// three axes, a face along two, an edge along one, and a corner along none.
pub proof fn law_labels_count_enclosed_axes(solid: spec_fn(IVec3) -> bool, p: IVec3)
    ensures
        ({
            let n = (if enclosed(solid, p, 0) { 1int } else { 0 }) + (if enclosed(solid, p, 1) {
                1int
            } else {
                0
            }) + (if enclosed(solid, p, 2) { 1int } else { 0 });
            &&& shape_of(solid, p) is Corner <==> n == 0
            &&& shape_of(solid, p) is Edge <==> n == 1
            &&& shape_of(solid, p) is Face <==> n == 2
            &&& shape_of(solid, p) is Interior <==> n == 3
            &&& shape_of(solid, p) matches Shape::Edge(axis) ==> axis < 3 && enclosed(
                solid,
                p,
                axis as int,
            )
            &&& shape_of(solid, p) matches Shape::Face { axis, open_plus, open_minus } ==> axis < 3
                && (open_plus || open_minus)
        }),
{
}

/// A face is flat across the one axis along which its voxel is not enclosed. It is
/// open upwards where the next voxel up that axis is empty, and downwards where the
/// next one down is.
pub proof fn law_a_face_is_open_where_its_neighbour_is_empty(
    solid: spec_fn(IVec3) -> bool,
    p: IVec3,
)
    ensures
        shape_of(solid, p) matches Shape::Face { axis, open_plus, open_minus } ==> {
            &&& axis == 0 || axis == 1 || axis == 2
            &&& axis == 0 ==> {
                &&& open_plus <==> !solid(IVec3 { x: (p.x + 1) as i32, y: p.y, z: p.z })
                &&& open_minus <==> !solid(IVec3 { x: (p.x - 1) as i32, y: p.y, z: p.z })
            }
            &&& axis == 1 ==> {
                &&& open_plus <==> !solid(IVec3 { x: p.x, y: (p.y + 1) as i32, z: p.z })
                &&& open_minus <==> !solid(IVec3 { x: p.x, y: (p.y - 1) as i32, z: p.z })
            }
            &&& axis == 2 ==> {
                &&& open_plus <==> !solid(IVec3 { x: p.x, y: p.y, z: (p.z + 1) as i32 })
                &&& open_minus <==> !solid(IVec3 { x: p.x, y: p.y, z: (p.z - 1) as i32 })
            }
            &&& axis != 0 ==> solid(IVec3 { x: (p.x + 1) as i32, y: p.y, z: p.z }) && solid(
                IVec3 { x: (p.x - 1) as i32, y: p.y, z: p.z },
            )
            &&& axis != 1 ==> solid(IVec3 { x: p.x, y: (p.y + 1) as i32, z: p.z }) && solid(
                IVec3 { x: p.x, y: (p.y - 1) as i32, z: p.z },
            )
            &&& axis != 2 ==> solid(IVec3 { x: p.x, y: p.y, z: (p.z + 1) as i32 }) && solid(
                IVec3 { x: p.x, y: p.y, z: (p.z - 1) as i32 },
            )
        },
{
}

/// An edge runs along the one axis along which its voxel is enclosed. A corner is
/// enclosed along none, and an interior voxel along all.
pub proof fn law_a_label_follows_from_the_neighbours(solid: spec_fn(IVec3) -> bool, p: IVec3)
    ensures
        ({
            let x = solid(IVec3 { x: (p.x + 1) as i32, y: p.y, z: p.z }) && solid(
                IVec3 { x: (p.x - 1) as i32, y: p.y, z: p.z },
            );
            let y = solid(IVec3 { x: p.x, y: (p.y + 1) as i32, z: p.z }) && solid(
                IVec3 { x: p.x, y: (p.y - 1) as i32, z: p.z },
            );
            let z = solid(IVec3 { x: p.x, y: p.y, z: (p.z + 1) as i32 }) && solid(
                IVec3 { x: p.x, y: p.y, z: (p.z - 1) as i32 },
            );
            &&& shape_of(solid, p) == Shape::Interior <==> x && y && z
            &&& shape_of(solid, p) == Shape::Corner <==> !x && !y && !z
            &&& shape_of(solid, p) == Shape::Edge(0) <==> x && !y && !z
            &&& shape_of(solid, p) == Shape::Edge(1) <==> !x && y && !z
            &&& shape_of(solid, p) == Shape::Edge(2) <==> !x && !y && z
            &&& shape_of(solid, p) is Face <==> {
                ||| x && y && !z
                ||| x && !y && z
                ||| !x && y && z
            }
        }),
{
}

/// Turning a volume upside down along an axis keeps every label, and swaps the two
/// sides of the faces across that axis.
pub proof fn law_a_mirrored_voxel_has_the_mirrored_label(
    solid: spec_fn(IVec3) -> bool,
    mirrored: spec_fn(IVec3) -> bool,
    p: IVec3,
    axis: usize,
)
    requires
        axis < 3,
        forall|dx: int, dy: int, dz: int|
            -1 <= dx <= 1 && -1 <= dy <= 1 && -1 <= dz <= 1 ==> #[trigger] mirrored(
                IVec3 { x: (p.x + dx) as i32, y: (p.y + dy) as i32, z: (p.z + dz) as i32 },
            ) == solid(
                IVec3 {
                    x: (if axis == 0 { p.x - dx } else { p.x + dx }) as i32,
                    y: (if axis == 1 { p.y - dy } else { p.y + dy }) as i32,
                    z: (if axis == 2 { p.z - dz } else { p.z + dz }) as i32,
                },
            ),
    ensures
        shape_of(mirrored, p) == match shape_of(solid, p) {
            Shape::Face { axis: across, open_plus, open_minus } => if across == axis {
                Shape::Face { axis: across, open_plus: open_minus, open_minus: open_plus }
            } else {
                shape_of(solid, p)
            },
            _ => shape_of(solid, p),
        },
{
    assert(mirrored(IVec3 { x: (p.x + 1) as i32, y: (p.y + 0) as i32, z: (p.z + 0) as i32 })
        == mirrored(beside(p, 0, 1)));
    assert(mirrored(IVec3 { x: (p.x + -1) as i32, y: (p.y + 0) as i32, z: (p.z + 0) as i32 })
        == mirrored(beside(p, 0, -1)));
    assert(mirrored(IVec3 { x: (p.x + 0) as i32, y: (p.y + 1) as i32, z: (p.z + 0) as i32 })
        == mirrored(beside(p, 1, 1)));
    assert(mirrored(IVec3 { x: (p.x + 0) as i32, y: (p.y + -1) as i32, z: (p.z + 0) as i32 })
        == mirrored(beside(p, 1, -1)));
    assert(mirrored(IVec3 { x: (p.x + 0) as i32, y: (p.y + 0) as i32, z: (p.z + 1) as i32 })
        == mirrored(beside(p, 2, 1)));
    assert(mirrored(IVec3 { x: (p.x + 0) as i32, y: (p.y + 0) as i32, z: (p.z + -1) as i32 })
        == mirrored(beside(p, 2, -1)));
}

/// A body's features are those of its voxels that are corners, and those that are
/// edges with the axis they run along, in the order of the voxels.
pub proof fn law_features_are_the_corners_and_the_edges(
    tree: Contree,
    voxels: Seq<(UVec3, MaterialId)>,
)
    ensures
        ({
            let shape = |v: (UVec3, MaterialId)|
                shape_of(
                    solid_in_volume(tree),
                    IVec3 { x: v.0.x as i32, y: v.0.y as i32, z: v.0.z as i32 },
                );
            &&& corners_of(tree, voxels) == voxels.filter(
                |v: (UVec3, MaterialId)| shape(v) is Corner,
            ).map_values(|v: (UVec3, MaterialId)| v.0)
            &&& edges_of(tree, voxels) == voxels.filter(
                |v: (UVec3, MaterialId)| shape(v) is Edge,
            ).map_values(|v: (UVec3, MaterialId)| (v.0, shape(v)->Edge_0))
        }),
    decreases voxels.len(),
{
    let shape = |v: (UVec3, MaterialId)|
        shape_of(
            solid_in_volume(tree),
            IVec3 { x: v.0.x as i32, y: v.0.y as i32, z: v.0.z as i32 },
        );
    let corner = |v: (UVec3, MaterialId)| shape(v) is Corner;
    let edge = |v: (UVec3, MaterialId)| shape(v) is Edge;
    let place = |v: (UVec3, MaterialId)| v.0;
    let run = |v: (UVec3, MaterialId)| (v.0, shape(v)->Edge_0);
    reveal(Seq::filter);
    if voxels.len() == 0 {
        assert(voxels.filter(corner).map_values(place) =~= Seq::empty());
        assert(voxels.filter(edge).map_values(run) =~= Seq::empty());
    } else {
        let rest = voxels.drop_last();
        let last = voxels.last();
        law_features_are_the_corners_and_the_edges(tree, rest);
        assert(rest.filter(corner).push(last).map_values(place) =~= rest.filter(corner).map_values(
            place,
        ).push(last.0));
        assert(rest.filter(edge).push(last).map_values(run) =~= rest.filter(edge).map_values(
            run,
        ).push(run(last)));
    }
}

} // verus!
