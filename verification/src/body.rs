//! Naming bodies, and bounding and growing what their volumes hold.

use crate::address::{IVec3, UVec3};
use crate::bits::bit;
use crate::contree::{level_extent, tidy, Contree};
use crate::distance_field::{aligned, lemma_child_aligned};
use crate::edit::{lemma_listed_place, listed};
use crate::material::MaterialId;
use crate::neat::{in_bytes, lemma_orderly_solid, orderly_at};
use crate::node::{lemma_slot_in_block, Node, BRICK_EDGE, CHILDREN};
use crate::plan::{
    child_x, child_y, child_z, fits, lemma_cell_inside, lemma_child_inside, stands_for,
};
use crate::sparse::{cell_at, in_cube, lemma_child_stands, lemma_place_in_child};
use crate::tree::{
    extent_of, kid, lemma_cell, lemma_extent, lemma_uniform, voxel_at, wf,
};
use crate::vox::{fits_size, fitting_extent};
use vstd::prelude::*;

verus! {

/// Which body a contact is against. The static world is [`BodyId::world`].
///
/// An identity rather than an index: bodies are removed from the middle of the
/// scene's list, and a warm-start impulse must not follow whichever body takes
/// the vacated slot.
#[derive(Clone, Copy, PartialEq, Eq, Structural, PartialOrd, Ord, Hash, Debug)]
pub struct BodyId(pub u64);

impl BodyId {
    /// The static world, which every body can touch and which never moves.
    pub fn world() -> (id: BodyId)
        ensures
            id == BodyId(0),
    {
        BodyId(0)
    }
}

/// Where a body first comes in a list.
pub open spec fn stands_at(ids: Seq<BodyId>, id: BodyId, i: int) -> bool {
    &&& 0 <= i < ids.len()
    &&& ids[i] == id
    &&& forall|j: int| 0 <= j < i ==> #[trigger] ids[j] != id
}

/// Where a body is in a list, if it is there: the first place that names it.
pub fn position_of(ids: &[BodyId], id: BodyId) -> (found: Option<usize>)
    ensures
        match found {
            Some(i) => stands_at(ids@, id, i as int),
            None => !ids@.contains(id),
        },
        found matches Some(i) ==> i < ids@.len() && ids@[i as int] == id && forall|j: int|
            0 <= j < i ==> #[trigger] ids@[j] != id,
        found is None ==> forall|j: int| 0 <= j < ids@.len() ==> #[trigger] ids@[j] != id,
{
    for i in 0..ids.len()
        invariant
            forall|j: int| 0 <= j < i ==> #[trigger] ids@[j] != id,
    {
        if ids[i].0 == id.0 {
            return Some(i);
        }
    }
    None
}

/// The corner of the brick a coordinate lies in.
pub open spec fn brick_corner(v: int) -> int {
    4 * (v / 4)
}

/// Whether a box, where there is one, holds the bricks of every voxel chosen:
/// minimum inclusive, maximum exclusive.
pub open spec fn encloses(chosen: spec_fn(UVec3) -> bool, found: Option<(UVec3, UVec3)>) -> bool {
    match found {
        None => forall|p: UVec3| !#[trigger] chosen(p),
        Some((lo, hi)) => forall|p: UVec3| #[trigger]
            chosen(p) ==> {
                &&& lo.x <= brick_corner(p.x as int) && brick_corner(p.x as int) + 4 <= hi.x
                &&& lo.y <= brick_corner(p.y as int) && brick_corner(p.y as int) + 4 <= hi.y
                &&& lo.z <= brick_corner(p.z as int) && brick_corner(p.z as int) + 4 <= hi.z
            },
    }
}

/// Whether each side of a box lies against the brick of a voxel chosen.
pub open spec fn snug(chosen: spec_fn(UVec3) -> bool, found: Option<(UVec3, UVec3)>) -> bool {
    match found {
        None => true,
        Some((lo, hi)) => {
            &&& exists|p: UVec3| #[trigger] chosen(p) && brick_corner(p.x as int) == lo.x
            &&& exists|p: UVec3| #[trigger] chosen(p) && brick_corner(p.y as int) == lo.y
            &&& exists|p: UVec3| #[trigger] chosen(p) && brick_corner(p.z as int) == lo.z
            &&& exists|p: UVec3| #[trigger] chosen(p) && brick_corner(p.x as int) + 4 == hi.x
            &&& exists|p: UVec3| #[trigger] chosen(p) && brick_corner(p.y as int) + 4 == hi.y
            &&& exists|p: UVec3| #[trigger] chosen(p) && brick_corner(p.z as int) + 4 == hi.z
        },
    }
}

/// A box that encloses the voxels chosen, and is the smallest that does where
/// `neat`.
spec fn bounds(
    chosen: spec_fn(UVec3) -> bool,
    found: Option<(UVec3, UVec3)>,
    neat: bool,
) -> bool {
    encloses(chosen, found) && (neat ==> snug(chosen, found))
}

/// The solid voxels of a cube.
pub open spec fn solid_of(
    f: spec_fn(int, int, int) -> u8,
    x: int,
    y: int,
    z: int,
    extent: int,
) -> spec_fn(UVec3) -> bool {
    |p: UVec3| in_cube(p, x, y, z, extent) && f(p.x as int, p.y as int, p.z as int) != 0
}

/// Either choice.
spec fn either(
    a: spec_fn(UVec3) -> bool,
    b: spec_fn(UVec3) -> bool,
) -> spec_fn(UVec3) -> bool {
    |p: UVec3| a(p) || b(p)
}

/// The box around two boxes bounds both choices.
proof fn lemma_bounds_join(
    a: spec_fn(UVec3) -> bool,
    b: spec_fn(UVec3) -> bool,
    lo: UVec3,
    hi: UVec3,
    lo2: UVec3,
    hi2: UVec3,
    lo3: UVec3,
    hi3: UVec3,
    neat: bool,
)
    requires
        bounds(a, Some((lo, hi)), neat),
        bounds(b, Some((lo2, hi2)), neat),
        lo3.x == vstd::math::min(lo.x as int, lo2.x as int),
        lo3.y == vstd::math::min(lo.y as int, lo2.y as int),
        lo3.z == vstd::math::min(lo.z as int, lo2.z as int),
        hi3.x == vstd::math::max(hi.x as int, hi2.x as int),
        hi3.y == vstd::math::max(hi.y as int, hi2.y as int),
        hi3.z == vstd::math::max(hi.z as int, hi2.z as int),
    ensures
        bounds(either(a, b), Some((lo3, hi3)), neat),
{
    if neat {
        lemma_snug_join(a, b, lo, hi, lo2, hi2, lo3, hi3);
    }
}

proof fn lemma_snug_join(
    a: spec_fn(UVec3) -> bool,
    b: spec_fn(UVec3) -> bool,
    lo: UVec3,
    hi: UVec3,
    lo2: UVec3,
    hi2: UVec3,
    lo3: UVec3,
    hi3: UVec3,
)
    requires
        snug(a, Some((lo, hi))),
        snug(b, Some((lo2, hi2))),
        lo3.x == vstd::math::min(lo.x as int, lo2.x as int),
        lo3.y == vstd::math::min(lo.y as int, lo2.y as int),
        lo3.z == vstd::math::min(lo.z as int, lo2.z as int),
        hi3.x == vstd::math::max(hi.x as int, hi2.x as int),
        hi3.y == vstd::math::max(hi.y as int, hi2.y as int),
        hi3.z == vstd::math::max(hi.z as int, hi2.z as int),
    ensures
        snug(either(a, b), Some((lo3, hi3))),
{
    let c = either(a, b);
    let x = choose|p: UVec3| #[trigger] a(p) && brick_corner(p.x as int) == lo.x;
    let y = choose|p: UVec3| #[trigger] a(p) && brick_corner(p.y as int) == lo.y;
    let z = choose|p: UVec3| #[trigger] a(p) && brick_corner(p.z as int) == lo.z;
    let u = choose|p: UVec3| #[trigger] a(p) && brick_corner(p.x as int) + 4 == hi.x;
    let v = choose|p: UVec3| #[trigger] a(p) && brick_corner(p.y as int) + 4 == hi.y;
    let w = choose|p: UVec3| #[trigger] a(p) && brick_corner(p.z as int) + 4 == hi.z;
    let x2 = choose|p: UVec3| #[trigger] b(p) && brick_corner(p.x as int) == lo2.x;
    let y2 = choose|p: UVec3| #[trigger] b(p) && brick_corner(p.y as int) == lo2.y;
    let z2 = choose|p: UVec3| #[trigger] b(p) && brick_corner(p.z as int) == lo2.z;
    let u2 = choose|p: UVec3| #[trigger] b(p) && brick_corner(p.x as int) + 4 == hi2.x;
    let v2 = choose|p: UVec3| #[trigger] b(p) && brick_corner(p.y as int) + 4 == hi2.y;
    let w2 = choose|p: UVec3| #[trigger] b(p) && brick_corner(p.z as int) + 4 == hi2.z;
    assert(c(x) && c(y) && c(z) && c(u) && c(v) && c(w));
    assert(c(x2) && c(y2) && c(z2) && c(u2) && c(v2) && c(w2));
}

/// The same choice has the same bounds.
proof fn lemma_bounds_same(
    a: spec_fn(UVec3) -> bool,
    b: spec_fn(UVec3) -> bool,
    found: Option<(UVec3, UVec3)>,
    neat: bool,
)
    requires
        bounds(a, found, neat),
        forall|p: UVec3| #[trigger] a(p) == b(p),
    ensures
        bounds(b, found, neat),
{
    assert(a =~= b);
}

/// Brick corners of an aligned cube.
proof fn lemma_cube_bricks(v: int, level: int)
    requires
        0 <= level,
        0 <= v,
        aligned(v, extent_of(level)),
    ensures
        v % 4 == 0,
        extent_of(level) % 4 == 0,
{
    lemma_extent(level);
    let e = extent_of(level);
    let r = extent_of(level - 1);
    vstd::arithmetic::div_mod::lemma_fundamental_div_mod(v, e);
    let q = v / e;
    assert(v == (r * q) * 4) by (nonlinear_arith)
        requires
            v == e * q,
            e == 4 * r,
    ;
}

/// The tightest box holding a volume's geometry, in its own voxel coordinates:
/// minimum inclusive, maximum exclusive. `None` for an empty volume.
///
/// Node-granular: it stops at the first node that is uniform or no larger than
/// a brick, so it can be up to one brick loose per side. That is conservative,
/// which is the only direction a cull may err in, and tight enough that a small
/// body is not bounded as its whole volume.
pub fn occupied_bounds(tree: &Contree) -> (found: Option<(UVec3, UVec3)>)
    requires
        tree.readable(),
    ensures
        encloses(solid_of(tree.field(), 0, 0, 0, tree.side()), found),
        tree.orderly() ==> snug(solid_of(tree.field(), 0, 0, 0, tree.side()), found),
{
    let ghost level = tree.height();
    let ghost none = |p: UVec3| false;
    proof {
        crate::dense::lemma_extent_levels(level);
        if level < 14 {
            crate::dense::lemma_extent_strict(level, 14);
        }
        assert(aligned(0, extent_of(level))) by {
            lemma_extent(level);
            vstd::arithmetic::div_mod::lemma_small_mod(0, extent_of(level) as nat);
        }
    }
    let found = grow_bounds(
        tree,
        tree.root(),
        tree.depth() - 1,
        UVec3::new(0, 0, 0),
        None,
        Ghost(tree.field()),
        Ghost(none),
        Ghost(tree.orderly()),
    );
    proof {
        lemma_bounds_same(
            either(none, solid_of(tree.field(), 0, 0, 0, tree.side())),
            solid_of(tree.field(), 0, 0, 0, tree.side()),
            found,
            tree.orderly(),
        );
    }
    found
}

fn grow_bounds(
    tree: &Contree,
    node: Node,
    level: u32,
    origin: UVec3,
    found: Option<(UVec3, UVec3)>,
    f: Ghost<spec_fn(int, int, int) -> u8>,
    seen: Ghost<spec_fn(UVec3) -> bool>,
    neat: Ghost<bool>,
) -> (grown: Option<(UVec3, UVec3)>)
    requires
        level <= 14,
        fits(tree.slots()),
        wf(tree.slots(), node, level as int),
        neat@ ==> orderly_at(tree.slots(), node, level as int),
        stands_for(
            f@,
            tree.slots(),
            node,
            level as int,
            origin.x as int,
            origin.y as int,
            origin.z as int,
        ),
        origin.x + extent_of(level as int) <= 0x4000_0000,
        origin.y + extent_of(level as int) <= 0x4000_0000,
        origin.z + extent_of(level as int) <= 0x4000_0000,
        aligned(origin.x as int, extent_of(level as int)),
        aligned(origin.y as int, extent_of(level as int)),
        aligned(origin.z as int, extent_of(level as int)),
        bounds(seen@, found, neat@),
    ensures
        bounds(
            either(
                seen@,
                solid_of(
                    f@,
                    origin.x as int,
                    origin.y as int,
                    origin.z as int,
                    extent_of(level as int),
                ),
            ),
            grown,
            neat@,
        ),
    decreases level,
{
    let ghost s = tree.slots();
    let ghost lv = level as int;
    let ghost (x, y, z) = (origin.x as int, origin.y as int, origin.z as int);
    let ghost here = solid_of(f@, x, y, z, extent_of(lv));
    proof {
        lemma_extent(lv);
    }
    if node.is_empty() {
        proof {
            assert forall|p: UVec3| #[trigger] seen@(p) == either(seen@, here)(p) by {
                if here(p) {
                    lemma_uniform(s, node, lv, p.x - x, p.y - y, p.z - z);
                    assert(voxel_at(s, node, lv, p.x - x, p.y - y, p.z - z) == f@(
                        x + (p.x - x),
                        y + (p.y - y),
                        z + (p.z - z),
                    ));
                }
            }
            lemma_bounds_same(seen@, either(seen@, here), found, neat@);
        }
        return found;
    }
    let extent = level_extent(level);
    // A brick-sized or uniform node takes its whole box. Level 0 is a brick, so
    // this also stops the walk before voxel children, which live in another
    // arena and have no node to recurse on.
    if level == 0 || !node.is_subdivided() {
        let end = UVec3::new(origin.x + extent, origin.y + extent, origin.z + extent);
        proof {
            lemma_cube_bricks(x, lv);
            lemma_cube_bricks(y, lv);
            lemma_cube_bricks(z, lv);
            assert(bounds(here, Some((origin, end)), neat@)) by {
                if neat@ && lv == 0 {
                    reveal_with_fuel(extent_of, 2);
                    let (dx, dy, dz) = lemma_orderly_solid(s, node, lv);
                    let p = UVec3 { x: (x + dx) as u32, y: (y + dy) as u32, z: (z + dz) as u32 };
                    assert(voxel_at(s, node, lv, dx, dy, dz) == f@(x + dx, y + dy, z + dz));
                    assert(here(p));
                } else if neat@ {
                    let e = extent_of(lv);
                    let last = UVec3 {
                        x: (x + e - 1) as u32,
                        y: (y + e - 1) as u32,
                        z: (z + e - 1) as u32,
                    };
                    lemma_uniform(s, node, lv, 0, 0, 0);
                    lemma_uniform(s, node, lv, e - 1, e - 1, e - 1);
                    assert(voxel_at(s, node, lv, 0, 0, 0) == f@(x + 0, y + 0, z + 0));
                    assert(voxel_at(s, node, lv, e - 1, e - 1, e - 1) == f@(
                        x + (e - 1),
                        y + (e - 1),
                        z + (e - 1),
                    ));
                    assert(here(origin));
                    assert(here(last));
                }
            }
        }
        return match found {
            None => {
                proof {
                    assert forall|p: UVec3| #[trigger] here(p) == either(seen@, here)(p) by {
                        assert(!seen@(p));
                    }
                    lemma_bounds_same(here, either(seen@, here), Some((origin, end)), neat@);
                }
                Some((origin, end))
            },
            Some((lo, hi)) => {
                let lo2 = lo.min(origin);
                let hi2 = hi.max(end);
                proof {
                    lemma_bounds_join(seen@, here, lo, hi, origin, end, lo2, hi2, neat@);
                }
                Some((lo2, hi2))
            },
        };
    }
    let step = level_extent(level - 1);
    let mut grown = found;
    let ghost mut so_far = seen@;
    for i in 0..CHILDREN
        invariant
            1 <= level <= 14,
            lv == level,
            s == tree.slots(),
            fits(s),
            wf(s, node, lv),
            neat@ ==> orderly_at(s, node, lv),
            node.mask != 0,
            stands_for(f@, s, node, lv, x, y, z),
            (x, y, z) == (origin.x as int, origin.y as int, origin.z as int),
            x + extent_of(lv) <= 0x4000_0000,
            y + extent_of(lv) <= 0x4000_0000,
            z + extent_of(lv) <= 0x4000_0000,
            aligned(x, extent_of(lv)),
            aligned(y, extent_of(lv)),
            aligned(z, extent_of(lv)),
            step == extent_of(lv - 1),
            step >= 4,
            extent_of(lv) == 4 * step,
            here == solid_of(f@, x, y, z, extent_of(lv)),
            bounds(so_far, grown, neat@),
            forall|p: UVec3|
                #[trigger] so_far(p) == (seen@(p) || (here(p) && cell_at(p, x, y, z, lv) < i)),
    {
        let ghost (cx, cy, cz) = (
            child_x(x, i as int, lv),
            child_y(y, i as int, lv),
            child_z(z, i as int, lv),
        );
        let ghost child = kid(s, node, i as int);
        let ghost part = solid_of(f@, cx, cy, cz, extent_of(lv - 1));
        proof {
            lemma_cell(i as int);
            lemma_child_inside(x, y, z, lv, i as int);
            lemma_cell_inside(i as int % 4, step as int);
            lemma_cell_inside((i as int / 4) % 4, step as int);
            lemma_cell_inside(i as int / 16, step as int);
            lemma_child_aligned(x, i as int % 4, step as int);
            lemma_child_aligned(y, (i as int / 4) % 4, step as int);
            lemma_child_aligned(z, i as int / 16, step as int);
            if bit(node.mask, i as int) {
                lemma_slot_in_block(node, i as int);
            }
            assert(wf(s, child, lv - 1));
            assert(neat@ ==> orderly_at(s, child, lv - 1)) by {
                if neat@ {
                    assert(tidy(s, child, lv - 1));
                    assert(in_bytes(s, child, lv - 1));
                }
            }
            lemma_child_stands(f@, s, node, lv, x, y, z, i as int);
            assert forall|p: UVec3| #[trigger] part(p) == (here(p) && cell_at(p, x, y, z, lv)
                == i) by {
                if in_cube(p, x, y, z, extent_of(lv)) {
                    lemma_place_in_child(p, x, y, z, lv);
                    assert(in_cube(p, cx, cy, cz, extent_of(lv - 1)) <==> i == cell_at(
                        p,
                        x,
                        y,
                        z,
                        lv,
                    ));
                }
            }
        }
        match node.child_slot(i) {
            Some(slot) => {
                let child_origin = UVec3::new(
                    origin.x + (i % BRICK_EDGE) * step,
                    origin.y + ((i / BRICK_EDGE) % BRICK_EDGE) * step,
                    origin.z + (i / (BRICK_EDGE * BRICK_EDGE)) * step,
                );
                grown = grow_bounds(
                    tree,
                    tree.arena().node(slot),
                    level - 1,
                    child_origin,
                    grown,
                    f,
                    Ghost(so_far),
                    neat,
                );
                proof {
                    so_far = either(so_far, part);
                }
            },
            None => {
                proof {
                    assert forall|p: UVec3| !#[trigger] part(p) by {
                        if in_cube(p, cx, cy, cz, extent_of(lv - 1)) {
                            lemma_uniform(s, child, lv - 1, p.x - cx, p.y - cy, p.z - cz);
                            assert(voxel_at(s, child, lv - 1, p.x - cx, p.y - cy, p.z - cz) == f@(
                                cx + (p.x - cx),
                                cy + (p.y - cy),
                                cz + (p.z - cz),
                            ));
                        }
                    }
                }
            },
        }
        proof {
            assert forall|p: UVec3|
                #[trigger] so_far(p) == (seen@(p) || (here(p) && cell_at(p, x, y, z, lv) < i
                    + 1)) by {
                assert(part(p) == (here(p) && cell_at(p, x, y, z, lv) == i));
            }
        }
    }
    proof {
        assert forall|p: UVec3| #[trigger] so_far(p) == either(seen@, here)(p) by {
            if here(p) {
                lemma_place_in_child(p, x, y, z, lv);
            }
        }
        lemma_bounds_same(so_far, either(seen@, here), grown, neat@);
    }
    grown
}

/// How far a box reaches below zero along an axis.
pub open spec fn below(v: int) -> int {
    if v < 0 {
        -v
    } else {
        0
    }
}

/// How far a volume's voxels move for a box that reaches below its corner.
pub open spec fn shift_for(lo: IVec3) -> UVec3 {
    UVec3 {
        x: below(lo.x as int) as u32,
        y: below(lo.y as int) as u32,
        z: below(lo.z as int) as u32,
    }
}

/// How long a volume has to be along one axis to hold what it holds and a box.
pub open spec fn needed_along(side: int, lo: int, hi: int) -> int {
    below(lo) + if hi > side {
        hi
    } else {
        side
    }
}

/// How long a volume has to be to hold what it holds and a box.
pub open spec fn needed_for(side: int, lo: IVec3, hi: IVec3) -> int {
    let x = needed_along(side, lo.x as int, hi.x as int);
    let y = needed_along(side, lo.y as int, hi.y as int);
    let z = needed_along(side, lo.z as int, hi.z as int);
    if x >= y && x >= z {
        x
    } else if y >= z {
        y
    } else {
        z
    }
}

/// What a volume holds once its voxels have moved.
pub open spec fn shifted(tree: Contree, shift: UVec3, p: UVec3) -> MaterialId {
    let q = UVec3 {
        x: (p.x - shift.x) as u32,
        y: (p.y - shift.y) as u32,
        z: (p.z - shift.z) as u32,
    };
    if shift.x <= p.x && shift.y <= p.y && shift.z <= p.z && q.within(tree.side()) {
        tree.at(q)
    } else {
        MaterialId(0)
    }
}

/// A list whose entries for a position agree says of it what they say.
proof fn lemma_listed_says(voxels: Seq<(UVec3, MaterialId)>, p: UVec3, k: int)
    requires
        0 <= k < voxels.len(),
        voxels[k].0 == p,
        forall|j: int|
            0 <= j < voxels.len() && (#[trigger] voxels[j]).0 == p ==> voxels[j].1 == voxels[k].1,
    ensures
        listed(voxels, p) == Some(voxels[k].1.0),
    decreases voxels.len(),
{
    if voxels.last().0 == p {
        assert(voxels[voxels.len() - 1].0 == p);
    } else {
        let rest = voxels.drop_last();
        assert forall|j: int|
            0 <= j < rest.len() && (#[trigger] rest[j]).0 == p implies rest[j].1 == rest[k].1 by {
            assert(voxels[j].0 == p);
        }
        lemma_listed_says(rest, p, k);
    }
}

/// The volume large enough for the box `lo` to `hi`, in volume coordinates, minimum
/// inclusive and maximum exclusive, and how far its voxels moved to make room below
/// its corner. `None` where the volume holds the box already, and where no volume
/// could.
pub fn grown_to_fit(tree: &Contree, lo: IVec3, hi: IVec3) -> (grown: Option<(Contree, UVec3)>)
    requires
        tree.readable(),
    ensures
        grown is None <==> needed_for(tree.side(), lo, hi) == tree.side() || needed_for(
            tree.side(),
            lo,
            hi,
        ) > 1024,
        grown matches Some((larger, shift)) ==> {
            &&& shift == shift_for(lo)
            &&& fits_size(larger.side(), needed_for(tree.side(), lo, hi))
            &&& larger.sound()
            &&& larger.canonical()
            &&& larger.orderly()
            &&& larger.accounted()
            &&& forall|p: UVec3|
                p.within(larger.side()) ==> #[trigger] larger.at(p) == shifted(*tree, shift, p)
        },
{
    proof {
        crate::dense::lemma_extent_levels(tree.height());
        if tree.height() < 14 {
            crate::dense::lemma_extent_strict(tree.height(), 14);
        }
    }
    let side: i64 = tree.extent() as i64;
    let x: i64 = reach_along(side, lo.x, hi.x);
    let y: i64 = reach_along(side, lo.y, hi.y);
    let z: i64 = reach_along(side, lo.z, hi.z);
    let mut needed: i64 = x;
    if y > needed {
        needed = y;
    }
    if z > needed {
        needed = z;
    }
    if needed == side || needed > 1024 {
        return None;
    }
    let extent = fitting_extent(needed as u32).unwrap();
    let shift = UVec3::new(drop_along(lo.x), drop_along(lo.y), drop_along(lo.z));
    let voxels = tree.voxels();
    let mut placed: Vec<(UVec3, MaterialId)> = Vec::new();
    for i in 0..voxels.len()
        invariant
            shift == shift_for(lo),
            side == tree.side(),
            shift.x + side <= x <= needed,
            shift.y + side <= y <= needed,
            shift.z + side <= z <= needed,
            needed <= extent <= 1024,
            forall|k: int|
                0 <= k < voxels@.len() ==> {
                    let (p, m) = #[trigger] voxels@[k];
                    p.within(tree.side()) && m == tree.at(p) && m != MaterialId(0)
                },
            placed@.len() == i,
            forall|k: int|
                0 <= k < i ==> {
                    &&& (#[trigger] placed@[k]).0.within(extent as int)
                    &&& placed@[k].0.x == voxels@[k].0.x + shift.x
                    &&& placed@[k].0.y == voxels@[k].0.y + shift.y
                    &&& placed@[k].0.z == voxels@[k].0.z + shift.z
                    &&& placed@[k].1 == voxels@[k].1
                },
    {
        let (p, m) = voxels[i];
        assert(voxels@[i as int] == (p, m));
        placed.push((UVec3::new(p.x + shift.x, p.y + shift.y, p.z + shift.z), m));
    }
    let larger = Contree::from_voxels(extent, &placed);
    proof {
        assert forall|p: UVec3| p.within(larger.side()) implies #[trigger] larger.at(p) == shifted(
            *tree,
            shift,
            p,
        ) by {
            let q = UVec3 {
                x: (p.x - shift.x) as u32,
                y: (p.y - shift.y) as u32,
                z: (p.z - shift.z) as u32,
            };
            if listed(placed@, p) is Some {
                let k = lemma_listed_place(placed@, p);
                assert(voxels@[k].0 == q);
                assert forall|j: int|
                    0 <= j < placed@.len() && (#[trigger] placed@[j]).0 == p implies placed@[j].1
                    == placed@[k].1 by {
                    assert(voxels@[j].0 == q);
                }
                lemma_listed_says(placed@, p, k);
            } else if shift.x <= p.x && shift.y <= p.y && shift.z <= p.z && q.within(tree.side())
                && tree.at(q) != MaterialId(0) {
                assert(voxels@.contains((q, tree.at(q))));
                let k = choose|k: int| 0 <= k < voxels@.len() && voxels@[k] == (q, tree.at(q));
                assert(placed@[k].0 == p);
                assert forall|j: int|
                    0 <= j < placed@.len() && (#[trigger] placed@[j]).0 == p implies placed@[j].1
                    == placed@[k].1 by {
                    assert(voxels@[j].0 == q);
                }
                lemma_listed_says(placed@, p, k);
            }
        }
    }
    Some((larger, shift))
}

/// How far a box reaches below zero along an axis.
fn drop_along(v: i32) -> (d: u32)
    ensures
        d == below(v as int),
{
    if v < 0 {
        (-(v as i64)) as u32
    } else {
        0
    }
}

/// How long a volume has to be along one axis.
fn reach_along(side: i64, lo: i32, hi: i32) -> (n: i64)
    requires
        0 <= side <= u32::MAX,
    ensures
        n == needed_along(side as int, lo as int, hi as int),
        n >= side + below(lo as int),
{
    let top: i64 = if hi as i64 > side {
        hi as i64
    } else {
        side
    };
    top + drop_along(lo) as i64
}

/// Growing loses no voxel and adds none: each is found where it was, moved, and the
/// box it grew for lies inside.
pub proof fn law_growing_keeps_every_voxel(
    tree: Contree,
    larger: Contree,
    lo: IVec3,
    hi: IVec3,
    p: UVec3,
)
    requires
        needed_for(tree.side(), lo, hi) <= larger.side() <= u32::MAX,
        forall|q: UVec3|
            q.within(larger.side()) ==> #[trigger] larger.at(q) == shifted(
                tree,
                shift_for(lo),
                q,
            ),
        p.within(tree.side()),
    ensures
        ({
            let shift = shift_for(lo);
            let q = UVec3 {
                x: (p.x + shift.x) as u32,
                y: (p.y + shift.y) as u32,
                z: (p.z + shift.z) as u32,
            };
            &&& q.within(larger.side())
            &&& larger.at(q) == tree.at(p)
            &&& 0 <= lo.x + shift.x && hi.x + shift.x <= larger.side()
            &&& 0 <= lo.y + shift.y && hi.y + shift.y <= larger.side()
            &&& 0 <= lo.z + shift.z && hi.z + shift.z <= larger.side()
        }),
{
    let shift = shift_for(lo);
    let q = UVec3 {
        x: (p.x + shift.x) as u32,
        y: (p.y + shift.y) as u32,
        z: (p.z + shift.z) as u32,
    };
    assert(q.within(larger.side()));
    assert(larger.at(q) == shifted(tree, shift, q));
}

/// A box around a volume's geometry holds every solid voxel, and there is none only where
/// there is no solid voxel.
pub proof fn law_bounds_hold_every_solid_voxel(tree: Contree, found: Option<(UVec3, UVec3)>, p: UVec3)
    requires
        encloses(solid_of(tree.field(), 0, 0, 0, tree.side()), found),
        p.x < tree.side() && p.y < tree.side() && p.z < tree.side(),
        tree.at(p).0 != 0,
    ensures
        found matches Some((lo, hi)) && {
            &&& lo.x <= p.x && p.x < hi.x
            &&& lo.y <= p.y && p.y < hi.y
            &&& lo.z <= p.z && p.z < hi.z
        },
{
    assert(solid_of(tree.field(), 0, 0, 0, tree.side())(p));
}

/// The brick a coordinate lies in holds it.
proof fn lemma_near_brick(v: int)
    requires
        v >= 0,
    ensures
        brick_corner(v) <= v < brick_corner(v) + 4,
        brick_corner(v) % 4 == 0,
        (brick_corner(v) + 4) % 4 == 0,
{
}

/// Along the first axis a solid voxel lies within a brick of either side of the box, whose
/// sides are those of bricks.
pub proof fn law_bounds_are_a_brick_loose_at_most_along_x(tree: Contree, lo: UVec3, hi: UVec3)
    requires
        snug(solid_of(tree.field(), 0, 0, 0, tree.side()), Some((lo, hi))),
    ensures
        lo.x % 4 == 0 && hi.x % 4 == 0,
        exists|p: UVec3| #[trigger] filled(tree, p) && lo.x <= p.x < lo.x + 4,
        exists|p: UVec3| #[trigger] filled(tree, p) && hi.x - 4 <= p.x < hi.x,
{
    let solid = solid_of(tree.field(), 0, 0, 0, tree.side());
    let a = choose|p: UVec3| #[trigger] solid(p) && brick_corner(p.x as int) == lo.x;
    let b = choose|p: UVec3| #[trigger] solid(p) && brick_corner(p.x as int) + 4 == hi.x;
    assert(solid(a) && solid(b));
    lemma_near_brick(a.x as int);
    lemma_near_brick(b.x as int);
    assert(filled(tree, a) && filled(tree, b));
}

/// Along the second axis a solid voxel lies within a brick of either side of the box, whose
/// sides are those of bricks.
pub proof fn law_bounds_are_a_brick_loose_at_most_along_y(tree: Contree, lo: UVec3, hi: UVec3)
    requires
        snug(solid_of(tree.field(), 0, 0, 0, tree.side()), Some((lo, hi))),
    ensures
        lo.y % 4 == 0 && hi.y % 4 == 0,
        exists|p: UVec3| #[trigger] filled(tree, p) && lo.y <= p.y < lo.y + 4,
        exists|p: UVec3| #[trigger] filled(tree, p) && hi.y - 4 <= p.y < hi.y,
{
    let solid = solid_of(tree.field(), 0, 0, 0, tree.side());
    let a = choose|p: UVec3| #[trigger] solid(p) && brick_corner(p.y as int) == lo.y;
    let b = choose|p: UVec3| #[trigger] solid(p) && brick_corner(p.y as int) + 4 == hi.y;
    assert(solid(a) && solid(b));
    lemma_near_brick(a.y as int);
    lemma_near_brick(b.y as int);
    assert(filled(tree, a) && filled(tree, b));
}

/// Along the third axis a solid voxel lies within a brick of either side of the box, whose
/// sides are those of bricks.
pub proof fn law_bounds_are_a_brick_loose_at_most_along_z(tree: Contree, lo: UVec3, hi: UVec3)
    requires
        snug(solid_of(tree.field(), 0, 0, 0, tree.side()), Some((lo, hi))),
    ensures
        lo.z % 4 == 0 && hi.z % 4 == 0,
        exists|p: UVec3| #[trigger] filled(tree, p) && lo.z <= p.z < lo.z + 4,
        exists|p: UVec3| #[trigger] filled(tree, p) && hi.z - 4 <= p.z < hi.z,
{
    let solid = solid_of(tree.field(), 0, 0, 0, tree.side());
    let a = choose|p: UVec3| #[trigger] solid(p) && brick_corner(p.z as int) == lo.z;
    let b = choose|p: UVec3| #[trigger] solid(p) && brick_corner(p.z as int) + 4 == hi.z;
    assert(solid(a) && solid(b));
    lemma_near_brick(a.z as int);
    lemma_near_brick(b.z as int);
    assert(filled(tree, a) && filled(tree, b));
}

/// Whether a volume has a solid voxel at a position.
pub open spec fn filled(tree: Contree, p: UVec3) -> bool {
    p.x < tree.side() && p.y < tree.side() && p.z < tree.side() && tree.at(p).0 != 0
}

/// Voxels move only along an axis on which the box reaches below zero, and by just that
/// much; a volume grows only where the box does not fit it as it is; and what was not
/// moved there is empty.
pub proof fn law_growing_moves_no_further_than_it_must(
    tree: Contree,
    larger: Contree,
    lo: IVec3,
    hi: IVec3,
)
    requires
        tree.side() >= 1,
        needed_for(tree.side(), lo, hi) <= larger.side() <= u32::MAX,
        forall|q: UVec3|
            q.within(larger.side()) ==> #[trigger] larger.at(q) == shifted(
                tree,
                shift_for(lo),
                q,
            ),
    ensures
        lo.x >= 0 ==> shift_for(lo).x == 0,
        lo.y >= 0 ==> shift_for(lo).y == 0,
        lo.z >= 0 ==> shift_for(lo).z == 0,
        lo.x < 0 ==> lo.x + shift_for(lo).x == 0,
        lo.y < 0 ==> lo.y + shift_for(lo).y == 0,
        lo.z < 0 ==> lo.z + shift_for(lo).z == 0,
        needed_for(tree.side(), lo, hi) == tree.side() <==> {
            &&& lo.x >= 0 && hi.x <= tree.side()
            &&& lo.y >= 0 && hi.y <= tree.side()
            &&& lo.z >= 0 && hi.z <= tree.side()
        },
        forall|q: UVec3|
            q.x < larger.side() && q.y < larger.side() && q.z < larger.side() && {
                ||| q.x < shift_for(lo).x || q.x >= shift_for(lo).x + tree.side()
                ||| q.y < shift_for(lo).y || q.y >= shift_for(lo).y + tree.side()
                ||| q.z < shift_for(lo).z || q.z >= shift_for(lo).z + tree.side()
            } ==> (#[trigger] larger.at(q)).0 == 0,
{
    assert forall|q: UVec3|
        q.x < larger.side() && q.y < larger.side() && q.z < larger.side() && {
            ||| q.x < shift_for(lo).x || q.x >= shift_for(lo).x + tree.side()
            ||| q.y < shift_for(lo).y || q.y >= shift_for(lo).y + tree.side()
            ||| q.z < shift_for(lo).z || q.z >= shift_for(lo).z + tree.side()
        } implies (#[trigger] larger.at(q)).0 == 0 by {
        assert(q.within(larger.side()));
        assert(larger.at(q) == shifted(tree, shift_for(lo), q));
    }
}

} // verus!
