//! What a ray finds, told of the ray and the voxels alone: how far, of what, and that
//! nothing nearer was passed by.

use crate::address::UVec3;
use crate::bits::{bit, ones};
use crate::contree::Contree;
use crate::dense::{lemma_extent_levels, lemma_extent_strict};
use crate::march::{
    child_corner, in_child, in_tree, marched, reached, region_of, spans_run_forward, tested,
    tested_below, visited_before, MarchStats, RegionHit, MAX_STEPS,
};
use crate::material::MaterialId;
use crate::neat::orderly_at;
use crate::node::Node;
use crate::plan::{child_x, child_y, child_z, stands_for};
use crate::sparse::{
    cell_at, in_cube, lemma_child_cube, lemma_child_stands, lemma_place_in_child,
};
use crate::tree::{byte_of, extent_of, kid, lemma_cell, lemma_extent, lemma_ordinal, voxel_at};
use vstd::prelude::*;

verus! {

/// Whether a cube lies in another. Cubes are told by their corner and their extent.
pub open spec fn cube_inside(corner: UVec3, extent: int, outer: UVec3, size: int) -> bool {
    &&& outer.x <= corner.x && corner.x + extent <= outer.x + size
    &&& outer.y <= corner.y && corner.y + extent <= outer.y + size
    &&& outer.z <= corner.z && corner.z + extent <= outer.z + size
}

/// Whether two cubes share no voxel.
pub open spec fn cubes_apart(a: UVec3, m: int, b: UVec3, n: int) -> bool {
    ||| a.x + m <= b.x
    ||| b.x + n <= a.x
    ||| a.y + m <= b.y
    ||| b.y + n <= a.y
    ||| a.z + m <= b.z
    ||| b.z + n <= a.z
}

/// Whether a ray that crosses a cube crosses every cube around it, for no shorter.
#[verifier::opaque]
pub open spec fn spans_nest(says: spec_fn(UVec3, u32) -> Option<(u32, u32)>) -> bool {
    forall|outer: UVec3, size: u32, corner: UVec3, extent: u32|
        #![trigger says(outer, size), says(corner, extent)]
        cube_inside(corner, extent as int, outer, size as int) ==> match says(corner, extent) {
            Some((a, b)) => says(outer, size) matches Some((c, d)) && c <= a && b <= d,
            None => true,
        }
}

/// Whether a ray has left one of two cubes that share no voxel by the time it enters
/// the other.
#[verifier::opaque]
pub open spec fn spans_part(says: spec_fn(UVec3, u32) -> Option<(u32, u32)>) -> bool {
    forall|p: UVec3, m: u32, q: UVec3, n: u32|
        #![trigger says(p, m), says(q, n)]
        cubes_apart(p, m as int, q, n as int) ==> match (says(p, m), says(q, n)) {
            (Some((a, b)), Some((c, d))) => b <= c || d <= a,
            _ => true,
        }
}

proof fn lemma_nest(
    says: spec_fn(UVec3, u32) -> Option<(u32, u32)>,
    outer: UVec3,
    size: u32,
    corner: UVec3,
    extent: u32,
)
    requires
        spans_nest(says),
        cube_inside(corner, extent as int, outer, size as int),
    ensures
        says(corner, extent) matches Some((a, b)) ==> {
            says(outer, size) matches Some((c, d)) && c <= a && b <= d
        },
{
    reveal(spans_nest);
}

proof fn lemma_part(
    says: spec_fn(UVec3, u32) -> Option<(u32, u32)>,
    p: UVec3,
    m: u32,
    q: UVec3,
    n: u32,
)
    requires
        spans_part(says),
        cubes_apart(p, m as int, q, n as int),
    ensures
        match (says(p, m), says(q, n)) {
            (Some((a, b)), Some((c, d))) => b <= c || d <= a,
            _ => true,
        },
{
    reveal(spans_part);
}

/// The later of two keys.
pub open spec fn later(a: u32, b: u32) -> u32 {
    if a > b {
        a
    } else {
        b
    }
}

/// A node's place, where a ray is in it from no earlier than `start`.
spec fn entered(
    says: spec_fn(UVec3, u32) -> Option<(u32, u32)>,
    start: u32,
    level: int,
    x: int,
    y: int,
    z: int,
    enter: u32,
    leave: u32,
) -> bool {
    &&& 0 <= level <= 14
    &&& 0 <= x && x + extent_of(level) <= 0x4000_0000
    &&& 0 <= y && y + extent_of(level) <= 0x4000_0000
    &&& 0 <= z && z + extent_of(level) <= 0x4000_0000
    &&& says(UVec3 { x: x as u32, y: y as u32, z: z as u32 }, extent_of(level) as u32) matches Some(
        (a, b),
    ) && enter == later(a, start) && leave == b
}

/// A child's place, in the same way.
proof fn lemma_child_entered(
    says: spec_fn(UVec3, u32) -> Option<(u32, u32)>,
    start: u32,
    level: int,
    x: int,
    y: int,
    z: int,
    enter: u32,
    leave: u32,
    i: int,
)
    requires
        spans_nest(says),
        entered(says, start, level, x, y, z, enter, leave),
        0 <= i < 64,
    ensures
        ({
            let (cx, cy, cz) = (child_x(x, i, level), child_y(y, i, level), child_z(z, i, level));
            let corner = UVec3 { x: cx as u32, y: cy as u32, z: cz as u32 };
            let step = extent_of(level - 1);
            &&& child_corner(level, x, y, z, i) == corner
            &&& corner.x == cx && corner.y == cy && corner.z == cz
            &&& 1 <= step && step as u32 == step
            &&& x <= cx && cx + step <= x + extent_of(level)
            &&& y <= cy && cy + step <= y + extent_of(level)
            &&& z <= cz && cz + step <= z + extent_of(level)
            &&& in_child(says, level, x, y, z, enter, leave, i) matches Some((a, b)) ==> {
                &&& says(corner, step as u32) matches Some((c, d)) && a == later(c, start) && b == d
                &&& level > 0 ==> entered(says, start, level - 1, cx, cy, cz, a, b)
            }
        }),
{
    lemma_extent(level);
    lemma_extent(level - 1);
    lemma_child_cube(x, y, z, level, i);
    let (cx, cy, cz) = (child_x(x, i, level), child_y(y, i, level), child_z(z, i, level));
    let corner = UVec3 { x: cx as u32, y: cy as u32, z: cz as u32 };
    let outer = UVec3 { x: x as u32, y: y as u32, z: z as u32 };
    let step = extent_of(level - 1);
    lemma_nest(says, outer, extent_of(level) as u32, corner, step as u32);
}

/// A region lies in the node it was found below, and holds the voxel.
proof fn lemma_region_inside(
    tree: Contree,
    node: Node,
    level: int,
    x: int,
    y: int,
    z: int,
    p: UVec3,
)
    requires
        level >= 0,
        0 <= x && x + extent_of(level) <= 0x4000_0000,
        0 <= y && y + extent_of(level) <= 0x4000_0000,
        0 <= z && z + extent_of(level) <= 0x4000_0000,
        in_cube(p, x, y, z, extent_of(level)),
    ensures
        ({
            let (corner, extent) = region_of(tree, node, level, x, y, z, p);
            &&& extent >= 1
            &&& in_cube(p, corner.x as int, corner.y as int, corner.z as int, extent as int)
            &&& x <= corner.x && corner.x + extent <= x + extent_of(level)
            &&& y <= corner.y && corner.y + extent <= y + extent_of(level)
            &&& z <= corner.z && corner.z + extent <= z + extent_of(level)
        }),
    decreases level,
{
    lemma_extent(level);
    if node.mask != 0 && level > 0 {
        lemma_place_in_child(p, x, y, z, level);
        let i = cell_at(p, x, y, z, level);
        let (cx, cy, cz) = (child_x(x, i, level), child_y(y, i, level), child_z(z, i, level));
        lemma_child_cube(x, y, z, level, i);
        assert(in_cube(p, cx, cy, cz, extent_of(level - 1)));
        lemma_region_inside(tree, kid(tree.slots(), node, i), level - 1, cx, cy, cz, p);
    }
}

/// A region is reached when the ray enters it, or at the start where that is later,
/// and no later than it leaves it, and not past the maximum.
proof fn lemma_reached_time(
    says: spec_fn(UVec3, u32) -> Option<(u32, u32)>,
    tree: Contree,
    start: u32,
    max: u32,
    node: Node,
    level: int,
    x: int,
    y: int,
    z: int,
    enter: u32,
    leave: u32,
    p: UVec3,
)
    requires
        spans_run_forward(says),
        spans_nest(says),
        entered(says, start, level, x, y, z, enter, leave),
        in_cube(p, x, y, z, extent_of(level)),
        reached(says, tree, max, node, level, x, y, z, enter, leave, p) is Some,
    ensures
        ({
            let t = reached(says, tree, max, node, level, x, y, z, enter, leave, p)->0;
            let (corner, extent) = region_of(tree, node, level, x, y, z, p);
            &&& says(corner, extent) matches Some((a, b)) && t == later(a, start) && t <= b
            &&& start <= t <= max
        }),
    decreases level,
{
    if node.mask != 0 {
        lemma_place_in_child(p, x, y, z, level);
        let i = cell_at(p, x, y, z, level);
        let (cx, cy, cz) = (child_x(x, i, level), child_y(y, i, level), child_z(z, i, level));
        lemma_child_entered(says, start, level, x, y, z, enter, leave, i);
        assert(in_cube(p, cx, cy, cz, extent_of(level - 1)));
        if level > 0 {
            let (a, b) = in_child(says, level, x, y, z, enter, leave, i)->0;
            lemma_reached_time(
                says,
                tree,
                start,
                max,
                kid(tree.slots(), node, i),
                level - 1,
                cx,
                cy,
                cz,
                a,
                b,
                p,
            );
        } else {
            reveal_with_fuel(extent_of, 2);
            assert(extent_of(-1) == 1);
            assert(p == child_corner(level, x, y, z, i));
        }
    }
}

/// A solid voxel that a ray crosses from `start` to `max` is reached.
proof fn lemma_is_reached(
    says: spec_fn(UVec3, u32) -> Option<(u32, u32)>,
    tree: Contree,
    start: u32,
    max: u32,
    node: Node,
    level: int,
    x: int,
    y: int,
    z: int,
    enter: u32,
    leave: u32,
    q: UVec3,
)
    requires
        spans_run_forward(says),
        spans_nest(says),
        entered(says, start, level, x, y, z, enter, leave),
        stands_for(tree.field(), tree.slots(), node, level, x, y, z),
        in_cube(q, x, y, z, extent_of(level)),
        tree.field()(q.x as int, q.y as int, q.z as int) != 0,
        says(q, 1) matches Some((a, b)) && start <= b && a <= max,
        start <= max,
    ensures
        reached(says, tree, max, node, level, x, y, z, enter, leave, q) is Some,
    decreases level,
{
    let s = tree.slots();
    let f = tree.field();
    let (dx, dy, dz) = (q.x - x, q.y - y, q.z - z);
    let outer = UVec3 { x: x as u32, y: y as u32, z: z as u32 };
    lemma_extent(level);
    lemma_nest(says, outer, extent_of(level) as u32, q, 1);
    assert(voxel_at(s, node, level, dx, dy, dz) == f(x + dx, y + dy, z + dz));
    if node.mask == 0 {
        crate::tree::lemma_uniform(s, node, level, dx, dy, dz);
    } else {
        lemma_place_in_child(q, x, y, z, level);
        let i = cell_at(q, x, y, z, level);
        let (cx, cy, cz) = (child_x(x, i, level), child_y(y, i, level), child_z(z, i, level));
        lemma_child_entered(says, start, level, x, y, z, enter, leave, i);
        assert(in_cube(q, cx, cy, cz, extent_of(level - 1)));
        let corner = child_corner(level, x, y, z, i);
        lemma_nest(says, corner, extent_of(level - 1) as u32, q, 1);
        lemma_nest(says, outer, extent_of(level) as u32, corner, extent_of(level - 1) as u32);
        assert(in_child(says, level, x, y, z, enter, leave, i) is Some);
        if level == 0 {
            reveal_with_fuel(extent_of, 2);
            assert(extent_of(-1) == 1);
            assert(q == corner);
            lemma_ordinal(dx, dy, dz);
            assert(dx / 1 == dx && dy / 1 == dy && dz / 1 == dz);
            assert(i == crate::node::ordinal(dx, dy, dz));
        } else {
            lemma_child_stands(f, s, node, level, x, y, z, i);
            if !bit(node.mask, i) {
                crate::tree::lemma_uniform(
                    s,
                    kid(s, node, i),
                    level - 1,
                    q.x - cx,
                    q.y - cy,
                    q.z - cz,
                );
                assert(voxel_at(s, kid(s, node, i), level - 1, q.x - cx, q.y - cy, q.z - cz) == f(
                    cx + (q.x - cx),
                    cy + (q.y - cy),
                    cz + (q.z - cz),
                ));
            }
            let (a, b) = in_child(says, level, x, y, z, enter, leave, i)->0;
            lemma_is_reached(
                says,
                tree,
                start,
                max,
                kid(s, node, i),
                level - 1,
                cx,
                cy,
                cz,
                a,
                b,
                q,
            );
        }
    }
}

/// Two children of a node share no voxel.
proof fn lemma_children_apart(x: int, y: int, z: int, level: int, i: int, j: int)
    requires
        0 <= level,
        0 <= i < 64,
        0 <= j < 64,
        i != j,
    ensures
        ({
            let step = extent_of(level - 1);
            ||| child_x(x, i, level) + step <= child_x(x, j, level)
            ||| child_x(x, j, level) + step <= child_x(x, i, level)
            ||| child_y(y, i, level) + step <= child_y(y, j, level)
            ||| child_y(y, j, level) + step <= child_y(y, i, level)
            ||| child_z(z, i, level) + step <= child_z(z, j, level)
            ||| child_z(z, j, level) + step <= child_z(z, i, level)
        }),
{
    let step = extent_of(level - 1);
    lemma_extent(level - 1);
    lemma_cell(i);
    lemma_cell(j);
    lemma_step_apart(i % 4, j % 4, step);
    lemma_step_apart((i / 4) % 4, (j / 4) % 4, step);
    lemma_step_apart(i / 16, j / 16, step);
}

proof fn lemma_step_apart(a: int, b: int, step: int)
    requires
        step >= 1,
    ensures
        a < b ==> a * step + step <= b * step,
        b < a ==> b * step + step <= a * step,
{
    assert(a < b ==> a * step + step <= b * step) by (nonlinear_arith)
        requires
            step >= 1,
    ;
    assert(b < a ==> b * step + step <= a * step) by (nonlinear_arith)
        requires
            step >= 1,
    ;
}

/// What is visited first is reached no later than the ray enters any other voxel.
proof fn lemma_first_is_nearest(
    says: spec_fn(UVec3, u32) -> Option<(u32, u32)>,
    tree: Contree,
    start: u32,
    max: u32,
    node: Node,
    level: int,
    x: int,
    y: int,
    z: int,
    enter: u32,
    leave: u32,
    p: UVec3,
    q: UVec3,
)
    requires
        spans_run_forward(says),
        spans_nest(says),
        spans_part(says),
        entered(says, start, level, x, y, z, enter, leave),
        in_cube(p, x, y, z, extent_of(level)),
        in_cube(q, x, y, z, extent_of(level)),
        reached(says, tree, max, node, level, x, y, z, enter, leave, p) is Some,
        reached(says, tree, max, node, level, x, y, z, enter, leave, q) is Some,
        visited_before(says, tree, false, node, level, x, y, z, enter, leave, p, q),
        says(q, 1) matches Some((a, b)) && start < b && a < b,
    ensures
        reached(says, tree, max, node, level, x, y, z, enter, leave, p)->0 <= later(
            (says(q, 1)->0).0,
            start,
        ),
    decreases level,
{
    let outer = UVec3 { x: x as u32, y: y as u32, z: z as u32 };
    lemma_extent(level);
    lemma_nest(says, outer, extent_of(level) as u32, q, 1);
    let (aq, bq) = says(q, 1)->0;
    let (top, bottom) = says(outer, extent_of(level) as u32)->0;
    if node.mask != 0 {
        lemma_place_in_child(p, x, y, z, level);
        lemma_place_in_child(q, x, y, z, level);
        let (i, j) = (cell_at(p, x, y, z, level), cell_at(q, x, y, z, level));
        let step = extent_of(level - 1);
        lemma_child_entered(says, start, level, x, y, z, enter, leave, i);
        lemma_child_entered(says, start, level, x, y, z, enter, leave, j);
        let (ix, iy, iz) = (child_x(x, i, level), child_y(y, i, level), child_z(z, i, level));
        let (jx, jy, jz) = (child_x(x, j, level), child_y(y, j, level), child_z(z, j, level));
        assert(in_cube(p, ix, iy, iz, step));
        assert(in_cube(q, jx, jy, jz, step));
        if i == j {
            if level > 0 {
                let (a, b) = in_child(says, level, x, y, z, enter, leave, i)->0;
                lemma_first_is_nearest(
                    says,
                    tree,
                    start,
                    max,
                    kid(tree.slots(), node, i),
                    level - 1,
                    ix,
                    iy,
                    iz,
                    a,
                    b,
                    p,
                    q,
                );
            } else {
                reveal_with_fuel(extent_of, 2);
                assert(extent_of(-1) == 1);
                assert(p == q);
                assert(q == child_corner(level, x, y, z, i));
            }
        } else {
            let (ci, cj) = (child_corner(level, x, y, z, i), child_corner(level, x, y, z, j));
            lemma_reached_time(says, tree, start, max, node, level, x, y, z, enter, leave, p);
            lemma_children_apart(x, y, z, level, i, j);
            let (corner, extent) = region_of(tree, node, level, x, y, z, p);
            assert(cube_inside(corner, extent as int, ci, step)) by {
                if level > 0 {
                    lemma_region_inside(tree, kid(tree.slots(), node, i), level - 1, ix, iy, iz, p);
                } else {
                    reveal_with_fuel(extent_of, 2);
                    assert(extent_of(-1) == 1);
                }
            }
            lemma_nest(says, cj, step as u32, q, 1);
            lemma_nest(says, ci, step as u32, corner, extent);
            lemma_nest(says, outer, extent_of(level) as u32, cj, step as u32);
            lemma_part(says, ci, step as u32, cj, step as u32);
            lemma_part(says, corner, extent, q, 1);
            let (ap, bp) = says(corner, extent)->0;
            let (ai, bi) = says(ci, step as u32)->0;
            let (aj, bj) = says(cj, step as u32)->0;
            assert(ai <= ap && bp <= bi);
            assert(aj <= aq && bq <= bj);
            assert(bi <= aj || bj <= ai);
            assert(top <= aj);
        }
    } else {
        assert(reached(says, tree, max, node, level, x, y, z, enter, leave, p)->0 == enter);
    }
}

/// The whole tree's place.
proof fn lemma_tree_entered(
    says: spec_fn(UVec3, u32) -> Option<(u32, u32)>,
    tree: Contree,
    start: u32,
)
    requires
        tree.readable(),
        in_tree(says, tree, start) is Some,
    ensures
        ({
            let (enter, leave) = in_tree(says, tree, start)->0;
            entered(says, start, tree.height(), 0, 0, 0, enter, leave)
        }),
        stands_for(tree.field(), tree.slots(), tree.top(), tree.height(), 0, 0, 0),
{
    lemma_extent_levels(tree.height());
    if tree.height() < 14 {
        lemma_extent_strict(tree.height(), 14);
    }
}

/// Whatever a march returns lies between the start and the maximum. It is a cube of
/// the volume that holds one material throughout, and the ray crosses it: it is hit
/// where the ray enters it, or at the start where the ray is in it by then.
pub proof fn law_a_hit_lies_on_the_ray_within_the_maximum(
    says: spec_fn(UVec3, u32) -> Option<(u32, u32)>,
    tree: Contree,
    start: u32,
    max: u32,
    any_hit: bool,
    hit: RegionHit,
    before: MarchStats,
    after: MarchStats,
)
    requires
        tree.readable(),
        spans_run_forward(says),
        spans_nest(says),
        marched(says, tree, start, max, any_hit, Some(hit), before, after),
    ensures
        start <= hit.t <= max,
        hit.extent >= 1,
        hit.corner.x + hit.extent <= tree.side(),
        hit.corner.y + hit.extent <= tree.side(),
        hit.corner.z + hit.extent <= tree.side(),
        forall|p: UVec3|
            hit.corner.x <= p.x < hit.corner.x + hit.extent && hit.corner.y <= p.y < hit.corner.y
                + hit.extent && hit.corner.z <= p.z < hit.corner.z + hit.extent
                ==> #[trigger] tree.at(p) == hit.material,
        says(hit.corner, hit.extent) matches Some((a, b)) && hit.t <= b && hit.t == if a > start {
            a
        } else {
            start
        },
{
    lemma_tree_entered(says, tree, start);
    let (enter, leave) = in_tree(says, tree, start)->0;
    let p = hit.corner;
    assert(hit.has(p));
    lemma_reached_time(
        says,
        tree,
        start,
        max,
        tree.top(),
        tree.height(),
        0,
        0,
        0,
        enter,
        leave,
        p,
    );
    assert forall|p: UVec3|
        hit.corner.x <= p.x < hit.corner.x + hit.extent && hit.corner.y <= p.y < hit.corner.y
            + hit.extent && hit.corner.z <= p.z < hit.corner.z
            + hit.extent implies #[trigger] tree.at(p) == hit.material by {
        assert(hit.has(p));
    }
}

/// A hit is of something: no voxel of the region is empty, in a tree that passes the
/// canonical check and names its materials by bytes.
pub proof fn law_a_hit_is_solid(
    says: spec_fn(UVec3, u32) -> Option<(u32, u32)>,
    tree: Contree,
    start: u32,
    max: u32,
    any_hit: bool,
    hit: RegionHit,
    before: MarchStats,
    after: MarchStats,
)
    requires
        tree.readable(),
        tree.orderly(),
        marched(says, tree, start, max, any_hit, Some(hit), before, after),
    ensures
        hit.material != MaterialId(0),
        hit.extent >= 1,
        hit.corner.x + hit.extent <= tree.side(),
        hit.corner.y + hit.extent <= tree.side(),
        hit.corner.z + hit.extent <= tree.side(),
        forall|p: UVec3|
            hit.corner.x <= p.x < hit.corner.x + hit.extent && hit.corner.y <= p.y < hit.corner.y
                + hit.extent && hit.corner.z <= p.z < hit.corner.z + hit.extent
                ==> #[trigger] tree.at(p) == hit.material,
{
    let (enter, leave) = in_tree(says, tree, start)->0;
    let p = hit.corner;
    assert forall|p: UVec3|
        hit.corner.x <= p.x < hit.corner.x + hit.extent && hit.corner.y <= p.y < hit.corner.y
            + hit.extent && hit.corner.z <= p.z < hit.corner.z
            + hit.extent implies #[trigger] tree.at(p) == hit.material by {
        assert(hit.has(p));
    }
    assert(hit.has(p));
    lemma_extent_levels(tree.height());
    lemma_reached_solid(
        says,
        tree,
        max,
        tree.top(),
        tree.height(),
        0,
        0,
        0,
        enter,
        leave,
        p,
    );
}

proof fn lemma_reached_solid(
    says: spec_fn(UVec3, u32) -> Option<(u32, u32)>,
    tree: Contree,
    max: u32,
    node: Node,
    level: int,
    x: int,
    y: int,
    z: int,
    enter: u32,
    leave: u32,
    p: UVec3,
)
    requires
        level >= 0,
        orderly_at(tree.slots(), node, level),
        stands_for(tree.field(), tree.slots(), node, level, x, y, z),
        in_cube(p, x, y, z, extent_of(level)),
        reached(says, tree, max, node, level, x, y, z, enter, leave, p) is Some,
    ensures
        tree.field()(p.x as int, p.y as int, p.z as int) != 0,
    decreases level,
{
    let s = tree.slots();
    let f = tree.field();
    let (dx, dy, dz) = (p.x - x, p.y - y, p.z - z);
    assert(voxel_at(s, node, level, dx, dy, dz) == f(x + dx, y + dy, z + dz));
    if node.mask == 0 {
        crate::tree::lemma_uniform(s, node, level, dx, dy, dz);
    } else {
        lemma_place_in_child(p, x, y, z, level);
        let i = cell_at(p, x, y, z, level);
        let (cx, cy, cz) = (child_x(x, i, level), child_y(y, i, level), child_z(z, i, level));
        assert(in_cube(p, cx, cy, cz, extent_of(level - 1)));
        if level == 0 {
            reveal_with_fuel(extent_of, 2);
            assert(extent_of(-1) == 1);
            lemma_ordinal(dx, dy, dz);
            assert(dx / 1 == dx && dy / 1 == dy && dz / 1 == dz);
            assert(i == crate::node::ordinal(dx, dy, dz));
            assert(byte_of(s, node, i) != 0);
        } else {
            lemma_child_stands(f, s, node, level, x, y, z, i);
            assert(crate::contree::tidy(s, kid(s, node, i), level - 1));
            assert(crate::neat::in_bytes(s, kid(s, node, i), level - 1));
            let (a, b) = in_child(says, level, x, y, z, enter, leave, i)->0;
            lemma_reached_solid(
                says,
                tree,
                max,
                kid(s, node, i),
                level - 1,
                cx,
                cy,
                cz,
                a,
                b,
                p,
            );
        }
    }
}

/// No solid voxel is passed by: where the ray crosses one between the start and the
/// maximum, a march that does not run out of steps returns a hit.
pub proof fn law_a_ray_that_crosses_a_solid_voxel_hits(
    says: spec_fn(UVec3, u32) -> Option<(u32, u32)>,
    tree: Contree,
    start: u32,
    max: u32,
    any_hit: bool,
    found: Option<RegionHit>,
    before: MarchStats,
    after: MarchStats,
    q: UVec3,
)
    requires
        tree.readable(),
        spans_run_forward(says),
        spans_nest(says),
        marched(says, tree, start, max, any_hit, found, before, after),
        after.overruns == before.overruns,
        q.x < tree.side() && q.y < tree.side() && q.z < tree.side(),
        tree.at(q).0 != 0,
        says(q, 1) matches Some((a, b)) && start <= b && a <= max,
        start <= max,
    ensures
        found is Some,
{
    let outer = UVec3 { x: 0, y: 0, z: 0 };
    lemma_extent_levels(tree.height());
    if tree.height() < 14 {
        lemma_extent_strict(tree.height(), 14);
    }
    lemma_nest(says, outer, tree.side() as u32, q, 1);
    lemma_tree_entered(says, tree, start);
    let (enter, leave) = in_tree(says, tree, start)->0;
    assert(in_cube(q, 0, 0, 0, extent_of(tree.height())));
    lemma_is_reached(
        says,
        tree,
        start,
        max,
        tree.top(),
        tree.height(),
        0,
        0,
        0,
        enter,
        leave,
        q,
    );
}

/// The closest hit is the closest: the ray enters no solid voxel before it. (A voxel
/// the ray only touches, or has left by the start, is not in the way.)
pub proof fn law_the_closest_hit_is_nearest(
    says: spec_fn(UVec3, u32) -> Option<(u32, u32)>,
    tree: Contree,
    start: u32,
    max: u32,
    found: Option<RegionHit>,
    before: MarchStats,
    after: MarchStats,
    q: UVec3,
)
    requires
        tree.readable(),
        spans_run_forward(says),
        spans_nest(says),
        spans_part(says),
        marched(says, tree, start, max, false, found, before, after),
        after.overruns == before.overruns,
        q.x < tree.side() && q.y < tree.side() && q.z < tree.side(),
        tree.at(q).0 != 0,
        says(q, 1) matches Some((a, b)) && start < b && a < b && a <= max,
        start <= max,
    ensures
        found matches Some(hit) && (hit.t <= (says(q, 1)->0).0 || hit.t == start),
{
    law_a_ray_that_crosses_a_solid_voxel_hits(
        says,
        tree,
        start,
        max,
        false,
        found,
        before,
        after,
        q,
    );
    let hit = found->0;
    let p = hit.corner;
    assert(hit.has(p));
    lemma_tree_entered(says, tree, start);
    let (enter, leave) = in_tree(says, tree, start)->0;
    assert(in_cube(q, 0, 0, 0, extent_of(tree.height())));
    lemma_is_reached(
        says,
        tree,
        start,
        max,
        tree.top(),
        tree.height(),
        0,
        0,
        0,
        enter,
        leave,
        q,
    );
    lemma_first_is_nearest(
        says,
        tree,
        start,
        max,
        tree.top(),
        tree.height(),
        0,
        0,
        0,
        enter,
        leave,
        p,
        q,
    );
    law_a_hit_lies_on_the_ray_within_the_maximum(
        says,
        tree,
        start,
        max,
        false,
        hit,
        before,
        after,
    );
}

/// Taking any hit tells as well as taking the closest whether there is one.
pub proof fn law_any_hit_finds_one_where_the_closest_does(
    says: spec_fn(UVec3, u32) -> Option<(u32, u32)>,
    tree: Contree,
    start: u32,
    max: u32,
    any: Option<RegionHit>,
    closest: Option<RegionHit>,
    before: MarchStats,
    after_any: MarchStats,
    after_closest: MarchStats,
)
    requires
        tree.readable(),
        marched(says, tree, start, max, true, any, before, after_any),
        marched(says, tree, start, max, false, closest, before, after_closest),
        after_any.overruns == before.overruns,
        after_closest.overruns == before.overruns,
    ensures
        any is Some <==> closest is Some,
{
    lemma_extent_levels(tree.height());
    if in_tree(says, tree, start) is Some {
        let (enter, leave) = in_tree(says, tree, start)->0;
        if let Some(hit) = any {
            let p = hit.corner;
            assert(hit.has(p));
            assert(in_cube(p, 0, 0, 0, extent_of(tree.height())));
            assert(reached(
                says,
                tree,
                max,
                tree.top(),
                tree.height(),
                0,
                0,
                0,
                enter,
                leave,
                p,
            ) is Some);
        }
        if let Some(hit) = closest {
            let p = hit.corner;
            assert(hit.has(p));
            assert(in_cube(p, 0, 0, 0, extent_of(tree.height())));
            assert(reached(
                says,
                tree,
                max,
                tree.top(),
                tree.height(),
                0,
                0,
                0,
                enter,
                leave,
                p,
            ) is Some);
        }
    }
}

/// A farther maximum loses no hit.
pub proof fn law_a_longer_ray_hits_what_a_shorter_did(
    says: spec_fn(UVec3, u32) -> Option<(u32, u32)>,
    tree: Contree,
    start: u32,
    max: u32,
    farther: u32,
    any_hit: bool,
    found: Option<RegionHit>,
    further: Option<RegionHit>,
    before: MarchStats,
    after: MarchStats,
    later_on: MarchStats,
)
    requires
        tree.readable(),
        max <= farther,
        marched(says, tree, start, max, any_hit, found, before, after),
        marched(says, tree, start, farther, any_hit, further, before, later_on),
        later_on.overruns == before.overruns,
        found is Some,
    ensures
        further is Some,
{
    let (enter, leave) = in_tree(says, tree, start)->0;
    let hit = found->0;
    let p = hit.corner;
    assert(hit.has(p));
    lemma_extent_levels(tree.height());
    assert(in_cube(p, 0, 0, 0, extent_of(tree.height())));
    lemma_reached_farther(
        says,
        tree,
        max,
        farther,
        tree.top(),
        tree.height(),
        0,
        0,
        0,
        enter,
        leave,
        p,
    );
}

proof fn lemma_reached_farther(
    says: spec_fn(UVec3, u32) -> Option<(u32, u32)>,
    tree: Contree,
    max: u32,
    farther: u32,
    node: Node,
    level: int,
    x: int,
    y: int,
    z: int,
    enter: u32,
    leave: u32,
    p: UVec3,
)
    requires
        max <= farther,
        reached(says, tree, max, node, level, x, y, z, enter, leave, p) is Some,
    ensures
        reached(says, tree, farther, node, level, x, y, z, enter, leave, p) == reached(
            says,
            tree,
            max,
            node,
            level,
            x,
            y,
            z,
            enter,
            leave,
            p,
        ),
    decreases level,
{
    if node.mask != 0 && level > 0 {
        let i = cell_at(p, x, y, z, level);
        let (a, b) = in_child(says, level, x, y, z, enter, leave, i)->0;
        lemma_reached_farther(
            says,
            tree,
            max,
            farther,
            kid(tree.slots(), node, i),
            level - 1,
            child_x(x, i, level),
            child_y(y, i, level),
            child_z(z, i, level),
            a,
            b,
            p,
        );
    }
}

/// Every child of the root costs a step, where the ray gets to the root in time and
/// the root has children. Where it does not, or has none, nothing does.
pub proof fn law_every_child_of_the_root_costs_a_step(
    says: spec_fn(UVec3, u32) -> Option<(u32, u32)>,
    tree: Contree,
    start: u32,
    max: u32,
    any_hit: bool,
    found: Option<RegionHit>,
    before: MarchStats,
    after: MarchStats,
)
    requires
        tree.readable(),
        marched(says, tree, start, max, any_hit, found, before, after),
    ensures
        match says(UVec3 { x: 0, y: 0, z: 0 }, tree.side() as u32) {
            None => found is None && after == before,
            Some((a, b)) => {
                let in_time = a <= max && start <= max && a <= b && start <= b;
                &&& !in_time ==> found is None && after == before
                &&& in_time && tree.top().mask == 0 ==> after == before && (found is Some
                    <==> tree.top().material != 0)
                &&& in_time && tree.top().mask != 0 ==> after.steps - before.steps >= ones(
                    tree.top().mask,
                )
                &&& after.overruns != before.overruns ==> {
                    &&& after.overruns == before.overruns + 1
                    &&& after.steps == before.steps + MAX_STEPS + 1
                    &&& found is None
                }
                &&& after.overruns == before.overruns ==> after.steps - before.steps <= MAX_STEPS
            },
        },
{
    lemma_extent_levels(tree.height());
    lemma_extent(tree.height());
    let (top, height) = (tree.top(), tree.height());
    if let Some((enter, leave)) = in_tree(says, tree, start) {
        crate::march::lemma_below_positive(
            says,
            tree,
            max,
            any_hit,
            top,
            height,
            0,
            0,
            0,
            enter,
            leave,
            64,
        );
        crate::bits::lemma_rank_monotone(top.mask, 0, 64);
        let corner = UVec3 { x: 0, y: 0, z: 0 };
        assert(in_cube(corner, 0, 0, 0, extent_of(height)));
        if let Some(hit) = found {
            assert(hit.has(hit.corner));
        }
        let at = reached(says, tree, max, top, height, 0, 0, 0, enter, leave, corner);
        if top.mask == 0 && found is None {
            assert(at is None);
        }
        assert(tested(says, tree, max, any_hit, top, height, 0, 0, 0, enter, leave) >= 0);
        assert(tested_below(says, tree, max, any_hit, top, height, 0, 0, 0, enter, leave, 64) >= 0);
    }
}

/// The region a voxel lies in is the box it lies in.
proof fn lemma_region_is_cell(
    tree: Contree,
    node: Node,
    level: int,
    x: int,
    y: int,
    z: int,
    p: UVec3,
)
    requires
        level >= 0,
        crate::physics::cells::cell_below(tree, node, level, x, y, z, p) is Some,
    ensures
        ({
            let cell = crate::physics::cells::cell_below(tree, node, level, x, y, z, p)->0;
            crate::march::region_of(tree, node, level, x, y, z, p) == (cell.origin, cell.size)
        }),
    decreases level,
{
    if node.mask != 0 && level > 0 {
        let i = cell_at(p, x, y, z, level);
        lemma_region_is_cell(
            tree,
            kid(tree.slots(), node, i),
            level - 1,
            child_x(x, i, level),
            child_y(y, i, level),
            child_z(z, i, level),
            p,
        );
    }
}

/// A hit's box is the whole box its voxels lie in.
pub proof fn law_a_hit_is_a_whole_cell(
    says: spec_fn(UVec3, u32) -> Option<(u32, u32)>,
    tree: Contree,
    start: u32,
    max: u32,
    any_hit: bool,
    hit: RegionHit,
    before: MarchStats,
    after: MarchStats,
)
    requires
        tree.readable(),
        tree.orderly(),
        marched(says, tree, start, max, any_hit, Some(hit), before, after),
    ensures
        crate::physics::cells::cell_of_voxel(tree, hit.corner) == Some(
            crate::physics::cells::Cell { origin: hit.corner, size: hit.extent },
        ),
{
    law_a_hit_is_solid(says, tree, start, max, any_hit, hit, before, after);
    let p = hit.corner;
    assert(tree.at(p) == hit.material);
    assert(hit.has(p));
    assert(p.within(tree.side()));
    crate::physics::cells::lemma_cells(tree, p);
    reveal(crate::physics::cells::cell_of_voxel);
    lemma_region_is_cell(tree, tree.top(), tree.height(), 0, 0, 0, p);
}

} // verus!
