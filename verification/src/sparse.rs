//! Trees to and from lists of voxels, without a flat volume in between.

use crate::address::{lemma_no_more_than, UVec3};
use crate::arena::{NodeArena, Slots};
use crate::bits::{bit, lemma_zero_mask};
use crate::contree::{level_extent, lemma_marked_trans, lemma_taken_marked, marked, Contree};
use crate::dense::{is_extent, lemma_extent_levels, lemma_extent_unique, level_of_extent};
use crate::distance_field::{aligned, lemma_child_aligned};
use crate::edit::{lemma_listed_place, listed, places};
use crate::grid::cell_count;
use crate::material::MaterialId;
use crate::node::{child_index, lemma_slot_in_block, ordinal, Node, BRICK_EDGE, CHILDREN};
use crate::plan::{
    alike, brick_bytes, child_x, child_y, child_z, constant, extends, fits, lemma_cell_inside,
    lemma_child_inside, lemma_plan, lemma_plan_bound, lemma_plan_constant,
    lemma_plan_kids_extends, lemma_plan_same, lemma_volume, lemma_volume_monotone, plan,
    plan_kids, volume,
};
use crate::store::{
    lemma_mask_extremes, lemma_packed, nodes_present, none_free, packed, store_nodes,
    store_voxels, voxels_present,
};
use crate::tree::{
    extent_of, kid, lemma_cell, lemma_extent, lemma_join_coord, lemma_no_kids, lemma_ordinal,
    lemma_split, voxel_at, wf,
};
use vstd::prelude::*;

verus! {

/// What a list of voxels holds, as a function of position: empty where the list
/// says nothing, and the last entry where it says more than one thing.
pub open spec fn list_voxels(voxels: Seq<(UVec3, MaterialId)>) -> spec_fn(int, int, int) -> u8 {
    |x: int, y: int, z: int|
        match listed(voxels, UVec3 { x: x as u32, y: y as u32, z: z as u32 }) {
            Some(m) => m,
            None => 0,
        }
}

/// Every listed position lies in the cube of `extent` voxels at a position.
pub open spec fn all_inside(
    voxels: Seq<(UVec3, MaterialId)>,
    x: int,
    y: int,
    z: int,
    extent: int,
) -> bool {
    forall|k: int|
        0 <= k < voxels.len() ==> {
            let p = (#[trigger] voxels[k]).0;
            x <= p.x < x + extent && y <= p.y < y + extent && z <= p.z < z + extent
        }
}

/// Which child of a cube a position lies in.
pub open spec fn cell_of(p: UVec3, x: int, y: int, z: int, step: int) -> int {
    ordinal((p.x - x) / step, (p.y - y) / step, (p.z - z) / step)
}

/// A position in a child's cube is in that child's cell, and the other way
/// round.
pub proof fn lemma_cell_of(p: UVec3, x: int, y: int, z: int, level: int, i: int)
    requires
        level >= 1,
        0 <= i < 64,
        x <= p.x < x + extent_of(level),
        y <= p.y < y + extent_of(level),
        z <= p.z < z + extent_of(level),
    ensures
        0 <= cell_of(p, x, y, z, extent_of(level - 1)) < 64,
        cell_of(p, x, y, z, extent_of(level - 1)) == i <==> {
            &&& child_x(x, i, level) <= p.x < child_x(x, i, level) + extent_of(level - 1)
            &&& child_y(y, i, level) <= p.y < child_y(y, i, level) + extent_of(level - 1)
            &&& child_z(z, i, level) <= p.z < child_z(z, i, level) + extent_of(level - 1)
        },
{
    let step = extent_of(level - 1);
    lemma_extent(level);
    lemma_extent(level - 1);
    lemma_split(p.x - x, step);
    lemma_split(p.y - y, step);
    lemma_split(p.z - z, step);
    lemma_ordinal((p.x - x) / step, (p.y - y) / step, (p.z - z) / step);
    lemma_cell(i);
    if child_x(x, i, level) <= p.x < child_x(x, i, level) + step {
        lemma_join_coord(i % 4, p.x - child_x(x, i, level), step);
    }
    if child_y(y, i, level) <= p.y < child_y(y, i, level) + step {
        lemma_join_coord((i / 4) % 4, p.y - child_y(y, i, level), step);
    }
    if child_z(z, i, level) <= p.z < child_z(z, i, level) + step {
        lemma_join_coord(i / 16, p.z - child_z(z, i, level), step);
    }
}

impl Contree {
    /// Builds a tree out of a list of voxels. Later entries win where a position
    /// repeats.
    pub fn from_voxels(extent: u32, voxels: &[(UVec3, MaterialId)]) -> (tree: Contree)
        requires
            is_extent(extent as int),
            all_inside(voxels@, 0, 0, 0, extent as int),
            extent <= 1024 || voxels@.len() * 14 <= u32::MAX || exists|level: int|
                0 <= level && extent == #[trigger] extent_of(level) && fits(
                    plan(list_voxels(voxels@), Slots::none(), level, 0, 0, 0).0,
                ),
        ensures
            tree.side() == extent,
            tree.sound(),
            tree.canonical(),
            tree.orderly(),
            tree.accounted(),
            none_free(tree.store()),
            forall|p: UVec3|
                p.within(tree.side()) ==> #[trigger] tree.at(p) == match listed(voxels@, p) {
                    Some(m) => MaterialId(m),
                    None => MaterialId(0),
                },
            tree.built_from(list_voxels(voxels@)),
            tree.slots().nodes.len() <= cell_count(tree.side()),
            tree.slots().voxels.len() <= cell_count(tree.side()),
            forall|leaf: bool, slot: int|
                0 <= slot < tree.slots().len(leaf) ==> tree.store().is_dirty(leaf, slot),
    {
        let level = level_of_extent(extent).unwrap();
        let ghost f = list_voxels(voxels@);
        proof {
            if voxels@.len() * 14 <= u32::MAX {
                lemma_extent_levels(level as int);
                lemma_plan_sparse(f, Slots::none(), level as int, 0, 0, 0);
                lemma_list_walk(voxels@, level as int);
                let n = walk(f, level as int, 0, 0, 0).len();
                assert(level * n <= 14 * voxels@.len()) by (nonlinear_arith)
                    requires
                        0 <= level <= 14,
                        0 <= n <= voxels@.len(),
                ;
            } else if extent > 1024 {
                let other = choose|other: int|
                    0 <= other && extent == #[trigger] extent_of(other) && fits(
                        plan(f, Slots::none(), other, 0, 0, 0).0,
                    );
                lemma_extent_unique(level as int, other);
            }
            lemma_plan_bound(f, Slots::none(), level as int, 0, 0, 0);
            lemma_volume(level as int);
            if extent <= 1024 {
                reveal_with_fuel(extent_of, 8);
                if level > 4 {
                    crate::dense::lemma_extent_strict(4, level as int);
                }
                lemma_volume_monotone(level as int, 4);
                reveal_with_fuel(volume, 8);
            }
            lemma_extent_levels(level as int);
            if level < 14 {
                crate::dense::lemma_extent_strict(level as int, 14);
            }
        }
        let mut tree = Contree::empty(level + 1);
        let ghost start = tree.arena;
        let mut list: Vec<(UVec3, MaterialId)> = Vec::new();
        for i in 0..voxels.len()
            invariant
                list@ == voxels@.take(i as int),
        {
            list.push(voxels[i]);
            assert(list@ =~= voxels@.take(i + 1));
        }
        assert(list@ =~= voxels@);
        tree.root = build_sparse(&mut tree.arena, &list, level, UVec3::new(0, 0, 0));
        proof {
            lemma_plan(f, Slots::none(), level as int, 0, 0, 0);
            crate::plan::lemma_plan_filled(f, Slots::none(), level as int, 0, 0, 0);
            crate::neat::lemma_canon_orderly(tree.slots(), tree.top(), tree.height());
            assert forall|p: UVec3| p.within(tree.side()) implies #[trigger] tree.at(p)
                == match listed(voxels@, p) {
                Some(m) => MaterialId(m),
                None => MaterialId(0),
            } by {
                assert(voxel_at(
                    tree.slots(),
                    tree.top(),
                    tree.height(),
                    p.x as int,
                    p.y as int,
                    p.z as int,
                ) == f(0 + p.x, 0 + p.y, 0 + p.z));
            }
            assert forall|leaf: bool, slot: int|
                0 <= slot < tree.slots().len(leaf) implies tree.store().is_dirty(leaf, slot) by {
                if !tree.store().is_dirty(leaf, slot) {
                    assert(tree.slots().same(start.slots(), leaf, slot));
                }
            }
        }
        tree
    }

    /// Every solid voxel, once, in the order the tree holds them.
    pub open spec fn solids(&self) -> Seq<(UVec3, MaterialId)> {
        walk(self.field(), self.height(), 0, 0, 0)
    }

    /// Every solid voxel, once, in the order the tree holds them.
    pub fn voxels(&self) -> (out: Vec<(UVec3, MaterialId)>)
        requires
            self.readable(),
        ensures
            out@ == self.solids(),
            forall|p: UVec3|
                p.within(self.side()) && self.at(p) != MaterialId(0) ==> out@.contains(
                    (p, #[trigger] self.at(p)),
                ),
            forall|k: int|
                0 <= k < out@.len() ==> {
                    let (p, m) = #[trigger] out@[k];
                    p.within(self.side()) && m == self.at(p) && m != MaterialId(0)
                },
            forall|k: int, l: int|
                0 <= k < l < out@.len() ==> (#[trigger] out@[k]).0 != (#[trigger] out@[l]).0,
    {
        let mut out: Vec<(UVec3, MaterialId)> = Vec::new();
        let ghost f = self.field();
        proof {
            lemma_extent_levels(self.height());
            if self.height() < 14 {
                crate::dense::lemma_extent_strict(self.height(), 14);
            }
        }
        self.walk_node(self.root, self.depth - 1, UVec3::new(0, 0, 0), &mut out, Ghost(f));
        proof {
            let level = self.height();
            assert(out@ =~= walk(f, level, 0, 0, 0));
            lemma_walk(f, level, 0, 0, 0);
            assert forall|p: UVec3|
                p.within(self.side()) && self.at(p) != MaterialId(0) implies out@.contains(
                (p, #[trigger] self.at(p)),
            ) by {
                assert(f(p.x as int, p.y as int, p.z as int) == self.at(p).0);
                assert(walked(walk(f, level, 0, 0, 0), p));
                let k = choose|k: int| 0 <= k < out@.len() && (#[trigger] out@[k]).0 == p;
                assert(out@[k] == (p, self.at(p)));
            }
        }
        out
    }

    /// What the tree holds, as a function of position.
    pub open spec fn field(&self) -> spec_fn(int, int, int) -> u8 {
        |x: int, y: int, z: int| voxel_at(self.slots(), self.top(), self.height(), x, y, z)
    }

    fn walk_node(
        &self,
        node: Node,
        level: u32,
        origin: UVec3,
        out: &mut Vec<(UVec3, MaterialId)>,
        Ghost(f): Ghost<spec_fn(int, int, int) -> u8>,
    )
        requires
            level <= 14,
            fits(self.slots()),
            wf(self.slots(), node, level as int),
            origin.x + extent_of(level as int) <= 0x4000_0000,
            origin.y + extent_of(level as int) <= 0x4000_0000,
            origin.z + extent_of(level as int) <= 0x4000_0000,
            crate::plan::stands_for(
                f,
                self.slots(),
                node,
                level as int,
                origin.x as int,
                origin.y as int,
                origin.z as int,
            ),
        ensures
            final(out)@ == old(out)@ + walk(
                f,
                level as int,
                origin.x as int,
                origin.y as int,
                origin.z as int,
            ),
        decreases level,
    {
        let ghost s = self.slots();
        let ghost lv = level as int;
        let ghost (x, y, z) = (origin.x as int, origin.y as int, origin.z as int);
        if node.is_empty() {
            proof {
                assert(constant(f, 0, x, y, z, extent_of(lv))) by {
                    assert forall|a: int, b: int, c: int|
                        x <= a < x + extent_of(lv) && y <= b < y + extent_of(lv) && z <= c < z
                            + extent_of(lv) implies #[trigger] f(a, b, c) == 0 by {
                        crate::tree::lemma_uniform(s, node, lv, a - x, b - y, c - z);
                        assert(voxel_at(s, node, lv, a - x, b - y, c - z) == f(
                            x + (a - x),
                            y + (b - y),
                            z + (c - z),
                        ));
                    }
                }
                lemma_walk_empty(f, lv, x, y, z);
                assert(out@ + walk(f, lv, x, y, z) =~= out@);
            }
            return;
        }
        let ghost before = out@;
        if level == 0 {
            proof {
                reveal_with_fuel(extent_of, 2);
                assert(before + walk_upto(f, 0, x, y, z, 0) =~= before);
            }
            for i in 0..CHILDREN
                invariant
                    fits(self.slots()),
                    s == self.slots(),
                    wf(s, node, 0),
                    (x, y, z) == (origin.x as int, origin.y as int, origin.z as int),
                    x + 4 <= 0x4000_0000,
                    y + 4 <= 0x4000_0000,
                    z + 4 <= 0x4000_0000,
                    extent_of(0) == 4,
                    extent_of(-1) == 1,
                    crate::plan::stands_for(f, s, node, 0, x, y, z),
                    out@ == before + walk_upto(f, 0, x, y, z, i as int),
            {
                proof {
                    lemma_cell(i as int);
                    if bit(node.mask, i as int) {
                        lemma_slot_in_block(node, i as int);
                        lemma_zero_mask(node.mask);
                    }
                }
                let m = match node.child_slot(i) {
                    Some(slot) => self.arena.voxel(slot),
                    None => if node.is_uniform_solid() {
                        node.material().0
                    } else {
                        0
                    },
                };
                let p = UVec3::new(
                    origin.x + i % BRICK_EDGE,
                    origin.y + (i / BRICK_EDGE) % BRICK_EDGE,
                    origin.z + i / (BRICK_EDGE * BRICK_EDGE),
                );
                let ghost earlier = out@;
                if m != 0 {
                    out.push((p, MaterialId(m)));
                }
                proof {
                    let (dx, dy, dz) = (i as int % 4, (i as int / 4) % 4, i as int / 16);
                    assert(voxel_at(s, node, 0, dx, dy, dz) == f(x + dx, y + dy, z + dz));
                    reveal_with_fuel(walk, 2);
                    let one = walk(f, -1, x + dx, y + dy, z + dz);
                    assert(child_x(x, i as int, 0) == x + dx);
                    assert(child_y(y, i as int, 0) == y + dy);
                    assert(child_z(z, i as int, 0) == z + dz);
                    assert(out@ =~= earlier + one);
                    assert(before + walk_upto(f, 0, x, y, z, i + 1) =~= (before + walk_upto(
                        f,
                        0,
                        x,
                        y,
                        z,
                        i as int,
                    )) + one);
                }
            }
            return;
        }
        let step = level_extent(level - 1);
        proof {
            lemma_extent(lv);
            assert(before + walk_upto(f, lv, x, y, z, 0) =~= before);
        }
        for i in 0..CHILDREN
            invariant
                1 <= level <= 14,
                lv == level,
                fits(self.slots()),
                s == self.slots(),
                wf(s, node, lv),
                !node.vacant(),
                (x, y, z) == (origin.x as int, origin.y as int, origin.z as int),
                x + extent_of(lv) <= 0x4000_0000,
                y + extent_of(lv) <= 0x4000_0000,
                z + extent_of(lv) <= 0x4000_0000,
                step == extent_of(lv - 1),
                step >= 4,
                extent_of(lv) == 4 * step,
                crate::plan::stands_for(f, s, node, lv, x, y, z),
                out@ == before + walk_upto(f, lv, x, y, z, i as int),
        {
            proof {
                lemma_cell(i as int);
                lemma_child_inside(x, y, z, lv, i as int);
                lemma_cell_inside(i as int % 4, step as int);
                lemma_cell_inside((i as int / 4) % 4, step as int);
                lemma_cell_inside(i as int / 16, step as int);
                if bit(node.mask, i as int) {
                    lemma_slot_in_block(node, i as int);
                    lemma_zero_mask(node.mask);
                }
                if node.mask == 0 {
                    lemma_no_kids(s, node, i as int);
                } else {
                    assert(wf(s, kid(s, node, i as int), lv - 1));
                }
            }
            let child = match node.child_slot(i) {
                Some(slot) => self.arena.node(slot),
                None => if node.is_uniform_solid() {
                    node
                } else {
                    Node::empty()
                },
            };
            let child_origin = UVec3::new(
                origin.x + (i % BRICK_EDGE) * step,
                origin.y + ((i / BRICK_EDGE) % BRICK_EDGE) * step,
                origin.z + (i / (BRICK_EDGE * BRICK_EDGE)) * step,
            );
            let ghost earlier = out@;
            proof {
                assert(child == kid(s, node, i as int));
                lemma_child_stands(f, s, node, lv, x, y, z, i as int);
            }
            self.walk_node(child, level - 1, child_origin, out, Ghost(f));
            proof {
                assert(before + walk_upto(f, lv, x, y, z, i + 1) =~= (before + walk_upto(
                    f,
                    lv,
                    x,
                    y,
                    z,
                    i as int,
                )) + walk(
                    f,
                    lv - 1,
                    child_x(x, i as int, lv),
                    child_y(y, i as int, lv),
                    child_z(z, i as int, lv),
                ));
            }
        }
    }
}

/// What stands at a child stands for the child's share of the voxels.
pub proof fn lemma_child_stands(
    f: spec_fn(int, int, int) -> u8,
    s: Slots,
    node: Node,
    level: int,
    x: int,
    y: int,
    z: int,
    i: int,
)
    requires
        level >= 1,
        0 <= i < 64,
        crate::plan::stands_for(f, s, node, level, x, y, z),
    ensures
        crate::plan::stands_for(
            f,
            s,
            kid(s, node, i),
            level - 1,
            child_x(x, i, level),
            child_y(y, i, level),
            child_z(z, i, level),
        ),
{
    let step = extent_of(level - 1);
    lemma_extent(level);
    lemma_extent(level - 1);
    lemma_cell(i);
    lemma_child_inside(0, 0, 0, level, i);
    let (cx, cy, cz) = (child_x(x, i, level), child_y(y, i, level), child_z(z, i, level));
    assert forall|dx: int, dy: int, dz: int|
        0 <= dx < step && 0 <= dy < step && 0 <= dz < step implies #[trigger] voxel_at(
        s,
        kid(s, node, i),
        level - 1,
        dx,
        dy,
        dz,
    ) == f(cx + dx, cy + dy, cz + dz) by {
        let (ex, ey, ez) = (
            (i % 4) * step + dx,
            ((i / 4) % 4) * step + dy,
            (i / 16) * step + dz,
        );
        lemma_join_coord(i % 4, dx, step);
        lemma_join_coord((i / 4) % 4, dy, step);
        lemma_join_coord(i / 16, dz, step);
        assert(voxel_at(s, node, level, ex, ey, ez) == f(x + ex, y + ey, z + ez));
    }
}

/// The solid voxels of a cube, each child's before the next child's.
pub open spec fn walk(
    f: spec_fn(int, int, int) -> u8,
    level: int,
    x: int,
    y: int,
    z: int,
) -> Seq<(UVec3, MaterialId)>
    decreases level + 1, 65int,
{
    if level < 0 {
        if f(x, y, z) != 0 {
            seq![(UVec3 { x: x as u32, y: y as u32, z: z as u32 }, MaterialId(f(x, y, z)))]
        } else {
            Seq::empty()
        }
    } else {
        walk_upto(f, level, x, y, z, 64)
    }
}

/// The solid voxels of the first `n` children.
pub open spec fn walk_upto(
    f: spec_fn(int, int, int) -> u8,
    level: int,
    x: int,
    y: int,
    z: int,
    n: int,
) -> Seq<(UVec3, MaterialId)>
    decreases level + 1, n,
{
    if n <= 0 || level < 0 {
        Seq::empty()
    } else {
        walk_upto(f, level, x, y, z, n - 1) + walk(
            f,
            level - 1,
            child_x(x, n - 1, level),
            child_y(y, n - 1, level),
            child_z(z, n - 1, level),
        )
    }
}

/// A walk depends only on what its cube holds.
pub proof fn lemma_walk_local(
    f: spec_fn(int, int, int) -> u8,
    g: spec_fn(int, int, int) -> u8,
    level: int,
    x: int,
    y: int,
    z: int,
)
    requires
        level >= -1,
        forall|px: int, py: int, pz: int|
            x <= px < x + extent_of(level) && y <= py < y + extent_of(level) && z <= pz < z
                + extent_of(level) ==> #[trigger] f(px, py, pz) == g(px, py, pz),
    ensures
        walk(f, level, x, y, z) == walk(g, level, x, y, z),
    decreases level + 1, 65int,
{
    if level >= 0 {
        lemma_walk_upto_local(f, g, level, x, y, z, 64);
    } else {
        assert(f(x, y, z) == g(x, y, z));
    }
}

proof fn lemma_walk_upto_local(
    f: spec_fn(int, int, int) -> u8,
    g: spec_fn(int, int, int) -> u8,
    level: int,
    x: int,
    y: int,
    z: int,
    n: int,
)
    requires
        level >= 0,
        0 <= n <= 64,
        forall|px: int, py: int, pz: int|
            x <= px < x + extent_of(level) && y <= py < y + extent_of(level) && z <= pz < z
                + extent_of(level) ==> #[trigger] f(px, py, pz) == g(px, py, pz),
    ensures
        walk_upto(f, level, x, y, z, n) == walk_upto(g, level, x, y, z, n),
    decreases level + 1, n,
{
    if n > 0 {
        lemma_walk_upto_local(f, g, level, x, y, z, n - 1);
        lemma_child_cube(x, y, z, level, n - 1);
        lemma_walk_local(
            f,
            g,
            level - 1,
            child_x(x, n - 1, level),
            child_y(y, n - 1, level),
            child_z(z, n - 1, level),
        );
    }
}

/// Whether a walk meets a position.
pub open spec fn walked(out: Seq<(UVec3, MaterialId)>, p: UVec3) -> bool {
    exists|k: int| 0 <= k < out.len() && (#[trigger] out[k]).0 == p
}

/// Nothing solid, nothing walked.
pub proof fn lemma_walk_empty(
    f: spec_fn(int, int, int) -> u8,
    level: int,
    x: int,
    y: int,
    z: int,
)
    requires
        level >= -1,
        constant(f, 0, x, y, z, extent_of(level)),
    ensures
        walk(f, level, x, y, z) == Seq::<(UVec3, MaterialId)>::empty(),
    decreases level + 1, 65int,
{
    if level < 0 {
        assert(f(x, y, z) == 0);
    } else {
        lemma_walk_upto_empty(f, level, x, y, z, 64);
    }
}

proof fn lemma_walk_upto_empty(
    f: spec_fn(int, int, int) -> u8,
    level: int,
    x: int,
    y: int,
    z: int,
    n: int,
)
    requires
        level >= 0,
        0 <= n <= 64,
        constant(f, 0, x, y, z, extent_of(level)),
    ensures
        walk_upto(f, level, x, y, z, n) =~= Seq::<(UVec3, MaterialId)>::empty(),
    decreases level + 1, n,
{
    if n > 0 {
        lemma_walk_upto_empty(f, level, x, y, z, n - 1);
        lemma_child_cube(x, y, z, level, n - 1);
        lemma_walk_empty(
            f,
            level - 1,
            child_x(x, n - 1, level),
            child_y(y, n - 1, level),
            child_z(z, n - 1, level),
        );
    }
}

/// A child's cube lies inside its parent's, at every level.
pub proof fn lemma_child_cube(x: int, y: int, z: int, level: int, i: int)
    requires
        level >= 0,
        0 <= i < 64,
    ensures
        x <= child_x(x, i, level),
        child_x(x, i, level) + extent_of(level - 1) <= x + extent_of(level),
        y <= child_y(y, i, level),
        child_y(y, i, level) + extent_of(level - 1) <= y + extent_of(level),
        z <= child_z(z, i, level),
        child_z(z, i, level) + extent_of(level - 1) <= z + extent_of(level),
{
    lemma_extent(level);
    lemma_extent(level - 1);
    lemma_cell(i);
    let step = extent_of(level - 1);
    lemma_cell_inside(i % 4, step);
    lemma_cell_inside((i / 4) % 4, step);
    lemma_cell_inside(i / 16, step);
}

/// Whether a position is in the cube of a level.
pub open spec fn in_cube(p: UVec3, x: int, y: int, z: int, extent: int) -> bool {
    x <= p.x < x + extent && y <= p.y < y + extent && z <= p.z < z + extent
}

/// A walk meets each solid voxel of the cube once, and nothing else.
pub open spec fn walks_cube(
    out: Seq<(UVec3, MaterialId)>,
    f: spec_fn(int, int, int) -> u8,
    x: int,
    y: int,
    z: int,
    extent: int,
) -> bool {
    &&& forall|k: int|
        0 <= k < out.len() ==> {
            let (p, m) = #[trigger] out[k];
            in_cube(p, x, y, z, extent) && m.0 == f(p.x as int, p.y as int, p.z as int) && m.0 != 0
        }
    &&& forall|k: int, l: int|
        0 <= k < l < out.len() ==> (#[trigger] out[k]).0 != (#[trigger] out[l]).0
    &&& forall|p: UVec3|
        in_cube(p, x, y, z, extent) && f(p.x as int, p.y as int, p.z as int) != 0
            ==> #[trigger] walked(out, p)
}

pub proof fn lemma_walk(f: spec_fn(int, int, int) -> u8, level: int, x: int, y: int, z: int)
    requires
        level >= -1,
        0 <= x && x + extent_of(level) <= 0x1_0000_0000,
        0 <= y && y + extent_of(level) <= 0x1_0000_0000,
        0 <= z && z + extent_of(level) <= 0x1_0000_0000,
    ensures
        walks_cube(walk(f, level, x, y, z), f, x, y, z, extent_of(level)),
    decreases level + 1, 65int,
{
    let out = walk(f, level, x, y, z);
    if level < 0 {
        let p = UVec3 { x: x as u32, y: y as u32, z: z as u32 };
        if f(x, y, z) != 0 {
            assert(out[0].0 == p);
            assert(walked(out, p));
        }
        assert forall|q: UVec3|
            in_cube(q, x, y, z, extent_of(level)) && f(q.x as int, q.y as int, q.z as int)
                != 0 implies #[trigger] walked(out, q) by {
            assert(q == p);
        }
    } else {
        lemma_walk_upto(f, level, x, y, z, 64);
        assert(out == walk_upto(f, level, x, y, z, 64));
        assert forall|p: UVec3|
            in_cube(p, x, y, z, extent_of(level)) && f(p.x as int, p.y as int, p.z as int)
                != 0 implies #[trigger] walked(out, p) by {
            lemma_place_in_child(p, x, y, z, level);
            assert(walked(walk_upto(f, level, x, y, z, 64), p));
        }
    }
}

/// The child a position lies in, at every level.
pub open spec fn cell_at(p: UVec3, x: int, y: int, z: int, level: int) -> int {
    cell_of(p, x, y, z, extent_of(level - 1))
}

pub proof fn lemma_place_in_child(p: UVec3, x: int, y: int, z: int, level: int)
    requires
        level >= 0,
        in_cube(p, x, y, z, extent_of(level)),
    ensures
        0 <= cell_at(p, x, y, z, level) < 64,
        forall|i: int|
            0 <= i < 64 ==> (#[trigger] in_cube(
                p,
                child_x(x, i, level),
                child_y(y, i, level),
                child_z(z, i, level),
                extent_of(level - 1),
            ) <==> i == cell_at(p, x, y, z, level)),
{
    let step = extent_of(level - 1);
    lemma_extent(level);
    lemma_extent(level - 1);
    lemma_split(p.x - x, step);
    lemma_split(p.y - y, step);
    lemma_split(p.z - z, step);
    lemma_ordinal((p.x - x) / step, (p.y - y) / step, (p.z - z) / step);
    assert forall|i: int| 0 <= i < 64 implies (#[trigger] in_cube(
        p,
        child_x(x, i, level),
        child_y(y, i, level),
        child_z(z, i, level),
        step,
    ) <==> i == cell_at(p, x, y, z, level)) by {
        lemma_cell(i);
        if in_cube(p, child_x(x, i, level), child_y(y, i, level), child_z(z, i, level), step) {
            lemma_join_coord(i % 4, p.x - child_x(x, i, level), step);
            lemma_join_coord((i / 4) % 4, p.y - child_y(y, i, level), step);
            lemma_join_coord(i / 16, p.z - child_z(z, i, level), step);
        }
    }
}

proof fn lemma_walk_upto(
    f: spec_fn(int, int, int) -> u8,
    level: int,
    x: int,
    y: int,
    z: int,
    n: int,
)
    requires
        level >= 0,
        0 <= n <= 64,
        0 <= x && x + extent_of(level) <= 0x1_0000_0000,
        0 <= y && y + extent_of(level) <= 0x1_0000_0000,
        0 <= z && z + extent_of(level) <= 0x1_0000_0000,
    ensures
        ({
            let out = walk_upto(f, level, x, y, z, n);
            &&& forall|k: int|
                0 <= k < out.len() ==> {
                    let (p, m) = #[trigger] out[k];
                    &&& in_cube(p, x, y, z, extent_of(level))
                    &&& cell_at(p, x, y, z, level) < n
                    &&& m.0 == f(p.x as int, p.y as int, p.z as int)
                    &&& m.0 != 0
                }
            &&& forall|k: int, l: int|
                0 <= k < l < out.len() ==> (#[trigger] out[k]).0 != (#[trigger] out[l]).0
            &&& forall|p: UVec3|
                in_cube(p, x, y, z, extent_of(level)) && cell_at(p, x, y, z, level) < n && f(
                    p.x as int,
                    p.y as int,
                    p.z as int,
                ) != 0 ==> #[trigger] walked(out, p)
        }),
    decreases level + 1, n,
{
    let out = walk_upto(f, level, x, y, z, n);
    if n > 0 {
        let i = n - 1;
        let before = walk_upto(f, level, x, y, z, n - 1);
        let (cx, cy, cz) = (child_x(x, i, level), child_y(y, i, level), child_z(z, i, level));
        let more = walk(f, level - 1, cx, cy, cz);
        lemma_walk_upto(f, level, x, y, z, n - 1);
        lemma_child_cube(x, y, z, level, i);
        lemma_walk(f, level - 1, cx, cy, cz);
        assert forall|k: int| before.len() <= k < out.len() implies cell_at(
            (#[trigger] out[k]).0,
            x,
            y,
            z,
            level,
        ) == i && in_cube(out[k].0, x, y, z, extent_of(level)) by {
            assert(out[k] == more[k - before.len()]);
            lemma_place_in_child(out[k].0, x, y, z, level);
            assert(in_cube(out[k].0, cx, cy, cz, extent_of(level - 1)));
        }
        assert forall|k: int| 0 <= k < out.len() implies {
            let (p, m) = #[trigger] out[k];
            &&& in_cube(p, x, y, z, extent_of(level))
            &&& cell_at(p, x, y, z, level) < n
            &&& m.0 == f(p.x as int, p.y as int, p.z as int)
            &&& m.0 != 0
        } by {
            if k < before.len() {
                assert(out[k] == before[k]);
            } else {
                assert(out[k] == more[k - before.len()]);
            }
        }
        assert forall|k: int, l: int| 0 <= k < l < out.len() implies (#[trigger] out[k]).0 != (
        #[trigger] out[l]).0 by {
            if l < before.len() {
                assert(out[k] == before[k] && out[l] == before[l]);
            } else if k >= before.len() {
                assert(out[k] == more[k - before.len()] && out[l] == more[l - before.len()]);
            } else {
                assert(out[k] == before[k]);
            }
        }
        assert forall|p: UVec3|
            in_cube(p, x, y, z, extent_of(level)) && cell_at(p, x, y, z, level) < n && f(
                p.x as int,
                p.y as int,
                p.z as int,
            ) != 0 implies #[trigger] walked(out, p) by {
            lemma_place_in_child(p, x, y, z, level);
            if cell_at(p, x, y, z, level) == i {
                assert(in_cube(p, cx, cy, cz, extent_of(level - 1)));
                assert(walked(more, p));
                let k = choose|k: int| 0 <= k < more.len() && (#[trigger] more[k]).0 == p;
                assert(out[before.len() + k] == more[k]);
            } else {
                assert(walked(before, p));
                let k = choose|k: int| 0 <= k < before.len() && (#[trigger] before[k]).0 == p;
                assert(out[k] == before[k]);
            }
        }
    }
}

/// Builds the node covering `level_extent(level)` voxels from `origin` out of
/// the voxels listed in it.
fn build_sparse(
    arena: &mut NodeArena,
    voxels: &Vec<(UVec3, MaterialId)>,
    level: u32,
    origin: UVec3,
) -> (node: Node)
    requires
        level <= 14,
        old(arena).wf(),
        none_free(*old(arena)),
        origin.x + extent_of(level as int) <= 0x4000_0000,
        origin.y + extent_of(level as int) <= 0x4000_0000,
        origin.z + extent_of(level as int) <= 0x4000_0000,
        all_inside(
            voxels@,
            origin.x as int,
            origin.y as int,
            origin.z as int,
            extent_of(level as int),
        ),
        fits(
            plan(
                list_voxels(voxels@),
                old(arena).slots(),
                level as int,
                origin.x as int,
                origin.y as int,
                origin.z as int,
            ).0,
        ),
    ensures
        final(arena).wf(),
        none_free(*final(arena)),
        marked(*old(arena), *final(arena)),
        (final(arena).slots(), node) == plan(
            list_voxels(voxels@),
            old(arena).slots(),
            level as int,
            origin.x as int,
            origin.y as int,
            origin.z as int,
        ),
    decreases level,
{
    let ghost f = list_voxels(voxels@);
    let ghost lv = level as int;
    let ghost (x, y, z) = (origin.x as int, origin.y as int, origin.z as int);
    if voxels.len() == 0 {
        proof {
            assert(constant(f, 0, x, y, z, extent_of(lv)));
            lemma_plan_constant(f, 0, arena.slots(), lv, x, y, z);
        }
        return Node::empty();
    }
    if level == 0 {
        return build_sparse_leaf(arena, voxels, origin);
    }
    let ghost start = *arena;
    let step = level_extent(level - 1);
    let buckets = split_by_child(voxels, level, origin);
    let mut children: Vec<Node> = Vec::new();
    proof {
        lemma_extent(lv);
    }
    for i in 0..CHILDREN
        invariant
            1 <= level <= 14,
            lv == level,
            f == list_voxels(voxels@),
            (x, y, z) == (origin.x as int, origin.y as int, origin.z as int),
            step == extent_of(lv - 1),
            step >= 4,
            x + extent_of(lv) <= 0x4000_0000,
            y + extent_of(lv) <= 0x4000_0000,
            z + extent_of(lv) <= 0x4000_0000,
            buckets@.len() == 64,
            forall|b: int| 0 <= b < 64 ==> is_bucket(voxels@, (#[trigger] buckets@[b])@, lv, x, y, z, b),
            arena.wf(),
            none_free(*arena),
            marked(start, *arena),
            fits(plan(f, start.slots(), lv, x, y, z).0),
            (arena.slots(), children@) == plan_kids(f, start.slots(), lv, x, y, z, i as int),
            children@.len() == i,
    {
        let ghost before = *arena;
        let ghost (cx, cy, cz) = (
            child_x(x, i as int, lv),
            child_y(y, i as int, lv),
            child_z(z, i as int, lv),
        );
        proof {
            lemma_cell(i as int);
            lemma_child_inside(x, y, z, lv, i as int);
            lemma_plan_kids_extends(f, start.slots(), lv, x, y, z, i + 1, 64);
            let (t, kids) = plan_kids(f, start.slots(), lv, x, y, z, 64);
            assert(extends(t, crate::store::join_nodes(t, kids).0));
            lemma_cell_inside(i as int % 4, step as int);
            lemma_cell_inside((i as int / 4) % 4, step as int);
            lemma_cell_inside(i as int / 16, step as int);
            let bucket = buckets@[i as int]@;
            assert(is_bucket(voxels@, bucket, lv, x, y, z, i as int));
            let g = list_voxels(bucket);
            assert(alike(g, f, cx, cy, cz, extent_of(lv - 1))) by {
                assert forall|a: int, b: int, c: int|
                    cx <= a < cx + extent_of(lv - 1) && cy <= b < cy + extent_of(lv - 1) && cz <= c
                        < cz + extent_of(lv - 1) implies #[trigger] g(a, b, c) == f(a, b, c) by {
                    let p = UVec3 { x: a as u32, y: b as u32, z: c as u32 };
                    assert(in_cube(p, cx, cy, cz, extent_of(lv - 1)));
                    assert(listed(bucket, p) == listed(voxels@, p));
                }
            }
            lemma_plan_same(g, f, arena.slots(), lv - 1, cx, cy, cz);
        }
        let child_origin = UVec3::new(
            origin.x + (i % BRICK_EDGE) * step,
            origin.y + ((i / BRICK_EDGE) % BRICK_EDGE) * step,
            origin.z + (i / (BRICK_EDGE * BRICK_EDGE)) * step,
        );
        let child = build_sparse(arena, &buckets[i as usize], level - 1, child_origin);
        children.push(child);
        proof {
            lemma_marked_trans(start, before, *arena);
        }
    }
    let ghost before = *arena;
    proof {
        lemma_zero_mask(0);
        crate::store::lemma_mask_extremes(crate::store::nodes_present(children@));
        crate::store::lemma_packed(children@, crate::store::nodes_present(children@), 64);
    }
    let node = store_nodes(arena, &children);
    proof {
        lemma_taken_marked(before, *arena, node, false);
        lemma_marked_trans(start, before, *arena);
    }
    node
}

/// The voxels of a list that lie in child `b`, in the list's order as far as it
/// matters: what they say of each position there is what the list says.
spec fn is_bucket(
    voxels: Seq<(UVec3, MaterialId)>,
    bucket: Seq<(UVec3, MaterialId)>,
    level: int,
    x: int,
    y: int,
    z: int,
    b: int,
) -> bool {
    let (cx, cy, cz) = (child_x(x, b, level), child_y(y, b, level), child_z(z, b, level));
    &&& all_inside(bucket, cx, cy, cz, extent_of(level - 1))
    &&& forall|p: UVec3|
        in_cube(p, cx, cy, cz, extent_of(level - 1)) ==> #[trigger] listed(bucket, p) == listed(
            voxels,
            p,
        )
}

/// Sorts a list of voxels by the child they lie in.
fn split_by_child(
    voxels: &Vec<(UVec3, MaterialId)>,
    level: u32,
    origin: UVec3,
) -> (buckets: Vec<Vec<(UVec3, MaterialId)>>)
    requires
        1 <= level <= 14,
        all_inside(
            voxels@,
            origin.x as int,
            origin.y as int,
            origin.z as int,
            extent_of(level as int),
        ),
    ensures
        buckets@.len() == 64,
        forall|b: int|
            0 <= b < 64 ==> is_bucket(
                voxels@,
                (#[trigger] buckets@[b])@,
                level as int,
                origin.x as int,
                origin.y as int,
                origin.z as int,
                b,
            ),
{
    let ghost lv = level as int;
    let ghost (x, y, z) = (origin.x as int, origin.y as int, origin.z as int);
    let step = level_extent(level - 1);
    let mut buckets: Vec<Vec<(UVec3, MaterialId)>> = Vec::new();
    for b in 0..CHILDREN
        invariant
            buckets@.len() == b,
            forall|c: int| 0 <= c < b ==> (#[trigger] buckets@[c])@.len() == 0,
    {
        buckets.push(Vec::new());
    }
    for n in 0..voxels.len()
        invariant
            1 <= level <= 14,
            lv == level,
            (x, y, z) == (origin.x as int, origin.y as int, origin.z as int),
            step == extent_of(lv - 1),
            step >= 4,
            all_inside(voxels@, x, y, z, extent_of(lv)),
            buckets@.len() == 64,
            forall|b: int|
                0 <= b < 64 ==> is_bucket(
                    voxels@.take(n as int),
                    (#[trigger] buckets@[b])@,
                    lv,
                    x,
                    y,
                    z,
                    b,
                ),
    {
        let (p, m) = voxels[n];
        let ghost before = buckets@;
        let ghost taken = voxels@.take(n as int);
        let ghost more = voxels@.take(n + 1);
        proof {
            let entry = voxels@[n as int];
            lemma_extent(lv);
            lemma_split(p.x - x, step as int);
            lemma_split(p.y - y, step as int);
            lemma_split(p.z - z, step as int);
            lemma_ordinal(
                (p.x - x) / step as int,
                (p.y - y) / step as int,
                (p.z - z) / step as int,
            );
            assert(more.drop_last() =~= taken);
            assert(more.last() == (p, m));
        }
        let i = child_index(
            (p.x - origin.x) / step,
            (p.y - origin.y) / step,
            (p.z - origin.z) / step,
        );
        buckets[i as usize].push((p, m));
        proof {
            assert forall|b: int| 0 <= b < 64 implies is_bucket(
                more,
                (#[trigger] buckets@[b])@,
                lv,
                x,
                y,
                z,
                b,
            ) by {
                let (cx, cy, cz) = (child_x(x, b, lv), child_y(y, b, lv), child_z(z, b, lv));
                let old_bucket = before[b]@;
                let bucket = buckets@[b]@;
                assert(is_bucket(taken, old_bucket, lv, x, y, z, b));
                lemma_cell_of(p, x, y, z, lv, b);
                if b == i {
                    assert(bucket == old_bucket.push((p, m)));
                    assert(bucket.drop_last() =~= old_bucket);
                } else {
                    assert(bucket == old_bucket);
                }
                assert forall|q: UVec3|
                    in_cube(q, cx, cy, cz, extent_of(lv - 1)) implies #[trigger] listed(bucket, q)
                    == listed(more, q) by {
                    assert(listed(old_bucket, q) == listed(taken, q));
                }
            }
        }
    }
    proof {
        assert(voxels@.take(voxels@.len() as int) =~= voxels@);
    }
    buckets
}

fn build_sparse_leaf(
    arena: &mut NodeArena,
    voxels: &Vec<(UVec3, MaterialId)>,
    origin: UVec3,
) -> (node: Node)
    requires
        old(arena).wf(),
        none_free(*old(arena)),
        origin.x + 4 <= 0x4000_0000,
        origin.y + 4 <= 0x4000_0000,
        origin.z + 4 <= 0x4000_0000,
        all_inside(voxels@, origin.x as int, origin.y as int, origin.z as int, extent_of(0)),
        fits(
            plan(
                list_voxels(voxels@),
                old(arena).slots(),
                0,
                origin.x as int,
                origin.y as int,
                origin.z as int,
            ).0,
        ),
    ensures
        final(arena).wf(),
        none_free(*final(arena)),
        marked(*old(arena), *final(arena)),
        (final(arena).slots(), node) == plan(
            list_voxels(voxels@),
            old(arena).slots(),
            0,
            origin.x as int,
            origin.y as int,
            origin.z as int,
        ),
{
    let ghost f = list_voxels(voxels@);
    let ghost (x, y, z) = (origin.x as int, origin.y as int, origin.z as int);
    let ghost bytes = brick_bytes(f, x, y, z);
    let mut materials: Vec<u8> = vec![0; 64];
    proof {
        reveal_with_fuel(extent_of, 2);
    }
    for n in 0..voxels.len()
        invariant
            (x, y, z) == (origin.x as int, origin.y as int, origin.z as int),
            x + 4 <= 0x4000_0000,
            y + 4 <= 0x4000_0000,
            z + 4 <= 0x4000_0000,
            all_inside(voxels@, x, y, z, 4),
            materials@.len() == 64,
            forall|j: int|
                0 <= j < 64 ==> #[trigger] materials@[j] == list_voxels(voxels@.take(n as int))(
                    x + j % 4,
                    y + (j / 4) % 4,
                    z + j / 16,
                ),
    {
        let (p, m) = voxels[n];
        let ghost before = materials@;
        let ghost taken = voxels@.take(n as int);
        let ghost more = voxels@.take(n + 1);
        proof {
            let entry = voxels@[n as int];
            assert(more.drop_last() =~= taken);
            assert(more.last() == (p, m));
            lemma_ordinal(p.x - x, p.y - y, p.z - z);
        }
        let i = child_index(p.x - origin.x, p.y - origin.y, p.z - origin.z);
        materials.set(i as usize, m.0);
        proof {
            assert forall|j: int| 0 <= j < 64 implies #[trigger] materials@[j] == list_voxels(more)(
                x + j % 4,
                y + (j / 4) % 4,
                z + j / 16,
            ) by {
                lemma_cell(j);
                assert(before[j] == list_voxels(taken)(x + j % 4, y + (j / 4) % 4, z + j / 16));
            }
        }
    }
    proof {
        assert(voxels@.take(voxels@.len() as int) =~= voxels@);
        assert(materials@ =~= bytes);
        lemma_zero_mask(0);
        crate::store::lemma_mask_extremes(crate::store::voxels_present(bytes));
        crate::store::lemma_packed(bytes, crate::store::voxels_present(bytes), 64);
    }
    let ghost start = *arena;
    let node = store_voxels(arena, &materials);
    proof {
        lemma_taken_marked(start, *arena, node, true);
    }
    node
}

/// A brick's solid voxels are the ones it lists.
proof fn lemma_brick_walk(f: spec_fn(int, int, int) -> u8, x: int, y: int, z: int, n: int)
    requires
        0 <= n <= 64,
    ensures
        walk_upto(f, 0, x, y, z, n).len() == packed(
            brick_bytes(f, x, y, z),
            voxels_present(brick_bytes(f, x, y, z)),
            n,
        ).len(),
    decreases n,
{
    if n > 0 {
        lemma_brick_walk(f, x, y, z, n - 1);
        let i = n - 1;
        lemma_cell(i);
        reveal_with_fuel(extent_of, 2);
        let (dx, dy, dz) = (i % 4, (i / 4) % 4, i / 16);
        assert(child_x(x, i, 0) == x + dx);
        assert(child_y(y, i, 0) == y + dy);
        assert(child_z(z, i, 0) == z + dz);
        let one = walk(f, -1, x + dx, y + dy, z + dz);
        assert(one.len() == if f(x + dx, y + dy, z + dz) != 0 {
            1int
        } else {
            0
        });
        assert(walk_upto(f, 0, x, y, z, n) == walk_upto(f, 0, x, y, z, n - 1) + one);
    }
}

/// Building a cube takes no more voxel slots than it has solid voxels, and no more
/// node slots than that at each level.
pub proof fn lemma_plan_sparse(
    f: spec_fn(int, int, int) -> u8,
    s: Slots,
    level: int,
    x: int,
    y: int,
    z: int,
)
    requires
        level >= 0,
    ensures
        plan(f, s, level, x, y, z).0.voxels.len() <= s.voxels.len() + walk(
            f,
            level,
            x,
            y,
            z,
        ).len(),
        plan(f, s, level, x, y, z).0.nodes.len() <= s.nodes.len() + level * walk(
            f,
            level,
            x,
            y,
            z,
        ).len(),
        walk(f, level, x, y, z).len() == 0 ==> plan(f, s, level, x, y, z).1.vacant(),
    decreases level, 65int,
{
    if level == 0 {
        let solids = walk(f, level, x, y, z).len();
        assert(level * solids == 0) by (nonlinear_arith)
            requires
                level == 0,
        ;
        lemma_brick_walk(f, x, y, z, 64);
        let bytes = brick_bytes(f, x, y, z);
        let present = voxels_present(bytes);
        lemma_packed(bytes, present, 64);
        lemma_mask_extremes(present);
        if packed(bytes, present, 64).len() == 0 {
            assert forall|i: int| 0 <= i < 64 implies !present[i] by {
                if present[i] {
                    assert(bytes[i] == bytes[i]);
                }
            }
        }
    } else {
        lemma_plan_kids_sparse(f, s, level, x, y, z, 64);
        let (t, kids) = plan_kids(f, s, level, x, y, z, 64);
        let solids = walk(f, level, x, y, z).len();
        assert(solids == walk_upto(f, level, x, y, z, 64).len());
        let present = nodes_present(kids);
        assert(kids.take(64) =~= kids);
        assert(packed(kids, nodes_present(kids), 64).len() <= solids);
        lemma_packed(kids, present, 64);
        lemma_mask_extremes(present);
        assert((level - 1) * solids + solids == level * solids) by (nonlinear_arith);
        assert(0 <= level * solids) by (nonlinear_arith)
            requires
                level >= 0,
        ;
        if solids == 0 {
            assert forall|i: int| 0 <= i < 64 implies !present[i] by {
                if present[i] {
                    assert(kids[i] == kids[i]);
                }
            }
        }
    }
}

proof fn lemma_plan_kids_sparse(
    f: spec_fn(int, int, int) -> u8,
    s: Slots,
    level: int,
    x: int,
    y: int,
    z: int,
    n: int,
)
    requires
        level >= 1,
        0 <= n <= 64,
    ensures
        plan_kids(f, s, level, x, y, z, n).1.len() == n,
        plan_kids(f, s, level, x, y, z, n).0.voxels.len() <= s.voxels.len() + walk_upto(
            f,
            level,
            x,
            y,
            z,
            n,
        ).len(),
        plan_kids(f, s, level, x, y, z, n).0.nodes.len() <= s.nodes.len() + (level - 1)
            * walk_upto(f, level, x, y, z, n).len(),
        forall|kids: Seq<Node>|
            #![trigger packed(kids, nodes_present(kids), n)]
            kids.len() == 64 && plan_kids(f, s, level, x, y, z, n).1 == kids.take(n) ==> packed(
                kids,
                nodes_present(kids),
                n,
            ).len() <= walk_upto(f, level, x, y, z, n).len(),
    decreases level, n,
{
    if n > 0 {
        lemma_plan_kids_sparse(f, s, level, x, y, z, n - 1);
        let i = n - 1;
        let (t, had) = plan_kids(f, s, level, x, y, z, i);
        let step = extent_of(level - 1);
        let (cx, cy, cz) = (child_x(x, i, level), child_y(y, i, level), child_z(z, i, level));
        assert(cx == x + (i % 4) * step);
        assert(cy == y + ((i / 4) % 4) * step);
        assert(cz == z + (i / 16) * step);
        lemma_plan_sparse(f, t, level - 1, cx, cy, cz);
        let one = walk(f, level - 1, cx, cy, cz);
        let less = walk_upto(f, level, x, y, z, i);
        assert(walk_upto(f, level, x, y, z, n) == less + one);
        assert((level - 1) * less.len() + (level - 1) * one.len() == (level - 1) * (less.len()
            + one.len())) by (nonlinear_arith);
        let (u, child) = plan(f, t, level - 1, cx, cy, cz);
        assert(plan_kids(f, s, level, x, y, z, n) == (u, had.push(child)));
        assert forall|kids: Seq<Node>|
            #![trigger packed(kids, nodes_present(kids), n)]
            kids.len() == 64 && plan_kids(f, s, level, x, y, z, n).1 == kids.take(n) implies packed(
            kids,
            nodes_present(kids),
            n,
        ).len() <= walk_upto(f, level, x, y, z, n).len() by {
            assert(kids.take(n)[i] == kids[i]);
            assert(kids[i] == child);
            assert(had =~= kids.take(i)) by {
                assert(had.push(child).take(i) =~= had);
                assert(kids.take(n).take(i) =~= kids.take(i));
            }
            assert(packed(kids, nodes_present(kids), i).len() <= less.len());
        }
    } else {
        assert((level - 1) * 0 == 0);
    }
}

/// A list has no fewer entries than the solid voxels it builds.
proof fn lemma_list_walk(voxels: Seq<(UVec3, MaterialId)>, level: int)
    requires
        0 <= level <= 14,
        all_inside(voxels, 0, 0, 0, extent_of(level)),
    ensures
        walk(list_voxels(voxels), level, 0, 0, 0).len() <= voxels.len(),
{
    let f = list_voxels(voxels);
    lemma_extent_levels(level);
    lemma_walk(f, level, 0, 0, 0);
    let solids = walk(f, level, 0, 0, 0);
    let few = places(solids);
    let many = places(voxels);
    assert forall|i: int| 0 <= i < few.len() implies many.contains(#[trigger] few[i]) by {
        let p = solids[i].0;
        let k = lemma_listed_place(voxels, p);
        assert(many[k] == p);
    }
    lemma_no_more_than(few, many);
}

/// Every solid voxel of a tree is listed once, with its material, and nothing
/// else is.
pub proof fn lemma_solids(tree: Contree)
    requires
        tree.readable(),
    ensures
        forall|k: int|
            0 <= k < tree.solids().len() ==> {
                let (p, m) = #[trigger] tree.solids()[k];
                p.within(tree.side()) && m == tree.at(p) && m != MaterialId(0)
            },
        forall|k: int, l: int|
            0 <= k < l < tree.solids().len() ==> (#[trigger] tree.solids()[k]).0
                != (#[trigger] tree.solids()[l]).0,
        forall|p: UVec3|
            p.within(tree.side()) && #[trigger] tree.at(p) != MaterialId(0) ==> exists|k: int|
                0 <= k < tree.solids().len() && (#[trigger] tree.solids()[k]).0 == p,
{
    lemma_extent_levels(tree.height());
    let f = tree.field();
    lemma_walk(f, tree.height(), 0, 0, 0);
    let out = tree.solids();
    assert forall|p: UVec3|
        p.within(tree.side()) && #[trigger] tree.at(p) != MaterialId(0) implies exists|k: int|
        0 <= k < out.len() && (#[trigger] out[k]).0 == p by {
        assert(in_cube(p, 0, 0, 0, extent_of(tree.height())));
        assert(f(p.x as int, p.y as int, p.z as int) != 0);
        assert(walked(out, p));
    }
}

/// Whether one position comes before another in cubes of length `e`, where both lie in
/// one cube of four times that: by the third coordinate, then the second, then the first.
pub open spec fn cube_before(p: UVec3, q: UVec3, e: int) -> bool {
    let (a, b, c) = (p.x as int / e, p.y as int / e, p.z as int / e);
    let (u, v, w) = (q.x as int / e, q.y as int / e, q.z as int / e);
    &&& p.x as int / (4 * e) == q.x as int / (4 * e)
    &&& p.y as int / (4 * e) == q.y as int / (4 * e)
    &&& p.z as int / (4 * e) == q.z as int / (4 * e)
    &&& c < w || c == w && (b < v || b == v && a < u)
}

/// Whether one position comes before another: in the largest cubes that part them.
pub open spec fn comes_before(level: int, p: UVec3, q: UVec3) -> bool {
    exists|j: int| -1 <= j < level && #[trigger] cube_before(p, q, extent_of(j))
}

/// Where a position of an aligned cube falls among its quarters.
proof fn lemma_quarter(v: int, e: int, d: int, a: int)
    requires
        e >= 1,
        v >= 0,
        aligned(v, 4 * e),
        0 <= d < 4,
        v + d * e <= a < v + d * e + e,
    ensures
        a / e == 4 * (v / (4 * e)) + d,
        a / (4 * e) == v / (4 * e),
{
    vstd::arithmetic::div_mod::lemma_fundamental_div_mod(v, 4 * e);
    let t = v / (4 * e);
    assert(v == t * (4 * e) && v + d * e == (4 * t + d) * e) by (nonlinear_arith)
        requires
            v == (4 * e) * t,
    ;
    assert(0 <= d * e <= 3 * e) by (nonlinear_arith)
        requires
            0 <= d <= 3,
            e >= 1,
    ;
    vstd::arithmetic::div_mod::lemma_fundamental_div_mod_converse(
        a,
        e,
        4 * t + d,
        a - (v + d * e),
    );
    vstd::arithmetic::div_mod::lemma_fundamental_div_mod_converse(a, 4 * e, t, a - v);
}

/// Positions of two children come in child order.
proof fn lemma_child_before(level: int, x: int, y: int, z: int, i: int, j: int, p: UVec3, q: UVec3)
    requires
        level >= 0,
        0 <= i < j < 64,
        0 <= x && 0 <= y && 0 <= z,
        aligned(x, extent_of(level)),
        aligned(y, extent_of(level)),
        aligned(z, extent_of(level)),
        in_cube(p, child_x(x, i, level), child_y(y, i, level), child_z(z, i, level), extent_of(level - 1)),
        in_cube(q, child_x(x, j, level), child_y(y, j, level), child_z(z, j, level), extent_of(level - 1)),
    ensures
        comes_before(level, p, q),
{
    let e = extent_of(level - 1);
    lemma_extent(level);
    lemma_extent(level - 1);
    lemma_cell(i);
    lemma_cell(j);
    lemma_quarter(x, e, i % 4, p.x as int);
    lemma_quarter(y, e, (i / 4) % 4, p.y as int);
    lemma_quarter(z, e, i / 16, p.z as int);
    lemma_quarter(x, e, j % 4, q.x as int);
    lemma_quarter(y, e, (j / 4) % 4, q.y as int);
    lemma_quarter(z, e, j / 16, q.z as int);
    assert(cube_before(p, q, e));
}

/// A walk goes in that order.
proof fn lemma_walk_order(f: spec_fn(int, int, int) -> u8, level: int, x: int, y: int, z: int)
    requires
        level >= -1,
        0 <= x && x + extent_of(level) <= 0x1_0000_0000,
        0 <= y && y + extent_of(level) <= 0x1_0000_0000,
        0 <= z && z + extent_of(level) <= 0x1_0000_0000,
        aligned(x, extent_of(level)),
        aligned(y, extent_of(level)),
        aligned(z, extent_of(level)),
    ensures
        forall|k: int, l: int|
            0 <= k < l < walk(f, level, x, y, z).len() ==> comes_before(
                level,
                (#[trigger] walk(f, level, x, y, z)[k]).0,
                (#[trigger] walk(f, level, x, y, z)[l]).0,
            ),
    decreases level + 1, 65int,
{
    let out = walk(f, level, x, y, z);
    if level >= 0 {
        lemma_walk_upto_order(f, level, x, y, z, 64);
        assert(out == walk_upto(f, level, x, y, z, 64));
    } else {
        assert(out.len() <= 1);
    }
}

proof fn lemma_walk_upto_order(
    f: spec_fn(int, int, int) -> u8,
    level: int,
    x: int,
    y: int,
    z: int,
    n: int,
)
    requires
        level >= 0,
        0 <= n <= 64,
        0 <= x && x + extent_of(level) <= 0x1_0000_0000,
        0 <= y && y + extent_of(level) <= 0x1_0000_0000,
        0 <= z && z + extent_of(level) <= 0x1_0000_0000,
        aligned(x, extent_of(level)),
        aligned(y, extent_of(level)),
        aligned(z, extent_of(level)),
    ensures
        forall|k: int, l: int|
            0 <= k < l < walk_upto(f, level, x, y, z, n).len() ==> comes_before(
                level,
                (#[trigger] walk_upto(f, level, x, y, z, n)[k]).0,
                (#[trigger] walk_upto(f, level, x, y, z, n)[l]).0,
            ),
    decreases level + 1, n,
{
    if n > 0 {
        let i = n - 1;
        let out = walk_upto(f, level, x, y, z, n);
        let before = walk_upto(f, level, x, y, z, i);
        let (cx, cy, cz) = (child_x(x, i, level), child_y(y, i, level), child_z(z, i, level));
        let more = walk(f, level - 1, cx, cy, cz);
        let e = extent_of(level - 1);
        lemma_extent(level);
        lemma_extent(level - 1);
        lemma_walk_upto_order(f, level, x, y, z, i);
        lemma_walk_upto(f, level, x, y, z, i);
        lemma_child_cube(x, y, z, level, i);
        lemma_child_aligned(x, i % 4, e);
        lemma_child_aligned(y, (i / 4) % 4, e);
        lemma_child_aligned(z, i / 16, e);
        lemma_walk_order(f, level - 1, cx, cy, cz);
        lemma_walk(f, level - 1, cx, cy, cz);
        assert forall|k: int, l: int| 0 <= k < l < out.len() implies comes_before(
            level,
            (#[trigger] out[k]).0,
            (#[trigger] out[l]).0,
        ) by {
            let (p, q) = (out[k].0, out[l].0);
            if l < before.len() {
                assert(out[k] == before[k] && out[l] == before[l]);
            } else if k >= before.len() {
                assert(out[k] == more[k - before.len()] && out[l] == more[l - before.len()]);
                assert(comes_before(level - 1, p, q));
                let j = choose|j: int| -1 <= j < level - 1 && #[trigger] cube_before(p, q, extent_of(j));
                assert(cube_before(p, q, extent_of(j)));
            } else {
                assert(out[k] == before[k] && out[l] == more[l - before.len()]);
                lemma_place_in_child(p, x, y, z, level);
                let c = cell_at(p, x, y, z, level);
                lemma_child_before(level, x, y, z, c, i, p, q);
            }
        }
    }
}

/// A tree's voxels are listed cube by cube: two of them come in the order of the largest
/// cubes of the tree that part them, by the third coordinate, then the second, then the
/// first.
pub proof fn law_voxels_are_listed_cube_by_cube(tree: Contree, k: int, l: int)
    requires
        tree.readable(),
        0 <= k < l < tree.solids().len(),
    ensures
        comes_before(tree.height(), tree.solids()[k].0, tree.solids()[l].0),
{
    let level = tree.height();
    lemma_extent_levels(level);
    lemma_extent(level);
    if level < 14 {
        crate::dense::lemma_extent_strict(level, 14);
    }
    vstd::arithmetic::div_mod::lemma_small_mod(0, extent_of(level) as nat);
    lemma_walk_order(tree.field(), level, 0, 0, 0);
    let out = walk(tree.field(), level, 0, 0, 0);
    assert(out[k] == tree.solids()[k] && out[l] == tree.solids()[l]);
}

} // verus!
