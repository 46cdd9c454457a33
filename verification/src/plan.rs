//! How a tree is laid out when it is built from nothing: depth first, children
//! in ordinal order, each block of children after everything below it.

use crate::arena::Slots;
use crate::bits::{bit, lemma_rank_strict, lemma_zero_mask};
use crate::node::{ordinal, Node};
use crate::store::{
    clear_of_block, is_brick, is_join, join_bytes, join_nodes, lemma_brick, lemma_join,
    lemma_join_owns, lemma_join_sep, lemma_join_voxel, lemma_mask_bits, lemma_mask_extremes, lemma_packed, mask_of,
    nodes_present, owned_by_some, voxels_present,
};
use crate::tree::{
    agree, apart, byte_of, canon, extent_of, in_block, lemma_cell, lemma_extent, lemma_frame,
    lemma_frame_sep, lemma_frame_voxel, lemma_ordinal, lemma_split, owns, sep, voxel_at, wf,
};
use vstd::prelude::*;

verus! {

/// The 64 voxels of the brick at a position.
pub open spec fn brick_bytes(f: spec_fn(int, int, int) -> u8, x: int, y: int, z: int) -> Seq<u8> {
    Seq::new(64, |i: int| f(x + i % 4, y + (i / 4) % 4, z + i / 16))
}

/// The slots after building the cube of `extent_of(level)` voxels at a
/// position out of the voxels `f`, and the node that stands for it.
pub open spec fn plan(
    f: spec_fn(int, int, int) -> u8,
    s: Slots,
    level: int,
    x: int,
    y: int,
    z: int,
) -> (Slots, Node)
    decreases level, 65int,
{
    if level <= 0 {
        join_bytes(s, brick_bytes(f, x, y, z))
    } else {
        let (t, kids) = plan_kids(f, s, level, x, y, z, 64);
        join_nodes(t, kids)
    }
}

/// The slots after building the first `n` children, and the nodes for them.
pub open spec fn plan_kids(
    f: spec_fn(int, int, int) -> u8,
    s: Slots,
    level: int,
    x: int,
    y: int,
    z: int,
    n: int,
) -> (Slots, Seq<Node>)
    decreases level, n,
{
    if n <= 0 || level <= 0 {
        (s, Seq::empty())
    } else {
        let (t, kids) = plan_kids(f, s, level, x, y, z, n - 1);
        let step = extent_of(level - 1);
        let i = n - 1;
        let (u, child) = plan(
            f,
            t,
            level - 1,
            x + (i % 4) * step,
            y + ((i / 4) % 4) * step,
            z + (i / 16) * step,
        );
        (u, kids.push(child))
    }
}

/// Every slot of `s` is stored in `t` too.
pub open spec fn extends(s: Slots, t: Slots) -> bool {
    &&& s.nodes.len() <= t.nodes.len()
    &&& s.voxels.len() <= t.voxels.len()
    &&& forall|i: int| 0 <= i < s.nodes.len() ==> #[trigger] t.nodes[i] == s.nodes[i]
    &&& forall|i: int| 0 <= i < s.voxels.len() ==> #[trigger] t.voxels[i] == s.voxels[i]
}

/// Slots can be numbered in 32 bits.
pub open spec fn fits(s: Slots) -> bool {
    s.nodes.len() <= u32::MAX && s.voxels.len() <= u32::MAX
}

/// Building only adds.
pub proof fn lemma_plan_extends(
    f: spec_fn(int, int, int) -> u8,
    s: Slots,
    level: int,
    x: int,
    y: int,
    z: int,
)
    ensures
        extends(s, plan(f, s, level, x, y, z).0),
    decreases level, 65int,
{
    if level > 0 {
        lemma_plan_kids_extends(f, s, level, x, y, z, 0, 64);
    }
}

pub proof fn lemma_plan_kids_extends(
    f: spec_fn(int, int, int) -> u8,
    s: Slots,
    level: int,
    x: int,
    y: int,
    z: int,
    m: int,
    n: int,
)
    requires
        0 <= m <= n,
    ensures
        extends(plan_kids(f, s, level, x, y, z, m).0, plan_kids(f, s, level, x, y, z, n).0),
        level > 0 ==> plan_kids(f, s, level, x, y, z, n).1.len() == n,
    decreases level, n,
{
    if n > m && level > 0 {
        lemma_plan_kids_extends(f, s, level, x, y, z, m, n - 1);
        let t = plan_kids(f, s, level, x, y, z, n - 1).0;
        let step = extent_of(level - 1);
        let i = n - 1;
        lemma_plan_extends(
            f,
            t,
            level - 1,
            x + (i % 4) * step,
            y + ((i / 4) % 4) * step,
            z + (i / 16) * step,
        );
    } else if n > 0 && level > 0 {
        lemma_plan_kids_extends(f, s, level, x, y, z, n - 1, n - 1);
    }
}

/// What a join at the end of the slots is.
pub proof fn lemma_join_nodes(s: Slots, kids: Seq<Node>)
    requires
        kids.len() == 64,
        fits(join_nodes(s, kids).0),
    ensures
        ({
            let (t, node) = join_nodes(s, kids);
            &&& is_join(t, kids, node)
            &&& extends(s, t)
            &&& t.voxels == s.voxels
            &&& forall|slot: int| #[trigger]
                in_block(node, slot) ==> s.nodes.len() <= slot < t.nodes.len()
        }),
{
    let present = nodes_present(kids);
    let (t, node) = join_nodes(s, kids);
    lemma_mask_bits(present, 64);
    lemma_mask_extremes(present);
    lemma_packed(kids, present, 64);
    lemma_zero_mask(0);
    if node.mask == 0 {
        if mask_of(present, 64) == 0 {
            assert forall|i: int| 0 <= i < 64 implies (#[trigger] kids[i]).vacant() by {
                assert(!present[i]);
            }
        } else {
            assert(!kids[0].vacant());
        }
    } else {
        assert forall|i: int| 0 <= i < 64 implies bit(node.mask, i) == !(
        #[trigger] kids[i]).vacant() by {
            assert(bit(node.mask, i) == present[i]);
        }
        assert forall|i: int| 0 <= i < 64 && bit(node.mask, i) implies t.nodes[node.slot(i)]
            == #[trigger] kids[i] by {
            lemma_rank_strict(node.mask, i, 64);
            assert(present[i]);
        }
        if forall|i: int| 0 <= i < 64 ==> (#[trigger] kids[i]).vacant() {
            assert forall|i: int| 0 <= i < 64 implies !#[trigger] present[i] by {
                assert(kids[i].vacant());
            }
        }
    }
}

/// What a brick at the end of the slots is.
pub proof fn lemma_join_bytes(s: Slots, bytes: Seq<u8>)
    requires
        bytes.len() == 64,
        fits(join_bytes(s, bytes).0),
    ensures
        ({
            let (t, node) = join_bytes(s, bytes);
            &&& is_brick(t, bytes, node)
            &&& extends(s, t)
            &&& t.nodes == s.nodes
            &&& forall|slot: int| #[trigger]
                in_block(node, slot) ==> s.voxels.len() <= slot < t.voxels.len()
        }),
{
    let present = voxels_present(bytes);
    let (t, node) = join_bytes(s, bytes);
    lemma_mask_bits(present, 64);
    lemma_mask_extremes(present);
    lemma_packed(bytes, present, 64);
    lemma_zero_mask(0);
    if node.mask == 0 {
        if mask_of(present, 64) == 0 {
            assert forall|i: int| 0 <= i < 64 implies #[trigger] bytes[i] == 0 by {
                assert(!present[i]);
            }
        } else {
            assert(bytes[0] != 0);
        }
    } else {
        assert forall|i: int| 0 <= i < 64 implies bit(node.mask, i) == (#[trigger] bytes[i]
            != 0) by {
            assert(bit(node.mask, i) == present[i]);
        }
        assert forall|i: int| 0 <= i < 64 && bit(node.mask, i) implies t.voxels[node.slot(i)]
            == #[trigger] bytes[i] by {
            lemma_rank_strict(node.mask, i, 64);
            assert(present[i]);
        }
        if forall|i: int| 0 <= i < 64 ==> #[trigger] bytes[i] == 0 {
            assert forall|i: int| 0 <= i < 64 implies !#[trigger] present[i] by {
                assert(bytes[i] == 0);
            }
        }
    }
}

/// Well stored, canonical, and in slots added since `s`.
pub open spec fn placed(s: Slots, t: Slots, node: Node, level: int) -> bool {
    &&& wf(t, node, level)
    &&& sep(t, node, level)
    &&& canon(t, node, level)
    &&& forall|leaf: bool, slot: int| #[trigger]
        owns(t, node, level, leaf, slot) ==> s.len(leaf) <= slot < t.len(leaf)
}

/// Stands for the voxels `f` from a position on.
pub open spec fn stands_for(
    f: spec_fn(int, int, int) -> u8,
    t: Slots,
    node: Node,
    level: int,
    x: int,
    y: int,
    z: int,
) -> bool {
    forall|dx: int, dy: int, dz: int|
        0 <= dx < extent_of(level) && 0 <= dy < extent_of(level) && 0 <= dz < extent_of(level)
            ==> #[trigger] voxel_at(t, node, level, dx, dy, dz) == f(x + dx, y + dy, z + dz)
}

/// Adding slots leaves what was placed as it was.
pub proof fn lemma_placed_grow(
    f: spec_fn(int, int, int) -> u8,
    s: Slots,
    t: Slots,
    u: Slots,
    node: Node,
    level: int,
    x: int,
    y: int,
    z: int,
)
    requires
        level >= 0,
        placed(s, t, node, level),
        stands_for(f, t, node, level, x, y, z),
        extends(t, u),
    ensures
        placed(s, u, node, level),
        stands_for(f, u, node, level, x, y, z),
        forall|leaf: bool, slot: int|
            owns(u, node, level, leaf, slot) == owns(t, node, level, leaf, slot),
        forall|leaf: bool, slot: int| #[trigger]
            owns(u, node, level, leaf, slot) ==> slot < t.len(leaf),
{
    assert(agree(t, u, node, level));
    lemma_frame(t, u, node, level);
    lemma_frame_sep(t, u, node, level);
    assert forall|dx: int, dy: int, dz: int|
        0 <= dx < extent_of(level) && 0 <= dy < extent_of(level) && 0 <= dz < extent_of(
            level,
        ) implies #[trigger] voxel_at(u, node, level, dx, dy, dz) == f(
        x + dx,
        y + dy,
        z + dz,
    ) by {
        lemma_frame_voxel(t, u, node, level, dx, dy, dz);
    }
}

/// The origin of child `i` along each axis.
pub open spec fn child_x(x: int, i: int, level: int) -> int {
    x + (i % 4) * extent_of(level - 1)
}

pub open spec fn child_y(y: int, i: int, level: int) -> int {
    y + ((i / 4) % 4) * extent_of(level - 1)
}

pub open spec fn child_z(z: int, i: int, level: int) -> int {
    z + (i / 16) * extent_of(level - 1)
}

/// A built node is well stored and canonical, and stands for the voxels it was
/// built from.
pub proof fn lemma_plan(
    f: spec_fn(int, int, int) -> u8,
    s: Slots,
    level: int,
    x: int,
    y: int,
    z: int,
)
    requires
        level >= 0,
        fits(plan(f, s, level, x, y, z).0),
    ensures
        ({
            let (t, node) = plan(f, s, level, x, y, z);
            &&& extends(s, t)
            &&& placed(s, t, node, level)
            &&& stands_for(f, t, node, level, x, y, z)
        }),
    decreases level, 65int,
{
    let (t, node) = plan(f, s, level, x, y, z);
    lemma_plan_extends(f, s, level, x, y, z);
    if level == 0 {
        let bytes = brick_bytes(f, x, y, z);
        lemma_join_bytes(s, bytes);
        lemma_brick(t, bytes, node);
        reveal_with_fuel(extent_of, 2);
        assert forall|dx: int, dy: int, dz: int|
            0 <= dx < extent_of(0) && 0 <= dy < extent_of(0) && 0 <= dz < extent_of(
                0,
            ) implies #[trigger] voxel_at(t, node, 0, dx, dy, dz) == f(x + dx, y + dy, z + dz) by {
            lemma_ordinal(dx, dy, dz);
            assert(byte_of(t, node, ordinal(dx, dy, dz)) == bytes[ordinal(dx, dy, dz)]);
        }
    } else {
        let (u, kids) = plan_kids(f, s, level, x, y, z, 64);
        assert(extends(u, t));
        lemma_plan_kids(f, s, level, x, y, z, 64);
        lemma_join_nodes(u, kids);
        assert forall|i: int| 0 <= i < 64 implies placed(s, t, #[trigger] kids[i], level - 1)
            && stands_for(
            f,
            t,
            kids[i],
            level - 1,
            child_x(x, i, level),
            child_y(y, i, level),
            child_z(z, i, level),
        ) && forall|leaf: bool, slot: int|
            (#[trigger] owns(t, kids[i], level - 1, leaf, slot)) == owns(
                u,
                kids[i],
                level - 1,
                leaf,
                slot,
            ) && (owns(t, kids[i], level - 1, leaf, slot) ==> slot < u.len(leaf)) by {
            lemma_placed_grow(
                f,
                s,
                u,
                t,
                kids[i],
                level - 1,
                child_x(x, i, level),
                child_y(y, i, level),
                child_z(z, i, level),
            );
        }
        lemma_join(t, kids, node, level);
        assert forall|i: int| 0 <= i < 64 implies canon(t, #[trigger] kids[i], level - 1) by {
            assert(placed(s, t, kids[i], level - 1));
        }
        assert(apart(t, kids, level - 1)) by {
            assert forall|i: int, j: int, leaf: bool, slot: int|
                #![trigger owns(t, kids[i], level - 1, leaf, slot), owns(t, kids[j], level - 1, leaf, slot)]
                0 <= i < j < kids.len() implies !(owns(t, kids[i], level - 1, leaf, slot) && owns(
                t,
                kids[j],
                level - 1,
                leaf,
                slot,
            )) by {
                assert(placed(s, t, kids[i], level - 1));
                assert(placed(s, t, kids[j], level - 1));
                assert(!(owns(u, kids[i], level - 1, leaf, slot) && owns(
                    u,
                    kids[j],
                    level - 1,
                    leaf,
                    slot,
                )));
            }
        }
        assert(clear_of_block(t, kids, level - 1, node)) by {
            assert forall|i: int, slot: int| 0 <= i < 64 && in_block(
                node,
                slot,
            ) implies !#[trigger] owns(t, kids[i], level - 1, false, slot) by {
                assert(placed(s, t, kids[i], level - 1));
                assert(u.nodes.len() <= slot);
            }
        }
        lemma_join_sep(t, kids, node, level);
        assert forall|leaf: bool, slot: int| #[trigger]
            owns(t, node, level, leaf, slot) implies s.len(leaf) <= slot < t.len(leaf) by {
            if leaf || !in_block(node, slot) {
                assert(owned_by_some(t, kids, level - 1, leaf, slot));
                let i = choose|i: int|
                    0 <= i < kids.len() && owns(t, #[trigger] kids[i], level - 1, leaf, slot);
                assert(placed(s, t, kids[i], level - 1));
            }
        }
        lemma_extent(level);
        lemma_extent(level - 1);
        let step = extent_of(level - 1);
        assert forall|dx: int, dy: int, dz: int|
            0 <= dx < extent_of(level) && 0 <= dy < extent_of(level) && 0 <= dz < extent_of(
                level,
            ) implies #[trigger] voxel_at(t, node, level, dx, dy, dz) == f(
            x + dx,
            y + dy,
            z + dz,
        ) by {
            lemma_join_voxel(t, kids, node, level, dx, dy, dz);
            lemma_split(dx, step);
            lemma_split(dy, step);
            lemma_split(dz, step);
            lemma_ordinal(dx / step, dy / step, dz / step);
            let i = ordinal(dx / step, dy / step, dz / step);
            assert(placed(s, t, kids[i], level - 1));
            assert(voxel_at(t, kids[i], level - 1, dx % step, dy % step, dz % step) == f(
                child_x(x, i, level) + dx % step,
                child_y(y, i, level) + dy % step,
                child_z(z, i, level) + dz % step,
            ));
        }
    }
}

/// Every slot added since `s` is reached from the node.
pub open spec fn filled(s: Slots, t: Slots, node: Node, level: int) -> bool {
    forall|leaf: bool, slot: int|
        s.len(leaf) <= slot < t.len(leaf) ==> #[trigger] owns(t, node, level, leaf, slot)
}

/// Building stores nothing that is not reached.
pub proof fn lemma_plan_filled(
    f: spec_fn(int, int, int) -> u8,
    s: Slots,
    level: int,
    x: int,
    y: int,
    z: int,
)
    requires
        level >= 0,
        fits(plan(f, s, level, x, y, z).0),
    ensures
        filled(s, plan(f, s, level, x, y, z).0, plan(f, s, level, x, y, z).1, level),
    decreases level, 65int,
{
    let (t, node) = plan(f, s, level, x, y, z);
    if level == 0 {
        let bytes = brick_bytes(f, x, y, z);
        lemma_packed(bytes, voxels_present(bytes), 64);
        assert forall|leaf: bool, slot: int|
            s.len(leaf) <= slot < t.len(leaf) implies #[trigger] owns(t, node, level, leaf, slot) by {
            assert(leaf);
            assert(in_block(node, slot));
        }
    } else {
        let (u, kids) = plan_kids(f, s, level, x, y, z, 64);
        assert(extends(u, t));
        lemma_plan_kids(f, s, level, x, y, z, 64);
        lemma_plan_kids_filled(f, s, level, x, y, z, 64);
        lemma_join_nodes(u, kids);
        lemma_packed(kids, nodes_present(kids), 64);
        assert forall|leaf: bool, slot: int|
            s.len(leaf) <= slot < t.len(leaf) implies #[trigger] owns(t, node, level, leaf, slot) by {
            if slot < u.len(leaf) {
                assert(owned_by_some(u, kids, level - 1, leaf, slot));
                let i = choose|i: int|
                    0 <= i < 64 && owns(u, #[trigger] kids[i], level - 1, leaf, slot);
                assert(placed(s, u, kids[i], level - 1));
                lemma_placed_grow(
                    f,
                    s,
                    u,
                    t,
                    kids[i],
                    level - 1,
                    child_x(x, i, level),
                    child_y(y, i, level),
                    child_z(z, i, level),
                );
                assert(owns(t, kids[i], level - 1, leaf, slot));
                lemma_join_owns(t, kids, node, level, leaf, slot);
            } else {
                assert(!leaf);
                assert(in_block(node, slot));
            }
        }
    }
}

proof fn lemma_plan_kids_filled(
    f: spec_fn(int, int, int) -> u8,
    s: Slots,
    level: int,
    x: int,
    y: int,
    z: int,
    n: int,
)
    requires
        level >= 1,
        0 <= n <= 64,
        fits(plan_kids(f, s, level, x, y, z, n).0),
    ensures
        ({
            let (t, kids) = plan_kids(f, s, level, x, y, z, n);
            forall|leaf: bool, slot: int|
                s.len(leaf) <= slot < t.len(leaf) ==> #[trigger] owned_by_some(
                    t,
                    kids,
                    level - 1,
                    leaf,
                    slot,
                )
        }),
    decreases level, n,
{
    if n > 0 {
        let (t, kids) = plan_kids(f, s, level, x, y, z, n);
        let (u, before) = plan_kids(f, s, level, x, y, z, n - 1);
        let i = n - 1;
        let (cx, cy, cz) = (child_x(x, i, level), child_y(y, i, level), child_z(z, i, level));
        lemma_plan_extends(f, u, level - 1, cx, cy, cz);
        lemma_plan_kids(f, s, level, x, y, z, n - 1);
        lemma_plan_kids_filled(f, s, level, x, y, z, n - 1);
        lemma_plan_filled(f, u, level - 1, cx, cy, cz);
        assert forall|leaf: bool, slot: int|
            s.len(leaf) <= slot < t.len(leaf) implies #[trigger] owned_by_some(
            t,
            kids,
            level - 1,
            leaf,
            slot,
        ) by {
            if slot < u.len(leaf) {
                assert(owned_by_some(u, before, level - 1, leaf, slot));
                let j = choose|j: int|
                    0 <= j < before.len() && owns(u, #[trigger] before[j], level - 1, leaf, slot);
                assert(placed(s, u, before[j], level - 1));
                lemma_placed_grow(
                    f,
                    s,
                    u,
                    t,
                    before[j],
                    level - 1,
                    child_x(x, j, level),
                    child_y(y, j, level),
                    child_z(z, j, level),
                );
                assert(kids[j] == before[j]);
                assert(owns(t, kids[j], level - 1, leaf, slot));
            } else {
                assert(kids[i] == kids.last());
                assert(owns(t, kids[i], level - 1, leaf, slot));
            }
        }
    }
}

pub proof fn lemma_plan_kids(
    f: spec_fn(int, int, int) -> u8,
    s: Slots,
    level: int,
    x: int,
    y: int,
    z: int,
    n: int,
)
    requires
        level >= 1,
        0 <= n <= 64,
        fits(plan_kids(f, s, level, x, y, z, n).0),
    ensures
        ({
            let (t, kids) = plan_kids(f, s, level, x, y, z, n);
            &&& extends(s, t)
            &&& kids.len() == n
            &&& apart(t, kids, level - 1)
            &&& forall|i: int|
                0 <= i < n ==> placed(s, t, #[trigger] kids[i], level - 1) && stands_for(
                    f,
                    t,
                    kids[i],
                    level - 1,
                    child_x(x, i, level),
                    child_y(y, i, level),
                    child_z(z, i, level),
                )
        }),
    decreases level, n,
{
    lemma_plan_kids_extends(f, s, level, x, y, z, 0, n);
    if n > 0 {
        let (t, kids) = plan_kids(f, s, level, x, y, z, n);
        let (u, before) = plan_kids(f, s, level, x, y, z, n - 1);
        let i = n - 1;
        let (cx, cy, cz) = (child_x(x, i, level), child_y(y, i, level), child_z(z, i, level));
        lemma_plan_extends(f, u, level - 1, cx, cy, cz);
        lemma_plan_kids(f, s, level, x, y, z, n - 1);
        lemma_plan(f, u, level - 1, cx, cy, cz);
        assert forall|j: int| 0 <= j < n implies placed(s, t, #[trigger] kids[j], level - 1)
            && stands_for(
            f,
            t,
            kids[j],
            level - 1,
            child_x(x, j, level),
            child_y(y, j, level),
            child_z(z, j, level),
        ) && (j < n - 1 ==> forall|leaf: bool, slot: int|
            (#[trigger] owns(t, kids[j], level - 1, leaf, slot)) == owns(
                u,
                kids[j],
                level - 1,
                leaf,
                slot,
            ) && (owns(t, kids[j], level - 1, leaf, slot) ==> slot < u.len(leaf))) by {
            if j < n - 1 {
                assert(kids[j] == before[j]);
                lemma_placed_grow(
                    f,
                    s,
                    u,
                    t,
                    before[j],
                    level - 1,
                    child_x(x, j, level),
                    child_y(y, j, level),
                    child_z(z, j, level),
                );
            } else {
                assert(placed(u, t, kids[j], level - 1));
            }
        }
        assert forall|j: int, k: int, leaf: bool, slot: int|
            #![trigger owns(t, kids[j], level - 1, leaf, slot), owns(t, kids[k], level - 1, leaf, slot)]
            0 <= j < k < kids.len() implies !(owns(t, kids[j], level - 1, leaf, slot) && owns(
            t,
            kids[k],
            level - 1,
            leaf,
            slot,
        )) by {
            assert(placed(s, t, kids[j], level - 1));
            if k < n - 1 {
                assert(placed(s, t, kids[k], level - 1));
                assert(!(owns(u, before[j], level - 1, leaf, slot) && owns(
                    u,
                    before[k],
                    level - 1,
                    leaf,
                    slot,
                )));
            } else {
                assert(placed(u, t, kids[k], level - 1));
            }
        }
    }
}

/// Whether two voxel functions agree on a cube.
pub open spec fn alike(
    f: spec_fn(int, int, int) -> u8,
    g: spec_fn(int, int, int) -> u8,
    x: int,
    y: int,
    z: int,
    extent: int,
) -> bool {
    forall|a: int, b: int, c: int|
        x <= a < x + extent && y <= b < y + extent && z <= c < z + extent ==> #[trigger] f(a, b, c)
            == g(a, b, c)
}

/// A child's cube lies inside its parent's.
pub proof fn lemma_child_inside(x: int, y: int, z: int, level: int, i: int)
    requires
        level >= 1,
        0 <= i < 64,
    ensures
        x <= child_x(x, i, level),
        child_x(x, i, level) + extent_of(level - 1) <= x + extent_of(level),
        y <= child_y(y, i, level),
        child_y(y, i, level) + extent_of(level - 1) <= y + extent_of(level),
        z <= child_z(z, i, level),
        child_z(z, i, level) + extent_of(level - 1) <= z + extent_of(level),
{
    lemma_extent(level);
    lemma_extent(level - 1);
    lemma_cell(i);
    let step = extent_of(level - 1);
    lemma_cell_inside(i % 4, step);
    lemma_cell_inside((i / 4) % 4, step);
    lemma_cell_inside(i / 16, step);
}

pub proof fn lemma_cell_inside(c: int, step: int)
    requires
        0 <= c < 4,
        step >= 1,
    ensures
        0 <= c * step,
        c * step + step <= 4 * step,
{
    assert(0 <= c * step && c * step + step <= 4 * step) by (nonlinear_arith)
        requires
            0 <= c < 4,
            step >= 1,
    ;
}

/// The layout depends on the voxels of the cube alone.
pub proof fn lemma_plan_same(
    f: spec_fn(int, int, int) -> u8,
    g: spec_fn(int, int, int) -> u8,
    s: Slots,
    level: int,
    x: int,
    y: int,
    z: int,
)
    requires
        level >= 0,
        alike(f, g, x, y, z, extent_of(level)),
    ensures
        plan(f, s, level, x, y, z) == plan(g, s, level, x, y, z),
    decreases level, 65int,
{
    if level == 0 {
        reveal_with_fuel(extent_of, 2);
        assert forall|i: int| 0 <= i < 64 implies brick_bytes(f, x, y, z)[i] == brick_bytes(
            g,
            x,
            y,
            z,
        )[i] by {
            lemma_cell(i);
            assert(f(x + i % 4, y + (i / 4) % 4, z + i / 16) == g(
                x + i % 4,
                y + (i / 4) % 4,
                z + i / 16,
            ));
        }
        assert(brick_bytes(f, x, y, z) =~= brick_bytes(g, x, y, z));
    } else {
        lemma_plan_kids_same(f, g, s, level, x, y, z, 64);
    }
}

pub proof fn lemma_plan_kids_same(
    f: spec_fn(int, int, int) -> u8,
    g: spec_fn(int, int, int) -> u8,
    s: Slots,
    level: int,
    x: int,
    y: int,
    z: int,
    n: int,
)
    requires
        level >= 1,
        0 <= n <= 64,
        alike(f, g, x, y, z, extent_of(level)),
    ensures
        plan_kids(f, s, level, x, y, z, n) == plan_kids(g, s, level, x, y, z, n),
    decreases level, n,
{
    if n > 0 {
        lemma_plan_kids_same(f, g, s, level, x, y, z, n - 1);
        let t = plan_kids(f, s, level, x, y, z, n - 1).0;
        let i = n - 1;
        lemma_child_inside(x, y, z, level, i);
        lemma_plan_same(
            f,
            g,
            t,
            level - 1,
            child_x(x, i, level),
            child_y(y, i, level),
            child_z(z, i, level),
        );
    }
}

/// Whether a voxel function is one material throughout a cube.
pub open spec fn constant(
    f: spec_fn(int, int, int) -> u8,
    m: u8,
    x: int,
    y: int,
    z: int,
    extent: int,
) -> bool {
    forall|a: int, b: int, c: int|
        x <= a < x + extent && y <= b < y + extent && z <= c < z + extent ==> #[trigger] f(a, b, c)
            == m
}

/// A region of one material, or of none, takes no slots.
pub proof fn lemma_plan_constant(
    f: spec_fn(int, int, int) -> u8,
    m: u8,
    s: Slots,
    level: int,
    x: int,
    y: int,
    z: int,
)
    requires
        level >= 0,
        constant(f, m, x, y, z, extent_of(level)),
    ensures
        plan(f, s, level, x, y, z) == (s, Node::solid(m)),
    decreases level, 65int,
{
    if level == 0 {
        reveal_with_fuel(extent_of, 2);
        let bytes = brick_bytes(f, x, y, z);
        assert forall|i: int| 0 <= i < 64 implies #[trigger] bytes[i] == m by {
            lemma_cell(i);
            assert(f(x + i % 4, y + (i / 4) % 4, z + i / 16) == m);
        }
        let present = voxels_present(bytes);
        lemma_mask_extremes(present);
        if m != 0 {
            assert(present[0]);
        }
    } else {
        lemma_plan_kids_constant(f, m, s, level, x, y, z, 64);
        let kids = plan_kids(f, s, level, x, y, z, 64).1;
        let present = nodes_present(kids);
        lemma_mask_extremes(present);
        if m != 0 {
            assert(present[0]);
        }
    }
}

pub proof fn lemma_plan_kids_constant(
    f: spec_fn(int, int, int) -> u8,
    m: u8,
    s: Slots,
    level: int,
    x: int,
    y: int,
    z: int,
    n: int,
)
    requires
        level >= 1,
        0 <= n <= 64,
        constant(f, m, x, y, z, extent_of(level)),
    ensures
        plan_kids(f, s, level, x, y, z, n).0 == s,
        plan_kids(f, s, level, x, y, z, n).1.len() == n,
        forall|i: int|
            0 <= i < n ==> #[trigger] plan_kids(f, s, level, x, y, z, n).1[i] == Node::solid(m),
    decreases level, n,
{
    if n > 0 {
        lemma_plan_kids_constant(f, m, s, level, x, y, z, n - 1);
        let i = n - 1;
        lemma_child_inside(x, y, z, level, i);
        lemma_plan_constant(
            f,
            m,
            s,
            level - 1,
            child_x(x, i, level),
            child_y(y, i, level),
            child_z(z, i, level),
        );
    }
}

/// Voxels in a cube of a level.
pub open spec fn volume(level: int) -> int
    decreases level + 1,
{
    if level < 0 {
        1
    } else {
        64 * volume(level - 1)
    }
}

pub proof fn lemma_volume(level: int)
    ensures
        volume(level) == extent_of(level) * extent_of(level) * extent_of(level),
        volume(level) >= 1,
        level >= 0 ==> volume(level) >= 64,
    decreases level + 1,
{
    if level >= 0 {
        lemma_volume(level - 1);
        let e = extent_of(level - 1);
        assert((4 * e) * (4 * e) * (4 * e) == 64 * (e * e * e)) by (nonlinear_arith);
    }
}

/// Larger levels hold more.
pub proof fn lemma_volume_monotone(a: int, b: int)
    requires
        -1 <= a <= b,
    ensures
        volume(a) <= volume(b),
    decreases b - a,
{
    lemma_volume(a);
    if a < b {
        lemma_volume_monotone(a + 1, b);
    }
}

/// A built cube takes no more slots of either kind than it has voxels.
pub proof fn lemma_plan_bound(
    f: spec_fn(int, int, int) -> u8,
    s: Slots,
    level: int,
    x: int,
    y: int,
    z: int,
)
    requires
        level >= 0,
    ensures
        plan(f, s, level, x, y, z).0.voxels.len() <= s.voxels.len() + volume(level),
        plan(f, s, level, x, y, z).0.nodes.len() <= s.nodes.len() + volume(level) - 64,
    decreases level, 65int,
{
    lemma_volume(level);
    if level == 0 {
        reveal_with_fuel(volume, 2);
        let bytes = brick_bytes(f, x, y, z);
        let present = voxels_present(bytes);
        lemma_packed(bytes, present, 64);
        lemma_mask_extremes(present);
    } else {
        lemma_volume(level - 1);
        lemma_plan_kids_bound(f, s, level, x, y, z, 64);
        let kids = plan_kids(f, s, level, x, y, z, 64).1;
        let present = nodes_present(kids);
        lemma_packed(kids, present, 64);
        lemma_mask_extremes(present);
    }
}

pub proof fn lemma_plan_kids_bound(
    f: spec_fn(int, int, int) -> u8,
    s: Slots,
    level: int,
    x: int,
    y: int,
    z: int,
    n: int,
)
    requires
        level >= 1,
        0 <= n <= 64,
    ensures
        plan_kids(f, s, level, x, y, z, n).0.voxels.len() <= s.voxels.len() + n * volume(level - 1),
        plan_kids(f, s, level, x, y, z, n).0.nodes.len() <= s.nodes.len() + n * (volume(level - 1)
            - 64),
    decreases level, n,
{
    let v = volume(level - 1);
    assert(0 * v == 0 && 0 * (v - 64) == 0);
    if n > 0 {
        lemma_plan_kids_bound(f, s, level, x, y, z, n - 1);
        let t = plan_kids(f, s, level, x, y, z, n - 1).0;
        let i = n - 1;
        lemma_plan_bound(
            f,
            t,
            level - 1,
            child_x(x, i, level),
            child_y(y, i, level),
            child_z(z, i, level),
        );
        assert((n - 1) * v + v == n * v) by (nonlinear_arith);
        assert((n - 1) * (v - 64) + (v - 64) == n * (v - 64)) by (nonlinear_arith);
    }
}

} // verus!
