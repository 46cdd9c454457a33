//! Rewriting a tree: an edit rewrites only the subtrees it meets, frees the nodes it
//! replaces, and leaves the tree canonical.

use crate::address::UVec3;
use crate::alone::{
    left_alone, lemma_alone_from, lemma_alone_to, lemma_alone_vacant, lemma_quiet_alone,
    lemma_quiet_trans, quiet,
};
use crate::arena::{NodeArena, Slots};
use crate::bits::{bit, lemma_rank_monotone, lemma_zero_mask, ones};
use crate::contree::{lemma_marked_trans, lemma_taken_marked, level_extent, marked, tidy};
use crate::growth::{
    growth, growth_upto, in_space, lemma_growth, lemma_growth_less, lemma_growth_upto,
};
use crate::material::MaterialId;
use crate::neat::{
    in_bytes, lemma_brick_itself, lemma_canon_neat, lemma_canon_orderly, lemma_frame_neat,
    lemma_frame_tidy, lemma_join_itself, lemma_join_tidy, neat_at,
};
use crate::node::{lemma_slot_in_block, ordinal, Node, BRICK_EDGE, CHILDREN};
use crate::plan::{child_x, child_y, child_z, lemma_cell_inside, lemma_child_inside};
use crate::reuse::{
    exchanged, give_back, given_back, lemma_exchanged, lemma_put_back, lemma_same_brick,
    lemma_same_bytes_needed, lemma_same_join, lemma_same_kids_needed,
};
use crate::store::{
    block_placed, block_taken, clear_of_block, is_brick, is_join, lemma_brick, lemma_join,
    lemma_join_kid, lemma_join_owns, lemma_join_sep, lemma_join_voxel, lemma_mask_extremes,
    nodes_present, owned_by_some, same_free, store_nodes, store_voxels, voxels_present,
};
use crate::tree::{
    agree, apart, byte_of, bytes_of, canon, extent_of, in_block, kid, kids_of, lemma_cell,
    lemma_cell_span, lemma_extent, lemma_frame, lemma_frame_owns, lemma_frame_sep,
    lemma_frame_voxel, lemma_join_coord, lemma_kid_owned, lemma_no_kids, lemma_ordinal, lemma_split,
    owns, sep, voxel_at, wf,
};
use vstd::prelude::*;

verus! {

/// What an edit does to the voxels it covers.
///
/// One trait rather than a second copy of the tree rewrite: every edit has to
/// free the nodes it replaces, leave the tree canonical, and mark the arena
/// dirty, or the render world cannot upload a delta.
pub(crate) trait EditOp {
    /// Whether the edit may touch the cube of `extent` voxels at a position.
    spec fn meets(&self, x: int, y: int, z: int, extent: int) -> bool;

    /// Whether it may leave that cube alone.
    spec fn misses(&self, x: int, y: int, z: int, extent: int) -> bool;

    /// Whether this may become of the voxel at a position. `None` leaves it as
    /// it is.
    spec fn turns(&self, x: int, y: int, z: int, change: Option<u8>) -> bool;

    /// The edit says of itself where it lies.
    spec fn valid(&self) -> bool;

    /// A voxel of a cube that is left alone may stay as it is.
    proof fn untouched(&self, x: int, y: int, z: int, extent: int, a: int, b: int, c: int)
        requires
            self.valid(),
            self.misses(x, y, z, extent),
            x <= a < x + extent,
            y <= b < y + extent,
            z <= c < z + extent,
            0 <= x,
            0 <= y,
            0 <= z,
            1 <= extent <= u32::MAX,
            a <= u32::MAX,
            b <= u32::MAX,
            c <= u32::MAX,
        ensures
            self.turns(a, b, c, None),
    ;

    /// Whether the edit touches the cube of `extent` voxels at `origin`. A node
    /// it does not touch is returned as it was.
    fn touches(&self, origin: UVec3, extent: u32) -> (touched: bool)
        requires
            self.valid(),
            extent >= 1,
            origin.x + extent <= u32::MAX,
            origin.y + extent <= u32::MAX,
            origin.z + extent <= u32::MAX,
        ensures
            touched ==> self.meets(
                origin.x as int,
                origin.y as int,
                origin.z as int,
                extent as int,
            ),
            !touched ==> self.misses(
                origin.x as int,
                origin.y as int,
                origin.z as int,
                extent as int,
            ),
    ;

    /// What the voxel at `p` becomes. `None` leaves it as it is.
    fn material_at(&self, p: UVec3) -> (material: Option<MaterialId>)
        requires
            self.valid(),
        ensures
            self.turns(
                p.x as int,
                p.y as int,
                p.z as int,
                match material {
                    Some(m) => Some(m.0),
                    None => None,
                },
            ),
    ;
}

/// Where an edit meets the tree.
pub(crate) open spec fn reach<O: EditOp>(op: &O) -> spec_fn(int, int, int, int) -> bool {
    |x: int, y: int, z: int, extent: int| op.meets(x, y, z, extent)
}

/// Where an edit cannot leave the tree alone.
pub(crate) open spec fn sure<O: EditOp>(op: &O) -> spec_fn(int, int, int, int) -> bool {
    |x: int, y: int, z: int, extent: int| !op.misses(x, y, z, extent)
}

/// Whether an edit may change a voxel of the cube of `extent` voxels at a position.
pub(crate) open spec fn stirs<O: EditOp>(op: &O, x: int, y: int, z: int, extent: int) -> bool {
    exists|a: int, b: int, c: int, m: u8| #[trigger]
        op.turns(a, b, c, Some(m)) && {
            &&& x <= a < x + extent && y <= b < y + extent && z <= c < z + extent
            &&& 0 <= a <= u32::MAX && 0 <= b <= u32::MAX && 0 <= c <= u32::MAX
        }
}

/// Where an edit may take slots: where it meets the tree, and in a tree that is neat
/// there, whose blocks are put back where no voxel changes, only where it may change
/// one.
pub(crate) open spec fn grows_at<O: EditOp>(op: &O, neat: bool) -> spec_fn(
    int,
    int,
    int,
    int,
) -> bool {
    |x: int, y: int, z: int, extent: int|
        op.meets(x, y, z, extent) && (neat ==> stirs(op, x, y, z, extent))
}

/// What a voxel is after an edit.
pub open spec fn turned(change: Option<u8>, before: u8) -> u8 {
    match change {
        Some(m) => m,
        None => before,
    }
}

/// Whether an edit may turn what a voxel was into what it is.
pub(crate) open spec fn becomes<O: EditOp>(
    op: &O,
    x: int,
    y: int,
    z: int,
    before: u8,
    after: u8,
) -> bool {
    exists|change: Option<u8>| #[trigger]
        op.turns(x, y, z, change) && after == turned(change, before)
}

/// Well stored, no slot reached twice, and none of them free.
pub open spec fn held(arena: NodeArena, node: Node, level: int) -> bool {
    &&& wf(arena.slots(), node, level)
    &&& sep(arena.slots(), node, level)
    &&& forall|leaf: bool, slot: int| #[trigger]
        owns(arena.slots(), node, level, leaf, slot) ==> !arena.is_free(leaf, slot)
}

/// What replacing a node leaves alone: slots in use that the node does not
/// reach.
pub open spec fn spared(arena: NodeArena, node: Node, level: int, leaf: bool, slot: int) -> bool {
    &&& 0 <= slot < arena.slots().len(leaf)
    &&& !arena.is_free(leaf, slot)
    &&& !owns(arena.slots(), node, level, leaf, slot)
}

/// Those slots are as they were, still in use, not marked, and not reached from
/// the replacement.
pub open spec fn kept(
    before: NodeArena,
    after: NodeArena,
    node: Node,
    new: Node,
    level: int,
) -> bool {
    forall|leaf: bool, slot: int| #[trigger]
        spared(before, node, level, leaf, slot) ==> {
            &&& after.slots().same(before.slots(), leaf, slot)
            &&& !after.is_free(leaf, slot)
            &&& after.is_dirty(leaf, slot) == before.is_dirty(leaf, slot)
            &&& !owns(after.slots(), new, level, leaf, slot)
        }
}

/// Every other slot is reached from the replacement or free: what the node
/// reached and the replacement does not was given back, and nothing new lies
/// idle.
pub open spec fn all_used(
    before: NodeArena,
    after: NodeArena,
    node: Node,
    new: Node,
    level: int,
) -> bool {
    forall|leaf: bool, slot: int|
        0 <= slot < after.slots().len(leaf) && !spared(before, node, level, leaf, slot)
            ==> #[trigger] owns(after.slots(), new, level, leaf, slot) || after.is_free(leaf, slot)
}

/// Whether two nodes stand for the same voxels.
pub open spec fn stand_alike(s: Slots, node: Node, t: Slots, other: Node, level: int) -> bool {
    forall|dx: int, dy: int, dz: int|
        0 <= dx < extent_of(level) && 0 <= dy < extent_of(level) && 0 <= dz < extent_of(level)
            ==> #[trigger] voxel_at(t, other, level, dx, dy, dz) == voxel_at(
            s,
            node,
            level,
            dx,
            dy,
            dz,
        )
}

/// Replacing a node without changing a voxel changes nothing stored, where every node
/// that is rewritten is what storing its own children gives: the blocks that are given
/// back are the ones that are taken again.
pub open spec fn steady(
    at: spec_fn(int, int, int, int) -> bool,
    before: NodeArena,
    after: NodeArena,
    node: Node,
    new: Node,
    level: int,
    x: int,
    y: int,
    z: int,
) -> bool {
    neat_at(at, before.slots(), node, level, x, y, z) && stand_alike(
        before.slots(),
        node,
        after.slots(),
        new,
        level,
    ) ==> {
        &&& new == node
        &&& after.slots() == before.slots()
        &&& same_free(before, after)
    }
}

/// Slots a node reaches are stored.
pub proof fn lemma_owned_bound(s: Slots, node: Node, level: int, leaf: bool, slot: int)
    requires
        level >= 0,
        wf(s, node, level),
        owns(s, node, level, leaf, slot),
    ensures
        0 <= slot < s.len(leaf),
    decreases level,
{
    if !(leaf == (level == 0) && in_block(node, slot)) {
        let i = choose|i: int|
            0 <= i < 64 && owns(s, #[trigger] kid(s, node, i), level - 1, leaf, slot);
        assert(wf(s, kid(s, node, i), level - 1));
        lemma_owned_bound(s, kid(s, node, i), level - 1, leaf, slot);
    }
}

/// Nothing happens to a node while nothing happens.
proof fn lemma_quiet_self(arena: NodeArena, node: Node, level: int)
    requires
        level >= 0,
        wf(arena.slots(), node, level),
    ensures
        quiet(arena, arena, node, level),
{
    let s = arena.slots();
    assert forall|leaf: bool, slot: int| #[trigger] owns(s, node, level, leaf, slot) implies 0
        <= slot < s.len(leaf) by {
        lemma_owned_bound(s, node, level, leaf, slot);
    }
}

/// Midway through rewriting a node's children: what stands at each child now is
/// held and apart from the others, and everything outside the node, and the
/// node's own block, is as it was.
pub open spec fn midway(
    start: NodeArena,
    node: Node,
    level: int,
    now: NodeArena,
    cur: Seq<Node>,
) -> bool {
    &&& now.wf()
    &&& cur.len() == 64
    &&& start.slots().nodes.len() <= now.slots().nodes.len()
    &&& start.slots().voxels.len() <= now.slots().voxels.len()
    &&& forall|j: int| 0 <= j < 64 ==> held(now, #[trigger] cur[j], level - 1)
    &&& apart(now.slots(), cur, level - 1)
    &&& forall|leaf: bool, slot: int| #[trigger]
        outside(start, node, level, leaf, slot) ==> {
            &&& now.slots().same(start.slots(), leaf, slot)
            &&& !now.is_free(leaf, slot)
            &&& now.is_dirty(leaf, slot) == start.is_dirty(leaf, slot)
            &&& !owned_by_some(now.slots(), cur, level - 1, leaf, slot)
        }
    &&& forall|leaf: bool, slot: int|
        0 <= slot < now.slots().len(leaf) && !outside(start, node, level, leaf, slot)
            ==> #[trigger] owned_by_some(now.slots(), cur, level - 1, leaf, slot) || now.is_free(
            leaf,
            slot,
        )
}

/// A slot in use that is not below the node's children.
pub open spec fn outside(start: NodeArena, node: Node, level: int, leaf: bool, slot: int) -> bool {
    &&& 0 <= slot < start.slots().len(leaf)
    &&& !start.is_free(leaf, slot)
    &&& (!leaf && in_block(node, slot)) || !owns(start.slots(), node, level, leaf, slot)
}

/// Before any child is rewritten.
proof fn lemma_midway_start(start: NodeArena, node: Node, level: int)
    requires
        level >= 1,
        start.wf(),
        held(start, node, level),
    ensures
        midway(start, node, level, start, kids_of(start.slots(), node)),
{
    let s = start.slots();
    let cur = kids_of(s, node);
    assert forall|j: int| 0 <= j < 64 implies held(start, #[trigger] cur[j], level - 1) by {
        assert(cur[j] == kid(s, node, j));
        if node.mask == 0 {
            lemma_no_kids(s, node, j);
        } else {
            assert(wf(s, kid(s, node, j), level - 1));
            assert(sep(s, kid(s, node, j), level - 1));
        }
        assert forall|leaf: bool, slot: int| #[trigger]
            owns(s, cur[j], level - 1, leaf, slot) implies !start.is_free(leaf, slot) by {
            lemma_kid_owned(s, node, level, j, leaf, slot);
        }
    }
    assert(apart(s, cur, level - 1)) by {
        if node.mask == 0 {
            assert forall|i: int, j: int, leaf: bool, slot: int|
                #![trigger owns(
                    s,
                    cur[i],
                    level - 1,
                    leaf,
                    slot,
                ), owns(s, cur[j], level - 1, leaf, slot)]
                0 <= i < j < cur.len() implies !(owns(s, cur[i], level - 1, leaf, slot) && owns(
                s,
                cur[j],
                level - 1,
                leaf,
                slot,
            )) by {
                lemma_no_kids(s, node, i);
            }
        }
    }
    assert forall|leaf: bool, slot: int| #[trigger]
        outside(start, node, level, leaf, slot) implies !owned_by_some(
        s,
        cur,
        level - 1,
        leaf,
        slot,
    ) by {
        if owned_by_some(s, cur, level - 1, leaf, slot) {
            let j = choose|j: int|
                0 <= j < cur.len() && owns(s, #[trigger] cur[j], level - 1, leaf, slot);
            lemma_kid_owned(s, node, level, j, leaf, slot);
            assert(!owns(s, kid(s, node, j), level - 1, false, slot));
        }
    }
    assert forall|leaf: bool, slot: int|
        0 <= slot < s.len(leaf) && !outside(start, node, level, leaf, slot) implies #[trigger]
        owned_by_some(s, cur, level - 1, leaf, slot) || start.is_free(leaf, slot) by {
        if !start.is_free(leaf, slot) {
            let j = choose|j: int|
                0 <= j < 64 && owns(s, #[trigger] kid(s, node, j), level - 1, leaf, slot);
            assert(owns(s, cur[j], level - 1, leaf, slot));
        }
    }
}

/// What one child's rewrite does to another child.
proof fn lemma_other_kid(
    now: NodeArena,
    next: NodeArena,
    cur: Seq<Node>,
    level: int,
    i: int,
    new: Node,
    j: int,
)
    requires
        level >= 1,
        cur.len() == 64,
        0 <= i < 64,
        0 <= j < 64,
        i != j,
        held(now, cur[j], level - 1),
        apart(now.slots(), cur, level - 1),
        now.slots().nodes.len() <= next.slots().nodes.len(),
        now.slots().voxels.len() <= next.slots().voxels.len(),
        kept(now, next, cur[i], new, level - 1),
    ensures
        quiet(now, next, cur[j], level - 1),
        held(next, cur[j], level - 1),
        forall|leaf: bool, slot: int|
            #![trigger owns(next.slots(), cur[j], level - 1, leaf, slot)]
            owns(next.slots(), cur[j], level - 1, leaf, slot) == owns(
                now.slots(),
                cur[j],
                level - 1,
                leaf,
                slot,
            ) && !(owns(next.slots(), cur[j], level - 1, leaf, slot) && owns(
                next.slots(),
                new,
                level - 1,
                leaf,
                slot,
            )),
        canon(now.slots(), cur[j], level - 1) ==> canon(next.slots(), cur[j], level - 1),
{
    assert forall|leaf: bool, slot: int| #[trigger]
        owns(now.slots(), cur[j], level - 1, leaf, slot) implies 0 <= slot < next.slots().len(leaf)
        && next.slots().same(now.slots(), leaf, slot) && next.is_dirty(leaf, slot) == now.is_dirty(
        leaf,
        slot,
    ) && !next.is_free(leaf, slot) && !owns(
        next.slots(),
        new,
        level - 1,
        leaf,
        slot,
    ) by {
        lemma_owned_bound(now.slots(), cur[j], level - 1, leaf, slot);
        if i < j {
            assert(!(owns(now.slots(), cur[i], level - 1, leaf, slot) && owns(
                now.slots(),
                cur[j],
                level - 1,
                leaf,
                slot,
            )));
        } else {
            assert(!(owns(now.slots(), cur[j], level - 1, leaf, slot) && owns(
                now.slots(),
                cur[i],
                level - 1,
                leaf,
                slot,
            )));
        }
        assert(spared(now, cur[i], level - 1, leaf, slot));
    }
    lemma_frame(now.slots(), next.slots(), cur[j], level - 1);
    lemma_frame_sep(now.slots(), next.slots(), cur[j], level - 1);
}

/// Rewriting one child keeps the others, and everything outside.
proof fn lemma_midway_step(
    start: NodeArena,
    node: Node,
    level: int,
    now: NodeArena,
    cur: Seq<Node>,
    i: int,
    next: NodeArena,
    new: Node,
)
    requires
        level >= 1,
        0 <= i < 64,
        midway(start, node, level, now, cur),
        next.wf(),
        held(next, new, level - 1),
        kept(now, next, cur[i], new, level - 1),
        all_used(now, next, cur[i], new, level - 1),
        now.slots().nodes.len() <= next.slots().nodes.len(),
        now.slots().voxels.len() <= next.slots().voxels.len(),
    ensures
        midway(start, node, level, next, cur.update(i, new)),
{
    let after = cur.update(i, new);
    let t = next.slots();
    assert forall|j: int| 0 <= j < 64 implies held(next, #[trigger] after[j], level - 1) by {
        if j != i {
            assert(held(now, cur[j], level - 1));
            lemma_other_kid(now, next, cur, level, i, new, j);
        }
    }
    assert forall|j: int, k: int, leaf: bool, slot: int|
        #![trigger owns(
            t,
            after[j],
            level - 1,
            leaf,
            slot,
        ), owns(t, after[k], level - 1, leaf, slot)]
        0 <= j < k < after.len() implies !(owns(t, after[j], level - 1, leaf, slot) && owns(
        t,
        after[k],
        level - 1,
        leaf,
        slot,
    )) by {
        assert(held(now, cur[j], level - 1));
        assert(held(now, cur[k], level - 1));
        if j == i {
            lemma_other_kid(now, next, cur, level, i, new, k);
        } else if k == i {
            lemma_other_kid(now, next, cur, level, i, new, j);
        } else {
            lemma_other_kid(now, next, cur, level, i, new, j);
            lemma_other_kid(now, next, cur, level, i, new, k);
            assert(!(owns(now.slots(), cur[j], level - 1, leaf, slot) && owns(
                now.slots(),
                cur[k],
                level - 1,
                leaf,
                slot,
            )));
        }
    }
    assert forall|leaf: bool, slot: int| #[trigger]
        outside(start, node, level, leaf, slot) implies next.slots().same(
        start.slots(),
        leaf,
        slot,
    ) && !next.is_free(leaf, slot) && next.is_dirty(leaf, slot) == start.is_dirty(leaf, slot)
        && !owned_by_some(t, after, level - 1, leaf, slot) by {
        assert(!owned_by_some(now.slots(), cur, level - 1, leaf, slot));
        assert(!owns(now.slots(), cur[i], level - 1, leaf, slot));
        assert(spared(now, cur[i], level - 1, leaf, slot));
        if owned_by_some(t, after, level - 1, leaf, slot) {
            let j = choose|j: int|
                0 <= j < after.len() && owns(t, #[trigger] after[j], level - 1, leaf, slot);
            if j != i {
                assert(held(now, cur[j], level - 1));
                lemma_other_kid(now, next, cur, level, i, new, j);
                assert(owns(now.slots(), cur[j], level - 1, leaf, slot));
            }
        }
    }
    assert forall|leaf: bool, slot: int|
        0 <= slot < t.len(leaf) && !outside(start, node, level, leaf, slot) implies #[trigger]
        owned_by_some(t, after, level - 1, leaf, slot) || next.is_free(leaf, slot) by {
        if spared(now, cur[i], level - 1, leaf, slot) {
            assert(owned_by_some(now.slots(), cur, level - 1, leaf, slot));
            let j = choose|j: int|
                0 <= j < cur.len() && owns(now.slots(), #[trigger] cur[j], level - 1, leaf, slot);
            assert(held(now, cur[j], level - 1));
            lemma_other_kid(now, next, cur, level, i, new, j);
            assert(owns(t, after[j], level - 1, leaf, slot));
        } else {
            assert(owns(t, new, level - 1, leaf, slot) || next.is_free(leaf, slot));
            if owns(t, new, level - 1, leaf, slot) {
                assert(owns(t, after[i], level - 1, leaf, slot));
            }
        }
    }
}

/// Giving back the node's own block and storing the new children gives a held
/// replacement that keeps everything outside the node.
proof fn lemma_midway_end(
    start: NodeArena,
    node: Node,
    level: int,
    now: NodeArena,
    kids: Seq<Node>,
    freed: NodeArena,
    done: NodeArena,
    new: Node,
)
    requires
        level >= 1,
        midway(start, node, level, now, kids),
        freed.wf(),
        freed.slots() == now.slots(),
        forall|leaf: bool, slot: int|
            freed.is_free(leaf, slot) == (now.is_free(leaf, slot) || (!leaf && in_block(
                node,
                slot,
            ))),
        forall|leaf: bool, slot: int|
            freed.is_dirty(leaf, slot) == now.is_dirty(leaf, slot),
        wf(start.slots(), node, level),
        forall|slot: int| #[trigger] in_block(node, slot) ==> !start.is_free(false, slot),
        block_taken(freed, done, new, false),
        is_join(done.slots(), kids, new),
    ensures
        held(done, new, level),
        kept(start, done, node, new, level),
        all_used(start, done, node, new, level),
        forall|j: int| 0 <= j < 64 ==> quiet(now, done, #[trigger] kids[j], level - 1),
        (forall|j: int| 0 <= j < 64 ==> canon(now.slots(), #[trigger] kids[j], level - 1))
            ==> canon(done.slots(), new, level),
{
    let s = now.slots();
    let t = done.slots();
    assert forall|slot: int| #[trigger] in_block(node, slot) implies outside(
        start,
        node,
        level,
        false,
        slot,
    ) by {}
    assert forall|j: int| 0 <= j < 64 implies quiet(now, done, #[trigger] kids[j], level - 1) && held(
        done,
        kids[j],
        level - 1,
    ) && (canon(s, kids[j], level - 1) ==> canon(t, kids[j], level - 1)) by {
        assert(held(now, kids[j], level - 1));
        assert forall|leaf: bool, slot: int| #[trigger]
            owns(s, kids[j], level - 1, leaf, slot) implies 0 <= slot < t.len(leaf) && t.same(
            s,
            leaf,
            slot,
        ) && done.is_dirty(leaf, slot) == now.is_dirty(leaf, slot) && !done.is_free(
            leaf,
            slot,
        ) by {
            lemma_owned_bound(s, kids[j], level - 1, leaf, slot);
            if !leaf && in_block(node, slot) {
                assert(outside(start, node, level, leaf, slot));
                assert(owned_by_some(s, kids, level - 1, leaf, slot));
            }
            assert(!freed.is_free(leaf, slot));
        }
        lemma_frame(s, t, kids[j], level - 1);
        lemma_frame_sep(s, t, kids[j], level - 1);
    }
    assert forall|j: int, leaf: bool, slot: int|
        #![trigger owns(t, kids[j], level - 1, leaf, slot)]
        0 <= j < 64 implies owns(t, kids[j], level - 1, leaf, slot) == owns(
        s,
        kids[j],
        level - 1,
        leaf,
        slot,
    ) by {
        assert(quiet(now, done, kids[j], level - 1));
        lemma_frame_owns(s, t, kids[j], level - 1, leaf, slot);
    }
    assert(apart(t, kids, level - 1)) by {
        assert forall|i: int, j: int, leaf: bool, slot: int|
            #![trigger owns(
                t,
                kids[i],
                level - 1,
                leaf,
                slot,
            ), owns(t, kids[j], level - 1, leaf, slot)]
            0 <= i < j < kids.len() implies !(owns(t, kids[i], level - 1, leaf, slot) && owns(
            t,
            kids[j],
            level - 1,
            leaf,
            slot,
        )) by {
            assert(!(owns(s, kids[i], level - 1, leaf, slot) && owns(
                s,
                kids[j],
                level - 1,
                leaf,
                slot,
            )));
        }
    }
    assert(clear_of_block(t, kids, level - 1, new)) by {
        assert forall|i: int, slot: int| 0 <= i < 64 && in_block(new, slot) implies !#[trigger] owns(
            t,
            kids[i],
            level - 1,
            false,
            slot,
        ) by {
            if owns(s, kids[i], level - 1, false, slot) {
                assert(held(now, kids[i], level - 1));
                lemma_owned_bound(s, kids[i], level - 1, false, slot);
                assert(freed.is_free(false, slot));
                assert(in_block(node, slot));
                assert(outside(start, node, level, false, slot));
                assert(owned_by_some(s, kids, level - 1, false, slot));
            }
        }
    }
    assert forall|j: int| 0 <= j < 64 implies wf(t, #[trigger] kids[j], level - 1) && sep(
        t,
        kids[j],
        level - 1,
    ) by {
        assert(held(done, kids[j], level - 1));
    }
    lemma_join(t, kids, new, level);
    lemma_join_sep(t, kids, new, level);
    assert forall|leaf: bool, slot: int| #[trigger]
        owns(t, new, level, leaf, slot) implies !done.is_free(leaf, slot) by {
        if leaf || !in_block(new, slot) {
            assert(owned_by_some(t, kids, level - 1, leaf, slot));
            let j = choose|j: int|
                0 <= j < kids.len() && owns(t, #[trigger] kids[j], level - 1, leaf, slot);
            assert(held(done, kids[j], level - 1));
        }
    }
    assert forall|leaf: bool, slot: int| #[trigger]
        spared(start, node, level, leaf, slot) implies done.slots().same(start.slots(), leaf, slot)
        && !done.is_free(leaf, slot) && done.is_dirty(leaf, slot) == start.is_dirty(leaf, slot)
        && !owns(done.slots(), new, level, leaf, slot) by {
        assert(outside(start, node, level, leaf, slot));
        if !leaf && in_block(node, slot) {
            assert(owns(start.slots(), node, level, leaf, slot));
        }
        assert(!freed.is_free(leaf, slot));
        assert(!(!leaf && in_block(new, slot)));
        assert(done.slots().same(freed.slots(), leaf, slot));
        if owns(t, new, level, leaf, slot) {
            assert(owned_by_some(t, kids, level - 1, leaf, slot));
            let j = choose|j: int|
                0 <= j < kids.len() && owns(t, #[trigger] kids[j], level - 1, leaf, slot);
            assert(owns(s, kids[j], level - 1, leaf, slot));
            assert(owned_by_some(s, kids, level - 1, leaf, slot));
        }
    }
    assert forall|leaf: bool, slot: int|
        0 <= slot < t.len(leaf) && !spared(start, node, level, leaf, slot) implies #[trigger] owns(
        t,
        new,
        level,
        leaf,
        slot,
    ) || done.is_free(leaf, slot) by {
        if !leaf && in_block(new, slot) {
            assert(owns(t, new, level, leaf, slot));
        } else if owned_by_some(s, kids, level - 1, leaf, slot) {
            let j = choose|j: int|
                0 <= j < kids.len() && owns(s, #[trigger] kids[j], level - 1, leaf, slot);
            assert(owns(t, kids[j], level - 1, leaf, slot));
            lemma_join_owns(t, kids, new, level, leaf, slot);
        } else if outside(start, node, level, leaf, slot) {
            assert(in_block(node, slot));
            assert(freed.is_free(leaf, slot));
        } else {
            assert(now.is_free(leaf, slot));
            assert(freed.is_free(leaf, slot));
        }
    }
    if forall|j: int| 0 <= j < 64 ==> canon(s, #[trigger] kids[j], level - 1) {
        assert forall|j: int| 0 <= j < 64 implies canon(t, #[trigger] kids[j], level - 1) by {
            assert(canon(s, kids[j], level - 1));
        }
    }
}

/// Whether a replacement stands for the voxels the edit turns the node's into.
pub(crate) open spec fn rewritten<O: EditOp>(
    op: &O,
    before: Slots,
    node: Node,
    after: Slots,
    new: Node,
    level: int,
    x: int,
    y: int,
    z: int,
) -> bool {
    forall|dx: int, dy: int, dz: int|
        0 <= dx < extent_of(level) && 0 <= dy < extent_of(level) && 0 <= dz < extent_of(level)
            ==> becomes(
            op,
            x + dx,
            y + dy,
            z + dz,
            voxel_at(before, node, level, dx, dy, dz),
            #[trigger] voxel_at(after, new, level, dx, dy, dz),
        )
}

/// Returns the replacement for `node`, freeing whatever it replaces.
pub(crate) fn rewrite<O: EditOp>(
    arena: &mut NodeArena,
    node: Node,
    level: u32,
    origin: UVec3,
    op: &O,
) -> (new: Node)
    requires
        level <= 14,
        op.valid(),
        old(arena).wf(),
        held(*old(arena), node, level as int),
        in_space(level as int, origin.x as int, origin.y as int, origin.z as int),
        old(arena).slots().nodes.len() + growth(
            grows_at(
                op,
                neat_at(
                    reach(op),
                    old(arena).slots(),
                    node,
                    level as int,
                    origin.x as int,
                    origin.y as int,
                    origin.z as int,
                ),
            ),
            false,
            level as int,
            origin.x as int,
            origin.y as int,
            origin.z as int,
        ) <= u32::MAX,
        old(arena).slots().voxels.len() + growth(
            grows_at(
                op,
                neat_at(
                    reach(op),
                    old(arena).slots(),
                    node,
                    level as int,
                    origin.x as int,
                    origin.y as int,
                    origin.z as int,
                ),
            ),
            true,
            level as int,
            origin.x as int,
            origin.y as int,
            origin.z as int,
        ) <= u32::MAX,
    ensures
        final(arena).wf(),
        held(*final(arena), new, level as int),
        kept(*old(arena), *final(arena), node, new, level as int),
        all_used(*old(arena), *final(arena), node, new, level as int),
        steady(
            reach(op),
            *old(arena),
            *final(arena),
            node,
            new,
            level as int,
            origin.x as int,
            origin.y as int,
            origin.z as int,
        ),
        neat_at(
            sure(op),
            final(arena).slots(),
            new,
            level as int,
            origin.x as int,
            origin.y as int,
            origin.z as int,
        ),
        tidy(old(arena).slots(), node, level as int) ==> tidy(
            final(arena).slots(),
            new,
            level as int,
        ),
        in_bytes(old(arena).slots(), node, level as int) ==> in_bytes(
            final(arena).slots(),
            new,
            level as int,
        ),
        node.mask != 0 && new.mask != 0 && ones(new.mask) == ones(node.mask) ==> new.child_base
            == node.child_base,
        marked(*old(arena), *final(arena)),
        !op.meets(
            origin.x as int,
            origin.y as int,
            origin.z as int,
            extent_of(level as int),
        ) ==> new == node && *final(arena) == *old(arena),
        left_alone(
            reach(op),
            *old(arena),
            node,
            *final(arena),
            new,
            level as int,
            origin.x as int,
            origin.y as int,
            origin.z as int,
        ),
        final(arena).slots().nodes.len() <= old(arena).slots().nodes.len() + growth(
            grows_at(
                op,
                neat_at(
                    reach(op),
                    old(arena).slots(),
                    node,
                    level as int,
                    origin.x as int,
                    origin.y as int,
                    origin.z as int,
                ),
            ),
            false,
            level as int,
            origin.x as int,
            origin.y as int,
            origin.z as int,
        ),
        final(arena).slots().voxels.len() <= old(arena).slots().voxels.len() + growth(
            grows_at(
                op,
                neat_at(
                    reach(op),
                    old(arena).slots(),
                    node,
                    level as int,
                    origin.x as int,
                    origin.y as int,
                    origin.z as int,
                ),
            ),
            true,
            level as int,
            origin.x as int,
            origin.y as int,
            origin.z as int,
        ),
        canon(old(arena).slots(), node, level as int) ==> canon(
            final(arena).slots(),
            new,
            level as int,
        ),
        rewritten(
            op,
            old(arena).slots(),
            node,
            final(arena).slots(),
            new,
            level as int,
            origin.x as int,
            origin.y as int,
            origin.z as int,
        ),
    decreases level,
{
    let ghost (x, y, z) = (origin.x as int, origin.y as int, origin.z as int);
    let extent = level_extent(level);
    if !op.touches(origin, extent) {
        proof {
            assert forall|dx: int, dy: int, dz: int|
                0 <= dx < extent_of(level as int) && 0 <= dy < extent_of(level as int) && 0 <= dz
                    < extent_of(level as int) implies becomes(
                op,
                x + dx,
                y + dy,
                z + dz,
                voxel_at(arena.slots(), node, level as int, dx, dy, dz),
                #[trigger] voxel_at(arena.slots(), node, level as int, dx, dy, dz),
            ) by {
                op.untouched(x, y, z, extent as int, x + dx, y + dy, z + dz);
                assert(op.turns(x + dx, y + dy, z + dz, None));
            }
            let f = grows_at(op, neat_at(reach(op), arena.slots(), node, level as int, x, y, z));
            lemma_growth(f, false, level as int, x, y, z);
            lemma_growth(f, true, level as int, x, y, z);
            lemma_quiet_self(*arena, node, level as int);
            lemma_quiet_alone(reach(op), *arena, *arena, node, level as int, x, y, z);
        }
        return node;
    }
    let ghost start = *arena;
    let ghost s = start.slots();
    let ghost lv = level as int;
    let ghost neat = neat_at(reach(op), s, node, lv, x, y, z);
    let ghost f = grows_at(op, neat);
    if level == 0 {
        let new = rewrite_leaf(arena, node, origin, op);
        proof {
            if neat && !stirs(op, x, y, z, extent as int) {
                lemma_still(op, s, node, arena.slots(), new, 0, x, y, z);
            }
            lemma_canon_orderly(arena.slots(), new, 0);
        }
        return new;
    }
    let ghost met = reach(op);
    let ghost calm = neat && !stirs(op, x, y, z, extent as int);
    let step = level_extent(level - 1);
    let mut children: Vec<Node> = Vec::new();
    let ghost mut cur = kids_of(s, node);
    proof {
        lemma_midway_start(start, node, lv);
        lemma_extent(lv);
        if calm {
            lemma_calm(op, false, lv, x, y, z, 64);
            lemma_calm(op, true, lv, x, y, z, 64);
        } else {
            assert(growth(f, false, lv, x, y, z) == 64 + growth_upto(f, false, lv, x, y, z, 64));
            assert(growth(f, true, lv, x, y, z) == growth_upto(f, true, lv, x, y, z, 64));
        }
        assert forall|j: int| 0 <= j < 64 implies quiet(start, start, #[trigger] cur[j], lv - 1) && (tidy(
            s,
            node,
            lv,
        ) ==> tidy(s, cur[j], lv - 1)) && (in_bytes(s, node, lv) ==> in_bytes(s, cur[j], lv - 1)) && (canon(
            s,
            node,
            lv,
        ) ==> canon(s, cur[j], lv - 1)) by {
            assert(cur[j] == kid(s, node, j));
            assert(held(start, cur[j], lv - 1));
            lemma_quiet_self(start, cur[j], lv - 1);
            if node.mask == 0 {
                lemma_no_kids(s, node, j);
            }
        }
    }
    for i in 0..CHILDREN
        invariant
            1 <= level <= 14,
            op.valid(),
            lv == level,
            s == start.slots(),
            neat == neat_at(met, s, node, lv, x, y, z),
            met(x, y, z, extent_of(lv)),
            extent == extent_of(lv),
            f == grows_at(op, neat),
            met == reach(op),
            (x, y, z) == (origin.x as int, origin.y as int, origin.z as int),
            in_space(lv, x, y, z),
            step == extent_of(lv - 1),
            step >= 4,
            start.wf(),
            held(start, node, lv),
            midway(start, node, lv, *arena, cur),
            marked(start, *arena),
            children@.len() == i,
            forall|j: int| 0 <= j < i ==> cur[j] == #[trigger] children@[j],
            forall|j: int| i <= j < 64 ==> #[trigger] cur[j] == kid(s, node, j),
            forall|j: int| i <= j < 64 ==> quiet(start, *arena, #[trigger] cur[j], lv - 1),
            steady_so_far(met, start, node, lv, x, y, z, *arena, cur, i as int),
            forall|j: int|
                0 <= j < i ==> neat_at(
                    sure(op),
                    arena.slots(),
                    #[trigger] cur[j],
                    lv - 1,
                    child_x(x, j, lv),
                    child_y(y, j, lv),
                    child_z(z, j, lv),
                ),
            tidy(s, node, lv) ==> forall|j: int|
                0 <= j < 64 ==> tidy(arena.slots(), #[trigger] cur[j], lv - 1),
            in_bytes(s, node, lv) ==> forall|j: int|
                0 <= j < 64 ==> in_bytes(arena.slots(), #[trigger] cur[j], lv - 1),
            forall|j: int|
                0 <= j < i ==> left_alone(
                    met,
                    start,
                    kid(s, node, j),
                    *arena,
                    #[trigger] cur[j],
                    lv - 1,
                    child_x(x, j, lv),
                    child_y(y, j, lv),
                    child_z(z, j, lv),
                ),
            forall|j: int|
                0 <= j < i ==> rewritten(
                    op,
                    s,
                    kid(s, node, j),
                    arena.slots(),
                    #[trigger] cur[j],
                    lv - 1,
                    child_x(x, j, lv),
                    child_y(y, j, lv),
                    child_z(z, j, lv),
                ),
            canon(s, node, lv) ==> forall|j: int|
                0 <= j < 64 ==> canon(arena.slots(), #[trigger] cur[j], lv - 1),
            arena.slots().nodes.len() <= s.nodes.len() + growth_upto(
                f,
                false,
                lv,
                x,
                y,
                z,
                i as int,
            ),
            arena.slots().voxels.len() <= s.voxels.len() + growth_upto(
                f,
                true,
                lv,
                x,
                y,
                z,
                i as int,
            ),
            s.nodes.len() + growth_upto(f, false, lv, x, y, z, 64) <= u32::MAX,
            s.voxels.len() + growth_upto(f, true, lv, x, y, z, 64) <= u32::MAX,
    {
        let ghost before = *arena;
        proof {
            lemma_cell(i as int);
            lemma_child_inside(x, y, z, lv, i as int);
            lemma_cell_inside(i as int % 4, step as int);
            lemma_cell_inside((i as int / 4) % 4, step as int);
            lemma_cell_inside(i as int / 16, step as int);
            if bit(node.mask, i as int) {
                lemma_slot_in_block(node, i as int);
                lemma_zero_mask(node.mask);
                assert(outside(start, node, lv, false, node.slot(i as int))) by {
                    assert(owns(s, node, lv, false, node.slot(i as int)));
                }
                assert(arena.slots().same(s, false, node.slot(i as int)));
            }
        }
        let child_origin = UVec3::new(
            origin.x + (i % BRICK_EDGE) * step,
            origin.y + ((i / BRICK_EDGE) % BRICK_EDGE) * step,
            origin.z + (i / (BRICK_EDGE * BRICK_EDGE)) * step,
        );
        // An unsubdivided parent hands its own value down to each child.
        let existing = match node.child_slot(i) {
            Some(slot) => arena.node(slot),
            None => if node.is_uniform_solid() {
                node
            } else {
                Node::empty()
            },
        };
        assert(existing == cur[i as int]);
        proof {
            assert(held(*arena, cur[i as int], lv - 1));
            lemma_growth_upto(f, false, lv, x, y, z, i + 1, 64);
            lemma_growth_upto(f, true, lv, x, y, z, i + 1, 64);
            let (cx, cy, cz) = (
                child_x(x, i as int, lv),
                child_y(y, i as int, lv),
                child_z(z, i as int, lv),
            );
            let g = grows_at(op, neat_at(met, arena.slots(), existing, lv - 1, cx, cy, cz));
            if neat {
                assert(neat_at(met, s, kid(s, node, i as int), lv - 1, cx, cy, cz));
                assert(quiet(start, *arena, cur[i as int], lv - 1));
                lemma_frame_neat(met, s, arena.slots(), existing, lv - 1, cx, cy, cz);
            }
            lemma_growth_less(g, f, false, lv - 1, cx, cy, cz);
            lemma_growth_less(g, f, true, lv - 1, cx, cy, cz);
        }
        let child = rewrite(arena, existing, level - 1, child_origin, op);
        children.push(child);
        proof {
            let t = arena.slots();
            let ghost old_cur = cur;
            lemma_marked_trans(start, before, *arena);
            lemma_midway_step(start, node, lv, before, old_cur, i as int, *arena, child);
            cur = old_cur.update(i as int, child);
            assert forall|j: int| 0 <= j < 64 && j != i implies quiet(
                before,
                *arena,
                #[trigger] old_cur[j],
                lv - 1,
            ) && (canon(before.slots(), old_cur[j], lv - 1) ==> canon(t, old_cur[j], lv - 1)) by {
                assert(held(before, old_cur[j], lv - 1));
                lemma_other_kid(before, *arena, old_cur, lv, i as int, child, j);
            }
            lemma_steady_step(met, start, node, lv, x, y, z, before, old_cur, i as int, *arena, child);
            assert forall|j: int| i + 1 <= j < 64 implies quiet(
                start,
                *arena,
                #[trigger] cur[j],
                lv - 1,
            ) by {
                assert(cur[j] == old_cur[j]);
                lemma_quiet_trans(start, before, *arena, cur[j], lv - 1);
            }
            assert forall|j: int| 0 <= j < i + 1 implies rewritten(
                op,
                s,
                kid(s, node, j),
                t,
                #[trigger] cur[j],
                lv - 1,
                child_x(x, j, lv),
                child_y(y, j, lv),
                child_z(z, j, lv),
            ) by {
                let (cx, cy, cz) = (child_x(x, j, lv), child_y(y, j, lv), child_z(z, j, lv));
                let k = kid(s, node, j);
                if j == i {
                    lemma_rewritten_from(op, s, before.slots(), k, t, child, lv - 1, cx, cy, cz);
                } else {
                    assert(cur[j] == old_cur[j]);
                    assert(quiet(before, *arena, old_cur[j], lv - 1));
                    lemma_rewritten_to(
                        op,
                        s,
                        k,
                        before.slots(),
                        t,
                        cur[j],
                        lv - 1,
                        cx,
                        cy,
                        cz,
                    );
                }
            }
            assert forall|j: int| 0 <= j < i + 1 implies left_alone(
                met,
                start,
                kid(s, node, j),
                *arena,
                #[trigger] cur[j],
                lv - 1,
                child_x(x, j, lv),
                child_y(y, j, lv),
                child_z(z, j, lv),
            ) by {
                let (cx, cy, cz) = (child_x(x, j, lv), child_y(y, j, lv), child_z(z, j, lv));
                let k = kid(s, node, j);
                if j == i {
                    assert(quiet(start, before, old_cur[j], lv - 1));
                    lemma_alone_from(met, start, before, k, *arena, child, lv - 1, cx, cy, cz);
                } else {
                    assert(cur[j] == old_cur[j]);
                    assert(quiet(before, *arena, old_cur[j], lv - 1));
                    lemma_alone_to(met, start, k, before, *arena, cur[j], lv - 1, cx, cy, cz);
                }
            }
            assert forall|j: int| 0 <= j < i + 1 implies neat_at(
                sure(op),
                t,
                #[trigger] cur[j],
                lv - 1,
                child_x(x, j, lv),
                child_y(y, j, lv),
                child_z(z, j, lv),
            ) by {
                if j < i {
                    assert(cur[j] == old_cur[j]);
                    assert(quiet(before, *arena, old_cur[j], lv - 1));
                    lemma_frame_neat(
                        sure(op),
                        before.slots(),
                        t,
                        cur[j],
                        lv - 1,
                        child_x(x, j, lv),
                        child_y(y, j, lv),
                        child_z(z, j, lv),
                    );
                }
            }
            assert forall|j: int| 0 <= j < 64 implies (tidy(s, node, lv) ==> tidy(
                t,
                #[trigger] cur[j],
                lv - 1,
            )) && (in_bytes(s, node, lv) ==> in_bytes(t, cur[j], lv - 1)) by {
                assert(tidy(s, node, lv) ==> tidy(before.slots(), old_cur[j], lv - 1));
                assert(in_bytes(s, node, lv) ==> in_bytes(before.slots(), old_cur[j], lv - 1));
                if j != i {
                    assert(quiet(before, *arena, old_cur[j], lv - 1));
                    lemma_frame_tidy(before.slots(), t, old_cur[j], lv - 1);
                }
            }
            if canon(s, node, lv) {
                assert forall|j: int| 0 <= j < 64 implies canon(t, #[trigger] cur[j], lv - 1) by {
                    assert(canon(before.slots(), old_cur[j], lv - 1));
                }
            }
        }
    }
    let ghost now = *arena;
    proof {
        assert(cur =~= children@);
        assert forall|slot: int| #[trigger] in_block(node, slot) implies !now.is_free(
            false,
            slot,
        ) by {
            assert(owns(s, node, lv, false, slot));
            assert(outside(start, node, lv, false, slot));
        }
    }
    give_back(arena, node, false);
    let ghost freed = *arena;
    proof {
        lemma_mask_extremes(nodes_present(children@));
        if calm {
            lemma_calm_kids(op, start, node, lv, now, cur, x, y, z);
            lemma_same_kids_needed(s, node);
            assert(cur =~= kids_of(s, node));
            lemma_rank_monotone(node.mask, 0, 64);
            lemma_zero_mask(node.mask);
            assert(freed.free_lists(false)[ones(node.mask) as int]@ == crate::reuse::with_block(
                now,
                node,
                false,
                false,
                ones(node.mask) as int,
            ));
        } else {
            assert(s.nodes.len() + growth_upto(f, false, lv, x, y, z, 64) + 64 <= u32::MAX);
        }
    }
    let new = store_nodes(arena, &children);
    proof {
        let t = arena.slots();
        assert forall|slot: int| #[trigger] in_block(node, slot) implies !start.is_free(
            false,
            slot,
        ) by {
            assert(owns(s, node, lv, false, slot));
        }
        lemma_midway_end(start, node, lv, now, children@, freed, *arena, new);
        lemma_steady_end(met, start, node, lv, x, y, z, now, children@, freed, *arena, new);
        lemma_settled_end(sure(op), s, node, lv, x, y, z, now, children@, *arena, new);
        lemma_rank_monotone(node.mask, 0, 64);
        assert(freed.free_lists(false)[ones(node.mask) as int]@ == crate::reuse::with_block(
            now,
            node,
            false,
            false,
            ones(node.mask) as int,
        ));
        assert forall|j: int| 0 <= j < 64 implies left_alone(
            met,
            start,
            #[trigger] kid(s, node, j),
            *arena,
            kid(t, new, j),
            lv - 1,
            child_x(x, j, lv),
            child_y(y, j, lv),
            child_z(z, j, lv),
        ) by {
            let (cx, cy, cz) = (child_x(x, j, lv), child_y(y, j, lv), child_z(z, j, lv));
            let (k, c) = (kid(s, node, j), children@[j]);
            assert(quiet(now, *arena, c, lv - 1));
            assert(left_alone(met, start, k, now, cur[j], lv - 1, cx, cy, cz));
            lemma_alone_to(met, start, k, now, *arena, c, lv - 1, cx, cy, cz);
            lemma_join_kid(t, children@, new, j);
            if c.vacant() {
                lemma_alone_vacant(met, start, k, *arena, c, kid(t, new, j), lv - 1, cx, cy, cz);
            }
        }
        lemma_taken_marked(freed, *arena, new, false);
        lemma_marked_trans(start, now, freed);
        lemma_marked_trans(start, freed, *arena);
        lemma_zero_mask(new.mask);
        assert forall|dx: int, dy: int, dz: int|
            0 <= dx < extent_of(lv) && 0 <= dy < extent_of(lv) && 0 <= dz < extent_of(
                lv,
            ) implies becomes(
            op,
            x + dx,
            y + dy,
            z + dz,
            voxel_at(s, node, lv, dx, dy, dz),
            #[trigger] voxel_at(t, new, lv, dx, dy, dz),
        ) by {
            lemma_extent(lv);
            let w = step as int;
            lemma_split(dx, w);
            lemma_split(dy, w);
            lemma_split(dz, w);
            lemma_ordinal(dx / w, dy / w, dz / w);
            let j = ordinal(dx / w, dy / w, dz / w);
            lemma_join_voxel(t, children@, new, lv, dx, dy, dz);
            assert(quiet(now, *arena, children@[j], lv - 1));
            lemma_frame_voxel(now.slots(), t, children@[j], lv - 1, dx % w, dy % w, dz % w);
            assert(rewritten(
                op,
                s,
                kid(s, node, j),
                now.slots(),
                cur[j],
                lv - 1,
                child_x(x, j, lv),
                child_y(y, j, lv),
                child_z(z, j, lv),
            ));
            assert(becomes(
                op,
                child_x(x, j, lv) + dx % w,
                child_y(y, j, lv) + dy % w,
                child_z(z, j, lv) + dz % w,
                voxel_at(s, kid(s, node, j), lv - 1, dx % w, dy % w, dz % w),
                voxel_at(now.slots(), cur[j], lv - 1, dx % w, dy % w, dz % w),
            ));
        }
        if calm {
            lemma_still(op, s, node, t, new, lv, x, y, z);
        }
    }
    new
}

/// An edit that may change no voxel of a cube changes none.
proof fn lemma_still<O: EditOp>(
    op: &O,
    before: Slots,
    node: Node,
    after: Slots,
    new: Node,
    level: int,
    x: int,
    y: int,
    z: int,
)
    requires
        in_space(level, x, y, z),
        rewritten(op, before, node, after, new, level, x, y, z),
        !stirs(op, x, y, z, extent_of(level)),
    ensures
        stand_alike(before, node, after, new, level),
{
    assert forall|dx: int, dy: int, dz: int|
        0 <= dx < extent_of(level) && 0 <= dy < extent_of(level) && 0 <= dz < extent_of(
            level,
        ) implies #[trigger] voxel_at(after, new, level, dx, dy, dz) == voxel_at(
        before,
        node,
        level,
        dx,
        dy,
        dz,
    ) by {
        let (u, v) = (
            voxel_at(before, node, level, dx, dy, dz),
            voxel_at(after, new, level, dx, dy, dz),
        );
        assert(becomes(op, x + dx, y + dy, z + dz, u, v));
        let change = choose|change: Option<u8>| #[trigger]
            op.turns(x + dx, y + dy, z + dz, change) && v == turned(change, u);
        if let Some(m) = change {
            assert(op.turns(x + dx, y + dy, z + dz, Some(m)));
        }
    }
}

/// A child's cube fits where the node's does.
proof fn lemma_space_child(level: int, x: int, y: int, z: int, i: int)
    requires
        level >= 1,
        0 <= i < 64,
        in_space(level, x, y, z),
    ensures
        in_space(level - 1, child_x(x, i, level), child_y(y, i, level), child_z(z, i, level)),
{
    let e = extent_of(level - 1);
    lemma_extent(level);
    lemma_extent(level - 1);
    lemma_cell(i);
    lemma_child_inside(x, y, z, level, i);
    lemma_cell_span(i % 4, 0, e);
    lemma_cell_span((i / 4) % 4, 0, e);
    lemma_cell_span(i / 16, 0, e);
}

/// What does not stir a node does not stir its children.
proof fn lemma_calm_child<O: EditOp>(op: &O, level: int, x: int, y: int, z: int, i: int)
    requires
        level >= 1,
        0 <= i < 64,
        !stirs(op, x, y, z, extent_of(level)),
    ensures
        !stirs(
            op,
            child_x(x, i, level),
            child_y(y, i, level),
            child_z(z, i, level),
            extent_of(level - 1),
        ),
{
    let (cx, cy, cz) = (child_x(x, i, level), child_y(y, i, level), child_z(z, i, level));
    lemma_extent(level);
    lemma_extent(level - 1);
    lemma_cell(i);
    lemma_child_inside(x, y, z, level, i);
    let e = extent_of(level - 1);
    lemma_cell_span(i % 4, 0, e);
    lemma_cell_span((i / 4) % 4, 0, e);
    lemma_cell_span(i / 16, 0, e);
    if stirs(op, cx, cy, cz, e) {
        let (a, b, c, m) = choose|a: int, b: int, c: int, m: u8| #[trigger]
            op.turns(a, b, c, Some(m)) && {
                &&& cx <= a < cx + e && cy <= b < cy + e && cz <= c < cz + e
                &&& 0 <= a <= u32::MAX && 0 <= b <= u32::MAX && 0 <= c <= u32::MAX
            };
        assert(op.turns(a, b, c, Some(m)));
        assert(x <= a < x + extent_of(level));
    }
}

/// Where a neat node is not stirred, nothing below it can grow.
proof fn lemma_calm<O: EditOp>(op: &O, leaf: bool, level: int, x: int, y: int, z: int, n: int)
    requires
        level >= 1,
        0 <= n <= 64,
        !stirs(op, x, y, z, extent_of(level)),
    ensures
        growth_upto(grows_at(op, true), leaf, level, x, y, z, n) == 0,
    decreases n,
{
    if n > 0 {
        lemma_calm(op, leaf, level, x, y, z, n - 1);
        lemma_calm_child(op, level, x, y, z, n - 1);
        let f = grows_at(op, true);
        let (cx, cy, cz) = (
            child_x(x, n - 1, level),
            child_y(y, n - 1, level),
            child_z(z, n - 1, level),
        );
        assert(!f(cx, cy, cz, extent_of(level - 1)));
        assert(growth(f, leaf, level - 1, cx, cy, cz) == 0);
    }
}

/// Where a neat node is not stirred, rewriting its children has put everything back.
proof fn lemma_calm_kids<O: EditOp>(
    op: &O,
    start: NodeArena,
    node: Node,
    level: int,
    now: NodeArena,
    cur: Seq<Node>,
    x: int,
    y: int,
    z: int,
)
    requires
        level >= 1,
        in_space(level, x, y, z),
        neat_at(reach(op), start.slots(), node, level, x, y, z),
        !stirs(op, x, y, z, extent_of(level)),
        steady_so_far(reach(op), start, node, level, x, y, z, now, cur, 64),
        forall|j: int|
            0 <= j < 64 ==> rewritten(
                op,
                start.slots(),
                kid(start.slots(), node, j),
                now.slots(),
                #[trigger] cur[j],
                level - 1,
                child_x(x, j, level),
                child_y(y, j, level),
                child_z(z, j, level),
            ),
    ensures
        now.slots() == start.slots(),
        forall|j: int| 0 <= j < 64 ==> #[trigger] cur[j] == kid(start.slots(), node, j),
{
    let s = start.slots();
    assert forall|j: int| 0 <= j < 64 implies stand_alike(
        s,
        kid(s, node, j),
        now.slots(),
        #[trigger] cur[j],
        level - 1,
    ) by {
        lemma_calm_child(op, level, x, y, z, j);
        lemma_space_child(level, x, y, z, j);
        lemma_still(
            op,
            s,
            kid(s, node, j),
            now.slots(),
            cur[j],
            level - 1,
            child_x(x, j, level),
            child_y(y, j, level),
            child_z(z, j, level),
        );
    }
}

/// Midway through rewriting the children of a neat node: where the first `n` stand for
/// the voxels they stood for, nothing stored has changed.
spec fn steady_so_far(
    at: spec_fn(int, int, int, int) -> bool,
    start: NodeArena,
    node: Node,
    level: int,
    x: int,
    y: int,
    z: int,
    now: NodeArena,
    cur: Seq<Node>,
    n: int,
) -> bool {
    let s = start.slots();
    neat_at(at, s, node, level, x, y, z) && (forall|j: int|
        0 <= j < n ==> stand_alike(s, kid(s, node, j), now.slots(), #[trigger] cur[j], level - 1))
        ==> {
        &&& now.slots() == s
        &&& same_free(start, now)
        &&& forall|j: int| 0 <= j < n ==> #[trigger] cur[j] == kid(s, node, j)
    }
}

proof fn lemma_steady_step(
    at: spec_fn(int, int, int, int) -> bool,
    start: NodeArena,
    node: Node,
    level: int,
    x: int,
    y: int,
    z: int,
    now: NodeArena,
    cur: Seq<Node>,
    i: int,
    next: NodeArena,
    new: Node,
)
    requires
        level >= 1,
        0 <= i < 64,
        cur.len() == 64,
        cur[i] == kid(start.slots(), node, i),
        at(x, y, z, extent_of(level)),
        steady_so_far(at, start, node, level, x, y, z, now, cur, i),
        steady(
            at,
            now,
            next,
            cur[i],
            new,
            level - 1,
            child_x(x, i, level),
            child_y(y, i, level),
            child_z(z, i, level),
        ),
        forall|j: int| 0 <= j < 64 && j != i ==> quiet(now, next, #[trigger] cur[j], level - 1),
    ensures
        steady_so_far(at, start, node, level, x, y, z, next, cur.update(i, new), i + 1),
{
    let s = start.slots();
    let after = cur.update(i, new);
    if neat_at(at, s, node, level, x, y, z) && (forall|j: int|
        0 <= j < i + 1 ==> stand_alike(
            s,
            kid(s, node, j),
            next.slots(),
            #[trigger] after[j],
            level - 1,
        )) {
        assert forall|j: int| 0 <= j < i implies stand_alike(
            s,
            kid(s, node, j),
            now.slots(),
            #[trigger] cur[j],
            level - 1,
        ) by {
            assert(after[j] == cur[j]);
            assert(stand_alike(s, kid(s, node, j), next.slots(), after[j], level - 1));
            assert forall|dx: int, dy: int, dz: int|
                0 <= dx < extent_of(level - 1) && 0 <= dy < extent_of(level - 1) && 0 <= dz
                    < extent_of(level - 1) implies #[trigger] voxel_at(
                now.slots(),
                cur[j],
                level - 1,
                dx,
                dy,
                dz,
            ) == voxel_at(s, kid(s, node, j), level - 1, dx, dy, dz) by {
                assert(quiet(now, next, cur[j], level - 1));
                lemma_frame_voxel(now.slots(), next.slots(), cur[j], level - 1, dx, dy, dz);
                assert(voxel_at(next.slots(), after[j], level - 1, dx, dy, dz) == voxel_at(
                    s,
                    kid(s, node, j),
                    level - 1,
                    dx,
                    dy,
                    dz,
                ));
            }
        }
        assert(neat_at(
            at,
            s,
            kid(s, node, i),
            level - 1,
            child_x(x, i, level),
            child_y(y, i, level),
            child_z(z, i, level),
        ));
        assert(after[i] == new);
        assert(stand_alike(s, kid(s, node, i), next.slots(), new, level - 1));
        assert(new == cur[i]);
        assert forall|leaf: bool, c: int| 0 <= c < 65 implies (#[trigger] next.free_lists(
            leaf,
        )[c])@ == start.free_lists(leaf)[c]@ by {
            assert(now.free_lists(leaf)[c]@ == start.free_lists(leaf)[c]@);
        }
        assert forall|j: int| 0 <= j < i + 1 implies #[trigger] after[j] == kid(s, node, j) by {
            if j < i {
                assert(cur[j] == kid(s, node, j));
            }
        }
    }
}

proof fn lemma_steady_end(
    at: spec_fn(int, int, int, int) -> bool,
    start: NodeArena,
    node: Node,
    level: int,
    x: int,
    y: int,
    z: int,
    now: NodeArena,
    kids: Seq<Node>,
    freed: NodeArena,
    done: NodeArena,
    new: Node,
)
    requires
        level >= 1,
        kids.len() == 64,
        at(x, y, z, extent_of(level)),
        wf(start.slots(), node, level),
        steady_so_far(at, start, node, level, x, y, z, now, kids, 64),
        freed.slots() == now.slots(),
        given_back(now, freed, node, false),
        node.mask == 0 ==> freed == now,
        block_taken(freed, done, new, false),
        block_placed(freed, done, new, false),
        is_join(done.slots(), kids, new),
        forall|j: int| 0 <= j < 64 ==> quiet(now, done, #[trigger] kids[j], level - 1),
    ensures
        steady(at, start, done, node, new, level, x, y, z),
{
    let (s, t) = (start.slots(), done.slots());
    if neat_at(at, s, node, level, x, y, z) && stand_alike(s, node, t, new, level) {
        lemma_extent(level);
        lemma_extent(level - 1);
        let w = extent_of(level - 1);
        assert forall|j: int| 0 <= j < 64 implies stand_alike(
            s,
            kid(s, node, j),
            now.slots(),
            #[trigger] kids[j],
            level - 1,
        ) by {
            lemma_cell(j);
            assert forall|dx: int, dy: int, dz: int|
                0 <= dx < w && 0 <= dy < w && 0 <= dz < w implies #[trigger] voxel_at(
                now.slots(),
                kids[j],
                level - 1,
                dx,
                dy,
                dz,
            ) == voxel_at(s, kid(s, node, j), level - 1, dx, dy, dz) by {
                let (a, b, c) = ((j % 4) * w + dx, ((j / 4) % 4) * w + dy, (j / 16) * w + dz);
                lemma_cell_span(j % 4, dx, w);
                lemma_cell_span((j / 4) % 4, dy, w);
                lemma_cell_span(j / 16, dz, w);
                lemma_join_coord(j % 4, dx, w);
                lemma_join_coord((j / 4) % 4, dy, w);
                lemma_join_coord(j / 16, dz, w);
                lemma_join_voxel(t, kids, new, level, a, b, c);
                assert(quiet(now, done, kids[j], level - 1));
                lemma_frame_voxel(now.slots(), t, kids[j], level - 1, dx, dy, dz);
                assert(voxel_at(t, new, level, a, b, c) == voxel_at(s, node, level, a, b, c));
            }
        }
        assert(kids =~= kids_of(s, node));
        lemma_same_join(s, node, t, new);
        if node.mask == 0 {
            assert(done == now);
        } else {
            assert forall|k: bool, c: int| 0 <= c < 65 implies (#[trigger] freed.free_lists(k)[c])@
                == crate::reuse::with_block(start, node, false, k, c) by {
                assert(now.free_lists(k)[c]@ == start.free_lists(k)[c]@);
            }
            lemma_put_back(start, node, false, freed, done, new);
        }
    }
}

/// What storing the new children leaves behind: a node in the form they are stored in,
/// that passes where they do.
proof fn lemma_settled_end(
    at: spec_fn(int, int, int, int) -> bool,
    s: Slots,
    node: Node,
    level: int,
    x: int,
    y: int,
    z: int,
    now: NodeArena,
    kids: Seq<Node>,
    done: NodeArena,
    new: Node,
)
    requires
        level >= 1,
        kids.len() == 64,
        is_join(done.slots(), kids, new),
        forall|j: int| 0 <= j < 64 ==> quiet(now, done, #[trigger] kids[j], level - 1),
        forall|j: int|
            0 <= j < 64 ==> neat_at(
                at,
                now.slots(),
                #[trigger] kids[j],
                level - 1,
                child_x(x, j, level),
                child_y(y, j, level),
                child_z(z, j, level),
            ),
        tidy(s, node, level) ==> forall|j: int|
            0 <= j < 64 ==> tidy(now.slots(), #[trigger] kids[j], level - 1),
        in_bytes(s, node, level) ==> forall|j: int|
            0 <= j < 64 ==> in_bytes(now.slots(), #[trigger] kids[j], level - 1),
    ensures
        neat_at(at, done.slots(), new, level, x, y, z),
        tidy(s, node, level) ==> tidy(done.slots(), new, level),
        in_bytes(s, node, level) ==> in_bytes(done.slots(), new, level),
{
    let t = done.slots();
    lemma_join_itself(t, kids, new);
    lemma_join_tidy(t, kids, new, level);
    assert forall|j: int| 0 <= j < 64 implies (tidy(s, node, level) ==> tidy(
        t,
        #[trigger] kids[j],
        level - 1,
    )) && (in_bytes(s, node, level) ==> in_bytes(t, kids[j], level - 1)) by {
        assert(quiet(now, done, kids[j], level - 1));
        lemma_frame_tidy(now.slots(), t, kids[j], level - 1);
    }
    assert forall|j: int| 0 <= j < 64 implies neat_at(
        at,
        t,
        #[trigger] kid(t, new, j),
        level - 1,
        child_x(x, j, level),
        child_y(y, j, level),
        child_z(z, j, level),
    ) by {
        let (cx, cy, cz) = (child_x(x, j, level), child_y(y, j, level), child_z(z, j, level));
        lemma_join_kid(t, kids, new, j);
        if kids[j].vacant() && kid(t, new, j) == Node::solid(0) {
            lemma_canon_neat(at, t, Node::solid(0), level - 1, cx, cy, cz);
        } else {
            assert(quiet(now, done, kids[j], level - 1));
            lemma_frame_neat(at, now.slots(), t, kids[j], level - 1, cx, cy, cz);
        }
    }
}

/// A rewrite of a node that was as it is now in an earlier state.
proof fn lemma_rewritten_from<O: EditOp>(
    op: &O,
    earlier: Slots,
    before: Slots,
    node: Node,
    after: Slots,
    new: Node,
    level: int,
    x: int,
    y: int,
    z: int,
)
    requires
        level >= 0,
        agree(earlier, before, node, level),
        rewritten(op, before, node, after, new, level, x, y, z),
    ensures
        rewritten(op, earlier, node, after, new, level, x, y, z),
{
    assert forall|dx: int, dy: int, dz: int|
        0 <= dx < extent_of(level) && 0 <= dy < extent_of(level) && 0 <= dz < extent_of(
            level,
        ) implies becomes(
        op,
        x + dx,
        y + dy,
        z + dz,
        voxel_at(earlier, node, level, dx, dy, dz),
        #[trigger] voxel_at(after, new, level, dx, dy, dz),
    ) by {
        lemma_frame_voxel(earlier, before, node, level, dx, dy, dz);
    }
}

/// A rewrite whose result stays as it is in a later state.
proof fn lemma_rewritten_to<O: EditOp>(
    op: &O,
    before: Slots,
    node: Node,
    after: Slots,
    later: Slots,
    new: Node,
    level: int,
    x: int,
    y: int,
    z: int,
)
    requires
        level >= 0,
        agree(after, later, new, level),
        rewritten(op, before, node, after, new, level, x, y, z),
    ensures
        rewritten(op, before, node, later, new, level, x, y, z),
{
    assert forall|dx: int, dy: int, dz: int|
        0 <= dx < extent_of(level) && 0 <= dy < extent_of(level) && 0 <= dz < extent_of(
            level,
        ) implies becomes(
        op,
        x + dx,
        y + dy,
        z + dz,
        voxel_at(before, node, level, dx, dy, dz),
        #[trigger] voxel_at(later, new, level, dx, dy, dz),
    ) by {
        assert(becomes(
            op,
            x + dx,
            y + dy,
            z + dz,
            voxel_at(before, node, level, dx, dy, dz),
            voxel_at(after, new, level, dx, dy, dz),
        ));
        lemma_frame_voxel(after, later, new, level, dx, dy, dz);
    }
}

fn rewrite_leaf<O: EditOp>(arena: &mut NodeArena, node: Node, origin: UVec3, op: &O) -> (new: Node)
    requires
        op.valid(),
        old(arena).wf(),
        held(*old(arena), node, 0),
        in_space(0, origin.x as int, origin.y as int, origin.z as int),
        old(arena).slots().voxels.len() + 64 <= u32::MAX || (is_brick(
            old(arena).slots(),
            bytes_of(old(arena).slots(), node),
            node,
        ) && !stirs(op, origin.x as int, origin.y as int, origin.z as int, 4)),
    ensures
        final(arena).wf(),
        held(*final(arena), new, 0),
        exchanged(*old(arena), *final(arena), node, new, true),
        kept(*old(arena), *final(arena), node, new, 0),
        all_used(*old(arena), *final(arena), node, new, 0),
        is_brick(final(arena).slots(), bytes_of(final(arena).slots(), new), new),
        is_brick(old(arena).slots(), bytes_of(old(arena).slots(), node), node) && stand_alike(
            old(arena).slots(),
            node,
            final(arena).slots(),
            new,
            0,
        ) ==> {
            &&& new == node
            &&& final(arena).slots() == old(arena).slots()
            &&& same_free(*old(arena), *final(arena))
        },
        marked(*old(arena), *final(arena)),
        final(arena).slots().voxels.len() <= old(arena).slots().voxels.len() + 64,
        final(arena).slots().nodes.len() == old(arena).slots().nodes.len(),
        canon(final(arena).slots(), new, 0),
        rewritten(
            op,
            old(arena).slots(),
            node,
            final(arena).slots(),
            new,
            0,
            origin.x as int,
            origin.y as int,
            origin.z as int,
        ),
{
    let ghost (x, y, z) = (origin.x as int, origin.y as int, origin.z as int);
    let ghost start = *arena;
    let ghost s = start.slots();
    let mut materials: Vec<u8> = Vec::new();
    proof {
        reveal_with_fuel(extent_of, 2);
    }
    for i in 0..CHILDREN
        invariant
            *arena == start,
            s == start.slots(),
            arena.wf(),
            held(start, node, 0),
            (x, y, z) == (origin.x as int, origin.y as int, origin.z as int),
            x + 4 <= 0x4000_0000,
            y + 4 <= 0x4000_0000,
            z + 4 <= 0x4000_0000,
            op.valid(),
            materials@.len() == i,
            forall|j: int|
                0 <= j < i ==> becomes(
                    op,
                    x + j % 4,
                    y + (j / 4) % 4,
                    z + j / 16,
                    byte_of(s, node, j),
                    #[trigger] materials@[j],
                ),
    {
        proof {
            lemma_cell(i as int);
            if bit(node.mask, i as int) {
                lemma_slot_in_block(node, i as int);
                lemma_zero_mask(node.mask);
            }
        }
        let p = UVec3::new(
            origin.x + i % BRICK_EDGE,
            origin.y + (i / BRICK_EDGE) % BRICK_EDGE,
            origin.z + i / (BRICK_EDGE * BRICK_EDGE),
        );
        let existing = match node.child_slot(i) {
            Some(slot) => arena.voxel(slot),
            None => if node.is_uniform_solid() {
                node.material().0
            } else {
                0
            },
        };
        let told = op.material_at(p);
        let m = match told {
            Some(material) => material.0,
            None => existing,
        };
        proof {
            let change = match told {
                Some(material) => Some(material.0),
                None => None,
            };
            assert(op.turns(p.x as int, p.y as int, p.z as int, change));
            assert(m == turned(change, existing));
        }
        materials.push(m);
    }
    proof {
        assert forall|slot: int| #[trigger] in_block(node, slot) implies !start.is_free(
            true,
            slot,
        ) by {
            assert(owns(s, node, 0, true, slot));
        }
    }
    give_back(arena, node, true);
    let ghost freed = *arena;
    proof {
        lemma_mask_extremes(voxels_present(materials@));
        if is_brick(s, bytes_of(s, node), node) && !stirs(op, x, y, z, 4) {
            assert forall|j: int| 0 <= j < 64 implies #[trigger] materials@[j] == bytes_of(
                s,
                node,
            )[j] by {
                let (a, b, c) = (x + j % 4, y + (j / 4) % 4, z + j / 16);
                assert(becomes(op, a, b, c, byte_of(s, node, j), materials@[j]));
                let change = choose|change: Option<u8>| #[trigger]
                    op.turns(a, b, c, change) && materials@[j] == turned(
                        change,
                        byte_of(s, node, j),
                    );
                if let Some(m) = change {
                    assert(op.turns(a, b, c, Some(m)));
                }
            }
            assert(materials@ =~= bytes_of(s, node));
            lemma_same_bytes_needed(s, node);
            lemma_rank_monotone(node.mask, 0, 64);
            lemma_zero_mask(node.mask);
            assert(freed.free_lists(true)[ones(node.mask) as int]@ == crate::reuse::with_block(
                start,
                node,
                true,
                true,
                ones(node.mask) as int,
            ));
        }
    }
    let new = store_voxels(arena, &materials);
    proof {
        let t = arena.slots();
        lemma_brick(t, materials@, new);
        lemma_brick_itself(t, materials@, new);
        lemma_taken_marked(freed, *arena, new, true);
        lemma_marked_trans(start, freed, *arena);
        lemma_zero_mask(new.mask);
        lemma_exchanged(start, node, true, freed, *arena, new);
        lemma_steady_leaf(start, node, freed, *arena, materials@, new);
        assert forall|leaf: bool, slot: int| #[trigger] spared(start, node, 0, leaf, slot) implies t.same(
            s,
            leaf,
            slot,
        ) && !arena.is_free(leaf, slot) && arena.is_dirty(leaf, slot) == start.is_dirty(leaf, slot)
            && !owns(t, new, 0, leaf, slot) by {
            if leaf && in_block(node, slot) {
                assert(owns(s, node, 0, leaf, slot));
            }
            assert(!freed.is_free(leaf, slot));
            assert(!(leaf && in_block(new, slot)));
            assert(t.same(freed.slots(), leaf, slot));
        }
        assert forall|leaf: bool, slot: int|
            0 <= slot < t.len(leaf) && !spared(start, node, 0, leaf, slot) implies #[trigger] owns(
            t,
            new,
            0,
            leaf,
            slot,
        ) || arena.is_free(leaf, slot) by {
            if !(leaf && in_block(new, slot)) {
                assert(slot < s.len(leaf));
                if !start.is_free(leaf, slot) {
                    assert(leaf && in_block(node, slot));
                }
                assert(freed.is_free(leaf, slot));
            }
        }
        assert forall|dx: int, dy: int, dz: int|
            0 <= dx < extent_of(0) && 0 <= dy < extent_of(0) && 0 <= dz < extent_of(
                0,
            ) implies becomes(
            op,
            x + dx,
            y + dy,
            z + dz,
            voxel_at(s, node, 0, dx, dy, dz),
            #[trigger] voxel_at(t, new, 0, dx, dy, dz),
        ) by {
            lemma_ordinal(dx, dy, dz);
            let j = ordinal(dx, dy, dz);
            assert(byte_of(t, new, j) == materials@[j]);
        }
    }
    new
}

/// Storing the voxels a brick holds already changes nothing stored.
proof fn lemma_steady_leaf(
    start: NodeArena,
    node: Node,
    freed: NodeArena,
    done: NodeArena,
    bytes: Seq<u8>,
    new: Node,
)
    requires
        bytes.len() == 64,
        wf(start.slots(), node, 0),
        freed.slots() == start.slots(),
        given_back(start, freed, node, true),
        node.mask == 0 ==> freed == start,
        block_taken(freed, done, new, true),
        block_placed(freed, done, new, true),
        is_brick(done.slots(), bytes, new),
    ensures
        is_brick(start.slots(), bytes_of(start.slots(), node), node) && stand_alike(
            start.slots(),
            node,
            done.slots(),
            new,
            0,
        ) ==> {
            &&& new == node
            &&& done.slots() == start.slots()
            &&& same_free(start, done)
        },
{
    let (s, t) = (start.slots(), done.slots());
    lemma_brick(t, bytes, new);
    if is_brick(s, bytes_of(s, node), node) && stand_alike(s, node, t, new, 0) {
        reveal_with_fuel(extent_of, 2);
        assert forall|j: int| 0 <= j < 64 implies #[trigger] bytes[j] == bytes_of(s, node)[j] by {
            lemma_cell(j);
            assert(voxel_at(t, new, 0, j % 4, (j / 4) % 4, j / 16) == voxel_at(
                s,
                node,
                0,
                j % 4,
                (j / 4) % 4,
                j / 16,
            ));
            assert(byte_of(t, new, j) == bytes[j]);
        }
        assert(bytes =~= bytes_of(s, node));
        lemma_same_brick(s, node, t, new);
        if node.mask != 0 {
            lemma_put_back(start, node, true, freed, done, new);
        }
    }
}

} // verus!
