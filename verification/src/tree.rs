//! What the stored slots mean: the voxels a node stands for, the slots it
//! owns, and when it is canonical.
//!
//! Level 0 is a leaf brick, whose children are voxel bytes. Above it, a node's
//! children are nodes one level down.

use crate::arena::Slots;
use crate::bits::{bit, lemma_rank_monotone, lemma_zero_mask, ones};
use crate::node::{lemma_slot_in_block, ordinal, Node};
use vstd::prelude::*;

verus! {

/// Voxels per axis covered by a node at `level`; a single voxel is level -1.
pub open spec fn extent_of(level: int) -> int
    decreases level + 1,
{
    if level < 0 {
        1
    } else {
        4 * extent_of(level - 1)
    }
}

/// What stands at child `i` of a node above the leaves. An unsubdivided node
/// hands its own value down to each child.
pub open spec fn kid(s: Slots, node: Node, i: int) -> Node {
    if bit(node.mask, i) {
        s.nodes[node.slot(i)]
    } else if node.uniform_solid() {
        node
    } else {
        Node::solid(0)
    }
}

/// The voxel at child `i` of a leaf brick.
pub open spec fn byte_of(s: Slots, node: Node, i: int) -> u8 {
    if bit(node.mask, i) {
        s.voxels[node.slot(i)]
    } else if node.uniform_solid() {
        node.material as u8
    } else {
        0
    }
}

/// The voxel at a position local to the node, each coordinate in
/// `0..extent_of(level)`.
pub open spec fn voxel_at(s: Slots, node: Node, level: int, x: int, y: int, z: int) -> u8
    decreases level,
{
    if level <= 0 {
        byte_of(s, node, ordinal(x, y, z))
    } else {
        let step = extent_of(level - 1);
        voxel_at(
            s,
            kid(s, node, ordinal(x / step, y / step, z / step)),
            level - 1,
            x % step,
            y % step,
            z % step,
        )
    }
}

/// Every slot the node reaches is stored.
pub open spec fn wf(s: Slots, node: Node, level: int) -> bool
    decreases level,
{
    node.mask != 0 ==> {
        &&& node.child_base + ones(node.mask) <= s.len(level <= 0)
        &&& level > 0 ==> forall|i: int| 0 <= i < 64 ==> wf(s, #[trigger] kid(s, node, i), level - 1)
    }
}

/// Whether a slot of the given kind is reached from the node.
pub open spec fn owns(s: Slots, node: Node, level: int, leaf: bool, slot: int) -> bool
    decreases level,
{
    node.mask != 0 && {
        ||| leaf == (level <= 0) && node.child_base <= slot < node.child_base + ones(node.mask)
        ||| level > 0 && exists|i: int|
            0 <= i < 64 && owns(s, #[trigger] kid(s, node, i), level - 1, leaf, slot)
    }
}

/// Whether a slot lies in the block of a node's own children.
pub open spec fn in_block(node: Node, slot: int) -> bool {
    node.mask != 0 && node.child_base <= slot < node.child_base + ones(node.mask)
}

/// No slot is reached twice.
pub open spec fn sep(s: Slots, node: Node, level: int) -> bool
    decreases level,
{
    node.mask != 0 && level > 0 ==> {
        &&& forall|i: int| 0 <= i < 64 ==> sep(s, #[trigger] kid(s, node, i), level - 1)
        &&& forall|i: int, slot: int|
            0 <= i < 64 && in_block(node, slot) ==> !#[trigger] owns(
                s,
                kid(s, node, i),
                level - 1,
                false,
                slot,
            )
        &&& apart(s, kids_of(s, node), level - 1)
    }
}

/// No two of the nodes reach the same slot.
pub open spec fn apart(s: Slots, nodes: Seq<Node>, level: int) -> bool {
    forall|i: int, j: int, leaf: bool, slot: int|
        #![trigger owns(s, nodes[i], level, leaf, slot), owns(s, nodes[j], level, leaf, slot)]
        0 <= i < j < nodes.len() ==> !(owns(s, nodes[i], level, leaf, slot) && owns(
            s,
            nodes[j],
            level,
            leaf,
            slot,
        ))
}

/// Whether 64 bytes are all the same solid voxel.
pub open spec fn all_same_voxel(bytes: Seq<u8>) -> bool {
    bytes[0] != 0 && forall|i: int| 0 <= i < 64 ==> #[trigger] bytes[i] == bytes[0]
}

/// Whether 64 nodes are all the same uniform solid.
pub open spec fn all_same_solid(nodes: Seq<Node>) -> bool {
    nodes[0].uniform_solid() && forall|i: int| 0 <= i < 64 ==> #[trigger] nodes[i] == nodes[0]
}

/// What stands at the 64 children.
pub open spec fn kids_of(s: Slots, node: Node) -> Seq<Node> {
    Seq::new(64, |i: int| kid(s, node, i))
}

/// The 64 voxels of a leaf brick.
pub open spec fn bytes_of(s: Slots, node: Node) -> Seq<u8> {
    Seq::new(64, |i: int| byte_of(s, node, i))
}

/// Stored in the one way its voxels can be: nothing empty is stored, and a
/// region of one material is stored without children.
pub open spec fn canon(s: Slots, node: Node, level: int) -> bool
    decreases level,
{
    if node.mask == 0 {
        node.child_base == 0 && node.material <= 255
    } else {
        &&& node.material == 0
        &&& level <= 0 ==> {
            &&& forall|i: int|
                0 <= i < 64 && bit(node.mask, i) ==> #[trigger] byte_of(s, node, i) != 0
            &&& !all_same_voxel(bytes_of(s, node))
        }
        &&& level > 0 ==> {
            &&& forall|i: int| 0 <= i < 64 ==> canon(s, #[trigger] kid(s, node, i), level - 1)
            &&& forall|i: int|
                0 <= i < 64 && bit(node.mask, i) ==> !(#[trigger] kid(s, node, i)).vacant()
            &&& !all_same_solid(kids_of(s, node))
        }
    }
}

pub proof fn lemma_extent(level: int)
    ensures
        extent_of(level) >= 1,
        level >= 0 ==> extent_of(level) == 4 * extent_of(level - 1),
        level >= 0 ==> extent_of(level) >= 4,
    decreases level + 1,
{
    if level >= 0 {
        lemma_extent(level - 1);
    }
}

/// Splitting a coordinate into a child's cell and the place inside it.
pub proof fn lemma_split(x: int, step: int)
    requires
        step >= 1,
        0 <= x < 4 * step,
    ensures
        0 <= x / step < 4,
        0 <= x % step < step,
        x == (x / step) * step + x % step,
{
    vstd::arithmetic::div_mod::lemma_fundamental_div_mod(x, step);
    vstd::arithmetic::div_mod::lemma_mod_bound(x, step);
    vstd::arithmetic::div_mod::lemma_div_pos_is_pos(x, step);
    assert((x / step) * step == step * (x / step)) by (nonlinear_arith);
    let q = x / step;
    assert(q < 4) by (nonlinear_arith)
        requires
            step >= 1,
            step * q <= x,
            x < 4 * step,
    ;
}

/// A cell and a place inside it come back out of the coordinate they make.
pub proof fn lemma_join_coord(c: int, r: int, step: int)
    requires
        step >= 1,
        0 <= r < step,
    ensures
        (c * step + r) / step == c,
        (c * step + r) % step == r,
{
    vstd::arithmetic::div_mod::lemma_fundamental_div_mod_converse(c * step + r, step, c, r);
}

/// The ordinal of a cell, and the cell of an ordinal.
pub proof fn lemma_ordinal(x: int, y: int, z: int)
    requires
        0 <= x < 4,
        0 <= y < 4,
        0 <= z < 4,
    ensures
        0 <= ordinal(x, y, z) < 64,
        ordinal(x, y, z) % 4 == x,
        (ordinal(x, y, z) / 4) % 4 == y,
        ordinal(x, y, z) / 16 == z,
{
}

pub proof fn lemma_cell(i: int)
    requires
        0 <= i < 64,
    ensures
        0 <= i % 4 < 4,
        0 <= (i / 4) % 4 < 4,
        0 <= i / 16 < 4,
        ordinal(i % 4, (i / 4) % 4, i / 16) == i,
{
}

/// Nothing is stored below an unsubdivided node.
pub proof fn lemma_no_kids(s: Slots, node: Node, i: int)
    requires
        node.mask == 0,
        0 <= i < 64,
    ensures
        !bit(node.mask, i),
        kid(s, node, i) == if node.uniform_solid() {
            node
        } else {
            Node::solid(0)
        },
        byte_of(s, node, i) == node.material as u8,
{
    lemma_zero_mask(node.mask);
}

/// An unsubdivided node is one material throughout.
pub proof fn lemma_uniform(s: Slots, node: Node, level: int, x: int, y: int, z: int)
    requires
        node.mask == 0,
        0 <= level,
        0 <= x < extent_of(level),
        0 <= y < extent_of(level),
        0 <= z < extent_of(level),
    ensures
        voxel_at(s, node, level, x, y, z) == node.material as u8,
    decreases level,
{
    lemma_extent(level);
    lemma_extent(level - 1);
    let step = extent_of(level - 1);
    lemma_split(x, step);
    lemma_split(y, step);
    lemma_split(z, step);
    if level == 0 {
        lemma_ordinal(x, y, z);
        lemma_no_kids(s, node, ordinal(x, y, z));
    } else {
        let i = ordinal(x / step, y / step, z / step);
        lemma_ordinal(x / step, y / step, z / step);
        lemma_no_kids(s, node, i);
        lemma_uniform(s, kid(s, node, i), level - 1, x % step, y % step, z % step);
    }
}

/// Whether every slot the node reaches is stored in `t` as in `s`.
pub open spec fn agree(s: Slots, t: Slots, node: Node, level: int) -> bool {
    forall|leaf: bool, slot: int| #[trigger]
        owns(s, node, level, leaf, slot) ==> 0 <= slot < t.len(leaf) && t.same(s, leaf, slot)
}

/// A child's slots are the node's.
pub proof fn lemma_kid_owned(s: Slots, node: Node, level: int, i: int, leaf: bool, slot: int)
    requires
        level > 0,
        0 <= i < 64,
        owns(s, kid(s, node, i), level - 1, leaf, slot),
    ensures
        owns(s, node, level, leaf, slot),
{
    if node.mask == 0 {
        lemma_no_kids(s, node, i);
    }
}

/// The slots of a node's own children are its own.
pub proof fn lemma_child_slot_owned(s: Slots, node: Node, level: int, i: int)
    requires
        level >= 0,
        0 <= i < 64,
        bit(node.mask, i),
    ensures
        node.mask != 0,
        in_block(node, node.slot(i)),
        owns(s, node, level, level == 0, node.slot(i)),
{
    lemma_zero_mask(node.mask);
    lemma_slot_in_block(node, i);
}

/// Where every slot a node reaches is stored alike, the children are the same.
pub proof fn lemma_same_kid(s: Slots, t: Slots, node: Node, level: int, i: int)
    requires
        level > 0,
        0 <= i < 64,
        agree(s, t, node, level),
    ensures
        kid(t, node, i) == kid(s, node, i),
        agree(s, t, kid(s, node, i), level - 1),
{
    if bit(node.mask, i) {
        lemma_child_slot_owned(s, node, level, i);
        assert(t.same(s, false, node.slot(i)));
    }
    assert forall|leaf: bool, slot: int| #[trigger]
        owns(s, kid(s, node, i), level - 1, leaf, slot) implies 0 <= slot < t.len(leaf) && t.same(
        s,
        leaf,
        slot,
    ) by {
        lemma_kid_owned(s, node, level, i, leaf, slot);
    }
}

pub proof fn lemma_same_byte(s: Slots, t: Slots, node: Node, i: int)
    requires
        0 <= i < 64,
        agree(s, t, node, 0),
    ensures
        byte_of(t, node, i) == byte_of(s, node, i),
{
    if bit(node.mask, i) {
        lemma_child_slot_owned(s, node, 0, i);
        assert(t.same(s, true, node.slot(i)));
    }
}

/// What a node reaches depends on the slots it reaches alone.
pub proof fn lemma_frame_owns(s: Slots, t: Slots, node: Node, level: int, leaf: bool, slot: int)
    requires
        level >= 0,
        agree(s, t, node, level),
    ensures
        owns(t, node, level, leaf, slot) == owns(s, node, level, leaf, slot),
    decreases level,
{
    if level > 0 && node.mask != 0 {
        assert forall|i: int| 0 <= i < 64 implies #[trigger] kid(t, node, i) == kid(s, node, i)
            && owns(t, kid(t, node, i), level - 1, leaf, slot) == owns(
            s,
            kid(s, node, i),
            level - 1,
            leaf,
            slot,
        ) by {
            lemma_same_kid(s, t, node, level, i);
            lemma_frame_owns(s, t, kid(s, node, i), level - 1, leaf, slot);
        }
        if owns(s, node, level, leaf, slot) && (leaf || !in_block(node, slot)) {
            let i = choose|i: int|
                0 <= i < 64 && owns(s, #[trigger] kid(s, node, i), level - 1, leaf, slot);
            assert(owns(t, kid(t, node, i), level - 1, leaf, slot));
        }
        if owns(t, node, level, leaf, slot) && (leaf || !in_block(node, slot)) {
            let i = choose|i: int|
                0 <= i < 64 && owns(t, #[trigger] kid(t, node, i), level - 1, leaf, slot);
            assert(owns(s, kid(s, node, i), level - 1, leaf, slot));
        }
    }
}

/// So does what it stands for, and whether it is well stored.
pub proof fn lemma_frame(s: Slots, t: Slots, node: Node, level: int)
    requires
        level >= 0,
        agree(s, t, node, level),
        wf(s, node, level),
    ensures
        wf(t, node, level),
        canon(s, node, level) ==> canon(t, node, level),
        forall|leaf: bool, slot: int|
            owns(t, node, level, leaf, slot) == owns(s, node, level, leaf, slot),
    decreases level,
{
    assert forall|leaf: bool, slot: int|
        owns(t, node, level, leaf, slot) == owns(s, node, level, leaf, slot) by {
        lemma_frame_owns(s, t, node, level, leaf, slot);
    }
    if node.mask != 0 {
        lemma_zero_mask(node.mask);
        lemma_rank_monotone(node.mask, 0, 64);
        let last = node.child_base + ones(node.mask) - 1;
        assert(owns(s, node, level, level == 0, last));
        if level == 0 {
            assert forall|i: int| 0 <= i < 64 implies #[trigger] byte_of(t, node, i) == byte_of(
                s,
                node,
                i,
            ) by {
                lemma_same_byte(s, t, node, i);
            }
            assert(bytes_of(t, node) =~= bytes_of(s, node));
        } else {
            assert forall|i: int| 0 <= i < 64 implies #[trigger] kid(t, node, i) == kid(s, node, i)
                && wf(t, kid(t, node, i), level - 1) && (canon(s, kid(s, node, i), level - 1)
                ==> canon(t, kid(t, node, i), level - 1)) by {
                lemma_same_kid(s, t, node, level, i);
                lemma_frame(s, t, kid(s, node, i), level - 1);
            }
            assert(kids_of(t, node) =~= kids_of(s, node));
            if canon(s, node, level) {
                assert forall|i: int| 0 <= i < 64 implies canon(
                    t,
                    #[trigger] kid(t, node, i),
                    level - 1,
                ) by {
                    assert(canon(s, kid(s, node, i), level - 1));
                }
            }
        }
    }
}

pub proof fn lemma_frame_sep(s: Slots, t: Slots, node: Node, level: int)
    requires
        level >= 0,
        agree(s, t, node, level),
        sep(s, node, level),
    ensures
        sep(t, node, level),
    decreases level,
{
    if node.mask != 0 && level > 0 {
        assert forall|i: int| 0 <= i < 64 implies #[trigger] kid(t, node, i) == kid(s, node, i)
            && sep(t, kid(t, node, i), level - 1) by {
            lemma_same_kid(s, t, node, level, i);
            lemma_frame_sep(s, t, kid(s, node, i), level - 1);
        }
        assert forall|i: int, leaf: bool, slot: int| 0 <= i < 64 implies #[trigger] owns(
            t,
            kid(t, node, i),
            level - 1,
            leaf,
            slot,
        ) == owns(s, kid(s, node, i), level - 1, leaf, slot) by {
            lemma_same_kid(s, t, node, level, i);
            lemma_frame_owns(s, t, kid(s, node, i), level - 1, leaf, slot);
        }
        let before = kids_of(s, node);
        let after = kids_of(t, node);
        assert(apart(s, before, level - 1));
        assert forall|i: int, j: int, leaf: bool, slot: int|
            #![trigger owns(t, after[i], level - 1, leaf, slot), owns(t, after[j], level - 1, leaf, slot)]
            0 <= i < j < 64 implies !(owns(t, after[i], level - 1, leaf, slot) && owns(
            t,
            after[j],
            level - 1,
            leaf,
            slot,
        )) by {
            assert(owns(t, kid(t, node, i), level - 1, leaf, slot) == owns(
                s,
                before[i],
                level - 1,
                leaf,
                slot,
            ));
            assert(owns(t, kid(t, node, j), level - 1, leaf, slot) == owns(
                s,
                before[j],
                level - 1,
                leaf,
                slot,
            ));
        }
        assert forall|i: int, slot: int| 0 <= i < 64 && in_block(node, slot) implies !#[trigger] owns(
            t,
            kid(t, node, i),
            level - 1,
            false,
            slot,
        ) by {
            assert(!owns(s, kid(s, node, i), level - 1, false, slot));
        }
    }
}

pub proof fn lemma_frame_voxel(
    s: Slots,
    t: Slots,
    node: Node,
    level: int,
    x: int,
    y: int,
    z: int,
)
    requires
        level >= 0,
        agree(s, t, node, level),
        0 <= x < extent_of(level),
        0 <= y < extent_of(level),
        0 <= z < extent_of(level),
    ensures
        voxel_at(t, node, level, x, y, z) == voxel_at(s, node, level, x, y, z),
    decreases level,
{
    lemma_extent(level);
    lemma_extent(level - 1);
    let step = extent_of(level - 1);
    lemma_split(x, step);
    lemma_split(y, step);
    lemma_split(z, step);
    if level == 0 {
        lemma_ordinal(x, y, z);
        lemma_same_byte(s, t, node, ordinal(x, y, z));
    } else {
        lemma_ordinal(x / step, y / step, z / step);
        let i = ordinal(x / step, y / step, z / step);
        lemma_same_kid(s, t, node, level, i);
        lemma_frame_voxel(s, t, kid(s, node, i), level - 1, x % step, y % step, z % step);
    }
}

/// A place inside a child's cell is inside the node.
pub proof fn lemma_cell_span(c: int, r: int, step: int)
    requires
        0 <= c < 4,
        0 <= r < step,
    ensures
        0 <= c * step + r < 4 * step,
{
    assert(0 <= c * step + r < 4 * step) by (nonlinear_arith)
        requires
            0 <= c < 4,
            0 <= r < step,
    ;
}

} // verus!
