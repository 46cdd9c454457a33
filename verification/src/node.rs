//! The contree node. 16 bytes, uploaded to the GPU with its mask split.

use crate::bits::{bit, ones, rank};
use crate::bits::{lemma_prefix_rank, lemma_rank_monotone, test_bit};
use crate::material::MaterialId;
use vstd::prelude::*;

verus! {

/// Voxels per axis within one node.
pub const BRICK_EDGE: u32 = 4;

/// Children per node.
pub const CHILDREN: u32 = 64;

#[derive(Clone, Copy, PartialEq, Eq, Structural, Debug, Default)]
pub struct Node {
    /// Which of the 64 children exist.
    pub mask: u64,
    /// Arena index of the first child. Children are contiguous.
    pub child_base: u32,
    /// Material table index. Meaningful only when `mask == 0`:
    /// 0 means the region is empty, non-zero means solid of that material.
    pub material: u32,
}

/// Child ordinal from child-space coordinates, each in `0..BRICK_EDGE`: x
/// varies fastest, then y, then z.
pub open spec fn ordinal(x: int, y: int, z: int) -> int {
    x + y * 4 + z * 16
}

/// Child ordinal from child-space coordinates, each in `0..BRICK_EDGE`.
pub fn child_index(x: u32, y: u32, z: u32) -> (i: u32)
    requires
        ordinal(x as int, y as int, z as int) <= u32::MAX,
    ensures
        i == ordinal(x as int, y as int, z as int),
{
    x + y * BRICK_EDGE + z * BRICK_EDGE * BRICK_EDGE
}

impl Node {
    /// A region with nothing in it.
    pub fn empty() -> (node: Node)
        ensures
            node == Node::solid(0),
    {
        Node { mask: 0, child_base: 0, material: 0 }
    }

    /// A region of one material, stored without children.
    pub open spec fn solid(material: u8) -> Node {
        Node { mask: 0, child_base: 0, material: material as u32 }
    }

    /// A region entirely filled with one material, stored without children.
    pub fn uniform(material: MaterialId) -> (node: Node)
        ensures
            node == Node::solid(material.0),
    {
        Node { mask: 0, child_base: 0, material: material.0 as u32 }
    }

    /// A region with children. `mask` must be non-zero.
    pub fn subdivided(mask: u64, child_base: u32) -> (node: Node)
        requires
            mask != 0,
        ensures
            node == (Node { mask, child_base, material: 0 }),
    {
        Node { mask, child_base, material: 0 }
    }

    pub fn is_subdivided(self) -> (r: bool)
        ensures
            r == (self.mask != 0),
    {
        self.mask != 0
    }

    pub fn is_empty(self) -> (r: bool)
        ensures
            r == self.vacant(),
    {
        self.mask == 0 && self.material == 0
    }

    pub fn is_uniform_solid(self) -> (r: bool)
        ensures
            r == self.uniform_solid(),
    {
        self.mask == 0 && self.material != 0
    }

    /// Only meaningful when the node is not subdivided.
    pub fn material(self) -> (m: MaterialId)
        ensures
            m == MaterialId(self.material as u8),
    {
        MaterialId(#[verifier::truncate] (self.material as u8))
    }

    pub fn child_count(self) -> (count: u32)
        ensures
            count == ones(self.mask),
    {
        self.mask.count_ones()
    }

    /// Arena slot of a child, or `None` when that child does not exist.
    pub fn child_slot(self, child: u32) -> (slot: Option<u32>)
        requires
            child < 64,
            bit(self.mask, child as int) ==> self.slot(child as int) <= u32::MAX,
        ensures
            slot == (if bit(self.mask, child as int) {
                Some(self.slot(child as int) as u32)
            } else {
                None
            }),
    {
        if !test_bit(self.mask, child) {
            return None;
        }
        proof {
            lemma_prefix_rank(self.mask, child);
        }
        let prefix = self.mask & ((1u64 << child) - 1);
        Some(self.child_base + prefix.count_ones())
    }

    /// No voxel is solid anywhere in the region.
    pub open spec fn vacant(self) -> bool {
        self.mask == 0 && self.material == 0
    }

    /// Every voxel of the region is solid, of one material.
    pub open spec fn uniform_solid(self) -> bool {
        self.mask == 0 && self.material != 0
    }

    /// Where child `i` is stored, when it exists: children are contiguous, in
    /// ordinal order.
    pub open spec fn slot(self, i: int) -> int {
        self.child_base + rank(self.mask, i)
    }
}

/// A child that exists lies inside its parent's block.
pub proof fn lemma_slot_in_block(node: Node, i: int)
    requires
        0 <= i < 64,
        bit(node.mask, i),
    ensures
        node.child_base <= node.slot(i) < node.child_base + ones(node.mask),
        ones(node.mask) <= 64,
{
    crate::bits::lemma_rank_strict(node.mask, i, 64);
    lemma_rank_monotone(node.mask, 0, 64);
}

/// Children that exist lie in their block in the order of their bits, each in a slot
/// of its own.
pub proof fn law_children_lie_in_order(node: Node, i: int, j: int)
    requires
        0 <= i < j < 64,
        bit(node.mask, i),
    ensures
        node.slot(i) < node.slot(j),
{
    crate::bits::lemma_rank_strict(node.mask, i, j);
}

/// Children are numbered along x first, then y, then z, four to a row and sixteen to
/// a layer.
pub proof fn law_children_are_numbered_row_by_row(x: int, y: int, z: int)
    ensures
        ordinal(0, 0, 0) == 0,
        ordinal(x + 1, y, z) == ordinal(x, y, z) + 1,
        ordinal(x, y + 1, z) == ordinal(x, y, z) + 4,
        ordinal(x, y, z + 1) == ordinal(x, y, z) + 16,
{
}

} // verus!
