//! The sparse 64-tree. Built bottom-up so that homogeneous regions collapse
//! during construction rather than in a later pass.

use crate::address::UVec3;
use crate::arena::{NodeArena, Slots};
use crate::bits::{bit, lemma_rank_monotone, lemma_zero_mask, ones};
use crate::dense::{is_extent, lemma_extent_levels, lemma_extent_unique, level_of_extent, DenseVolume};
use crate::grid::cell_count;
use crate::material::MaterialId;
use crate::node::{child_index, lemma_slot_in_block, Node, BRICK_EDGE, CHILDREN};
use crate::plan::{
    brick_bytes, extends, fits, lemma_child_inside, lemma_plan, lemma_plan_bound, lemma_plan_filled,
    lemma_plan_kids_extends, lemma_volume, lemma_volume_monotone, plan, plan_kids, volume,
};
use crate::store::{none_free, store_nodes, store_voxels};
use crate::tree::{
    all_same_solid, byte_of, canon, extent_of, kid, kids_of, lemma_cell, lemma_extent,
    lemma_ordinal, lemma_split, lemma_uniform, owns, sep, voxel_at, wf,
};
use vstd::prelude::*;

verus! {

/// A cube of voxels, stored as a tree of bricks.
#[derive(Clone, Debug)]
pub struct Contree {
    pub(crate) arena: NodeArena,
    pub(crate) root: Node,
    pub(crate) depth: u32,
}

/// Voxels per axis covered by a node at `level`, where level 0 is a leaf brick.
pub fn level_extent(level: u32) -> (extent: u32)
    requires
        level <= 14,
    ensures
        extent == extent_of(level as int),
        extent >= 4,
{
    let mut extent: u32 = BRICK_EDGE;
    proof {
        reveal_with_fuel(extent_of, 2);
    }
    for l in 0..level
        invariant
            level <= 14,
            extent == extent_of(l as int),
            extent >= 4,
    {
        proof {
            lemma_extent_levels(l + 1);
        }
        extent = extent * BRICK_EDGE;
    }
    extent
}

/// What a dense volume holds, as a function of position.
pub open spec fn dense_voxels(dense: DenseVolume) -> spec_fn(int, int, int) -> u8 {
    |x: int, y: int, z: int| dense.at(UVec3 { x: x as u32, y: y as u32, z: z as u32 }).0
}

impl DenseVolume {
    /// The tree that holds what the volume does.
    pub fn into_contree(self) -> (tree: Contree)
        requires
            self.side() <= 1024 || exists|level: int|
                0 <= level && self.side() == #[trigger] extent_of(level) && fits(
                    plan(dense_voxels(self), Slots::none(), level, 0, 0, 0).0,
                ),
        ensures
            tree.side() == self.side(),
            tree.sound(),
            tree.canonical(),
            tree.orderly(),
            tree.accounted(),
            none_free(tree.store()),
            forall|p: UVec3| p.within(tree.side()) ==> #[trigger] tree.at(p) == self.at(p),
            tree.built_from(dense_voxels(self)),
            tree.slots().nodes.len() <= cell_count(tree.side()),
            tree.slots().voxels.len() <= cell_count(tree.side()),
            forall|leaf: bool, slot: int|
                0 <= slot < tree.slots().len(leaf) ==> tree.store().is_dirty(leaf, slot),
    {
        Contree::from_dense(&self)
    }
}

/// What changed between two states of an arena is marked: slots are never taken
/// away, marks are never lost, and every slot that is new or differs is marked.
pub open spec fn marked(before: NodeArena, after: NodeArena) -> bool {
    &&& before.slots().nodes.len() <= after.slots().nodes.len()
    &&& before.slots().voxels.len() <= after.slots().voxels.len()
    &&& forall|leaf: bool, slot: int| #[trigger]
        before.is_dirty(leaf, slot) ==> after.is_dirty(leaf, slot)
    &&& forall|leaf: bool, slot: int|
        #![trigger after.is_dirty(leaf, slot)]
        #![trigger after.slots().same(before.slots(), leaf, slot)]
        0 <= slot < after.slots().len(leaf) && !after.is_dirty(leaf, slot) ==> slot
            < before.slots().len(leaf) && after.slots().same(before.slots(), leaf, slot)
}

pub proof fn lemma_marked_trans(a: NodeArena, b: NodeArena, c: NodeArena)
    requires
        marked(a, b),
        marked(b, c),
    ensures
        marked(a, c),
{
    assert forall|leaf: bool, slot: int| #[trigger] a.is_dirty(leaf, slot) implies c.is_dirty(
        leaf,
        slot,
    ) by {
        assert(b.is_dirty(leaf, slot));
    }
    assert forall|leaf: bool, slot: int|
        #![trigger c.is_dirty(leaf, slot)]
        #![trigger c.slots().same(a.slots(), leaf, slot)]
        0 <= slot < c.slots().len(leaf) && !c.is_dirty(leaf, slot) implies slot < a.slots().len(
        leaf,
    ) && c.slots().same(a.slots(), leaf, slot) by {
        assert(c.slots().same(b.slots(), leaf, slot));
        assert(!b.is_dirty(leaf, slot));
        assert(b.slots().same(a.slots(), leaf, slot));
    }
}

impl Contree {
    /// The level of the root.
    pub open(crate) spec fn height(&self) -> int {
        self.depth - 1
    }

    /// What is stored.
    pub open(crate) spec fn slots(&self) -> Slots {
        self.arena.slots()
    }

    /// The node that stands for the whole cube.
    pub open(crate) spec fn top(&self) -> Node {
        self.root
    }

    /// Where the slots are kept.
    pub open(crate) spec fn store(&self) -> NodeArena {
        self.arena
    }

    /// Voxels along each axis.
    pub open spec fn side(&self) -> int {
        extent_of(self.height())
    }

    /// Deep enough to hold a brick, and not so deep that a coordinate overflows.
    pub open spec fn sized(&self) -> bool {
        0 <= self.height() <= 14
    }

    /// Every slot the tree reaches is stored.
    pub open spec fn readable(&self) -> bool {
        self.sized() && fits(self.slots()) && wf(self.slots(), self.top(), self.height())
    }

    /// Readable, with no slot reached twice and none of them free: what editing
    /// relies on and keeps.
    pub open spec fn sound(&self) -> bool {
        &&& self.readable()
        &&& self.store().wf()
        &&& sep(self.slots(), self.top(), self.height())
        &&& forall|leaf: bool, slot: int| #[trigger]
            owns(self.slots(), self.top(), self.height(), leaf, slot) ==> !self.store().is_free(
                leaf,
                slot,
            )
    }

    /// Every stored slot is reached or free: none is lost to later edits.
    pub open spec fn accounted(&self) -> bool {
        forall|leaf: bool, slot: int|
            0 <= slot < self.slots().len(leaf) ==> #[trigger] owns(
                self.slots(),
                self.top(),
                self.height(),
                leaf,
                slot,
            ) || self.store().is_free(leaf, slot)
    }

    /// Stored in the one way its voxels can be.
    pub open spec fn canonical(&self) -> bool {
        canon(self.slots(), self.top(), self.height())
    }

    /// The voxel at a position.
    pub open spec fn at(&self, p: UVec3) -> MaterialId {
        MaterialId(
            voxel_at(
                self.slots(),
                self.top(),
                self.height(),
                p.x as int,
                p.y as int,
                p.z as int,
            ),
        )
    }

    /// Laid out as building it from these voxels lays it out.
    pub open spec fn built_from(&self, f: spec_fn(int, int, int) -> u8) -> bool {
        (self.slots(), self.top()) == plan(f, Slots::none(), self.height(), 0, 0, 0)
    }

    /// A tree with nothing in it.
    pub fn empty(depth: u32) -> (tree: Contree)
        requires
            depth >= 1,
        ensures
            tree.height() == depth - 1,
            depth == 1 ==> tree.side() == 4,
            depth == 2 ==> tree.side() == 16,
            depth == 3 ==> tree.side() == 64,
            depth == 4 ==> tree.side() == 256,
            depth == 5 ==> tree.side() == 1024,
            tree.top() == Node::solid(0),
            tree.slots() == Slots::none(),
            none_free(tree.store()),
            tree.accounted(),
            depth <= 15 ==> tree.sound() && tree.canonical() && tree.orderly() && forall|p: UVec3|
                p.within(tree.side()) ==> tree.at(p) == MaterialId(0),
    {
        let tree = Contree { arena: NodeArena::new(), root: Node::empty(), depth };
        proof {
            reveal_with_fuel(extent_of, 6);
            if depth <= 15 {
                assert forall|p: UVec3| p.within(tree.side()) implies tree.at(p) == MaterialId(
                    0,
                ) by {
                    lemma_uniform(
                        tree.slots(),
                        tree.top(),
                        tree.height(),
                        p.x as int,
                        p.y as int,
                        p.z as int,
                    );
                }
            }
        }
        tree
    }

    pub fn depth(&self) -> (depth: u32)
        ensures
            depth == self.height() + 1,
    {
        self.depth
    }

    pub fn extent(&self) -> (extent: u32)
        requires
            self.sized(),
        ensures
            extent == self.side(),
            is_extent(extent as int),
    {
        level_extent(self.depth - 1)
    }

    pub fn root(&self) -> (root: Node)
        ensures
            root == self.top(),
    {
        self.root
    }

    pub fn arena(&self) -> (arena: &NodeArena)
        ensures
            *arena == self.store(),
    {
        &self.arena
    }

    /// The arena, to write: whoever writes it answers for the tree staying
    /// readable.
    pub fn arena_mut(&mut self) -> (arena: &mut NodeArena)
        ensures
            *arena == old(self).store(),
            final(self).store() == *final(arena),
            final(self).top() == old(self).top(),
            final(self).height() == old(self).height(),
    {
        &mut self.arena
    }

    /// Builds a tree out of a volume.
    pub fn from_dense(dense: &DenseVolume) -> (tree: Contree)
        requires
            dense.side() <= 1024 || exists|level: int|
                0 <= level && dense.side() == #[trigger] extent_of(level) && fits(
                    plan(dense_voxels(*dense), Slots::none(), level, 0, 0, 0).0,
                ),
        ensures
            tree.side() == dense.side(),
            tree.sound(),
            tree.canonical(),
            tree.orderly(),
            tree.accounted(),
            none_free(tree.store()),
            forall|p: UVec3| p.within(tree.side()) ==> #[trigger] tree.at(p) == dense.at(p),
            tree.built_from(dense_voxels(*dense)),
            tree.slots().nodes.len() <= cell_count(tree.side()),
            tree.slots().voxels.len() <= cell_count(tree.side()),
            forall|leaf: bool, slot: int|
                0 <= slot < tree.slots().len(leaf) ==> tree.store().is_dirty(leaf, slot),
    {
        let extent = dense.extent();
        let level = level_of_extent(extent).unwrap();
        let ghost f = dense_voxels(*dense);
        let mut tree = Contree::empty(level + 1);
        let ghost start = tree.arena;
        proof {
            if extent > 1024 {
                let other = choose|other: int|
                    0 <= other && dense.side() == #[trigger] extent_of(other) && fits(
                        plan(f, Slots::none(), other, 0, 0, 0).0,
                    );
                lemma_extent_unique(level as int, other);
            }
            lemma_plan_bound(f, Slots::none(), level as int, 0, 0, 0);
            lemma_volume(level as int);
            if extent <= 1024 {
                reveal_with_fuel(extent_of, 8);
                if level > 4 {
                    crate::dense::lemma_extent_strict(4, level as int);
                }
                lemma_volume_monotone(level as int, 4);
                reveal_with_fuel(volume, 8);
            }
        }
        tree.root = Contree::build(&mut tree.arena, dense, level, UVec3::new(0, 0, 0));
        proof {
            lemma_plan(f, Slots::none(), level as int, 0, 0, 0);
            lemma_plan_filled(f, Slots::none(), level as int, 0, 0, 0);
            crate::neat::lemma_canon_orderly(tree.slots(), tree.top(), tree.height());
            assert forall|p: UVec3| p.within(tree.side()) implies #[trigger] tree.at(p) == dense.at(
                p,
            ) by {
                assert(voxel_at(
                    tree.slots(),
                    tree.top(),
                    tree.height(),
                    p.x as int,
                    p.y as int,
                    p.z as int,
                ) == f(0 + p.x, 0 + p.y, 0 + p.z));
            }
            assert forall|leaf: bool, slot: int|
                0 <= slot < tree.slots().len(leaf) implies tree.store().is_dirty(leaf, slot) by {
                if !tree.store().is_dirty(leaf, slot) {
                    assert(tree.slots().same(start.slots(), leaf, slot));
                }
            }
        }
        tree
    }

    /// Builds the node covering `level_extent(level)` voxels from `origin`.
    fn build(arena: &mut NodeArena, dense: &DenseVolume, level: u32, origin: UVec3) -> (node: Node)
        requires
            level <= 14,
            old(arena).wf(),
            none_free(*old(arena)),
            origin.x + extent_of(level as int) <= dense.side(),
            origin.y + extent_of(level as int) <= dense.side(),
            origin.z + extent_of(level as int) <= dense.side(),
            fits(
                plan(
                    dense_voxels(*dense),
                    old(arena).slots(),
                    level as int,
                    origin.x as int,
                    origin.y as int,
                    origin.z as int,
                ).0,
            ),
        ensures
            final(arena).wf(),
            none_free(*final(arena)),
            marked(*old(arena), *final(arena)),
            (final(arena).slots(), node) == plan(
                dense_voxels(*dense),
                old(arena).slots(),
                level as int,
                origin.x as int,
                origin.y as int,
                origin.z as int,
            ),
        decreases level,
    {
        if level == 0 {
            proof {
                reveal_with_fuel(extent_of, 2);
            }
            return Contree::build_leaf(arena, dense, origin);
        }
        let ghost f = dense_voxels(*dense);
        let ghost start = *arena;
        let ghost (x, y, z) = (origin.x as int, origin.y as int, origin.z as int);
        let step = level_extent(level - 1);
        let mut children: Vec<Node> = Vec::new();
        for i in 0..CHILDREN
            invariant
                1 <= level <= 14,
                f == dense_voxels(*dense),
                (x, y, z) == (origin.x as int, origin.y as int, origin.z as int),
                step == extent_of(level - 1),
                step >= 4,
                x + extent_of(level as int) <= dense.side(),
                y + extent_of(level as int) <= dense.side(),
                z + extent_of(level as int) <= dense.side(),
                arena.wf(),
                none_free(*arena),
                marked(start, *arena),
                fits(plan(f, start.slots(), level as int, x, y, z).0),
                (arena.slots(), children@) == plan_kids(
                    f,
                    start.slots(),
                    level as int,
                    x,
                    y,
                    z,
                    i as int,
                ),
                children@.len() == i,
        {
            let ghost before = *arena;
            proof {
                lemma_cell(i as int);
                lemma_child_inside(x, y, z, level as int, i as int);
                lemma_plan_kids_extends(f, start.slots(), level as int, x, y, z, i + 1, 64);
                let (t, kids) = plan_kids(f, start.slots(), level as int, x, y, z, 64);
                assert(extends(t, crate::store::join_nodes(t, kids).0));
                crate::plan::lemma_cell_inside(i as int % 4, step as int);
                crate::plan::lemma_cell_inside((i as int / 4) % 4, step as int);
                crate::plan::lemma_cell_inside(i as int / 16, step as int);
            }
            let child_origin = UVec3::new(
                origin.x + (i % BRICK_EDGE) * step,
                origin.y + ((i / BRICK_EDGE) % BRICK_EDGE) * step,
                origin.z + (i / (BRICK_EDGE * BRICK_EDGE)) * step,
            );
            let child = Contree::build(arena, dense, level - 1, child_origin);
            children.push(child);
            proof {
                lemma_marked_trans(start, before, *arena);
            }
        }
        let ghost before = *arena;
        proof {
            lemma_zero_mask(0);
            crate::store::lemma_mask_extremes(crate::store::nodes_present(children@));
            crate::store::lemma_packed(
                children@,
                crate::store::nodes_present(children@),
                64,
            );
        }
        let node = store_nodes(arena, &children);
        proof {
            lemma_taken_marked(before, *arena, node, false);
            lemma_marked_trans(start, before, *arena);
        }
        node
    }

    /// Builds a leaf brick, whose children are individual voxels.
    fn build_leaf(arena: &mut NodeArena, dense: &DenseVolume, origin: UVec3) -> (node: Node)
        requires
            old(arena).wf(),
            none_free(*old(arena)),
            origin.x + 4 <= dense.side(),
            origin.y + 4 <= dense.side(),
            origin.z + 4 <= dense.side(),
            fits(
                plan(
                    dense_voxels(*dense),
                    old(arena).slots(),
                    0,
                    origin.x as int,
                    origin.y as int,
                    origin.z as int,
                ).0,
            ),
        ensures
            final(arena).wf(),
            none_free(*final(arena)),
            marked(*old(arena), *final(arena)),
            (final(arena).slots(), node) == plan(
                dense_voxels(*dense),
                old(arena).slots(),
                0,
                origin.x as int,
                origin.y as int,
                origin.z as int,
            ),
    {
        let ghost f = dense_voxels(*dense);
        let ghost start = *arena;
        let ghost bytes = brick_bytes(f, origin.x as int, origin.y as int, origin.z as int);
        let mut materials: Vec<u8> = Vec::new();
        for i in 0..CHILDREN
            invariant
                origin.x + 4 <= dense.side(),
                origin.y + 4 <= dense.side(),
                origin.z + 4 <= dense.side(),
                f == dense_voxels(*dense),
                bytes == brick_bytes(f, origin.x as int, origin.y as int, origin.z as int),
                materials@ == bytes.take(i as int),
        {
            let p = UVec3::new(
                origin.x + i % BRICK_EDGE,
                origin.y + (i / BRICK_EDGE) % BRICK_EDGE,
                origin.z + i / (BRICK_EDGE * BRICK_EDGE),
            );
            proof {
                lemma_cell(i as int);
            }
            materials.push(dense.get(p).0);
            assert(materials@ =~= bytes.take(i + 1));
        }
        assert(materials@ =~= bytes);
        proof {
            lemma_zero_mask(0);
            crate::store::lemma_mask_extremes(crate::store::voxels_present(bytes));
            crate::store::lemma_packed(bytes, crate::store::voxels_present(bytes), 64);
        }
        let node = store_voxels(arena, &materials);
        proof {
            lemma_taken_marked(start, *arena, node, true);
        }
        node
    }

    /// The voxel at a position.
    pub fn get(&self, p: UVec3) -> (material: MaterialId)
        requires
            self.readable(),
            p.within(self.side()),
        ensures
            material == self.at(p),
    {
        let mut node = self.root;
        let mut level = self.depth - 1;
        let mut local = p;
        while node.is_subdivided() && level > 0
            invariant
                self.readable(),
                level <= 14,
                wf(self.slots(), node, level as int),
                local.within(extent_of(level as int)),
                self.at(p).0 == voxel_at(
                    self.slots(),
                    node,
                    level as int,
                    local.x as int,
                    local.y as int,
                    local.z as int,
                ),
            ensures
                level <= 14,
                wf(self.slots(), node, level as int),
                local.within(extent_of(level as int)),
                self.at(p).0 == voxel_at(
                    self.slots(),
                    node,
                    level as int,
                    local.x as int,
                    local.y as int,
                    local.z as int,
                ),
                node.mask == 0 || level == 0,
            decreases level,
        {
            let step = level_extent(level - 1);
            proof {
                lemma_extent(level as int);
                lemma_split(local.x as int, step as int);
                lemma_split(local.y as int, step as int);
                lemma_split(local.z as int, step as int);
                lemma_ordinal(
                    local.x as int / step as int,
                    local.y as int / step as int,
                    local.z as int / step as int,
                );
            }
            let cell = UVec3::new(local.x / step, local.y / step, local.z / step);
            let i = child_index(cell.x, cell.y, cell.z);
            let ghost child = kid(self.slots(), node, i as int);
            proof {
                assert(wf(self.slots(), child, level - 1));
                if bit(node.mask, i as int) {
                    lemma_slot_in_block(node, i as int);
                } else {
                    lemma_uniform(
                        self.slots(),
                        child,
                        level - 1,
                        local.x as int % step as int,
                        local.y as int % step as int,
                        local.z as int % step as int,
                    );
                }
            }
            match node.child_slot(i) {
                Some(slot) => {
                    node = self.arena.node(slot);
                    local = UVec3::new(local.x % step, local.y % step, local.z % step);
                    level = level - 1;
                },
                None => {
                    return MaterialId::empty();
                },
            }
        }
        if !node.is_subdivided() {
            proof {
                lemma_uniform(
                    self.slots(),
                    node,
                    level as int,
                    local.x as int,
                    local.y as int,
                    local.z as int,
                );
            }
            return node.material();
        }
        proof {
            reveal_with_fuel(extent_of, 2);
            lemma_ordinal(local.x as int, local.y as int, local.z as int);
        }
        let i = child_index(local.x, local.y, local.z);
        proof {
            if bit(node.mask, i as int) {
                lemma_slot_in_block(node, i as int);
            }
        }
        match node.child_slot(i) {
            Some(slot) => MaterialId(self.arena.voxel(slot)),
            None => MaterialId::empty(),
        }
    }

    /// The same voxels, each stored.
    pub fn to_dense(&self) -> (dense: DenseVolume)
        requires
            self.readable(),
            cell_count(self.side()) <= isize::MAX,
        ensures
            dense.side() == self.side(),
            forall|p: UVec3| p.within(self.side()) ==> #[trigger] dense.at(p) == self.at(p),
    {
        let extent = self.extent();
        let mut dense = DenseVolume::new(extent).unwrap();
        for z in 0..extent
            invariant
                self.readable(),
                extent == self.side(),
                dense.side() == extent,
                forall|p: UVec3|
                    p.within(extent as int) && p.z < z ==> #[trigger] dense.at(p) == self.at(p),
        {
            for y in 0..extent
                invariant
                    self.readable(),
                    z < extent,
                    extent == self.side(),
                    dense.side() == extent,
                    forall|p: UVec3|
                        p.within(extent as int) && (p.z < z || p.z == z && p.y < y)
                            ==> #[trigger] dense.at(p) == self.at(p),
            {
                for x in 0..extent
                    invariant
                        self.readable(),
                        z < extent,
                        y < extent,
                        extent == self.side(),
                        dense.side() == extent,
                        forall|p: UVec3|
                            p.within(extent as int) && (p.z < z || p.z == z && (p.y < y || p.y == y
                                && p.x < x)) ==> #[trigger] dense.at(p) == self.at(p),
                {
                    let p = UVec3::new(x, y, z);
                    dense.set(p, self.get(p));
                }
            }
        }
        dense
    }
}

/// Taking a block marks what it changes.
pub proof fn lemma_taken_marked(before: NodeArena, after: NodeArena, node: Node, leaf: bool)
    requires
        before.wf(),
        crate::store::block_taken(before, after, node, leaf),
    ensures
        marked(before, after),
{
    lemma_rank_monotone(node.mask, 0, 64);
    lemma_zero_mask(node.mask);
}

#[derive(Clone, Copy, PartialEq, Eq, Debug)]
pub enum CanonicalError {
    /// A subdivided node whose children are all empty; it should be empty itself.
    UncollapsedEmpty { level: u32 },
    /// A subdivided node whose children are all the same uniform solid.
    UncollapsedUniform { level: u32 },
    /// An empty node occupying a child slot, which wastes space and breaks
    /// the invariant that a set mask bit implies a non-empty child.
    EmptyChildStored { level: u32, slot: u32 },
    /// A child slot outside the arena.
    SlotOutOfBounds { slot: u32 },
}

/// A node's block of children can be numbered in 32 bits.
pub open spec fn addressable(node: Node) -> bool {
    node.child_base + ones(node.mask) <= u32::MAX
}

/// So can that of every node reached from a node, as far as its blocks are
/// stored.
pub open spec fn numbered(s: Slots, node: Node, level: int) -> bool
    decreases level,
{
    node.mask != 0 ==> {
        &&& addressable(node)
        &&& level > 0 && node.child_base + ones(node.mask) <= s.nodes.len() ==> forall|i: int|
            0 <= i < 64 ==> numbered(s, #[trigger] kid(s, node, i), level - 1)
    }
}

/// Where every slot that is reached is stored, all of them can be numbered.
pub proof fn lemma_numbered(s: Slots, node: Node, level: int)
    requires
        level >= 0,
        fits(s),
        wf(s, node, level),
    ensures
        numbered(s, node, level),
    decreases level,
{
    if node.mask != 0 && level > 0 {
        assert forall|i: int| 0 <= i < 64 implies numbered(
            s,
            #[trigger] kid(s, node, i),
            level - 1,
        ) by {
            assert(wf(s, kid(s, node, i), level - 1));
            lemma_numbered(s, kid(s, node, i), level - 1);
        }
    }
}

/// The first defect met, walking a node's children in order and each child's
/// before the next.
pub open spec fn defect(s: Slots, node: Node, level: int) -> Option<CanonicalError>
    decreases level, 65int,
{
    if node.mask == 0 {
        None
    } else if node.child_base + ones(node.mask) > s.len(level <= 0) {
        Some(
            CanonicalError::SlotOutOfBounds {
                slot: (node.child_base + ones(node.mask) - 1) as u32,
            },
        )
    } else {
        defect_from(s, node, level, 0)
    }
}

/// The first defect among the children from `i` on, and of them together.
pub open spec fn defect_from(s: Slots, node: Node, level: int, i: int) -> Option<CanonicalError>
    decreases level, 64 - i,
{
    if i >= 64 {
        if level > 0 && all_same_solid(kids_of(s, node)) {
            Some(CanonicalError::UncollapsedUniform { level: level as u32 })
        } else {
            None
        }
    } else if !bit(node.mask, i) {
        defect_from(s, node, level, i + 1)
    } else if (if level <= 0 {
        byte_of(s, node, i) == 0
    } else {
        kid(s, node, i).vacant()
    }) {
        Some(CanonicalError::EmptyChildStored { level: level as u32, slot: node.slot(i) as u32 })
    } else if level <= 0 {
        defect_from(s, node, level, i + 1)
    } else {
        match defect(s, kid(s, node, i), level - 1) {
            Some(found) => Some(found),
            None => defect_from(s, node, level, i + 1),
        }
    }
}

/// What `check_canonical` accepts: every slot is stored, nothing empty is stored, and
/// above the leaves a region of one material is stored without children.
pub open spec fn tidy(s: Slots, node: Node, level: int) -> bool
    decreases level,
{
    node.mask != 0 ==> {
        &&& node.child_base + ones(node.mask) <= s.len(level <= 0)
        &&& level <= 0 ==> forall|i: int|
            0 <= i < 64 && bit(node.mask, i) ==> #[trigger] byte_of(s, node, i) != 0
        &&& level > 0 ==> {
            &&& forall|i: int| 0 <= i < 64 ==> tidy(s, #[trigger] kid(s, node, i), level - 1)
            &&& forall|i: int|
                0 <= i < 64 && bit(node.mask, i) ==> !(#[trigger] kid(s, node, i)).vacant()
            &&& !all_same_solid(kids_of(s, node))
        }
    }
}

/// The walk finds nothing exactly in a tidy tree.
pub proof fn lemma_defect(s: Slots, node: Node, level: int)
    requires
        level >= 0,
    ensures
        defect(s, node, level) is None <==> tidy(s, node, level),
    decreases level, 65int,
{
    if node.mask != 0 && node.child_base + ones(node.mask) <= s.len(level <= 0) {
        lemma_defect_from(s, node, level, 0);
    }
}

pub proof fn lemma_defect_from(s: Slots, node: Node, level: int, i: int)
    requires
        level >= 0,
        0 <= i <= 64,
        node.mask != 0,
    ensures
        defect_from(s, node, level, i) is None <==> {
            &&& level == 0 ==> forall|k: int|
                i <= k < 64 && bit(node.mask, k) ==> #[trigger] byte_of(s, node, k) != 0
            &&& level > 0 ==> {
                &&& forall|k: int| i <= k < 64 ==> tidy(s, #[trigger] kid(s, node, k), level - 1)
                &&& forall|k: int|
                    i <= k < 64 && bit(node.mask, k) ==> !(#[trigger] kid(s, node, k)).vacant()
                &&& !all_same_solid(kids_of(s, node))
            }
        },
    decreases level, 64 - i,
{
    if i < 64 {
        lemma_defect_from(s, node, level, i + 1);
        if level > 0 {
            lemma_defect(s, kid(s, node, i), level - 1);
            assert(tidy(s, Node::solid(0), level - 1));
        }
    }
}

/// A canonical tree passes `check_canonical`.
pub proof fn lemma_canon_tidy(s: Slots, node: Node, level: int)
    requires
        level >= 0,
        wf(s, node, level),
        canon(s, node, level),
    ensures
        tidy(s, node, level),
    decreases level,
{
    if node.mask != 0 && level > 0 {
        assert forall|i: int| 0 <= i < 64 implies tidy(s, #[trigger] kid(s, node, i), level - 1) by {
            assert(wf(s, kid(s, node, i), level - 1));
            assert(canon(s, kid(s, node, i), level - 1));
            lemma_canon_tidy(s, kid(s, node, i), level - 1);
        }
    }
}

/// A tree that passes `check_canonical` reaches only stored slots.
pub proof fn law_what_passes_reaches_only_stored_slots(s: Slots, node: Node, level: int)
    requires
        level >= 0,
        tidy(s, node, level),
    ensures
        wf(s, node, level),
    decreases level,
{
    if node.mask != 0 && level > 0 {
        assert forall|i: int| 0 <= i < 64 implies wf(s, #[trigger] kid(s, node, i), level - 1) by {
            assert(tidy(s, kid(s, node, i), level - 1));
            law_what_passes_reaches_only_stored_slots(s, kid(s, node, i), level - 1);
        }
    }
}

impl Contree {
    /// What `check_canonical` accepts.
    pub open spec fn tidied(&self) -> bool {
        tidy(self.slots(), self.top(), self.height())
    }

    /// The same, with every material named by one byte, as all that are made of a
    /// `MaterialId` are.
    pub open spec fn orderly(&self) -> bool {
        crate::neat::orderly_at(self.slots(), self.top(), self.height())
    }

    /// Whether every node at one of these cubes is what storing its own children
    /// gives.
    pub open spec fn neat(&self, at: spec_fn(int, int, int, int) -> bool) -> bool {
        crate::neat::neat_at(at, self.slots(), self.top(), self.height(), 0, 0, 0)
    }

    /// The first defect the canonical check meets.
    pub open spec fn first_defect(&self) -> Option<CanonicalError> {
        defect(self.slots(), self.top(), self.height())
    }

    /// Replaces the root. Used by the edit path.
    pub(crate) fn set_root(&mut self, root: Node)
        ensures
            final(self).top() == root,
            final(self).store() == old(self).store(),
            final(self).height() == old(self).height(),
    {
        self.root = root;
    }

    /// Root replacement for tests that build deliberately invalid trees.
    /// Integration tests are separate crates, so this has to be public.
    pub fn set_root_for_test(&mut self, root: Node)
        ensures
            final(self).top() == root,
            final(self).store() == old(self).store(),
            final(self).height() == old(self).height(),
    {
        self.root = root;
    }

    /// Checks that the tree is stored without waste: see [`tidy`]. Any tree that
    /// can be read can be checked, and so can one that reaches slots that are not
    /// stored.
    pub fn check_canonical(&self) -> (result: Result<(), CanonicalError>)
        requires
            self.height() >= 0,
            self.readable() || numbered(self.slots(), self.top(), self.height()),
        ensures
            result == match self.first_defect() {
                Some(found) => Err(found),
                None => Ok(()),
            },
            result is Ok <==> tidy(self.slots(), self.top(), self.height()),
    {
        proof {
            lemma_defect(self.slots(), self.top(), self.height());
            if self.readable() {
                lemma_numbered(self.slots(), self.top(), self.height());
            }
        }
        self.check_node(self.root, self.depth - 1)
    }

    fn check_node(&self, node: Node, level: u32) -> (result: Result<(), CanonicalError>)
        requires
            numbered(self.slots(), node, level as int),
        ensures
            result == match defect(self.slots(), node, level as int) {
                Some(found) => Err::<(), CanonicalError>(found),
                None => Ok(()),
            },
        decreases level,
    {
        if !node.is_subdivided() {
            return Ok(());
        }
        proof {
            lemma_zero_mask(node.mask);
            lemma_rank_monotone(node.mask, 0, 64);
        }
        let last = node.child_base + node.child_count() - 1;
        // Leaf bricks address voxel bytes, which cannot be empty by construction
        // because empty voxels clear their mask bit. Only bounds and zeros need
        // checking.
        if level == 0 {
            if last as usize >= self.arena.voxels().len() {
                return Err(CanonicalError::SlotOutOfBounds { slot: last });
            }
            for i in 0..CHILDREN
                invariant
                    level == 0,
                    addressable(node),
                    node.child_base + ones(node.mask) <= self.slots().voxels.len(),
                    defect(self.slots(), node, 0) == defect_from(self.slots(), node, 0, i as int),
            {
                proof {
                    if bit(node.mask, i as int) {
                        lemma_slot_in_block(node, i as int);
                    }
                }
                if let Some(slot) = node.child_slot(i) {
                    if self.arena.voxel(slot) == 0 {
                        return Err(CanonicalError::EmptyChildStored { level, slot });
                    }
                }
            }
            return Ok(());
        }
        if last as usize >= self.arena.nodes().len() {
            return Err(CanonicalError::SlotOutOfBounds { slot: last });
        }
        let ghost kids = kids_of(self.slots(), node);
        let mut all_same_uniform = node.child_count() == CHILDREN;
        let mut first = Node::empty();
        for i in 0..CHILDREN
            invariant
                level > 0,
                addressable(node),
                node.mask != 0,
                node.child_base + ones(node.mask) <= self.slots().nodes.len(),
                numbered(self.slots(), node, level as int),
                kids == kids_of(self.slots(), node),
                i > 0 && bit(node.mask, 0) ==> first == kids[0],
                all_same_uniform ==> ones(node.mask) == 64 && forall|k: int|
                    0 <= k < i ==> (#[trigger] kids[k]).uniform_solid() && kids[k] == kids[0],
                !all_same_uniform ==> ones(node.mask) != 64 || exists|k: int|
                    0 <= k < i && !((#[trigger] kids[k]).uniform_solid() && kids[k] == kids[0]),
                defect(self.slots(), node, level as int) == defect_from(
                    self.slots(),
                    node,
                    level as int,
                    i as int,
                ),
        {
            proof {
                assert(kids[i as int] == kid(self.slots(), node, i as int));
                assert(kids[0] == kid(self.slots(), node, 0));
                crate::bits::lemma_full_mask(node.mask);
                if bit(node.mask, i as int) {
                    lemma_slot_in_block(node, i as int);
                }
            }
            match node.child_slot(i) {
                None => {
                    all_same_uniform = false;
                },
                Some(slot) => {
                    let child = self.arena.node(slot);
                    assert(child == kid(self.slots(), node, i as int));
                    if child.is_empty() {
                        return Err(CanonicalError::EmptyChildStored { level, slot });
                    }
                    if i == 0 {
                        first = child;
                    }
                    if !child.is_uniform_solid() || child != first {
                        all_same_uniform = false;
                    }
                    match self.check_node(child, level - 1) {
                        Ok(()) => {},
                        Err(found) => {
                            return Err(found);
                        },
                    }
                },
            }
        }
        proof {
            crate::bits::lemma_full_mask(node.mask);
            if ones(node.mask) != 64 && all_same_solid(kids) {
                let k = choose|k: int| 0 <= k < 64 && !bit(node.mask, k);
                assert(kids[k] == kids[0]);
                assert(kids[k] == kid(self.slots(), node, k));
            }
        }
        if all_same_uniform {
            return Err(CanonicalError::UncollapsedUniform { level });
        }
        Ok(())
    }
}

/// A level covers four times what the level below it does along each axis, and the
/// lowest covers four voxels.
pub proof fn law_levels_grow_fourfold(level: int)
    requires
        level >= 0,
    ensures
        extent_of(0) == 4,
        extent_of(level + 1) == 4 * extent_of(level),
{
    reveal_with_fuel(extent_of, 2);
}

/// Passing over children without a defect.
proof fn lemma_defect_later(s: Slots, node: Node, level: int, i: int)
    requires
        level >= 0,
        0 <= i <= 64,
        forall|j: int|
            0 <= j < i && #[trigger] bit(node.mask, j) ==> if level == 0 {
                byte_of(s, node, j) != 0
            } else {
                !kid(s, node, j).vacant() && defect(s, kid(s, node, j), level - 1) is None
            },
    ensures
        defect_from(s, node, level, 0) == defect_from(s, node, level, i),
    decreases i,
{
    if i > 0 {
        lemma_defect_later(s, node, level, i - 1);
    }
}

/// The check of a brick: a block that is not wholly stored is told by its last slot, and
/// else the first stored byte that is zero by its own. A brick with neither passes.
pub proof fn law_a_brick_fails_at_its_first_empty_byte(s: Slots, node: Node, i: int)
    requires
        node.mask != 0,
        0 <= i < 64,
        bit(node.mask, i),
        forall|j: int| 0 <= j < i && #[trigger] bit(node.mask, j) ==> byte_of(s, node, j) != 0,
    ensures
        node.child_base + ones(node.mask) > s.voxels.len() ==> defect(s, node, 0) == Some(
            CanonicalError::SlotOutOfBounds {
                slot: (node.child_base + ones(node.mask) - 1) as u32,
            },
        ),
        node.child_base + ones(node.mask) <= s.voxels.len() && byte_of(s, node, i) == 0 ==> defect(
            s,
            node,
            0,
        ) == Some(
            CanonicalError::EmptyChildStored { level: 0, slot: (node.child_base + crate::bits::rank(node.mask, i)) as u32 },
        ),
        node.child_base + ones(node.mask) <= s.voxels.len() && (forall|j: int|
            0 <= j < 64 && #[trigger] bit(node.mask, j) ==> byte_of(s, node, j) != 0) ==> defect(
            s,
            node,
            0,
        ) is None,
{
    lemma_defect_later(s, node, 0, i);
    if forall|j: int| 0 <= j < 64 && #[trigger] bit(node.mask, j) ==> byte_of(s, node, j) != 0 {
        lemma_defect_later(s, node, 0, 64);
    }
}

/// The check above the bricks: a block that is not wholly stored is told by its last
/// slot, and else the first child that is empty by its own. A defect below a child comes
/// before those of the children after it. Without any, a node whose 64 children are all
/// the same solid region is told by its level, and any other passes.
pub proof fn law_a_node_fails_at_its_first_faulty_child(s: Slots, node: Node, level: int, i: int)
    requires
        level >= 1,
        node.mask != 0,
        0 <= i <= 64,
        forall|j: int|
            0 <= j < i && #[trigger] bit(node.mask, j) ==> !kid(s, node, j).vacant() && defect(
                s,
                kid(s, node, j),
                level - 1,
            ) is None,
    ensures
        node.child_base + ones(node.mask) > s.nodes.len() ==> defect(s, node, level) == Some(
            CanonicalError::SlotOutOfBounds {
                slot: (node.child_base + ones(node.mask) - 1) as u32,
            },
        ),
        node.child_base + ones(node.mask) <= s.nodes.len() && i < 64 && bit(node.mask, i) ==> {
            &&& kid(s, node, i).mask == 0 && kid(s, node, i).material == 0 ==> defect(
                s,
                node,
                level,
            ) == Some(
                CanonicalError::EmptyChildStored {
                    level: level as u32,
                    slot: (node.child_base + crate::bits::rank(node.mask, i)) as u32,
                },
            )
            &&& !(kid(s, node, i).mask == 0 && kid(s, node, i).material == 0) && defect(
                s,
                kid(s, node, i),
                level - 1,
            ) is Some ==> defect(s, node, level) == defect(s, kid(s, node, i), level - 1)
        },
        node.child_base + ones(node.mask) <= s.nodes.len() && i == 64 ==> {
            let same = forall|j: int|
                0 <= j < 64 ==> (#[trigger] kid(s, node, j)).mask == 0 && kid(s, node, j).material
                    != 0 && kid(s, node, j) == kid(s, node, 0);
            defect(s, node, level) == if same {
                Some(CanonicalError::UncollapsedUniform { level: level as u32 })
            } else {
                None
            }
        },
{
    lemma_defect_later(s, node, level, i);
    if i == 64 {
        let kids = kids_of(s, node);
        assert forall|j: int| 0 <= j < 64 implies #[trigger] kids[j] == kid(s, node, j) by {}
        if all_same_solid(kids) {
            assert forall|j: int| 0 <= j < 64 implies (#[trigger] kid(s, node, j)).mask == 0 && kid(
                s,
                node,
                j,
            ).material != 0 && kid(s, node, j) == kid(s, node, 0) by {
                assert(kids[j] == kids[0]);
            }
        }
    }
}

} // verus!
