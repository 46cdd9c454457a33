//! Voxel editing. Edits rewrite only the subtrees they intersect, free the
//! nodes they replace, and leave the tree canonical.

use crate::address::UVec3;
use crate::alone::{left_alone, lemma_alone_wider};
use crate::contree::{level_extent, marked, Contree};
use crate::growth::{
    growth, growth_upto, holding, in_space, law_each_voxel_takes_a_block_on_each_level, lemma_growth,
    lemma_growth_agree, lemma_growth_less, lemma_growth_upto, per_voxel,
};
use crate::material::MaterialId;
use crate::neat::{lemma_canon_neat, lemma_neat_fewer};
use crate::node::{BRICK_EDGE, CHILDREN};
use crate::plan::{lemma_cell_inside, lemma_child_inside};
use crate::rewrite::{becomes, grows_at, reach, rewrite, spared, stirs, sure, EditOp};
use crate::sparse::in_cube;
use crate::store::same_free;
use crate::tree::{extent_of, lemma_cell, owns, voxel_at};
use std::collections::{HashMap, HashSet};
use vstd::prelude::*;

verus! {

/// A position as one integer.
pub open spec fn code(x: int, y: int, z: int) -> int {
    x + y * 0x1_0000_0000 + z * 0x1_0000_0000_0000_0000
}

/// No two positions share a code.
pub proof fn lemma_code_injective(x: int, y: int, z: int, x2: int, y2: int, z2: int)
    requires
        0 <= x <= u32::MAX,
        0 <= y <= u32::MAX,
        0 <= z <= u32::MAX,
        0 <= x2 <= u32::MAX,
        0 <= y2 <= u32::MAX,
        0 <= z2 <= u32::MAX,
        code(x, y, z) == code(x2, y2, z2),
    ensures
        x == x2,
        y == y2,
        z == z2,
{
}

/// A position as one integer, computed.
pub fn code_of(p: UVec3) -> (c: u128)
    ensures
        c == code(p.x as int, p.y as int, p.z as int),
{
    p.x as u128 + p.y as u128 * 0x1_0000_0000 + p.z as u128 * 0x1_0000_0000_0000_0000
}

/// Whether the cube of `extent` voxels at a position meets the box from `lo` to
/// `hi`, both inside it.
pub open spec fn box_meets(lo: UVec3, hi: UVec3, x: int, y: int, z: int, extent: int) -> bool {
    &&& x <= hi.x && lo.x <= x + extent - 1
    &&& y <= hi.y && lo.y <= y + extent - 1
    &&& z <= hi.z && lo.z <= z + extent - 1
}

/// Whether a position lies in the box from `lo` to `hi`.
pub open spec fn in_box(lo: UVec3, hi: UVec3, x: int, y: int, z: int) -> bool {
    lo.x <= x <= hi.x && lo.y <= y <= hi.y && lo.z <= z <= hi.z
}

fn meets_box(lo: UVec3, hi: UVec3, origin: UVec3, extent: u32) -> (met: bool)
    requires
        extent >= 1,
        origin.x + extent <= u32::MAX,
        origin.y + extent <= u32::MAX,
        origin.z + extent <= u32::MAX,
    ensures
        met == box_meets(
            lo,
            hi,
            origin.x as int,
            origin.y as int,
            origin.z as int,
            extent as int,
        ),
{
    let reach = extent - 1;
    origin.x <= hi.x && origin.y <= hi.y && origin.z <= hi.z && origin.x + reach >= lo.x && origin.y
        + reach >= lo.y && origin.z + reach >= lo.z
}

/// Erases exactly the voxels it was given: what detachment takes out of the
/// world when a piece becomes a body.
struct ClearOp {
    voxels: HashSet<u128>,
    lo: UVec3,
    hi: UVec3,
}

impl ClearOp {
    /// What the voxel at a position becomes.
    closed spec fn says(&self, x: int, y: int, z: int) -> Option<u8> {
        if self.voxels@.contains(code(x, y, z) as u128) {
            Some(0)
        } else {
            None
        }
    }
}

impl EditOp for ClearOp {
    closed spec fn meets(&self, x: int, y: int, z: int, extent: int) -> bool {
        box_meets(self.lo, self.hi, x, y, z, extent)
    }

    closed spec fn misses(&self, x: int, y: int, z: int, extent: int) -> bool {
        !box_meets(self.lo, self.hi, x, y, z, extent)
    }

    closed spec fn turns(&self, x: int, y: int, z: int, change: Option<u8>) -> bool {
        change == self.says(x, y, z)
    }

    closed spec fn valid(&self) -> bool {
        forall|p: UVec3|
            self.voxels@.contains(#[trigger] code(p.x as int, p.y as int, p.z as int) as u128)
                ==> in_box(self.lo, self.hi, p.x as int, p.y as int, p.z as int)
    }

    proof fn untouched(&self, x: int, y: int, z: int, extent: int, a: int, b: int, c: int) {
        let p = UVec3 { x: a as u32, y: b as u32, z: c as u32 };
        assert(code(p.x as int, p.y as int, p.z as int) == code(a, b, c));
    }

    fn touches(&self, origin: UVec3, extent: u32) -> (touched: bool) {
        meets_box(self.lo, self.hi, origin, extent)
    }

    fn material_at(&self, p: UVec3) -> (material: Option<MaterialId>) {
        broadcast use vstd::std_specs::hash::group_hash_axioms;

        if self.voxels.contains(&code_of(p)) {
            Some(MaterialId::empty())
        } else {
            None
        }
    }
}

/// Writes exactly the voxels it was given: what merging puts into the world
/// when a body becomes part of it.
struct FillOp {
    voxels: HashMap<u128, u8>,
    lo: UVec3,
    hi: UVec3,
}

impl FillOp {
    /// What the voxel at a position becomes.
    closed spec fn says(&self, x: int, y: int, z: int) -> Option<u8> {
        if self.voxels@.contains_key(code(x, y, z) as u128) {
            Some(self.voxels@[code(x, y, z) as u128])
        } else {
            None
        }
    }
}

impl EditOp for FillOp {
    closed spec fn meets(&self, x: int, y: int, z: int, extent: int) -> bool {
        box_meets(self.lo, self.hi, x, y, z, extent)
    }

    closed spec fn misses(&self, x: int, y: int, z: int, extent: int) -> bool {
        !box_meets(self.lo, self.hi, x, y, z, extent)
    }

    closed spec fn turns(&self, x: int, y: int, z: int, change: Option<u8>) -> bool {
        change == self.says(x, y, z)
    }

    closed spec fn valid(&self) -> bool {
        forall|p: UVec3|
            self.voxels@.contains_key(#[trigger] code(p.x as int, p.y as int, p.z as int) as u128)
                ==> in_box(self.lo, self.hi, p.x as int, p.y as int, p.z as int)
    }

    proof fn untouched(&self, x: int, y: int, z: int, extent: int, a: int, b: int, c: int) {
        let p = UVec3 { x: a as u32, y: b as u32, z: c as u32 };
        assert(code(p.x as int, p.y as int, p.z as int) == code(a, b, c));
    }

    fn touches(&self, origin: UVec3, extent: u32) -> (touched: bool) {
        meets_box(self.lo, self.hi, origin, extent)
    }

    fn material_at(&self, p: UVec3) -> (material: Option<MaterialId>) {
        broadcast use vstd::std_specs::hash::group_hash_axioms;

        match self.voxels.get(&code_of(p)) {
            Some(m) => Some(MaterialId(*m)),
            None => None,
        }
    }
}

/// What a list of voxels says of a position: the last entry for it wins.
pub open spec fn listed(voxels: Seq<(UVec3, MaterialId)>, p: UVec3) -> Option<u8>
    decreases voxels.len(),
{
    if voxels.len() == 0 {
        None
    } else if voxels.last().0 == p {
        Some(voxels.last().1.0)
    } else {
        listed(voxels.drop_last(), p)
    }
}

/// The smallest corner of a list of positions.
pub open spec fn low_corner(voxels: Seq<UVec3>) -> UVec3
    decreases voxels.len(),
{
    if voxels.len() <= 1 {
        voxels[0]
    } else {
        let lo = low_corner(voxels.drop_last());
        let p = voxels.last();
        UVec3 {
            x: if p.x < lo.x { p.x } else { lo.x },
            y: if p.y < lo.y { p.y } else { lo.y },
            z: if p.z < lo.z { p.z } else { lo.z },
        }
    }
}

/// The largest corner of a list of positions.
pub open spec fn high_corner(voxels: Seq<UVec3>) -> UVec3
    decreases voxels.len(),
{
    if voxels.len() <= 1 {
        voxels[0]
    } else {
        let hi = high_corner(voxels.drop_last());
        let p = voxels.last();
        UVec3 {
            x: if p.x > hi.x { p.x } else { hi.x },
            y: if p.y > hi.y { p.y } else { hi.y },
            z: if p.z > hi.z { p.z } else { hi.z },
        }
    }
}

/// The positions of a list of voxels.
pub open spec fn places(voxels: Seq<(UVec3, MaterialId)>) -> Seq<UVec3> {
    Seq::new(voxels.len(), |i: int| voxels[i].0)
}

/// What a position holds after an edit that writes a list of voxels.
pub open spec fn painted(
    voxels: Seq<(UVec3, MaterialId)>,
    before: MaterialId,
    p: UVec3,
) -> MaterialId {
    match listed(voxels, p) {
        Some(m) => MaterialId(m),
        None => before,
    }
}

/// Every position of a list lies between its corners.
pub proof fn lemma_corners(voxels: Seq<UVec3>, i: int)
    requires
        0 <= i < voxels.len(),
    ensures
        in_box(
            low_corner(voxels),
            high_corner(voxels),
            voxels[i].x as int,
            voxels[i].y as int,
            voxels[i].z as int,
        ),
    decreases voxels.len(),
{
    if voxels.len() > 1 {
        if i < voxels.len() - 1 {
            lemma_corners(voxels.drop_last(), i);
            assert(voxels.drop_last()[i] == voxels[i]);
        } else {
            lemma_corners(voxels.drop_last(), 0);
        }
    }
}

/// Room for what an edit that touches these cubes may add, in slots numbered by 32
/// bits: always there while the tree and its whole volume over again fit.
pub open spec fn room_for(tree: Contree, meets: spec_fn(int, int, int, int) -> bool) -> bool {
    ||| {
        &&& tree.slots().nodes.len() + crate::grid::cell_count(tree.side()) <= u32::MAX
        &&& tree.slots().voxels.len() + crate::grid::cell_count(tree.side()) <= u32::MAX
    }
    ||| room_to_grow(tree, meets)
}

/// Room for a block for each node at one of these cubes.
pub open spec fn room_to_grow(tree: Contree, at: spec_fn(int, int, int, int) -> bool) -> bool {
    &&& tree.slots().nodes.len() + growth(at, false, tree.height(), 0, 0, 0) <= u32::MAX
    &&& tree.slots().voxels.len() + growth(at, true, tree.height(), 0, 0, 0) <= u32::MAX
}

/// The cubes that meet the box from `lo` to `hi`.
pub open spec fn boxed(lo: UVec3, hi: UVec3) -> spec_fn(int, int, int, int) -> bool {
    |x: int, y: int, z: int, extent: int| box_meets(lo, hi, x, y, z, extent)
}

/// Room for what an edit of a box may add.
pub open spec fn room_in_box(tree: Contree, lo: UVec3, hi: UVec3) -> bool {
    room_for(tree, boxed(lo, hi))
}

/// Room for a block on each level for each of so many voxels.
pub open spec fn room_for_count(tree: Contree, count: int) -> bool {
    &&& tree.slots().nodes.len() + count * per_voxel(false, tree.height()) <= u32::MAX
    &&& tree.slots().voxels.len() + count * per_voxel(true, tree.height()) <= u32::MAX
}

/// Whether every one of some positions is among others.
pub open spec fn all_among(voxels: Seq<UVec3>, few: Seq<UVec3>) -> bool {
    forall|k: int| 0 <= k < voxels.len() ==> few.contains(#[trigger] voxels[k])
}

/// Room for what an edit of the positions may add: in a canonical tree, also where
/// they are all among few enough.
pub open spec fn has_room(tree: Contree, voxels: Seq<UVec3>) -> bool {
    ||| voxels.len() == 0
    ||| room_in_box(tree, low_corner(voxels), high_corner(voxels))
    ||| tree.canonical() && exists|few: Seq<UVec3>| #[trigger]
        all_among(voxels, few) && room_for_count(tree, few.len() as int)
}

/// Whether two trees of one extent hold the same voxels.
pub open spec fn same_voxels(before: Contree, after: Contree) -> bool {
    forall|p: UVec3| p.within(before.side()) ==> #[trigger] after.at(p) == before.at(p)
}

/// Whether two trees are stored alike, down to the order in which free blocks are
/// taken again.
pub open spec fn same_storage(before: Contree, after: Contree) -> bool {
    &&& after.slots() == before.slots()
    &&& after.top() == before.top()
    &&& same_free(before.store(), after.store())
}

/// What every edit keeps: the tree can be edited again, stays canonical if it
/// was, passes `check_canonical` if it did, loses no slot, keeps its extent, marks what it changed, and grows by no
/// more slots than it has voxels. One that changes no voxel of a canonical tree
/// changes nothing stored.
pub open spec fn edited(before: Contree, after: Contree) -> bool {
    &&& after.sound()
    &&& after.height() == before.height()
    &&& before.canonical() ==> after.canonical()
    &&& before.tidied() ==> after.tidied()
    &&& before.orderly() ==> after.orderly()
    &&& before.accounted() ==> after.accounted()
    &&& before.canonical() && same_voxels(before, after) ==> same_storage(before, after)
    &&& marked(before.store(), after.store())
    &&& after.slots().nodes.len() <= before.slots().nodes.len() + crate::grid::cell_count(
        before.side(),
    )
    &&& after.slots().voxels.len() <= before.slots().voxels.len() + crate::grid::cell_count(
        before.side(),
    )
}

/// Whether an edit rewrote only the subtrees it met: every other node is the same,
/// every slot below it is stored and marked as it was, and the arena grew by no more
/// than a block for each node that was met.
pub open spec fn rewrote_only(
    before: Contree,
    after: Contree,
    meets: spec_fn(int, int, int, int) -> bool,
) -> bool {
    &&& left_alone(
        meets,
        before.store(),
        before.top(),
        after.store(),
        after.top(),
        before.height(),
        0,
        0,
        0,
    )
    &&& after.slots().nodes.len() <= before.slots().nodes.len() + growth(
        meets,
        false,
        before.height(),
        0,
        0,
        0,
    )
    &&& after.slots().voxels.len() <= before.slots().voxels.len() + growth(
        meets,
        true,
        before.height(),
        0,
        0,
        0,
    )
}

/// What an edit leaves at the cubes it meets: nodes in the form that storing their
/// children gives. Where they had that form and no voxel changed, nothing stored
/// changed.
pub open spec fn settled(
    before: Contree,
    after: Contree,
    met: spec_fn(int, int, int, int) -> bool,
) -> bool {
    &&& after.neat(met)
    &&& before.neat(met) && same_voxels(before, after) ==> same_storage(before, after)
}

impl Contree {
    /// Applies an edit to the whole tree.
    fn apply<O: EditOp>(&mut self, op: &O)
        requires
            old(self).sound(),
            op.valid(),
            room_to_grow(*old(self), grows_at(op, old(self).neat(reach(op)))),
        ensures
            edited(*old(self), *final(self)),
            rewrote_only(*old(self), *final(self), reach(op)),
            final(self).neat(sure(op)),
            old(self).neat(reach(op)) && same_voxels(*old(self), *final(self)) ==> same_storage(
                *old(self),
                *final(self),
            ),
            forall|p: UVec3|
                p.within(old(self).side()) ==> becomes(
                    op,
                    p.x as int,
                    p.y as int,
                    p.z as int,
                    old(self).at(p).0,
                    #[trigger] final(self).at(p).0,
                ),
    {
        let ghost before = *self;
        let ghost level = self.height();
        proof {
            crate::dense::lemma_extent_levels(level);
            crate::dense::lemma_extent_levels(14);
            if level < 14 {
                crate::dense::lemma_extent_strict(level, 14);
            }
            let f = grows_at(op, self.neat(reach(op)));
            lemma_growth(f, false, level, 0, 0, 0);
            lemma_growth(f, true, level, 0, 0, 0);
            lemma_growth_less(f, reach(op), false, level, 0, 0, 0);
            lemma_growth_less(f, reach(op), true, level, 0, 0, 0);
            crate::plan::lemma_volume(level);
        }
        let root = self.root;
        let level = self.depth - 1;
        let new_root = rewrite(&mut self.arena, root, level, UVec3::new(0, 0, 0), op);
        self.set_root(new_root);
        proof {
            let (h, s, t) = (before.height(), before.slots(), self.slots());
            assert forall|p: UVec3| p.within(before.side()) implies becomes(
                op,
                p.x as int,
                p.y as int,
                p.z as int,
                before.at(p).0,
                #[trigger] self.at(p).0,
            ) by {
                let (x, y, z) = (p.x as int, p.y as int, p.z as int);
                assert(becomes(
                    op,
                    0 + x,
                    0 + y,
                    0 + z,
                    voxel_at(s, before.top(), h, x, y, z),
                    voxel_at(t, self.top(), h, x, y, z),
                ));
            }
            assert forall|leaf: bool, slot: int|
                before.accounted() && 0 <= slot < t.len(leaf) implies #[trigger] owns(
                t,
                self.top(),
                h,
                leaf,
                slot,
            ) || self.store().is_free(leaf, slot) by {
                if spared(before.store(), before.top(), h, leaf, slot) {
                    assert(owns(s, before.top(), h, leaf, slot) || before.store().is_free(
                        leaf,
                        slot,
                    ));
                }
            }
            if before.canonical() {
                lemma_canon_neat(reach(op), s, before.top(), h, 0, 0, 0);
            }
            if before.neat(reach(op)) && same_voxels(before, *self) {
                assert forall|dx: int, dy: int, dz: int|
                    0 <= dx < extent_of(h) && 0 <= dy < extent_of(h) && 0 <= dz < extent_of(
                        h,
                    ) implies #[trigger] voxel_at(t, self.top(), h, dx, dy, dz) == voxel_at(
                    s,
                    before.top(),
                    h,
                    dx,
                    dy,
                    dz,
                ) by {
                    let p = UVec3 { x: dx as u32, y: dy as u32, z: dz as u32 };
                    assert(p.within(before.side()));
                    assert(self.at(p) == before.at(p));
                }
            }
        }
    }

    /// Whether there is room for an edit that touches the cubes that `touches`
    /// says it does.
    pub fn has_room_to_touch<G: Fn(UVec3, u32) -> bool + Copy>(&self, touches: G) -> (room: bool)
        requires
            self.sized(),
            forall|corner: UVec3, extent: u32| #[trigger] call_requires(touches, (corner, extent)),
        ensures
            forall|met: spec_fn(UVec3, u32) -> bool| #[trigger]
                touched_as(touches, met) ==> room == room_for(*self, cubes(met)),
    {
        proof {
            crate::dense::lemma_extent_levels(14);
            if self.height() < 14 {
                crate::dense::lemma_extent_strict(self.height(), 14);
            }
            crate::dense::lemma_extent_levels(self.height());
        }
        let side = self.extent() as u128;
        let ghost edge = self.side();
        assert(0 <= edge * edge <= 0x1000_0000_0000_0000 && 0 <= edge * edge * edge
            <= 0x4_0000_0000_0000_0000_0000_00) by (nonlinear_arith)
            requires
                0 <= edge <= 0x4000_0000,
        ;
        let cells = side * side * side;
        let (nodes, voxels) = (self.arena.nodes().len(), self.arena.voxels().len());
        let most = u32::MAX as u128;
        if nodes as u128 + cells <= most && voxels as u128 + cells <= most {
            return true;
        }
        proof {
            assert forall|met: spec_fn(UVec3, u32) -> bool| #[trigger]
                touched_as(touches, met) implies {
                &&& growth(cubes(met), false, self.height(), 0, 0, 0) >= 0
                &&& growth(cubes(met), true, self.height(), 0, 0, 0) >= 0
            } by {
                lemma_growth(cubes(met), false, self.height(), 0, 0, 0);
                lemma_growth(cubes(met), true, self.height(), 0, 0, 0);
            }
        }
        if nodes as u128 > most || voxels as u128 > most {
            return false;
        }
        let origin = UVec3::new(0, 0, 0);
        grown_by(touches, self.depth - 1, origin, nodes as u32, voxels as u32).is_some()
    }

    /// Whether there is room for an edit of the box from `lo` to `hi`.
    pub fn has_room_in_box(&self, lo: UVec3, hi: UVec3) -> (room: bool)
        requires
            self.sized(),
        ensures
            room == room_in_box(*self, lo, hi),
    {
        let touches = move |corner: UVec3, extent: u32| -> (met: bool)
            ensures
                met == box_meets(
                    lo,
                    hi,
                    corner.x as int,
                    corner.y as int,
                    corner.z as int,
                    extent as int,
                ),
            {
                corner.x <= hi.x && corner.y <= hi.y && corner.z <= hi.z && corner.x as u64
                    + extent as u64 > lo.x as u64 && corner.y as u64 + extent as u64 > lo.y as u64
                    && corner.z as u64 + extent as u64 > lo.z as u64
            };
        let ghost met = |corner: UVec3, extent: u32|
            box_meets(
                lo,
                hi,
                corner.x as int,
                corner.y as int,
                corner.z as int,
                extent as int,
            );
        assert(touched_as(touches, met));
        let room = self.has_room_to_touch(touches);
        proof {
            crate::dense::lemma_extent_levels(14);
            if self.height() < 14 {
                crate::dense::lemma_extent_strict(self.height(), 14);
            }
            lemma_growth_agree(cubes(met), boxed(lo, hi), false, self.height(), 0, 0, 0);
            lemma_growth_agree(cubes(met), boxed(lo, hi), true, self.height(), 0, 0, 0);
        }
        room
    }

    /// Whether there is room for an edit of so many voxels, wherever they lie.
    pub fn has_room_for_count(&self, count: usize) -> (room: bool)
        requires
            self.sized(),
        ensures
            room == room_for_count(*self, count as int),
    {
        let (nodes, voxels) = (self.arena.nodes().len(), self.arena.voxels().len());
        let level = (self.depth - 1) as u128;
        let most = u32::MAX as u128;
        let ghost each = 64 * self.height();
        assert(0 <= count * each <= 0xffff_ffff_ffff_ffff * 896) by (nonlinear_arith)
            requires
                0 <= each <= 896,
                0 <= count <= 0xffff_ffff_ffff_ffff,
        ;
        nodes as u128 + count as u128 * (64 * level) <= most && voxels as u128 + count as u128 * 64
            <= most
    }

    /// Paints a sphere: `touches` says which cubes it reaches into, and `covers`
    /// which voxels lie in it. The empty material erases instead of filling.
    pub fn apply_sphere<G: Fn(UVec3, u32) -> bool, F: Fn(UVec3) -> bool>(
        &mut self,
        touches: G,
        covers: F,
        material: MaterialId,
    )
        requires
            old(self).sound(),
            forall|corner: UVec3, extent: u32| #[trigger] call_requires(touches, (corner, extent)),
            forall|p: UVec3| #[trigger] call_requires(covers, (p,)),
            room_to_touch(*old(self), touches),
        ensures
            edited(*old(self), *final(self)),
            forall|met: spec_fn(UVec3, u32) -> bool| #[trigger]
                touched_as(touches, met) ==> {
                    &&& rewrote_only(*old(self), *final(self), cubes(met))
                    &&& settled(*old(self), *final(self), cubes(met))
                },
            forall|p: UVec3|
                p.within(old(self).side()) ==> (#[trigger] final(self).at(p)) == material
                    || final(self).at(p) == old(self).at(p),
            forall|met: spec_fn(UVec3, u32) -> bool, says: spec_fn(UVec3) -> bool, p: UVec3|
                #![trigger touched_as(touches, met), covered_as(covers, says), final(self).at(p)]
                touched_as(touches, met) && covered_as(covers, says) && reaches_all(met, says)
                    && p.within(old(self).side()) ==> final(self).at(p) == if says(p) {
                    material
                } else {
                    old(self).at(p)
                },
    {
        let ghost before = *self;
        let op = SphereOp { touches, covers, material };
        proof {
            lemma_room_to_touch(before, &op);
        }
        self.apply(&op);
        proof {
            assert forall|met: spec_fn(UVec3, u32) -> bool| #[trigger]
                touched_as(touches, met) implies rewrote_only(before, *self, cubes(met)) && settled(
                before,
                *self,
                cubes(met),
            ) by {
                let h = before.height();
                assert forall|a: int, b: int, c: int, e: int| #[trigger]
                    cubes(met)(a, b, c, e) implies sure(&op)(a, b, c, e) by {
                    assert(!op.misses(a, b, c, e));
                }
                lemma_neat_fewer(cubes(met), sure(&op), self.slots(), self.top(), h, 0, 0, 0);
                assert forall|a: int, b: int, c: int, e: int| #[trigger]
                    reach(&op)(a, b, c, e) implies cubes(met)(a, b, c, e) by {
                    assert(op.meets(a, b, c, e));
                }
                lemma_alone_wider(
                    reach(&op),
                    cubes(met),
                    before.store(),
                    before.top(),
                    self.store(),
                    self.top(),
                    before.height(),
                    0,
                    0,
                    0,
                );
                lemma_growth_less(reach(&op), cubes(met), false, before.height(), 0, 0, 0);
                lemma_growth_less(reach(&op), cubes(met), true, before.height(), 0, 0, 0);
                if before.neat(cubes(met)) {
                    let (s, node) = (before.slots(), before.top());
                    lemma_neat_fewer(reach(&op), cubes(met), s, node, h, 0, 0, 0);
                }
            }
            assert forall|p: UVec3| p.within(before.side()) implies #[trigger] self.at(p)
                == material || self.at(p) == before.at(p) by {
                assert(becomes(
                    &op,
                    p.x as int,
                    p.y as int,
                    p.z as int,
                    before.at(p).0,
                    self.at(p).0,
                ));
            }
            assert forall|met: spec_fn(UVec3, u32) -> bool, says: spec_fn(UVec3) -> bool, p: UVec3|
                #![trigger touched_as(touches, met), covered_as(covers, says), self.at(p)]
                touched_as(touches, met) && covered_as(covers, says) && reaches_all(met, says)
                    && p.within(before.side()) implies self.at(p) == if says(p) {
                material
            } else {
                before.at(p)
            } by {
                assert(becomes(
                    &op,
                    p.x as int,
                    p.y as int,
                    p.z as int,
                    before.at(p).0,
                    self.at(p).0,
                ));
                lemma_sphere_turns(&op, met, says, p);
            }
        }
    }

    /// Erases exactly `voxels`. Detachment moves a piece of the world into a
    /// body, and takes the same voxels out of the world with this.
    pub fn clear_voxels(&mut self, voxels: &[UVec3])
        requires
            old(self).sound(),
            has_room(*old(self), voxels@),
        ensures
            edited(*old(self), *final(self)),
            voxels@.len() == 0 ==> *final(self) == *old(self),
            voxels@.len() > 0 ==> {
                let met = boxed(low_corner(voxels@), high_corner(voxels@));
                &&& rewrote_only(*old(self), *final(self), met)
                &&& settled(*old(self), *final(self), met)
            },
            forall|p: UVec3|
                p.within(old(self).side()) ==> #[trigger] final(self).at(p) == if voxels@.contains(
                    p,
                ) {
                    MaterialId(0)
                } else {
                    old(self).at(p)
                },
    {
        broadcast use vstd::std_specs::hash::group_hash_axioms;

        if voxels.len() == 0 {
            proof {
                crate::plan::lemma_volume(self.height());
            }
            return;
        }
        let mut lo = voxels[0];
        let mut hi = voxels[0];
        let mut set: HashSet<u128> = HashSet::new();
        for i in 0..voxels.len()
            invariant
                voxels@.len() > 0,
                i == 0 ==> lo == voxels@[0] && hi == voxels@[0],
                i > 0 ==> lo == low_corner(voxels@.take(i as int)) && hi == high_corner(
                    voxels@.take(i as int),
                ),
                forall|p: UVec3|
                    set@.contains(#[trigger] code(p.x as int, p.y as int, p.z as int) as u128)
                        == voxels@.take(i as int).contains(p),
        {
            broadcast use vstd::std_specs::hash::group_hash_axioms;

            let p = voxels[i];
            let ghost before = set@;
            let ghost taken = voxels@.take(i as int);
            let ghost more = voxels@.take(i + 1);
            proof {
                assert(more.drop_last() =~= taken);
                assert(more.last() == p);
                if i == 0 {
                    assert(more[0] == p);
                }
            }
            lo = lo.min(p);
            hi = hi.max(p);
            set.insert(code_of(p));
            proof {
                assert forall|q: UVec3|
                    set@.contains(#[trigger] code(q.x as int, q.y as int, q.z as int) as u128)
                        == more.contains(q) by {
                    let c = code(q.x as int, q.y as int, q.z as int) as u128;
                    if c == code(p.x as int, p.y as int, p.z as int) {
                        lemma_code_injective(
                            q.x as int,
                            q.y as int,
                            q.z as int,
                            p.x as int,
                            p.y as int,
                            p.z as int,
                        );
                    }
                    assert(more =~= taken.push(p));
                    if q == p {
                        assert(more[i as int] == q);
                    }
                    if taken.contains(q) {
                        let k = choose|k: int| 0 <= k < taken.len() && taken[k] == q;
                        assert(more[k] == q);
                    }
                    if more.contains(q) && q != p {
                        let k = choose|k: int| 0 <= k < more.len() && more[k] == q;
                        assert(taken[k] == q);
                    }
                }
            }
        }
        proof {
            assert(voxels@.take(voxels@.len() as int) =~= voxels@);
        }
        let op = ClearOp { voxels: set, lo, hi };
        proof {
            assert forall|p: UVec3|
                op.voxels@.contains(
                    #[trigger] code(p.x as int, p.y as int, p.z as int) as u128,
                ) implies in_box(op.lo, op.hi, p.x as int, p.y as int, p.z as int) by {
                let k = choose|k: int| 0 <= k < voxels@.len() && voxels@[k] == p;
                lemma_corners(voxels@, k);
            }
            let f = grows_at(&op, self.neat(reach(&op)));
            if self.canonical() {
                lemma_canon_neat(reach(&op), self.slots(), self.top(), self.height(), 0, 0, 0);
            }
            if room_in_box(*self, lo, hi) {
                lemma_room(*self, f, boxed(lo, hi));
            } else {
                assert forall|x: int, y: int, z: int, e: int| #[trigger]
                    f(x, y, z, e) implies holding(voxels@)(x, y, z, e) by {
                    assert(stirs(&op, x, y, z, e));
                    let (a, b, c, m) = choose|a: int, b: int, c: int, m: u8| #[trigger]
                        op.turns(a, b, c, Some(m)) && {
                            &&& x <= a < x + e && y <= b < y + e && z <= c < z + e
                            &&& 0 <= a <= u32::MAX && 0 <= b <= u32::MAX && 0 <= c <= u32::MAX
                        };
                    let p = UVec3 { x: a as u32, y: b as u32, z: c as u32 };
                    assert(op.voxels@.contains(
                        code(p.x as int, p.y as int, p.z as int) as u128,
                    ));
                    let k = choose|k: int| 0 <= k < voxels@.len() && voxels@[k] == p;
                    assert(in_cube(voxels@[k], x, y, z, e));
                }
                let few = choose|few: Seq<UVec3>| #[trigger]
                    all_among(voxels@, few) && room_for_count(*self, few.len() as int);
                lemma_room_for_count(*self, f, voxels@, few);
            }
        }
        assert(reach(&op) =~= boxed(lo, hi));
        assert(sure(&op) =~= boxed(lo, hi));
        self.apply(&op);
        proof {
            assert forall|p: UVec3| p.within(old(self).side()) implies #[trigger] self.at(p)
                == if voxels@.contains(p) {
                MaterialId(0)
            } else {
                old(self).at(p)
            } by {
                assert(becomes(
                    &op,
                    p.x as int,
                    p.y as int,
                    p.z as int,
                    old(self).at(p).0,
                    self.at(p).0,
                ));
            }
        }
    }

    /// Writes exactly `voxels`, the last entry for a position winning. Merging
    /// puts a body's voxels into the world with this.
    pub fn fill_voxels(&mut self, voxels: &[(UVec3, MaterialId)])
        requires
            old(self).sound(),
            has_room(*old(self), places(voxels@)),
        ensures
            edited(*old(self), *final(self)),
            voxels@.len() == 0 ==> *final(self) == *old(self),
            voxels@.len() > 0 ==> {
                let met = boxed(low_corner(places(voxels@)), high_corner(places(voxels@)));
                &&& rewrote_only(*old(self), *final(self), met)
                &&& settled(*old(self), *final(self), met)
            },
            forall|p: UVec3|
                p.within(old(self).side()) ==> #[trigger] final(self).at(p) == painted(
                    voxels@,
                    old(self).at(p),
                    p,
                ),
            forall|k: int|
                0 <= k < voxels@.len() && (#[trigger] voxels@[k]).0.within(old(self).side()) && (
                forall|j: int| k < j < voxels@.len() ==> (#[trigger] voxels@[j]).0 != voxels@[k].0)
                    ==> final(self).at(voxels@[k].0) == voxels@[k].1,
            forall|p: UVec3|
                p.within(old(self).side()) && (forall|k: int|
                    0 <= k < voxels@.len() ==> (#[trigger] voxels@[k]).0 != p)
                    ==> #[trigger] final(self).at(p) == old(self).at(p),
    {
        proof {
            law_the_last_entry_for_a_place_wins(voxels@);
        }
        broadcast use vstd::std_specs::hash::group_hash_axioms;

        if voxels.len() == 0 {
            proof {
                crate::plan::lemma_volume(self.height());
            }
            return;
        }
        let mut lo = voxels[0].0;
        let mut hi = voxels[0].0;
        let mut map: HashMap<u128, u8> = HashMap::new();
        for i in 0..voxels.len()
            invariant
                voxels@.len() > 0,
                i == 0 ==> lo == voxels@[0].0 && hi == voxels@[0].0,
                i > 0 ==> lo == low_corner(places(voxels@.take(i as int))) && hi == high_corner(
                    places(voxels@.take(i as int)),
                ),
                forall|p: UVec3|
                    #[trigger] code_maps(map@, p) == listed(voxels@.take(i as int), p),
        {
            broadcast use vstd::std_specs::hash::group_hash_axioms;

            let (p, m) = voxels[i];
            let ghost before = map@;
            let ghost taken = voxels@.take(i as int);
            let ghost more = voxels@.take(i + 1);
            proof {
                assert(more.drop_last() =~= taken);
                assert(more.last() == (p, m));
                assert(places(more).drop_last() =~= places(taken));
                assert(places(more).last() == p);
                if i == 0 {
                    assert(places(more)[0] == p);
                }
            }
            lo = lo.min(p);
            hi = hi.max(p);
            map.insert(code_of(p), m.0);
            proof {
                assert forall|q: UVec3| #[trigger] code_maps(map@, q) == listed(more, q) by {
                    assert(code_maps(before, q) == listed(taken, q));
                    if code(q.x as int, q.y as int, q.z as int) == code(
                        p.x as int,
                        p.y as int,
                        p.z as int,
                    ) {
                        lemma_code_injective(
                            q.x as int,
                            q.y as int,
                            q.z as int,
                            p.x as int,
                            p.y as int,
                            p.z as int,
                        );
                    }
                }
            }
        }
        proof {
            assert(voxels@.take(voxels@.len() as int) =~= voxels@);
        }
        let op = FillOp { voxels: map, lo, hi };
        proof {
            assert forall|p: UVec3|
                op.voxels@.contains_key(
                    #[trigger] code(p.x as int, p.y as int, p.z as int) as u128,
                ) implies in_box(op.lo, op.hi, p.x as int, p.y as int, p.z as int) by {
                assert(listed(voxels@, p) is Some) by {
                    assert(code_maps(op.voxels@, p) == listed(voxels@, p));
                }
                let k = lemma_listed_place(voxels@, p);
                lemma_corners(places(voxels@), k);
            }
            let f = grows_at(&op, self.neat(reach(&op)));
            if self.canonical() {
                lemma_canon_neat(reach(&op), self.slots(), self.top(), self.height(), 0, 0, 0);
            }
            let all = places(voxels@);
            if room_in_box(*self, lo, hi) {
                lemma_room(*self, f, boxed(lo, hi));
            } else {
                assert forall|x: int, y: int, z: int, e: int| #[trigger]
                    f(x, y, z, e) implies holding(all)(x, y, z, e) by {
                    assert(stirs(&op, x, y, z, e));
                    let (a, b, c, m) = choose|a: int, b: int, c: int, m: u8| #[trigger]
                        op.turns(a, b, c, Some(m)) && {
                            &&& x <= a < x + e && y <= b < y + e && z <= c < z + e
                            &&& 0 <= a <= u32::MAX && 0 <= b <= u32::MAX && 0 <= c <= u32::MAX
                        };
                    let p = UVec3 { x: a as u32, y: b as u32, z: c as u32 };
                    assert(code_maps(op.voxels@, p) == listed(voxels@, p));
                    let k = lemma_listed_place(voxels@, p);
                    assert(in_cube(all[k], x, y, z, e));
                }
                let few = choose|few: Seq<UVec3>| #[trigger]
                    all_among(all, few) && room_for_count(*self, few.len() as int);
                lemma_room_for_count(*self, f, all, few);
            }
        }
        assert(reach(&op) =~= boxed(lo, hi));
        assert(sure(&op) =~= boxed(lo, hi));
        self.apply(&op);
        proof {
            assert forall|p: UVec3| p.within(old(self).side()) implies #[trigger] self.at(p)
                == match listed(voxels@, p) {
                Some(m) => MaterialId(m),
                None => old(self).at(p),
            } by {
                assert(code_maps(op.voxels@, p) == listed(voxels@, p));
                assert(becomes(
                    &op,
                    p.x as int,
                    p.y as int,
                    p.z as int,
                    old(self).at(p).0,
                    self.at(p).0,
                ));
            }
        }
    }
}

/// What a map by code says of a position.
spec fn code_maps(map: Map<u128, u8>, p: UVec3) -> Option<u8> {
    let c = code(p.x as int, p.y as int, p.z as int) as u128;
    if map.contains_key(c) {
        Some(map[c])
    } else {
        None
    }
}

/// A listed position is in the list.
pub proof fn lemma_listed_place(voxels: Seq<(UVec3, MaterialId)>, p: UVec3) -> (k: int)
    requires
        listed(voxels, p) is Some,
    ensures
        0 <= k < voxels.len(),
        voxels[k].0 == p,
    decreases voxels.len(),
{
    if voxels.last().0 == p {
        voxels.len() - 1
    } else {
        lemma_listed_place(voxels.drop_last(), p)
    }
}

/// Of the entries a list has for a place the last one wins, and where it has none
/// the place is left alone.
pub proof fn law_the_last_entry_for_a_place_wins(voxels: Seq<(UVec3, MaterialId)>)
    ensures
        forall|k: int, before: MaterialId|
            #![trigger painted(voxels, before, voxels[k].0)]
            0 <= k < voxels.len() && (forall|j: int|
                k < j < voxels.len() ==> (#[trigger] voxels[j]).0 != voxels[k].0) ==> painted(
                voxels,
                before,
                voxels[k].0,
            ) == voxels[k].1,
        forall|k: int|
            0 <= k < voxels.len() && (forall|j: int|
                k < j < voxels.len() ==> (#[trigger] voxels[j]).0 != voxels[k].0) ==> listed(
                voxels,
                (#[trigger] voxels[k]).0,
            ) == Some(voxels[k].1.0),
        forall|p: UVec3, before: MaterialId|
            (forall|k: int| 0 <= k < voxels.len() ==> (#[trigger] voxels[k]).0 != p)
                ==> #[trigger] painted(voxels, before, p) == before,
        forall|p: UVec3|
            (forall|k: int| 0 <= k < voxels.len() ==> (#[trigger] voxels[k]).0 != p)
                ==> #[trigger] listed(voxels, p) is None,
    decreases voxels.len(),
{
    if voxels.len() > 0 {
        let rest = voxels.drop_last();
        let last = voxels.len() - 1;
        law_the_last_entry_for_a_place_wins(rest);
        assert(voxels[last] == voxels.last());
        assert forall|k: int|
            0 <= k < voxels.len() && (forall|j: int|
                k < j < voxels.len() ==> (#[trigger] voxels[j]).0 != voxels[k].0) implies listed(
            voxels,
            (#[trigger] voxels[k]).0,
        ) == Some(voxels[k].1.0) by {
            if k < last {
                assert(voxels[last].0 != voxels[k].0);
                assert(rest[k] == voxels[k]);
                assert forall|j: int| k < j < rest.len() implies (#[trigger] rest[j]).0
                    != rest[k].0 by {
                    assert(voxels[j].0 != voxels[k].0);
                }
            }
        }
        assert forall|p: UVec3|
            (forall|k: int|
                0 <= k < voxels.len() ==> (
                #[trigger] voxels[k]).0 != p) implies #[trigger] listed(voxels, p) is None by {
            assert(voxels[last].0 != p);
            assert forall|k: int| 0 <= k < rest.len() implies (#[trigger] rest[k]).0 != p by {
                assert(voxels[k].0 != p);
            }
            assert(listed(rest, p) is None);
        }
        assert forall|k: int, before: MaterialId|
            #![trigger painted(voxels, before, voxels[k].0)]
            0 <= k < voxels.len() && (forall|j: int|
                k < j < voxels.len() ==> (
                #[trigger] voxels[j]).0 != voxels[k].0) implies painted(
            voxels,
            before,
            voxels[k].0,
        ) == voxels[k].1 by {
            assert(listed(voxels, voxels[k].0) == Some(voxels[k].1.0));
        }
    }
}

/// Whether a brush covers voxels as `says` has it.
pub open spec fn covered_as<F: Fn(UVec3) -> bool>(
    covers: F,
    says: spec_fn(UVec3) -> bool,
) -> bool {
    forall|p: UVec3, b: bool| #[trigger] call_ensures(covers, (p,), b) ==> b == says(p)
}

/// Whether a brush touches cubes as `met` has it.
pub open spec fn touched_as<G: Fn(UVec3, u32) -> bool>(
    touches: G,
    met: spec_fn(UVec3, u32) -> bool,
) -> bool {
    forall|corner: UVec3, extent: u32, b: bool| #[trigger]
        call_ensures(touches, (corner, extent), b) ==> b == met(corner, extent)
}

/// Whether every cube that holds a covered voxel is touched.
pub open spec fn reaches_all(
    met: spec_fn(UVec3, u32) -> bool,
    says: spec_fn(UVec3) -> bool,
) -> bool {
    forall|corner: UVec3, extent: u32, p: UVec3|
        #![trigger met(corner, extent), says(p)]
        says(p) && cube_holds(corner, extent, p) ==> met(corner, extent)
}

/// Whether a voxel lies in a cube.
pub open spec fn cube_holds(corner: UVec3, extent: u32, p: UVec3) -> bool {
    &&& corner.x <= p.x < corner.x + extent
    &&& corner.y <= p.y < corner.y + extent
    &&& corner.z <= p.z < corner.z + extent
}

/// The cubes touched, by the position of their corner.
pub open spec fn cubes(met: spec_fn(UVec3, u32) -> bool) -> spec_fn(int, int, int, int) -> bool {
    |x: int, y: int, z: int, extent: int|
        met(UVec3 { x: x as u32, y: y as u32, z: z as u32 }, extent as u32)
}

/// Room for what an edit that touches what a brush says may add.
pub open spec fn room_to_touch<G: Fn(UVec3, u32) -> bool>(tree: Contree, touches: G) -> bool {
    ||| {
        &&& tree.slots().nodes.len() + crate::grid::cell_count(tree.side()) <= u32::MAX
        &&& tree.slots().voxels.len() + crate::grid::cell_count(tree.side()) <= u32::MAX
    }
    ||| exists|met: spec_fn(UVec3, u32) -> bool| #[trigger]
        touched_as(touches, met) && room_for(tree, cubes(met))
}

/// A sphere paint operation. The empty material erases.
struct SphereOp<G: Fn(UVec3, u32) -> bool, F: Fn(UVec3) -> bool> {
    touches: G,
    covers: F,
    material: MaterialId,
}

impl<G: Fn(UVec3, u32) -> bool, F: Fn(UVec3) -> bool> SphereOp<G, F> {
    /// Whether a cube that holds a voxel may be left alone.
    closed spec fn passes_over(&self, p: UVec3) -> bool {
        exists|corner: UVec3, extent: u32| #[trigger]
            call_ensures(self.touches, (corner, extent), false) && cube_holds(corner, extent, p)
    }
}

impl<G: Fn(UVec3, u32) -> bool, F: Fn(UVec3) -> bool> EditOp for SphereOp<G, F> {
    closed spec fn meets(&self, x: int, y: int, z: int, extent: int) -> bool {
        call_ensures(
            self.touches,
            (UVec3 { x: x as u32, y: y as u32, z: z as u32 }, extent as u32),
            true,
        )
    }

    closed spec fn misses(&self, x: int, y: int, z: int, extent: int) -> bool {
        call_ensures(
            self.touches,
            (UVec3 { x: x as u32, y: y as u32, z: z as u32 }, extent as u32),
            false,
        )
    }

    closed spec fn turns(&self, x: int, y: int, z: int, change: Option<u8>) -> bool {
        let p = UVec3 { x: x as u32, y: y as u32, z: z as u32 };
        match change {
            Some(m) => m == self.material.0 && call_ensures(self.covers, (p,), true),
            None => call_ensures(self.covers, (p,), false) || self.passes_over(p),
        }
    }

    closed spec fn valid(&self) -> bool {
        &&& forall|corner: UVec3, extent: u32| #[trigger]
            call_requires(self.touches, (corner, extent))
        &&& forall|p: UVec3| #[trigger] call_requires(self.covers, (p,))
    }

    proof fn untouched(&self, x: int, y: int, z: int, extent: int, a: int, b: int, c: int) {
        let corner = UVec3 { x: x as u32, y: y as u32, z: z as u32 };
        let p = UVec3 { x: a as u32, y: b as u32, z: c as u32 };
        assert(cube_holds(corner, extent as u32, p));
    }

    fn touches(&self, origin: UVec3, extent: u32) -> (touched: bool) {
        (self.touches)(origin, extent)
    }

    fn material_at(&self, p: UVec3) -> (material: Option<MaterialId>) {
        if (self.covers)(p) {
            Some(self.material)
        } else {
            None
        }
    }
}

/// What a sphere turns a voxel into, where every cube that holds a covered voxel is
/// touched.
proof fn lemma_sphere_turns<G: Fn(UVec3, u32) -> bool, F: Fn(UVec3) -> bool>(
    op: &SphereOp<G, F>,
    met: spec_fn(UVec3, u32) -> bool,
    says: spec_fn(UVec3) -> bool,
    p: UVec3,
)
    requires
        touched_as(op.touches, met),
        covered_as(op.covers, says),
        reaches_all(met, says),
    ensures
        forall|change: Option<u8>| #[trigger]
            op.turns(p.x as int, p.y as int, p.z as int, change) ==> change == if says(p) {
                Some(op.material.0)
            } else {
                None
            },
{
    assert forall|change: Option<u8>| #[trigger]
        op.turns(p.x as int, p.y as int, p.z as int, change) implies change == if says(p) {
        Some(op.material.0)
    } else {
        None
    } by {
        if op.passes_over(p) {
            let (corner, extent) = choose|corner: UVec3, extent: u32| #[trigger]
                call_ensures(op.touches, (corner, extent), false) && cube_holds(corner, extent, p);
            assert(!met(corner, extent));
            assert(!says(p));
        }
    }
}

/// Room for what a brush touches is room for the sphere.
proof fn lemma_room_to_touch<G: Fn(UVec3, u32) -> bool, F: Fn(UVec3) -> bool>(
    tree: Contree,
    op: &SphereOp<G, F>,
)
    requires
        tree.sized(),
        room_to_touch(tree, op.touches),
    ensures
        room_to_grow(tree, grows_at(op, tree.neat(reach(op)))),
{
    let few = grows_at(op, tree.neat(reach(op)));
    if exists|met: spec_fn(UVec3, u32) -> bool| #[trigger]
        touched_as(op.touches, met) && room_for(tree, cubes(met)) {
        let met = choose|met: spec_fn(UVec3, u32) -> bool| #[trigger]
            touched_as(op.touches, met) && room_for(tree, cubes(met));
        assert forall|a: int, b: int, c: int, e: int| #[trigger]
            few(a, b, c, e) implies cubes(met)(a, b, c, e) by {
            assert(op.meets(a, b, c, e));
        }
        lemma_room(tree, few, cubes(met));
    } else {
        lemma_room(tree, few, few);
    }
}

/// Adds what an edit that touches what a brush says can add below a node to numbers
/// of node slots and voxel slots. `None` where the sum is past 32 bits.
fn grown_by<G: Fn(UVec3, u32) -> bool + Copy>(
    touches: G,
    level: u32,
    origin: UVec3,
    nodes: u32,
    voxels: u32,
) -> (grown: Option<(u32, u32)>)
    requires
        level <= 14,
        in_space(level as int, origin.x as int, origin.y as int, origin.z as int),
        forall|corner: UVec3, extent: u32| #[trigger] call_requires(touches, (corner, extent)),
    ensures
        forall|met: spec_fn(UVec3, u32) -> bool| #[trigger]
            touched_as(touches, met) ==> sums_up(
                nodes + growth(
                    cubes(met),
                    false,
                    level as int,
                    origin.x as int,
                    origin.y as int,
                    origin.z as int,
                ),
                voxels + growth(
                    cubes(met),
                    true,
                    level as int,
                    origin.x as int,
                    origin.y as int,
                    origin.z as int,
                ),
                grown,
            ),
    decreases level,
{
    let ghost (x, y, z) = (origin.x as int, origin.y as int, origin.z as int);
    let extent = level_extent(level);
    if !touches(origin, extent) {
        return Some((nodes, voxels));
    }
    if level == 0 {
        return match voxels.checked_add(CHILDREN) {
            Some(more) => Some((nodes, more)),
            None => None,
        };
    }
    let ghost lv = level as int;
    proof {
        assert forall|met: spec_fn(UVec3, u32) -> bool| #[trigger]
            touched_as(touches, met) implies {
            &&& growth(cubes(met), false, lv, x, y, z) >= 64
            &&& growth(cubes(met), true, lv, x, y, z) >= 0
        } by {
            lemma_growth_upto(cubes(met), false, lv, x, y, z, 0, 64);
            lemma_growth_upto(cubes(met), true, lv, x, y, z, 0, 64);
        }
    }
    let mut sum: (u32, u32) = match nodes.checked_add(CHILDREN) {
        Some(more) => (more, voxels),
        None => return None,
    };
    let step = level_extent(level - 1);
    for i in 0..CHILDREN
        invariant
            1 <= level <= 14,
            lv == level,
            (x, y, z) == (origin.x as int, origin.y as int, origin.z as int),
            in_space(lv, x, y, z),
            step == extent_of(lv - 1),
            step >= 4,
            extent == extent_of(lv),
            forall|corner: UVec3, extent: u32| #[trigger] call_requires(touches, (corner, extent)),
            forall|met: spec_fn(UVec3, u32) -> bool| #[trigger]
                touched_as(touches, met) ==> {
                    &&& met(origin, extent)
                    &&& sum.0 == nodes + 64 + growth_upto(
                        cubes(met),
                        false,
                        lv,
                        x,
                        y,
                        z,
                        i as int,
                    )
                    &&& sum.1 == voxels + growth_upto(cubes(met), true, lv, x, y, z, i as int)
                },
    {
        proof {
            lemma_cell(i as int);
            lemma_child_inside(x, y, z, lv, i as int);
            lemma_cell_inside(i as int % 4, step as int);
            lemma_cell_inside((i as int / 4) % 4, step as int);
            lemma_cell_inside(i as int / 16, step as int);
            assert forall|met: spec_fn(UVec3, u32) -> bool| #[trigger]
                touched_as(touches, met) implies {
                &&& growth_upto(cubes(met), false, lv, x, y, z, i + 1) <= growth_upto(
                    cubes(met),
                    false,
                    lv,
                    x,
                    y,
                    z,
                    64,
                )
                &&& growth_upto(cubes(met), true, lv, x, y, z, i + 1) <= growth_upto(
                    cubes(met),
                    true,
                    lv,
                    x,
                    y,
                    z,
                    64,
                )
            } by {
                lemma_growth_upto(cubes(met), false, lv, x, y, z, i + 1, 64);
                lemma_growth_upto(cubes(met), true, lv, x, y, z, i + 1, 64);
            }
        }
        let child_origin = UVec3::new(
            origin.x + (i % BRICK_EDGE) * step,
            origin.y + ((i / BRICK_EDGE) % BRICK_EDGE) * step,
            origin.z + (i / (BRICK_EDGE * BRICK_EDGE)) * step,
        );
        sum = match grown_by(touches, level - 1, child_origin, sum.0, sum.1) {
            Some(more) => more,
            None => return None,
        };
    }
    Some(sum)
}

/// Whether two numbers, where both fit in 32 bits, are those given.
spec fn sums_up(nodes: int, voxels: int, sum: Option<(u32, u32)>) -> bool {
    match sum {
        Some((n, v)) => n == nodes && v == voxels,
        None => nodes > u32::MAX || voxels > u32::MAX,
    }
}

/// Positions in a box have corners in it.
proof fn lemma_corners_inside(lo: UVec3, hi: UVec3, voxels: Seq<UVec3>)
    requires
        voxels.len() > 0,
        forall|k: int|
            0 <= k < voxels.len() ==> in_box(
                lo,
                hi,
                (#[trigger] voxels[k]).x as int,
                voxels[k].y as int,
                voxels[k].z as int,
            ),
    ensures
        in_box(
            lo,
            hi,
            low_corner(voxels).x as int,
            low_corner(voxels).y as int,
            low_corner(voxels).z as int,
        ),
        in_box(
            lo,
            hi,
            high_corner(voxels).x as int,
            high_corner(voxels).y as int,
            high_corner(voxels).z as int,
        ),
    decreases voxels.len(),
{
    assert(in_box(lo, hi, voxels[0].x as int, voxels[0].y as int, voxels[0].z as int));
    if voxels.len() > 1 {
        let rest = voxels.drop_last();
        assert forall|k: int| 0 <= k < rest.len() implies in_box(
            lo,
            hi,
            (#[trigger] rest[k]).x as int,
            rest[k].y as int,
            rest[k].z as int,
        ) by {
            assert(voxels[k] == rest[k]);
        }
        lemma_corners_inside(lo, hi, rest);
        assert(voxels[voxels.len() - 1] == voxels.last());
    }
}

/// Room in a box is room for any positions in it.
pub proof fn law_room_in_a_box_is_room_inside_it(
    tree: Contree,
    lo: UVec3,
    hi: UVec3,
    voxels: Seq<UVec3>,
)
    requires
        tree.sized(),
        room_in_box(tree, lo, hi),
        forall|k: int|
            0 <= k < voxels.len() ==> in_box(
                lo,
                hi,
                (#[trigger] voxels[k]).x as int,
                voxels[k].y as int,
                voxels[k].z as int,
            ),
    ensures
        has_room(tree, voxels),
{
    if voxels.len() > 0 {
        lemma_corners_inside(lo, hi, voxels);
        let (few, many) = (
            boxed(low_corner(voxels), high_corner(voxels)),
            boxed(lo, hi),
        );
        lemma_growth_less(few, many, false, tree.height(), 0, 0, 0);
        lemma_growth_less(few, many, true, tree.height(), 0, 0, 0);
    }
}

/// Room for so many voxels is room to grow where they lie.
proof fn lemma_room_for_count(
    tree: Contree,
    at: spec_fn(int, int, int, int) -> bool,
    all: Seq<UVec3>,
    voxels: Seq<UVec3>,
)
    requires
        tree.sized(),
        all_among(all, voxels),
        room_for_count(tree, voxels.len() as int),
        forall|a: int, b: int, c: int, e: int| #[trigger]
            at(a, b, c, e) ==> holding(all)(a, b, c, e),
    ensures
        room_to_grow(tree, at),
{
    let h = tree.height();
    assert forall|a: int, b: int, c: int, e: int| #[trigger]
        at(a, b, c, e) implies holding(voxels)(a, b, c, e) by {
        let k = choose|k: int| 0 <= k < all.len() && in_cube(#[trigger] all[k], a, b, c, e);
        assert(voxels.contains(all[k]));
        let j = choose|j: int| 0 <= j < voxels.len() && voxels[j] == all[k];
        assert(in_cube(voxels[j], a, b, c, e));
    }
    lemma_growth_less(at, holding(voxels), false, h, 0, 0, 0);
    lemma_growth_less(at, holding(voxels), true, h, 0, 0, 0);
    law_each_voxel_takes_a_block_on_each_level(voxels, false, h, 0, 0, 0);
    law_each_voxel_takes_a_block_on_each_level(voxels, true, h, 0, 0, 0);
}

/// In a canonical tree, room for so many voxels is room for any edit of as many.
pub proof fn law_few_voxels_need_little_room(tree: Contree, voxels: Seq<UVec3>)
    requires
        tree.canonical(),
        room_for_count(tree, voxels.len() as int),
    ensures
        has_room(tree, voxels),
{
    assert(all_among(voxels, voxels));
}

/// Room for what touches some cubes is room to grow at fewer.
proof fn lemma_room(
    tree: Contree,
    few: spec_fn(int, int, int, int) -> bool,
    many: spec_fn(int, int, int, int) -> bool,
)
    requires
        tree.sized(),
        room_for(tree, many),
        forall|a: int, b: int, c: int, e: int| #[trigger] few(a, b, c, e) ==> many(a, b, c, e),
    ensures
        room_to_grow(tree, few),
{
    lemma_growth(few, false, tree.height(), 0, 0, 0);
    lemma_growth(few, true, tree.height(), 0, 0, 0);
    lemma_growth_less(few, many, false, tree.height(), 0, 0, 0);
    lemma_growth_less(few, many, true, tree.height(), 0, 0, 0);
    crate::plan::lemma_volume(tree.height());
}

/// A tree whose every voxel could take a slot has room for any edit of a box, and room
/// for many voxels is room for fewer.
pub proof fn law_a_small_tree_has_room(tree: Contree, lo: UVec3, hi: UVec3, many: int, few: int)
    requires
        tree.sized(),
        0 <= few <= many,
    ensures
        tree.slots().nodes.len() + tree.side() * tree.side() * tree.side() <= u32::MAX
            && tree.slots().voxels.len() + tree.side() * tree.side() * tree.side() <= u32::MAX
            ==> room_in_box(tree, lo, hi),
        room_for_count(tree, many) ==> room_for_count(tree, few),
        room_for_count(tree, many) <==> {
            &&& tree.slots().nodes.len() + many * (64 * tree.height()) <= u32::MAX
            &&& tree.slots().voxels.len() + many * 64 <= u32::MAX
        },
{
    let each = 64 * tree.height();
    assert(few * each <= many * each) by (nonlinear_arith)
        requires
            few <= many,
            each >= 0,
    ;
}

} // verus!
