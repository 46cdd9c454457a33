//! The boxes a tree is solid in: the uniform nodes it holds, and the single
//! voxels where it is subdivided to the leaf. Walking these instead of voxels
//! crosses a whole region of solid terrain in one step.

use crate::address::{IVec3, UVec3};
use crate::arena::Slots;
use crate::bits::bit;
use crate::contree::{level_extent, tidy, Contree};
use crate::node::{child_index, lemma_slot_in_block, ordinal, Node};
use crate::distance_field::{aligned, lemma_child_aligned};
use crate::plan::{child_x, child_y, child_z, constant, lemma_cell_inside, stands_for};
use crate::physics::connect::{
    adjacent, joined, lemma_joined_self, lemma_joined_step, solid_in_tree,
};
use crate::sparse::{
    cell_at as child_at, in_cube, lemma_child_cube, lemma_child_stands, lemma_place_in_child,
};
use crate::tree::{
    all_same_solid, all_same_voxel, byte_of, bytes_of, canon, extent_of, kid, kids_of, lemma_cell, lemma_extent, lemma_ordinal, lemma_split,
    lemma_uniform, voxel_at, wf,
};
use vstd::prelude::*;

verus! {

/// One step of a walk: a box of solid voxels the tree holds as a single node, or
/// one voxel where it is subdivided to the leaf.
///
/// A node's box is aligned to its own size, so the box spans
/// `origin .. origin + size` on each axis and `origin.y == 0` is exactly "on
/// the ground".
#[derive(Clone, Copy, Debug, PartialEq, Eq, Structural)]
pub struct Cell {
    pub origin: UVec3,
    pub size: u32,
}

impl Cell {
    /// Whether a voxel lies in the box.
    pub open spec fn has(self, p: UVec3) -> bool {
        in_cube(
            p,
            self.origin.x as int,
            self.origin.y as int,
            self.origin.z as int,
            self.size as int,
        )
    }

    /// How many voxels the box has.
    pub open spec fn count(self) -> int {
        self.size * self.size * self.size
    }
}

/// The box that holds a position below a node, where it is solid.
pub open spec fn cell_below(
    tree: Contree,
    node: Node,
    level: int,
    x: int,
    y: int,
    z: int,
    p: UVec3,
) -> Option<Cell>
    decreases level,
{
    if node.mask == 0 {
        if node.material as u8 != 0 {
            Some(
                Cell {
                    origin: UVec3 { x: x as u32, y: y as u32, z: z as u32 },
                    size: extent_of(level) as u32,
                },
            )
        } else {
            None
        }
    } else if !bit(node.mask, child_at(p, x, y, z, level)) {
        None
    } else if level <= 0 {
        Some(Cell { origin: p, size: 1 })
    } else {
        let i = child_at(p, x, y, z, level);
        cell_below(
            tree,
            kid(tree.slots(), node, i),
            level - 1,
            child_x(x, i, level),
            child_y(y, i, level),
            child_z(z, i, level),
            p,
        )
    }
}

/// The box that holds a voxel, where it is solid.
#[verifier::opaque]
pub open spec fn cell_of_voxel(tree: Contree, p: UVec3) -> Option<Cell> {
    cell_below(tree, tree.top(), tree.height(), 0, 0, 0, p)
}

/// Solid voxels have a box, empty ones have none; the box holds the voxel, lies
/// below the node, and is the box of every voxel in it.
pub proof fn lemma_cell_below(
    f: spec_fn(int, int, int) -> u8,
    tree: Contree,
    node: Node,
    level: int,
    x: int,
    y: int,
    z: int,
    p: UVec3,
)
    requires
        0 <= level <= 14,
        tidy(tree.slots(), node, level),
        stands_for(f, tree.slots(), node, level, x, y, z),
        0 <= x && x + extent_of(level) <= 0x4000_0000,
        0 <= y && y + extent_of(level) <= 0x4000_0000,
        0 <= z && z + extent_of(level) <= 0x4000_0000,
        in_cube(p, x, y, z, extent_of(level)),
    ensures
        cell_below(tree, node, level, x, y, z, p) is Some <==> f(
            p.x as int,
            p.y as int,
            p.z as int,
        ) != 0,
        cell_below(tree, node, level, x, y, z, p) matches Some(cell) ==> {
            &&& cell.has(p)
            &&& cell.size >= 1
            &&& x <= cell.origin.x && cell.origin.x + cell.size <= x + extent_of(level)
            &&& y <= cell.origin.y && cell.origin.y + cell.size <= y + extent_of(level)
            &&& z <= cell.origin.z && cell.origin.z + cell.size <= z + extent_of(level)
            &&& forall|q: UVec3| #[trigger]
                cell.has(q) ==> cell_below(tree, node, level, x, y, z, q) == Some(cell)
        },
    decreases level,
{
    let s = tree.slots();
    lemma_extent(level);
    lemma_extent(level - 1);
    if node.mask == 0 {
        lemma_uniform(s, node, level, p.x - x, p.y - y, p.z - z);
        assert(voxel_at(s, node, level, p.x - x, p.y - y, p.z - z) == f(
            x + (p.x - x),
            y + (p.y - y),
            z + (p.z - z),
        ));
    } else {
        lemma_place_in_child(p, x, y, z, level);
        let i = child_at(p, x, y, z, level);
        lemma_cell(i);
        let step = extent_of(level - 1);
        let (cx, cy, cz) = (child_x(x, i, level), child_y(y, i, level), child_z(z, i, level));
        assert(in_cube(p, cx, cy, cz, step));
        if level == 0 {
            reveal_with_fuel(extent_of, 2);
            assert(voxel_at(s, node, 0, p.x - x, p.y - y, p.z - z) == f(
                x + (p.x - x),
                y + (p.y - y),
                z + (p.z - z),
            ));
            lemma_ordinal(p.x - x, p.y - y, p.z - z);
            assert(i == ordinal(p.x - x, p.y - y, p.z - z));
            assert((byte_of(s, node, i) != 0) == bit(node.mask, i));
            assert forall|q: UVec3| #[trigger] (Cell { origin: p, size: 1 }).has(q) implies q
                == p by {}
        } else {
            let child = kid(s, node, i);
            lemma_child_stands(f, s, node, level, x, y, z, i);
            lemma_child_cube(x, y, z, level, i);
            assert(tidy(s, child, level - 1));
            if !bit(node.mask, i) {
                lemma_uniform(s, child, level - 1, p.x - cx, p.y - cy, p.z - cz);
                assert(voxel_at(s, child, level - 1, p.x - cx, p.y - cy, p.z - cz) == f(
                    cx + (p.x - cx),
                    cy + (p.y - cy),
                    cz + (p.z - cz),
                ));
            } else {
                lemma_cell_below(f, tree, child, level - 1, cx, cy, cz, p);
                if cell_below(tree, child, level - 1, cx, cy, cz, p) is Some {
                    let cell = cell_below(tree, child, level - 1, cx, cy, cz, p)->0;
                    assert forall|q: UVec3| #[trigger] cell.has(q) implies cell_below(
                        tree,
                        node,
                        level,
                        x,
                        y,
                        z,
                        q,
                    ) == Some(cell) by {
                        assert(in_cube(q, cx, cy, cz, step));
                        assert(in_cube(q, x, y, z, extent_of(level)));
                        lemma_place_in_child(q, x, y, z, level);
                        assert(cell_below(tree, child, level - 1, cx, cy, cz, q) == Some(cell));
                    }
                }
            }
        }
    }
}

/// What the boxes of a tree are.
pub proof fn lemma_cells(tree: Contree, p: UVec3)
    requires
        tree.readable(),
        tree.tidied(),
        p.within(tree.side()),
    ensures
        tree.side() <= 0x4000_0000,
        cell_of_voxel(tree, p) is Some <==> solid_in_tree(tree)(p),
        cell_of_voxel(tree, p) matches Some(cell) ==> {
            &&& cell.has(p)
            &&& cell.has(cell.origin)
            &&& cell.size >= 1
            &&& cell.origin.x + cell.size <= tree.side()
            &&& cell.origin.y + cell.size <= tree.side()
            &&& cell.origin.z + cell.size <= tree.side()
            &&& forall|q: UVec3| #[trigger]
                cell.has(q) ==> cell_of_voxel(tree, q) == Some(cell) && solid_in_tree(tree)(q)
        },
{
    reveal(cell_of_voxel);
    let level = tree.height();
    crate::dense::lemma_extent_levels(level);
    if level < 14 {
        crate::dense::lemma_extent_strict(level, 14);
    }
    let f = tree.field();
    lemma_cell_below(f, tree, tree.top(), level, 0, 0, 0, p);
    if cell_of_voxel(tree, p) is Some {
        let cell = cell_of_voxel(tree, p)->0;
        assert forall|q: UVec3| #[trigger] cell.has(q) implies cell_of_voxel(tree, q) == Some(cell)
            && solid_in_tree(tree)(q) by {
            lemma_cell_below(f, tree, tree.top(), level, 0, 0, 0, q);
        }
        assert(cell.has(cell.origin));
    }
}

/// A box of the tree.
pub open spec fn is_cell(tree: Contree, cell: Cell) -> bool {
    cell.origin.within(tree.side()) && cell_of_voxel(tree, cell.origin) == Some(cell)
}

/// A box of the tree is solid, and apart from every other box.
pub proof fn lemma_is_cell(tree: Contree, cell: Cell)
    requires
        tree.readable(),
        tree.tidied(),
        is_cell(tree, cell),
    ensures
        cell.size >= 1,
        cell.has(cell.origin),
        tree.side() <= 0x4000_0000,
        cell.origin.x + cell.size <= tree.side(),
        cell.origin.y + cell.size <= tree.side(),
        cell.origin.z + cell.size <= tree.side(),
        forall|q: UVec3| #[trigger]
            cell.has(q) ==> q.within(tree.side()) && cell_of_voxel(tree, q) == Some(cell)
                && solid_in_tree(tree)(q),
{
    lemma_cells(tree, cell.origin);
}

/// The box of a solid voxel is a box of the tree.
pub proof fn lemma_voxel_cell(tree: Contree, p: UVec3)
    requires
        tree.readable(),
        tree.tidied(),
        solid_in_tree(tree)(p),
    ensures
        cell_of_voxel(tree, p) is Some,
        cell_of_voxel(tree, p)->0.has(p),
        is_cell(tree, cell_of_voxel(tree, p)->0),
{
    lemma_cells(tree, p);
}

/// The voxels of a box hold together.
pub proof fn lemma_cell_joined(tree: Contree, cell: Cell, p: UVec3)
    requires
        tree.readable(),
        tree.tidied(),
        is_cell(tree, cell),
        cell.has(p),
    ensures
        joined(solid_in_tree(tree), cell.origin, p),
    decreases p.x + p.y + p.z,
{
    let solid = solid_in_tree(tree);
    lemma_is_cell(tree, cell);
    let o = cell.origin;
    if p == o {
        lemma_joined_self(solid, o);
    } else {
        let q = if p.x > o.x {
            UVec3 { x: (p.x - 1) as u32, ..p }
        } else if p.y > o.y {
            UVec3 { y: (p.y - 1) as u32, ..p }
        } else {
            UVec3 { z: (p.z - 1) as u32, ..p }
        };
        assert(cell.has(q));
        lemma_cell_joined(tree, cell, q);
        lemma_joined_step(solid, o, q, p);
    }
}

/// The cell holding `p`: the uniform solid node it lands in, or its own voxel.
/// `None` where the tree is empty there, or `p` is outside it.
///
/// The descent is that of reading a voxel, keeping the box each step narrows to.
pub fn cell_at(tree: &Contree, p: IVec3) -> (found: Option<Cell>)
    requires
        tree.readable(),
        tree.tidied(),
    ensures
        found == (if 0 <= p.x < tree.side() && 0 <= p.y < tree.side() && 0 <= p.z < tree.side() {
            cell_of_voxel(*tree, UVec3 { x: p.x as u32, y: p.y as u32, z: p.z as u32 })
        } else {
            None
        }),
{
    proof {
        reveal(cell_of_voxel);
        crate::dense::lemma_extent_levels(tree.height());
        if tree.height() < 14 {
            crate::dense::lemma_extent_strict(tree.height(), 14);
        }
    }
    let extent = tree.extent() as i32;
    if p.x < 0 || p.y < 0 || p.z < 0 || p.x >= extent || p.y >= extent || p.z >= extent {
        return None;
    }
    let at = UVec3::new(p.x as u32, p.y as u32, p.z as u32);
    let mut node = tree.root();
    let mut level = tree.depth() - 1;
    let mut origin = UVec3::new(0, 0, 0);
    while node.is_subdivided() && level > 0
        invariant
            tree.readable(),
            0 <= p.x < tree.side() && 0 <= p.y < tree.side() && 0 <= p.z < tree.side(),
            at == (UVec3 { x: p.x as u32, y: p.y as u32, z: p.z as u32 }),
            level <= 14,
            wf(tree.slots(), node, level as int),
            in_cube(
                at,
                origin.x as int,
                origin.y as int,
                origin.z as int,
                extent_of(level as int),
            ),
            origin.x + extent_of(level as int) <= 0x4000_0000,
            origin.y + extent_of(level as int) <= 0x4000_0000,
            origin.z + extent_of(level as int) <= 0x4000_0000,
            cell_of_voxel(*tree, at) == cell_below(
                *tree,
                node,
                level as int,
                origin.x as int,
                origin.y as int,
                origin.z as int,
                at,
            ),
        ensures
            level <= 14,
            wf(tree.slots(), node, level as int),
            in_cube(
                at,
                origin.x as int,
                origin.y as int,
                origin.z as int,
                extent_of(level as int),
            ),
            cell_of_voxel(*tree, at) == cell_below(
                *tree,
                node,
                level as int,
                origin.x as int,
                origin.y as int,
                origin.z as int,
                at,
            ),
            node.mask == 0 || level == 0,
        decreases level,
    {
        let step = level_extent(level - 1);
        let ghost (x, y, z) = (origin.x as int, origin.y as int, origin.z as int);
        let ghost lv = level as int;
        proof {
            lemma_extent(lv);
            lemma_place_in_child(at, x, y, z, lv);
            lemma_split(at.x - x, step as int);
            lemma_split(at.y - y, step as int);
            lemma_split(at.z - z, step as int);
            lemma_ordinal(
                (at.x - x) / step as int,
                (at.y - y) / step as int,
                (at.z - z) / step as int,
            );
        }
        let cx: u32 = (at.x - origin.x) / step;
        let cy: u32 = (at.y - origin.y) / step;
        let cz: u32 = (at.z - origin.z) / step;
        let i = child_index(cx, cy, cz);
        proof {
            assert(i == child_at(at, x, y, z, lv));
            lemma_child_cube(x, y, z, lv, i as int);
            lemma_cell_inside(cx as int, step as int);
            lemma_cell_inside(cy as int, step as int);
            lemma_cell_inside(cz as int, step as int);
            assert(in_cube(
                at,
                child_x(x, i as int, lv),
                child_y(y, i as int, lv),
                child_z(z, i as int, lv),
                extent_of(lv - 1),
            ));
            assert(wf(tree.slots(), kid(tree.slots(), node, i as int), lv - 1));
            if bit(node.mask, i as int) {
                lemma_slot_in_block(node, i as int);
            }
        }
        match node.child_slot(i) {
            Some(slot) => {
                node = tree.arena().node(slot);
                origin = UVec3::new(
                    origin.x + cx * step,
                    origin.y + cy * step,
                    origin.z + cz * step,
                );
                level = level - 1;
            },
            None => {
                return None;
            },
        }
    }
    if !node.is_subdivided() {
        if !node.material().is_empty() {
            return Some(Cell { origin, size: level_extent(level) });
        }
        return None;
    }
    proof {
        reveal_with_fuel(extent_of, 2);
        lemma_ordinal(at.x - origin.x, at.y - origin.y, at.z - origin.z);
    }
    let i = child_index(at.x - origin.x, at.y - origin.y, at.z - origin.z);
    proof {
        assert(extent_of(-1) == 1);
        assert(child_at(at, origin.x as int, origin.y as int, origin.z as int, 0) == i);
        if bit(node.mask, i as int) {
            lemma_slot_in_block(node, i as int);
        }
    }
    if node.child_slot(i).is_some() {
        Some(Cell { origin: at, size: 1 })
    } else {
        None
    }
}

/// A component of a position.
pub open spec fn along(p: UVec3, axis: int) -> int {
    if axis == 0 {
        p.x as int
    } else if axis == 1 {
        p.y as int
    } else {
        p.z as int
    }
}

/// The two other axes.
spec fn first_other(axis: int) -> int {
    if axis == 0 {
        1
    } else {
        0
    }
}

spec fn second_other(axis: int) -> int {
    if axis == 2 {
        1
    } else {
        2
    }
}

/// A component of a position, computed.
fn component(p: UVec3, axis: u32) -> (v: u32)
    ensures
        v == along(p, axis as int),
{
    if axis == 0 {
        p.x
    } else if axis == 1 {
        p.y
    } else {
        p.z
    }
}

/// The position on a face: `side` along the axis, `a` and `b` along the others.
spec fn face_place(axis: int, side: int, a: int, b: int) -> UVec3 {
    if axis == 0 {
        UVec3 { x: side as u32, y: a as u32, z: b as u32 }
    } else if axis == 1 {
        UVec3 { x: a as u32, y: side as u32, z: b as u32 }
    } else {
        UVec3 { x: a as u32, y: b as u32, z: side as u32 }
    }
}

/// The box at a position on a face, where it is solid and inside the tree.
spec fn on_face(tree: Contree, axis: int, side: int, a: int, b: int) -> Option<Cell> {
    if 0 <= side < tree.side() && 0 <= a < tree.side() && 0 <= b < tree.side() {
        cell_of_voxel(tree, face_place(axis, side, a, b))
    } else {
        None
    }
}

/// The position of a box on a face holds, whichever of its positions there is
/// asked.
proof fn lemma_on_face(tree: Contree, axis: int, side: int, a: int, b: int)
    requires
        tree.readable(),
        tree.tidied(),
        0 <= axis < 3,
        on_face(tree, axis, side, a, b) is Some,
    ensures
        ({
            let c = on_face(tree, axis, side, a, b)->0;
            let (u, v) = (first_other(axis), second_other(axis));
            &&& is_cell(tree, c)
            &&& c.has(face_place(axis, side, a, b))
            &&& c.size >= 1
            &&& tree.side() <= 0x4000_0000
            &&& c.origin.x + c.size <= tree.side()
            &&& c.origin.y + c.size <= tree.side()
            &&& c.origin.z + c.size <= tree.side()
            &&& along(c.origin, u) <= a < along(c.origin, u) + c.size
            &&& along(c.origin, v) <= b < along(c.origin, v) + c.size
            &&& forall|a2: int, b2: int|
                along(c.origin, u) <= a2 < along(c.origin, u) + c.size && along(c.origin, v) <= b2
                    < along(c.origin, v) + c.size ==> #[trigger] on_face(tree, axis, side, a2, b2)
                    == Some(c)
        }),
{
    let p = face_place(axis, side, a, b);
    lemma_cells(tree, p);
    let c = on_face(tree, axis, side, a, b)->0;
    lemma_voxel_cell(tree, p);
    lemma_is_cell(tree, c);
    let (u, v) = (first_other(axis), second_other(axis));
    assert forall|a2: int, b2: int|
        along(c.origin, u) <= a2 < along(c.origin, u) + c.size && along(c.origin, v) <= b2 < along(
            c.origin,
            v,
        ) + c.size implies #[trigger] on_face(tree, axis, side, a2, b2) == Some(c) by {
        let q = face_place(axis, side, a2, b2);
        assert(c.has(q));
    }
}

/// Whether a list holds every box met so far: in the columns before `a`, and in
/// column `a` below `b`.
spec fn scanned(
    tree: Contree,
    axis: int,
    side: int,
    out: Seq<Cell>,
    lo_u: int,
    a: int,
    lo_v: int,
    hi_v: int,
    b: int,
) -> bool {
    forall|a2: int, b2: int|
        (lo_u <= a2 < a && lo_v <= b2 < hi_v) || (a2 == a && lo_v <= b2 < b && b2 < hi_v) ==> (
        #[trigger] on_face(tree, axis, side, a2, b2) matches Some(c) ==> out.contains(c))
}

/// Whether column `a` is solid below `b`, each box in it reaching at least `step`
/// columns.
spec fn unbroken(
    tree: Contree,
    axis: int,
    side: int,
    a: int,
    lo_v: int,
    hi_v: int,
    b: int,
    step: int,
) -> bool {
    forall|b2: int|
        lo_v <= b2 < b && b2 < hi_v ==> {
            let found = #[trigger] on_face(tree, axis, side, a, b2);
            found is Some && a + step <= along(found->0.origin, first_other(axis)) + found->0.size
        }
}

/// A hit covers the column as far as its box reaches.
proof fn lemma_hit(
    tree: Contree,
    axis: int,
    side: int,
    out: Seq<Cell>,
    lo_u: int,
    a: int,
    lo_v: int,
    hi_v: int,
    b: int,
    found: Cell,
)
    requires
        tree.readable(),
        tree.tidied(),
        0 <= axis < 3,
        lo_v <= b < hi_v,
        scanned(tree, axis, side, out, lo_u, a, lo_v, hi_v, b),
        on_face(tree, axis, side, a, b) == Some(found),
    ensures
        scanned(
            tree,
            axis,
            side,
            out.push(found),
            lo_u,
            a,
            lo_v,
            hi_v,
            along(found.origin, second_other(axis)) + found.size,
        ),
        forall|step: int, less: int|
            #![trigger unbroken(tree, axis, side, a, lo_v, hi_v, b, step), unbroken(tree, axis, side, a, lo_v, hi_v, along(found.origin, second_other(axis)) + found.size, less)]
            unbroken(tree, axis, side, a, lo_v, hi_v, b, step) && less <= step && a + less <= along(
                found.origin,
                first_other(axis),
            ) + found.size ==> unbroken(
                tree,
                axis,
                side,
                a,
                lo_v,
                hi_v,
                along(found.origin, second_other(axis)) + found.size,
                less,
            ),
{
    lemma_on_face(tree, axis, side, a, b);
    let more = out.push(found);
    let end = along(found.origin, second_other(axis)) + found.size;
    assert(more[out.len() as int] == found);
    assert forall|a2: int, b2: int|
        (lo_u <= a2 < a && lo_v <= b2 < hi_v) || (a2 == a && lo_v <= b2 < end && b2
            < hi_v) implies (#[trigger] on_face(tree, axis, side, a2, b2) matches Some(c)
        ==> more.contains(c)) by {
        if a2 == a && b <= b2 {
            assert(on_face(tree, axis, side, a2, b2) == Some(found));
        } else if on_face(tree, axis, side, a2, b2) is Some {
            let c = on_face(tree, axis, side, a2, b2)->0;
            assert(out.contains(c));
            let k = choose|k: int| 0 <= k < out.len() && out[k] == c;
            assert(more[k] == c);
        }
    }
    assert forall|b2: int| b <= b2 < end implies #[trigger] on_face(tree, axis, side, a, b2)
        == Some(found) by {}
}

/// A finished column covers itself, and the columns its boxes all reach.
proof fn lemma_column(
    tree: Contree,
    axis: int,
    side: int,
    out: Seq<Cell>,
    lo_u: int,
    a: int,
    lo_v: int,
    hi_v: int,
    b: int,
    next: int,
)
    requires
        tree.readable(),
        tree.tidied(),
        0 <= axis < 3,
        lo_u <= a,
        hi_v <= b,
        scanned(tree, axis, side, out, lo_u, a, lo_v, hi_v, b),
        next == a + 1 || unbroken(tree, axis, side, a, lo_v, hi_v, b, next - a),
    ensures
        scanned(tree, axis, side, out, lo_u, next, lo_v, hi_v, lo_v),
{
    assert forall|a2: int, b2: int| lo_u <= a2 < next && lo_v <= b2 < hi_v implies (
    #[trigger] on_face(tree, axis, side, a2, b2) matches Some(c) ==> out.contains(c)) by {
        if a2 > a {
            let found = on_face(tree, axis, side, a, b2);
            assert(found is Some);
            lemma_on_face(tree, axis, side, a, b2);
            assert(on_face(tree, axis, side, a2, b2) == found);
        }
    }
}

/// Lists every box that touches one face of `cell`: the positions just outside it
/// at `side` along `axis`.
///
/// The face is scanned column by column, and each hit skips the width of the cell
/// it found, so the scan costs one lookup per neighbour rather than one per voxel
/// of the face. Against a wall of single voxels that is one lookup each, which is
/// what a voxel walk pays anyway.
fn scan_face(tree: &Contree, cell: Cell, axis: u32, side: i32, out: &mut Vec<Cell>)
    requires
        tree.readable(),
        tree.tidied(),
        is_cell(*tree, cell),
        axis < 3,
    ensures
        old(out)@.is_prefix_of(final(out)@),
        forall|k: int|
            old(out)@.len() <= k < final(out)@.len() ==> touched(
                *tree,
                cell,
                axis as int,
                side as int,
                #[trigger] final(out)@[k],
            ),
        forall|a: int, b: int|
            beside_face(cell, axis as int, a, b) ==> (#[trigger] on_face(
                *tree,
                axis as int,
                side as int,
                a,
                b,
            ) matches Some(c) ==> final(out)@.contains(c)),
{
    let ghost t = *tree;
    let ghost ax = axis as int;
    let ghost sd = side as int;
    let ghost start = out@;
    proof {
        lemma_is_cell(t, cell);
    }
    let u_axis: u32 = if axis == 0 { 1 } else { 0 };
    let v_axis: u32 = if axis == 2 { 1 } else { 2 };
    let lo_u = component(cell.origin, u_axis) as i32;
    let lo_v = component(cell.origin, v_axis) as i32;
    let hi_u = lo_u + cell.size as i32;
    let hi_v = lo_v + cell.size as i32;
    let mut a = lo_u;
    while a < hi_u
        invariant
            t == *tree,
            ax == axis,
            sd == side,
            tree.readable(),
            tree.tidied(),
            tree.side() <= 0x4000_0000,
            axis < 3,
            u_axis == first_other(ax),
            v_axis == second_other(ax),
            lo_u == along(cell.origin, u_axis as int),
            lo_v == along(cell.origin, v_axis as int),
            hi_u == lo_u + cell.size <= tree.side(),
            hi_v == lo_v + cell.size <= tree.side(),
            0 <= lo_u <= a,
            0 <= lo_v,
            start.is_prefix_of(out@),
            forall|k: int|
                start.len() <= k < out@.len() ==> touched(t, cell, ax, sd, #[trigger] out@[k]),
            scanned(t, ax, sd, out@, lo_u as int, a as int, lo_v as int, hi_v as int, lo_v as int),
        decreases
                if a < hi_u {
                    hi_u - a
                } else {
                    0
                },
    {
        let mut step_u: i32 = cell.size as i32;
        // Whether this column had a hole. Skipping ahead is only safe when it
        // did not: past a hole, the next column may hold a neighbour this one
        // never saw.
        let mut gap = false;
        let mut b = lo_v;
        while b < hi_v
            invariant
                t == *tree,
                ax == axis,
                sd == side,
                tree.readable(),
                tree.tidied(),
                tree.side() <= 0x4000_0000,
                axis < 3,
                u_axis == first_other(ax),
                v_axis == second_other(ax),
                lo_u == along(cell.origin, u_axis as int),
                lo_v == along(cell.origin, v_axis as int),
                hi_u == lo_u + cell.size <= tree.side(),
                hi_v == lo_v + cell.size <= tree.side(),
                0 <= lo_u <= a < hi_u,
                0 <= lo_v <= b,
                b <= tree.side(),
                1 <= step_u <= cell.size,
                start.is_prefix_of(out@),
                forall|k: int|
                    start.len() <= k < out@.len() ==> touched(t, cell, ax, sd, #[trigger] out@[k]),
                scanned(t, ax, sd, out@, lo_u as int, a as int, lo_v as int, hi_v as int, b as int),
                !gap ==> unbroken(
                    t,
                    ax,
                    sd,
                    a as int,
                    lo_v as int,
                    hi_v as int,
                    b as int,
                    step_u as int,
                ),
            decreases
                    if b < hi_v {
                        hi_v - b
                    } else {
                        0
                    },
        {
            let at = if axis == 0 {
                IVec3::new(side, a, b)
            } else if axis == 1 {
                IVec3::new(a, side, b)
            } else {
                IVec3::new(a, b, side)
            };
            let ghost before = out@;
            match cell_at(tree, at) {
                Some(found) => {
                    proof {
                        assert(on_face(t, ax, sd, a as int, b as int) == Some(found));
                        lemma_on_face(t, ax, sd, a as int, b as int);
                    }
                    out.push(found);
                    // Skip what this neighbour covers on both axes: on `v` now,
                    // and on `u` no further than it reaches.
                    let end_u: i32 = component(found.origin, u_axis) as i32 + found.size as i32;
                    let end_v: i32 = component(found.origin, v_axis) as i32 + found.size as i32;
                    if end_u - a < step_u {
                        step_u = end_u - a;
                    }
                    proof {
                        assert(touched(t, cell, ax, sd, found)) by {
                            assert(beside_face(cell, ax, a as int, b as int));
                        }
                        lemma_hit(
                            t,
                            ax,
                            sd,
                            before,
                            lo_u as int,
                            a as int,
                            lo_v as int,
                            hi_v as int,
                            b as int,
                            found,
                        );
                    }
                    b = end_v;
                },
                None => {
                    gap = true;
                    proof {
                        assert(on_face(t, ax, sd, a as int, b as int) is None);
                    }
                    b = b + 1;
                },
            }
        }
        let next = if gap { a + 1 } else { a + step_u };
        proof {
            lemma_column(
                t,
                ax,
                sd,
                out@,
                lo_u as int,
                a as int,
                lo_v as int,
                hi_v as int,
                b as int,
                next as int,
            );
        }
        a = next;
    }
}

/// Whether a position lies just outside a face of a box.
spec fn beside_face(cell: Cell, axis: int, a: int, b: int) -> bool {
    &&& along(cell.origin, first_other(axis)) <= a < along(cell.origin, first_other(axis))
        + cell.size
    &&& along(cell.origin, second_other(axis)) <= b < along(cell.origin, second_other(axis))
        + cell.size
}

/// Whether a box holds a position just outside a face of another.
spec fn touched(tree: Contree, cell: Cell, axis: int, side: int, other: Cell) -> bool {
    exists|a: int, b: int|
        beside_face(cell, axis, a, b) && #[trigger] on_face(tree, axis, side, a, b) == Some(other)
}

/// Whether two boxes of a tree share a face.
pub open spec fn touching(cell: Cell, other: Cell) -> bool {
    exists|p: UVec3, q: UVec3| #![trigger cell.has(p), other.has(q)]
        cell.has(p) && other.has(q) && adjacent(p, q)
}

/// Every cell touching `cell` across its six faces.
pub fn neighbours(tree: &Contree, cell: Cell) -> (out: Vec<Cell>)
    requires
        tree.readable(),
        tree.tidied(),
        is_cell(*tree, cell),
    ensures
        forall|k: int|
            0 <= k < out@.len() ==> is_cell(*tree, #[trigger] out@[k]) && touching(cell, out@[k]),
        forall|p: UVec3, q: UVec3|
            cell.has(p) && #[trigger] adjacent(p, q) && !cell.has(q) && solid_in_tree(*tree)(q)
                ==> out@.contains(cell_of_voxel(*tree, q)->0),
{
    let ghost t = *tree;
    proof {
        lemma_is_cell(t, cell);
    }
    let mut out: Vec<Cell> = Vec::new();
    let lo = cell.origin;
    let size = cell.size as i32;
    let low_x = lo.x as i32 - 1;
    let low_y = lo.y as i32 - 1;
    let low_z = lo.z as i32 - 1;
    let high_x = lo.x as i32 + size;
    let high_y = lo.y as i32 + size;
    let high_z = lo.z as i32 + size;
    scan_face(tree, cell, 0, low_x, &mut out);
    let ghost o1 = out@;
    scan_face(tree, cell, 0, high_x, &mut out);
    let ghost o2 = out@;
    scan_face(tree, cell, 1, low_y, &mut out);
    let ghost o3 = out@;
    scan_face(tree, cell, 1, high_y, &mut out);
    let ghost o4 = out@;
    scan_face(tree, cell, 2, low_z, &mut out);
    let ghost o5 = out@;
    scan_face(tree, cell, 2, high_z, &mut out);
    proof {
        assert forall|k: int| 0 <= k < out@.len() implies is_cell(t, #[trigger] out@[k])
            && touching(cell, out@[k]) by {
            if k < o1.len() {
                assert(out@[k] == o1[k]);
                lemma_touched(t, cell, 0, low_x as int, o1[k]);
            } else if k < o2.len() {
                assert(out@[k] == o2[k]);
                lemma_touched(t, cell, 0, high_x as int, o2[k]);
            } else if k < o3.len() {
                assert(out@[k] == o3[k]);
                lemma_touched(t, cell, 1, low_y as int, o3[k]);
            } else if k < o4.len() {
                assert(out@[k] == o4[k]);
                lemma_touched(t, cell, 1, high_y as int, o4[k]);
            } else if k < o5.len() {
                assert(out@[k] == o5[k]);
                lemma_touched(t, cell, 2, low_z as int, o5[k]);
            } else {
                lemma_touched(t, cell, 2, high_z as int, out@[k]);
            }
        }
        assert forall|p: UVec3, q: UVec3|
            cell.has(p) && #[trigger] adjacent(p, q) && !cell.has(q) && solid_in_tree(t)(
                q,
            ) implies out@.contains(cell_of_voxel(t, q)->0) by {
            lemma_voxel_cell(t, q);
            let c = cell_of_voxel(t, q)->0;
            let (x, y, z) = (q.x as int, q.y as int, q.z as int);
            if q.x != p.x {
                assert(face_place(0, x, y, z) == q);
                assert(on_face(t, 0, x, y, z) == Some(c));
                assert(beside_face(cell, 0, y, z));
                if x == low_x {
                    lemma_contains_prefix(o1, out@, c);
                } else {
                    assert(x == high_x);
                    lemma_contains_prefix(o2, out@, c);
                }
            } else if q.y != p.y {
                assert(face_place(1, y, x, z) == q);
                assert(on_face(t, 1, y, x, z) == Some(c));
                assert(beside_face(cell, 1, x, z));
                if y == low_y {
                    lemma_contains_prefix(o3, out@, c);
                } else {
                    assert(y == high_y);
                    lemma_contains_prefix(o4, out@, c);
                }
            } else {
                assert(face_place(2, z, x, y) == q);
                assert(on_face(t, 2, z, x, y) == Some(c));
                assert(beside_face(cell, 2, x, y));
                if z == low_z {
                    lemma_contains_prefix(o5, out@, c);
                } else {
                    assert(z == high_z);
                }
            }
        }
    }
    out
}

proof fn lemma_contains_prefix(few: Seq<Cell>, many: Seq<Cell>, c: Cell)
    requires
        few.is_prefix_of(many),
        few.contains(c),
    ensures
        many.contains(c),
{
    let k = choose|k: int| 0 <= k < few.len() && few[k] == c;
    assert(many[k] == c);
}

/// A box found on a face shares it.
proof fn lemma_touched(tree: Contree, cell: Cell, axis: int, side: int, other: Cell)
    requires
        tree.readable(),
        tree.tidied(),
        is_cell(tree, cell),
        0 <= axis < 3,
        side == along(cell.origin, axis) - 1 || side == along(cell.origin, axis) + cell.size,
        touched(tree, cell, axis, side, other),
    ensures
        is_cell(tree, other),
        touching(cell, other),
{
    let (a, b) = choose|a: int, b: int|
        beside_face(cell, axis, a, b) && #[trigger] on_face(tree, axis, side, a, b) == Some(other);
    lemma_on_face(tree, axis, side, a, b);
    lemma_is_cell(tree, cell);
    let q = face_place(axis, side, a, b);
    let p = face_place(
        axis,
        if side < along(cell.origin, axis) {
            side + 1
        } else {
            side - 1
        },
        a,
        b,
    );
    assert(cell.has(p));
    assert(other.has(q));
    assert(adjacent(p, q));
}

/// A stored cube of one material is stored whole.
proof fn lemma_one_material(
    f: spec_fn(int, int, int) -> u8,
    m: u8,
    s: Slots,
    node: Node,
    level: int,
    x: int,
    y: int,
    z: int,
)
    requires
        level >= 0,
        canon(s, node, level),
        stands_for(f, s, node, level, x, y, z),
        constant(f, m, x, y, z, extent_of(level)),
    ensures
        node.mask == 0,
    decreases level,
{
    if node.mask != 0 {
        crate::bits::lemma_zero_mask(node.mask);
        lemma_extent(level);
        lemma_extent(level - 1);
        if level == 0 {
            reveal_with_fuel(extent_of, 2);
            let bytes = bytes_of(s, node);
            assert forall|i: int| 0 <= i < 64 implies #[trigger] bytes[i] == m by {
                lemma_cell(i);
                let (a, b, c) = (i % 4, (i / 4) % 4, i / 16);
                assert(ordinal(a, b, c) == i);
                assert(voxel_at(s, node, 0, a, b, c) == f(x + a, y + b, z + c));
            }
            let i = choose|i: int| 0 <= i < 64 && bit(node.mask, i);
            assert(byte_of(s, node, i) != 0);
            assert(bytes[i] == m);
            assert(all_same_voxel(bytes));
        } else {
            let kids = kids_of(s, node);
            assert forall|i: int| 0 <= i < 64 implies #[trigger] kids[i] == Node::solid(m) by {
                let child = kid(s, node, i);
                let (cx, cy, cz) = (child_x(x, i, level), child_y(y, i, level), child_z(z, i, level));
                lemma_child_stands(f, s, node, level, x, y, z, i);
                lemma_child_cube(x, y, z, level, i);
                assert(canon(s, child, level - 1));
                assert(constant(f, m, cx, cy, cz, extent_of(level - 1)));
                lemma_one_material(f, m, s, child, level - 1, cx, cy, cz);
                lemma_uniform(s, child, level - 1, 0, 0, 0);
                assert(voxel_at(s, child, level - 1, 0, 0, 0) == f(cx + 0, cy + 0, cz + 0));
            }
            let i = choose|i: int| 0 <= i < 64 && bit(node.mask, i);
            assert(!kid(s, node, i).vacant());
            assert(kids[i] == Node::solid(m));
            assert(all_same_solid(kids));
        }
    }
}

/// Positions of one aligned cube fall to the same multiple of its length.
proof fn lemma_same_block(v: int, e: int, a: int, b: int)
    requires
        e >= 1,
        v >= 0,
        aligned(v, e),
        v <= a < v + e,
        v <= b < v + e,
    ensures
        a / e == b / e,
{
    vstd::arithmetic::div_mod::lemma_fundamental_div_mod(v, e);
    let q = v / e;
    assert(v == q * e) by (nonlinear_arith)
        requires
            v == e * q,
    ;
    vstd::arithmetic::div_mod::lemma_fundamental_div_mod_converse(a, e, q, a - v);
    vstd::arithmetic::div_mod::lemma_fundamental_div_mod_converse(b, e, q, b - v);
}

/// Whether two positions lie in the same cube of a length, of those that fill space.
pub open spec fn same_block(p: UVec3, q: UVec3, e: int) -> bool {
    &&& p.x as int / e == q.x as int / e
    &&& p.y as int / e == q.y as int / e
    &&& p.z as int / e == q.z as int / e
}

/// Whether a position of a cube has another material than `p`, in the same cube of a
/// length as it.
spec fn mixed_around(
    f: spec_fn(int, int, int) -> u8,
    x: int,
    y: int,
    z: int,
    extent: int,
    p: UVec3,
    e: int,
) -> bool {
    exists|q: UVec3| #[trigger]
        in_cube(q, x, y, z, extent) && same_block(p, q, e) && f(q.x as int, q.y as int, q.z as int)
            != f(p.x as int, p.y as int, p.z as int)
}

/// A cube with children is mixed.
proof fn lemma_mixed_here(
    f: spec_fn(int, int, int) -> u8,
    s: Slots,
    node: Node,
    level: int,
    x: int,
    y: int,
    z: int,
    p: UVec3,
)
    requires
        level >= 0,
        node.mask != 0,
        canon(s, node, level),
        stands_for(f, s, node, level, x, y, z),
        0 <= x && x + extent_of(level) <= 0x4000_0000,
        0 <= y && y + extent_of(level) <= 0x4000_0000,
        0 <= z && z + extent_of(level) <= 0x4000_0000,
        aligned(x, extent_of(level)),
        aligned(y, extent_of(level)),
        aligned(z, extent_of(level)),
        in_cube(p, x, y, z, extent_of(level)),
    ensures
        mixed_around(f, x, y, z, extent_of(level), p, extent_of(level)),
{
    let e = extent_of(level);
    let m = f(p.x as int, p.y as int, p.z as int);
    lemma_extent(level);
    if constant(f, m, x, y, z, e) {
        lemma_one_material(f, m, s, node, level, x, y, z);
    }
    let (a, b, c) = choose|a: int, b: int, c: int|
        x <= a < x + e && y <= b < y + e && z <= c < z + e && #[trigger] f(a, b, c) != m;
    let q = UVec3 { x: a as u32, y: b as u32, z: c as u32 };
    lemma_same_block(x, e, p.x as int, a);
    lemma_same_block(y, e, p.y as int, b);
    lemma_same_block(z, e, p.z as int, c);
    assert(in_cube(q, x, y, z, e));
}

/// A box is of one material, stands at a multiple of its length, and is as large as that
/// lets it be.
proof fn lemma_cell_whole(
    f: spec_fn(int, int, int) -> u8,
    tree: Contree,
    node: Node,
    level: int,
    x: int,
    y: int,
    z: int,
    p: UVec3,
)
    requires
        0 <= level <= 14,
        canon(tree.slots(), node, level),
        stands_for(f, tree.slots(), node, level, x, y, z),
        0 <= x && x + extent_of(level) <= 0x4000_0000,
        0 <= y && y + extent_of(level) <= 0x4000_0000,
        0 <= z && z + extent_of(level) <= 0x4000_0000,
        aligned(x, extent_of(level)),
        aligned(y, extent_of(level)),
        aligned(z, extent_of(level)),
        in_cube(p, x, y, z, extent_of(level)),
        cell_below(tree, node, level, x, y, z, p) is Some,
    ensures
        ({
            let cell = cell_below(tree, node, level, x, y, z, p)->0;
            &&& 1 <= cell.size <= extent_of(level)
            &&& cell.size < extent_of(level) ==> 4 * cell.size <= extent_of(level)
            &&& aligned(cell.origin.x as int, cell.size as int)
            &&& aligned(cell.origin.y as int, cell.size as int)
            &&& aligned(cell.origin.z as int, cell.size as int)
            &&& forall|q: UVec3| #[trigger]
                cell.has(q) ==> f(q.x as int, q.y as int, q.z as int) == f(
                    p.x as int,
                    p.y as int,
                    p.z as int,
                )
            &&& cell.size < extent_of(level) ==> mixed_around(
                f,
                x,
                y,
                z,
                extent_of(level),
                p,
                4 * cell.size as int,
            )
        }),
    decreases level,
{
    let s = tree.slots();
    let cell = cell_below(tree, node, level, x, y, z, p)->0;
    lemma_extent(level);
    lemma_extent(level - 1);
    if node.mask == 0 {
        crate::dense::lemma_extent_levels(level);
        assert forall|q: UVec3| #[trigger] cell.has(q) implies f(
            q.x as int,
            q.y as int,
            q.z as int,
        ) == f(p.x as int, p.y as int, p.z as int) by {
            lemma_uniform(s, node, level, p.x - x, p.y - y, p.z - z);
            lemma_uniform(s, node, level, q.x - x, q.y - y, q.z - z);
            assert(voxel_at(s, node, level, p.x - x, p.y - y, p.z - z) == f(
                x + (p.x - x),
                y + (p.y - y),
                z + (p.z - z),
            ));
            assert(voxel_at(s, node, level, q.x - x, q.y - y, q.z - z) == f(
                x + (q.x - x),
                y + (q.y - y),
                z + (q.z - z),
            ));
        }
    } else {
        lemma_place_in_child(p, x, y, z, level);
        lemma_mixed_here(f, s, node, level, x, y, z, p);
        let i = child_at(p, x, y, z, level);
        if level == 0 {
            reveal_with_fuel(extent_of, 2);
            assert forall|q: UVec3| #[trigger] cell.has(q) implies q == p by {}
        } else {
            let step = extent_of(level - 1);
            let (cx, cy, cz) = (child_x(x, i, level), child_y(y, i, level), child_z(z, i, level));
            assert(in_cube(p, cx, cy, cz, step));
            lemma_child_stands(f, s, node, level, x, y, z, i);
            lemma_child_cube(x, y, z, level, i);
            lemma_child_aligned(x, i % 4, step);
            lemma_child_aligned(y, (i / 4) % 4, step);
            lemma_child_aligned(z, i / 16, step);
            let child = kid(s, node, i);
            assert(canon(s, child, level - 1));
            lemma_cell_whole(f, tree, child, level - 1, cx, cy, cz, p);
            if cell.size < step {
                let e = 4 * cell.size as int;
                assert(mixed_around(f, cx, cy, cz, step, p, e));
                let q = choose|q: UVec3| #[trigger]
                    in_cube(q, cx, cy, cz, step) && same_block(p, q, e) && f(
                        q.x as int,
                        q.y as int,
                        q.z as int,
                    ) != f(p.x as int, p.y as int, p.z as int);
                assert(in_cube(q, x, y, z, extent_of(level)));
            }
        }
    }
}

/// The box a voxel lies in: there is one where the voxel is solid; it holds the voxel,
/// stays inside the tree and stands at a multiple of its length; all its voxels have the
/// voxel's own material, and the same box.
pub proof fn law_a_cell_is_a_box_of_one_material(tree: Contree, p: UVec3)
    requires
        tree.readable(),
        tree.canonical(),
        p.x < tree.side() && p.y < tree.side() && p.z < tree.side(),
    ensures
        cell_of_voxel(tree, p) is Some <==> tree.at(p).0 != 0,
        cell_of_voxel(tree, p) matches Some(cell) ==> {
            let (o, n) = (cell.origin, cell.size);
            &&& o.x <= p.x < o.x + n && o.y <= p.y < o.y + n && o.z <= p.z < o.z + n
            &&& o.x + n <= tree.side() && o.y + n <= tree.side() && o.z + n <= tree.side()
            &&& o.x % n == 0 && o.y % n == 0 && o.z % n == 0
            &&& forall|q: UVec3|
                o.x <= q.x < o.x + n && o.y <= q.y < o.y + n && o.z <= q.z < o.z + n
                    ==> #[trigger] tree.at(q) == tree.at(p) && cell_of_voxel(tree, q) == Some(cell)
        },
{
    let level = tree.height();
    crate::contree::lemma_canon_tidy(tree.slots(), tree.top(), level);
    lemma_cells(tree, p);
    if cell_of_voxel(tree, p) is Some {
        let cell = cell_of_voxel(tree, p)->0;
        lemma_top_aligned(level);
        reveal(cell_of_voxel);
        lemma_cell_whole(tree.field(), tree, tree.top(), level, 0, 0, 0, p);
        let (o, n) = (cell.origin, cell.size);
        assert forall|q: UVec3|
            o.x <= q.x < o.x + n && o.y <= q.y < o.y + n && o.z <= q.z < o.z
                + n implies #[trigger] tree.at(q) == tree.at(p) && cell_of_voxel(tree, q) == Some(
            cell,
        ) by {
            assert(cell.has(q));
        }
    }
}

/// The box is as large as it can be: the four times longer one around the voxel holds
/// a voxel of another material, or none.
pub proof fn law_a_cell_is_as_large_as_it_can_be(tree: Contree, p: UVec3)
    requires
        tree.readable(),
        tree.canonical(),
        p.x < tree.side() && p.y < tree.side() && p.z < tree.side(),
        tree.at(p).0 != 0,
    ensures
        cell_of_voxel(tree, p) matches Some(cell) && (cell.size < tree.side() ==> exists|q: UVec3| {
            &&& q.x < tree.side() && q.y < tree.side() && q.z < tree.side()
            &&& p.x as int / (4 * cell.size) == q.x as int / (4 * cell.size)
            &&& p.y as int / (4 * cell.size) == q.y as int / (4 * cell.size)
            &&& p.z as int / (4 * cell.size) == q.z as int / (4 * cell.size)
            &&& #[trigger] tree.at(q) != tree.at(p)
        }),
{
    let level = tree.height();
    crate::contree::lemma_canon_tidy(tree.slots(), tree.top(), level);
    lemma_cells(tree, p);
    lemma_top_aligned(level);
    reveal(cell_of_voxel);
    lemma_cell_whole(tree.field(), tree, tree.top(), level, 0, 0, 0, p);
    let cell = cell_of_voxel(tree, p)->0;
    if cell.size < tree.side() {
        let e = 4 * cell.size as int;
        let f = tree.field();
        let q = choose|q: UVec3| #[trigger]
            in_cube(q, 0, 0, 0, tree.side()) && same_block(p, q, e) && f(
                q.x as int,
                q.y as int,
                q.z as int,
            ) != f(p.x as int, p.y as int, p.z as int);
        assert(tree.at(q) != tree.at(p));
    }
}

/// A whole tree stands at a multiple of its length.
proof fn lemma_top_aligned(level: int)
    requires
        0 <= level <= 14,
    ensures
        aligned(0, extent_of(level)),
        1 <= extent_of(level) <= 0x4000_0000,
{
    lemma_extent(level);
    crate::dense::lemma_extent_levels(level);
    if level < 14 {
        crate::dense::lemma_extent_strict(level, 14);
    }
    vstd::arithmetic::div_mod::lemma_small_mod(0, extent_of(level) as nat);
}

} // verus!
