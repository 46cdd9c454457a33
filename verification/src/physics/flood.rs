//! Walking one connected piece of solid voxels, box by box.
//!
//! A depth-first search over face neighbours. It walks the tree's uniform nodes,
//! so a step crosses a whole region of solid terrain rather than one voxel, and it
//! gives up at the floor and past a budget.

use crate::address::{lemma_no_more_than, UVec3};
use crate::contree::Contree;
use crate::distance_field::{cell_stored, lemma_stored, lemma_stored_at};
use crate::edit::{code, code_of, lemma_code_injective};
use crate::grid::{cell_count, cell_index};
use crate::physics::cells::{
    cell_of_voxel, is_cell, lemma_cell_joined, lemma_is_cell, lemma_voxel_cell, neighbours,
    touching, Cell,
};
use crate::physics::connect::{
    adjacent, closed_under, is_piece, joined, lemma_closed_joined, lemma_joined_back,
    lemma_joined_self, lemma_joined_step, lemma_joined_through, solid_in_tree, sort_voxels,
};
use std::collections::HashMap;
use vstd::prelude::*;

verus! {

/// The voxels of a box, in storage order.
pub open spec fn voxels_of(cell: Cell) -> Seq<UVec3> {
    Seq::new(
        cell_count(cell.size as int) as nat,
        |i: int|
            {
                let d = cell_stored(cell.size as int, i);
                UVec3 {
                    x: (cell.origin.x + d.x) as u32,
                    y: (cell.origin.y + d.y) as u32,
                    z: (cell.origin.z + d.z) as u32,
                }
            },
    )
}

/// A box whose coordinates all fit.
pub open spec fn in_range(cell: Cell) -> bool {
    &&& cell.size >= 1
    &&& cell.origin.x + cell.size <= 0x4000_0000
    &&& cell.origin.y + cell.size <= 0x4000_0000
    &&& cell.origin.z + cell.size <= 0x4000_0000
}

proof fn lemma_voxels_of(cell: Cell)
    requires
        in_range(cell),
    ensures
        voxels_of(cell).len() == cell.count(),
        voxels_of(cell).no_duplicates(),
        forall|p: UVec3| #[trigger] voxels_of(cell).contains(p) <==> cell.has(p),
{
    let n = cell.size as int;
    let list = voxels_of(cell);
    assert(0 <= cell_count(n)) by (nonlinear_arith)
        requires
            cell_count(n) == n * n * n,
            n >= 1,
    ;
    assert forall|i: int, j: int| 0 <= i < list.len() && 0 <= j < list.len() && i != j implies list[i]
        != list[j] by {
        lemma_stored(n, i);
        lemma_stored(n, j);
    }
    assert forall|p: UVec3| #[trigger] list.contains(p) <==> cell.has(p) by {
        if list.contains(p) {
            let i = choose|i: int| 0 <= i < list.len() && list[i] == p;
            lemma_stored(n, i);
        }
        if cell.has(p) {
            let d = UVec3 {
                x: (p.x - cell.origin.x) as u32,
                y: (p.y - cell.origin.y) as u32,
                z: (p.z - cell.origin.z) as u32,
            };
            lemma_stored_at(n, d);
            let i = cell_index(n, d.x as int, d.y as int, d.z as int);
            assert(list[i] == p);
        }
    }
}

/// The voxels of boxes, one box after another.
pub open spec fn voxels_of_all(cells: Seq<Cell>) -> Seq<UVec3>
    decreases cells.len(),
{
    if cells.len() == 0 {
        Seq::empty()
    } else {
        voxels_of_all(cells.drop_last()) + voxels_of(cells.last())
    }
}

/// How many voxels boxes have.
pub open spec fn total_of(cells: Seq<Cell>) -> int
    decreases cells.len(),
{
    if cells.len() == 0 {
        0
    } else {
        total_of(cells.drop_last()) + cells.last().count()
    }
}

/// Boxes that share no voxel.
pub open spec fn disjoint(cells: Seq<Cell>) -> bool {
    forall|i: int, j: int, p: UVec3|
        #![trigger cells[i].has(p), cells[j].has(p)]
        0 <= i < j < cells.len() ==> !(cells[i].has(p) && cells[j].has(p))
}

/// Whether one of the boxes holds a voxel.
pub open spec fn held_by_some(cells: Seq<Cell>, p: UVec3) -> bool {
    exists|i: int| 0 <= i < cells.len() && (#[trigger] cells[i]).has(p)
}

proof fn lemma_voxels_of_all(cells: Seq<Cell>)
    requires
        disjoint(cells),
        forall|i: int| 0 <= i < cells.len() ==> in_range(#[trigger] cells[i]),
    ensures
        voxels_of_all(cells).len() == total_of(cells),
        voxels_of_all(cells).no_duplicates(),
        forall|p: UVec3| #[trigger] voxels_of_all(cells).contains(p) <==> held_by_some(cells, p),
    decreases cells.len(),
{
    if cells.len() > 0 {
        let rest = cells.drop_last();
        let last = cells.last();
        assert forall|i: int, j: int, p: UVec3|
            #![trigger rest[i].has(p), rest[j].has(p)]
            0 <= i < j < rest.len() implies !(rest[i].has(p) && rest[j].has(p)) by {
            assert(!(cells[i].has(p) && cells[j].has(p)));
        }
        lemma_voxels_of_all(rest);
        lemma_voxels_of(last);
        let a = voxels_of_all(rest);
        let b = voxels_of(last);
        let c = a + b;
        assert forall|p: UVec3| #[trigger] c.contains(p) <==> held_by_some(cells, p) by {
            if c.contains(p) {
                let i = choose|i: int| 0 <= i < c.len() && c[i] == p;
                if i < a.len() {
                    assert(a[i] == p);
                    assert(a.contains(p));
                    let k = choose|k: int| 0 <= k < rest.len() && (#[trigger] rest[k]).has(p);
                    assert(cells[k].has(p));
                } else {
                    assert(b[i - a.len()] == p);
                    assert(b.contains(p));
                    assert(cells[cells.len() - 1].has(p));
                }
            }
            if held_by_some(cells, p) {
                let k = choose|k: int| 0 <= k < cells.len() && (#[trigger] cells[k]).has(p);
                if k < rest.len() {
                    assert(rest[k].has(p));
                    assert(a.contains(p));
                    let i = choose|i: int| 0 <= i < a.len() && a[i] == p;
                    assert(c[i] == p);
                } else {
                    assert(b.contains(p));
                    let i = choose|i: int| 0 <= i < b.len() && b[i] == p;
                    assert(c[a.len() + i] == p);
                }
            }
        }
        assert forall|i: int, j: int| 0 <= i < c.len() && 0 <= j < c.len() && i != j implies c[i]
            != c[j] by {
            if i < a.len() && j >= a.len() {
                lemma_apart_lists(cells, i, j);
            } else if j < a.len() && i >= a.len() {
                lemma_apart_lists(cells, j, i);
            }
        }
    }
}

/// A voxel of the last box is not one of the others'.
proof fn lemma_apart_lists(cells: Seq<Cell>, i: int, j: int)
    requires
        cells.len() > 0,
        disjoint(cells),
        in_range(cells.last()),
        forall|p: UVec3| #[trigger]
            voxels_of_all(cells.drop_last()).contains(p) <==> held_by_some(cells.drop_last(), p),
        0 <= i < voxels_of_all(cells.drop_last()).len(),
        voxels_of_all(cells.drop_last()).len() <= j < voxels_of_all(cells).len(),
    ensures
        voxels_of_all(cells)[i] != voxels_of_all(cells)[j],
{
    let rest = cells.drop_last();
    let last = cells.last();
    let a = voxels_of_all(rest);
    let b = voxels_of(last);
    let c = a + b;
    if c[i] == c[j] {
        let p = c[i];
        lemma_voxels_of(last);
        assert(a[i] == p);
        assert(a.contains(p));
        let k = choose|k: int| 0 <= k < rest.len() && (#[trigger] rest[k]).has(p);
        assert(cells[k].has(p));
        assert(b[j - a.len()] == p);
        assert(b.contains(p));
        assert(cells[cells.len() - 1].has(p));
    }
}

/// Whether a piece may leave the world: it does not touch the floor, where there
/// is one, and it has no more voxels than the budget.
pub open spec fn loose(tree: Contree, a: UVec3, floor: bool, budget: int) -> bool {
    &&& floor ==> forall|q: UVec3| #[trigger] joined(solid_in_tree(tree), a, q) ==> q.y != 0
    &&& forall|some: Seq<UVec3>| #[trigger]
        distinct_in_piece(tree, a, some) ==> some.len() <= budget
}

/// Distinct voxels of a piece.
pub open spec fn distinct_in_piece(tree: Contree, a: UVec3, some: Seq<UVec3>) -> bool {
    &&& some.no_duplicates()
    &&& forall|i: int|
        0 <= i < some.len() ==> joined(solid_in_tree(tree), a, #[trigger] some[i])
}

/// Whether a piece is loose does not depend on the voxel it is named by.
pub proof fn lemma_loose_same(tree: Contree, a: UVec3, b: UVec3, floor: bool, budget: int)
    requires
        joined(solid_in_tree(tree), a, b),
    ensures
        loose(tree, a, floor, budget) == loose(tree, b, floor, budget),
{
    lemma_joined_back(solid_in_tree(tree), a, b);
    lemma_loose_carried(tree, a, b, floor, budget);
    lemma_loose_carried(tree, b, a, floor, budget);
}

proof fn lemma_loose_carried(tree: Contree, a: UVec3, b: UVec3, floor: bool, budget: int)
    requires
        joined(solid_in_tree(tree), a, b),
        joined(solid_in_tree(tree), b, a),
    ensures
        loose(tree, a, floor, budget) ==> loose(tree, b, floor, budget),
{
    let solid = solid_in_tree(tree);
    if loose(tree, a, floor, budget) {
        if floor {
            assert forall|q: UVec3| #[trigger] joined(solid, b, q) implies q.y != 0 by {
                lemma_joined_through(solid, a, b, q);
            }
        }
        assert forall|some: Seq<UVec3>| #[trigger] distinct_in_piece(tree, b, some) implies some.len()
            <= budget by {
            assert forall|i: int| 0 <= i < some.len() implies joined(
                solid,
                a,
                #[trigger] some[i],
            ) by {
                lemma_joined_through(solid, a, b, some[i]);
            }
            assert(distinct_in_piece(tree, a, some));
        }
    }
}

/// The key a box is claimed under.
pub open spec fn key_of(cell: Cell) -> u128 {
    code(cell.origin.x as int, cell.origin.y as int, cell.origin.z as int) as u128
}

/// Boxes with the same key are the same box.
proof fn lemma_key(tree: Contree, a: Cell, b: Cell)
    requires
        is_cell(tree, a),
        is_cell(tree, b),
        key_of(a) == key_of(b),
    ensures
        a == b,
{
    lemma_code_injective(
        a.origin.x as int,
        a.origin.y as int,
        a.origin.z as int,
        b.origin.x as int,
        b.origin.y as int,
        b.origin.z as int,
    );
}

/// Whether the piece a claimed box belongs to is done with: it may not leave the
/// world, or every box of it is claimed.
pub open spec fn done_with(
    tree: Contree,
    seen: Map<u128, u128>,
    cell: Cell,
    floor: bool,
    budget: int,
) -> bool {
    ||| !loose(tree, cell.origin, floor, budget)
    ||| forall|other: Cell| #[trigger]
        is_cell(tree, other) && joined(solid_in_tree(tree), cell.origin, other.origin)
            ==> seen.contains_key(key_of(other))
}

/// Every claimed box's piece is done with.
pub open spec fn all_done(
    tree: Contree,
    seen: Map<u128, u128>,
    floor: bool,
    budget: int,
) -> bool {
    forall|cell: Cell| #[trigger]
        is_cell(tree, cell) && seen.contains_key(key_of(cell)) ==> done_with(
            tree,
            seen,
            cell,
            floor,
            budget,
        )
}

/// What one walk claims: boxes of the piece it walks, and nothing else.
pub open spec fn claims(
    tree: Contree,
    before: Map<u128, u128>,
    after: Map<u128, u128>,
    start: Cell,
    id: u128,
) -> bool {
    &&& forall|k: u128| #[trigger]
        before.contains_key(k) ==> after.contains_key(k) && after[k] == before[k]
    &&& forall|k: u128| #[trigger]
        after.contains_key(k) && !before.contains_key(k) ==> after[k] == id
    &&& forall|cell: Cell| #[trigger]
        is_cell(tree, cell) && after.contains_key(key_of(cell)) && !before.contains_key(
            key_of(cell),
        ) ==> joined(solid_in_tree(tree), start.origin, cell.origin)
}

/// Midway through a walk: the boxes popped and the boxes waiting are distinct,
/// claimed by this walk, and joined to its start; every neighbour of a popped box
/// is claimed by this walk.
spec fn walking(
    tree: Contree,
    before: Map<u128, u128>,
    now: Map<u128, u128>,
    start: Cell,
    id: u128,
    cells: Seq<Cell>,
    stack: Seq<Cell>,
) -> bool {
    &&& claims(tree, before, now, start, id)
    &&& forall|i: int|
        0 <= i < cells.len() ==> walker(tree, now, start, id, #[trigger] cells[i])
    &&& forall|i: int|
        0 <= i < stack.len() ==> walker(tree, now, start, id, #[trigger] stack[i])
    &&& forall|cell: Cell| #[trigger]
        is_cell(tree, cell) && now.contains_key(key_of(cell)) && now[key_of(cell)] == id
            ==> cells.contains(cell) || stack.contains(cell)
    &&& cells.no_duplicates()
    &&& stack.no_duplicates()
    &&& forall|i: int, j: int|
        0 <= i < cells.len() && 0 <= j < stack.len() ==> #[trigger] cells[i] != #[trigger] stack[j]
}

/// A box this walk has claimed.
spec fn walker(
    tree: Contree,
    now: Map<u128, u128>,
    start: Cell,
    id: u128,
    cell: Cell,
) -> bool {
    &&& is_cell(tree, cell)
    &&& joined(solid_in_tree(tree), start.origin, cell.origin)
    &&& now.contains_key(key_of(cell))
    &&& now[key_of(cell)] == id
}

/// Every solid neighbour of a box lies in a box claimed by this walk.
spec fn fenced(tree: Contree, now: Map<u128, u128>, id: u128, cell: Cell) -> bool {
    forall|p: UVec3, q: UVec3|
        cell.has(p) && #[trigger] adjacent(p, q) && solid_in_tree(tree)(q) ==> {
            let n = key_of(cell_of_voxel(tree, q)->0);
            now.contains_key(n) && now[n] == id
        }
}

/// Distinct boxes of a tree share no voxel.
proof fn lemma_cells_disjoint(tree: Contree, cells: Seq<Cell>)
    requires
        tree.readable(),
        tree.tidied(),
        cells.no_duplicates(),
        forall|i: int| 0 <= i < cells.len() ==> is_cell(tree, #[trigger] cells[i]),
    ensures
        disjoint(cells),
        forall|i: int| 0 <= i < cells.len() ==> in_range(#[trigger] cells[i]),
{
    assert forall|i: int| 0 <= i < cells.len() implies in_range(#[trigger] cells[i]) by {
        lemma_is_cell(tree, cells[i]);
    }
    assert forall|i: int, j: int, p: UVec3|
        #![trigger cells[i].has(p), cells[j].has(p)]
        0 <= i < j < cells.len() implies !(cells[i].has(p) && cells[j].has(p)) by {
        if cells[i].has(p) && cells[j].has(p) {
            lemma_is_cell(tree, cells[i]);
            lemma_is_cell(tree, cells[j]);
            assert(cell_of_voxel(tree, p) == Some(cells[i]));
            assert(cell_of_voxel(tree, p) == Some(cells[j]));
        }
    }
}

/// The voxels of boxes joined to a voxel are distinct voxels of its piece.
proof fn lemma_cells_in_piece(tree: Contree, a: UVec3, cells: Seq<Cell>)
    requires
        tree.readable(),
        tree.tidied(),
        cells.no_duplicates(),
        forall|i: int|
            0 <= i < cells.len() ==> is_cell(tree, #[trigger] cells[i]) && joined(
                solid_in_tree(tree),
                a,
                cells[i].origin,
            ),
    ensures
        distinct_in_piece(tree, a, voxels_of_all(cells)),
        voxels_of_all(cells).len() == total_of(cells),
        forall|p: UVec3| #[trigger] voxels_of_all(cells).contains(p) <==> held_by_some(cells, p),
{
    lemma_cells_disjoint(tree, cells);
    lemma_voxels_of_all(cells);
    let all = voxels_of_all(cells);
    assert forall|i: int| 0 <= i < all.len() implies joined(
        solid_in_tree(tree),
        a,
        #[trigger] all[i],
    ) by {
        let p = all[i];
        assert(all.contains(p));
        let k = choose|k: int| 0 <= k < cells.len() && (#[trigger] cells[k]).has(p);
        lemma_cell_joined(tree, cells[k], p);
        lemma_joined_through(solid_in_tree(tree), a, cells[k].origin, p);
    }
}

/// A box that shares a face with a joined one is joined.
proof fn lemma_touching_joined(tree: Contree, a: UVec3, cell: Cell, other: Cell)
    requires
        tree.readable(),
        tree.tidied(),
        is_cell(tree, cell),
        is_cell(tree, other),
        joined(solid_in_tree(tree), a, cell.origin),
        touching(cell, other),
    ensures
        joined(solid_in_tree(tree), a, other.origin),
{
    let solid = solid_in_tree(tree);
    let (p, q) = choose|p: UVec3, q: UVec3|
        #![trigger cell.has(p), other.has(q)]
        cell.has(p) && other.has(q) && adjacent(p, q);
    lemma_cell_joined(tree, cell, p);
    lemma_joined_through(solid, a, cell.origin, p);
    lemma_is_cell(tree, other);
    lemma_joined_step(solid, a, p, q);
    lemma_cell_joined(tree, other, q);
    lemma_joined_back(solid, other.origin, q);
    lemma_joined_through(solid, a, q, other.origin);
}

/// Boxes whose neighbours are all among them hold a whole piece.
proof fn lemma_fenced_piece(
    tree: Contree,
    before: Map<u128, u128>,
    now: Map<u128, u128>,
    start: Cell,
    id: u128,
    cells: Seq<Cell>,
    q: UVec3,
)
    requires
        tree.readable(),
        tree.tidied(),
        walking(tree, before, now, start, id, cells, Seq::empty()),
        forall|i: int| 0 <= i < cells.len() ==> fenced(tree, now, id, #[trigger] cells[i]),
        cells.contains(start),
    ensures
        held_by_some(cells, q) <==> joined(solid_in_tree(tree), start.origin, q),
{
    let solid = solid_in_tree(tree);
    let chosen = |p: UVec3| held_by_some(cells, p);
    assert(closed_under(solid, chosen)) by {
        assert forall|p: UVec3, r: UVec3| #[trigger]
            chosen(p) && #[trigger] adjacent(p, r) && solid(r) implies chosen(r) by {
            let i = choose|i: int| 0 <= i < cells.len() && (#[trigger] cells[i]).has(p);
            assert(fenced(tree, now, id, cells[i]));
            lemma_voxel_cell(tree, r);
            let c = cell_of_voxel(tree, r)->0;
            assert(is_cell(tree, c) && now.contains_key(key_of(c)));
            assert(cells.contains(c));
            let k = choose|k: int| 0 <= k < cells.len() && cells[k] == c;
            assert(cells[k].has(r));
        }
    }
    if joined(solid, start.origin, q) {
        let k = choose|k: int| 0 <= k < cells.len() && cells[k] == start;
        assert(walker(tree, now, start, id, cells[k]));
        lemma_is_cell(tree, start);
        assert(cells[k].has(start.origin));
        assert(chosen(start.origin));
        lemma_closed_joined(solid, chosen, start.origin, q);
    }
    if held_by_some(cells, q) {
        let i = choose|i: int| 0 <= i < cells.len() && (#[trigger] cells[i]).has(q);
        assert(walker(tree, now, start, id, cells[i]));
        lemma_cell_joined(tree, cells[i], q);
        lemma_joined_through(solid, start.origin, cells[i].origin, q);
    }
}

/// Claiming a new box and putting it on the stack keeps a walk going.
proof fn lemma_walk_claim(
    tree: Contree,
    before: Map<u128, u128>,
    now: Map<u128, u128>,
    start: Cell,
    id: u128,
    cells: Seq<Cell>,
    stack: Seq<Cell>,
    n: Cell,
)
    requires
        tree.readable(),
        tree.tidied(),
        walking(tree, before, now, start, id, cells, stack),
        is_cell(tree, n),
        joined(solid_in_tree(tree), start.origin, n.origin),
        !now.contains_key(key_of(n)),
    ensures
        walking(tree, before, now.insert(key_of(n), id), start, id, cells, stack.push(n)),
        forall|c: Cell| #[trigger]
            fenced(tree, now, id, c) ==> fenced(tree, now.insert(key_of(n), id), id, c),
{
    let then = now.insert(key_of(n), id);
    let more = stack.push(n);
    assert forall|cell: Cell| #[trigger]
        is_cell(tree, cell) && then.contains_key(key_of(cell)) && !before.contains_key(
            key_of(cell),
        ) implies joined(solid_in_tree(tree), start.origin, cell.origin) by {
        if key_of(cell) == key_of(n) {
            lemma_key(tree, cell, n);
        }
    }
    assert forall|cell: Cell| #[trigger]
        is_cell(tree, cell) && then.contains_key(key_of(cell)) && then[key_of(cell)]
            == id implies cells.contains(cell) || more.contains(cell) by {
        if key_of(cell) == key_of(n) {
            lemma_key(tree, cell, n);
            assert(more[stack.len() as int] == n);
        } else if !cells.contains(cell) {
            assert(stack.contains(cell));
            let k = choose|k: int| 0 <= k < stack.len() && stack[k] == cell;
            assert(more[k] == cell);
        }
    }
    assert forall|i: int| 0 <= i < cells.len() implies walker(
        tree,
        then,
        start,
        id,
        #[trigger] cells[i],
    ) by {
        assert(walker(tree, now, start, id, cells[i]));
    }
    assert forall|i: int| 0 <= i < more.len() implies walker(
        tree,
        then,
        start,
        id,
        #[trigger] more[i],
    ) by {
        if i < stack.len() {
            assert(walker(tree, now, start, id, stack[i]));
        }
    }
    assert(more.no_duplicates());
    assert forall|c: Cell| #[trigger] fenced(tree, now, id, c) implies fenced(tree, then, id, c) by {
        assert forall|p: UVec3, q: UVec3|
            c.has(p) && #[trigger] adjacent(p, q) && solid_in_tree(tree)(q) implies {
            let k = key_of(cell_of_voxel(tree, q)->0);
            then.contains_key(k) && then[k] == id
        } by {
            let k = key_of(cell_of_voxel(tree, q)->0);
            assert(now.contains_key(k) && now[k] == id);
        }
    }
}

/// Taking a box off the stack keeps a walk going.
proof fn lemma_walk_pop(
    tree: Contree,
    before: Map<u128, u128>,
    now: Map<u128, u128>,
    start: Cell,
    id: u128,
    cells: Seq<Cell>,
    stack: Seq<Cell>,
)
    requires
        stack.len() > 0,
        walking(tree, before, now, start, id, cells, stack),
    ensures
        walking(tree, before, now, start, id, cells.push(stack.last()), stack.drop_last()),
        walker(tree, now, start, id, stack.last()),
{
    let then = cells.push(stack.last());
    let rest = stack.drop_last();
    let top = stack.len() - 1;
    assert(stack[top] == stack.last());
    assert forall|cell: Cell| #[trigger]
        is_cell(tree, cell) && now.contains_key(key_of(cell)) && now[key_of(cell)]
            == id implies then.contains(cell) || rest.contains(cell) by {
        if cells.contains(cell) {
            let k = choose|k: int| 0 <= k < cells.len() && cells[k] == cell;
            assert(then[k] == cell);
        } else {
            let k = choose|k: int| 0 <= k < stack.len() && stack[k] == cell;
            if k < top {
                assert(rest[k] == cell);
            } else {
                assert(then[cells.len() as int] == cell);
            }
        }
    }
    assert forall|i: int| 0 <= i < then.len() implies walker(
        tree,
        now,
        start,
        id,
        #[trigger] then[i],
    ) by {
        if i < cells.len() {
            assert(walker(tree, now, start, id, cells[i]));
        } else {
            assert(walker(tree, now, start, id, stack[top]));
        }
    }
    assert forall|i: int| 0 <= i < rest.len() implies walker(
        tree,
        now,
        start,
        id,
        #[trigger] rest[i],
    ) by {
        assert(walker(tree, now, start, id, stack[i]));
    }
    assert forall|i: int, j: int|
        0 <= i < then.len() && 0 <= j < rest.len() implies #[trigger] then[i] != #[trigger] rest[j] by {
        if i < cells.len() {
            assert(cells[i] != stack[j]);
        } else {
            assert(stack[top] != stack[j]);
        }
    }
    assert(then.no_duplicates()) by {
        assert forall|i: int, j: int|
            0 <= i < then.len() && 0 <= j < then.len() && i != j implies then[i] != then[j] by {
            if i < cells.len() && j < cells.len() {
            } else if i < cells.len() {
                assert(cells[i] != stack[top]);
            } else {
                assert(cells[j] != stack[top]);
            }
        }
    }
}

/// A walk that runs into a box claimed earlier is on a piece that may not leave
/// the world.
proof fn lemma_ran_into(
    tree: Contree,
    before: Map<u128, u128>,
    start: Cell,
    n: Cell,
    floor: bool,
    budget: int,
)
    requires
        all_done(tree, before, floor, budget),
        is_cell(tree, start),
        is_cell(tree, n),
        !before.contains_key(key_of(start)),
        before.contains_key(key_of(n)),
        joined(solid_in_tree(tree), start.origin, n.origin),
    ensures
        !loose(tree, start.origin, floor, budget),
{
    lemma_joined_back(solid_in_tree(tree), start.origin, n.origin);
    lemma_loose_same(tree, start.origin, n.origin, floor, budget);
    assert(done_with(tree, before, n, floor, budget));
}

/// Appends the voxels of a box.
fn push_voxels(cell: Cell, out: &mut Vec<UVec3>)
    requires
        in_range(cell),
        cell.count() <= u64::MAX,
    ensures
        final(out)@ == old(out)@ + voxels_of(cell),
{
    let n: u64 = cell.size as u64;
    proof {
        assert(0 < n * n <= n * n * n) by (nonlinear_arith)
            requires
                n >= 1,
        ;
    }
    let count: u64 = n * n * n;
    let ghost start = out@;
    for i in 0..count
        invariant
            in_range(cell),
            n == cell.size,
            n >= 1,
            count == cell_count(n as int),
            out@ == start + voxels_of(cell).take(i as int),
    {
        proof {
            reveal(cell_stored);
            lemma_stored(n as int, i as int);
            assert(i < voxels_of(cell).len());
            assert(voxels_of(cell).take(i + 1) =~= voxels_of(cell).take(i as int).push(
                voxels_of(cell)[i as int],
            ));
        }
        let dx: u32 = (i % n) as u32;
        let dy: u32 = ((i / n) % n) as u32;
        let dz: u32 = ((i / n) / n) as u32;
        out.push(
            UVec3::new(cell.origin.x + dx, cell.origin.y + dy, cell.origin.z + dz),
        );
        assert(out@ =~= start + voxels_of(cell).take(i + 1));
    }
    assert(voxels_of(cell).take(count as int) =~= voxels_of(cell));
}

/// Walks the piece holding the box `start` as walk `id`. `None` when it touches
/// the floor, where there is one, or is too big, or joins a piece an earlier walk
/// already gave up on.
pub fn walk(
    tree: &Contree,
    start: Cell,
    floor: bool,
    budget: usize,
    id: u128,
    seen: &mut HashMap<u128, u128>,
) -> (found: Option<Vec<UVec3>>)
    requires
        tree.readable(),
        tree.tidied(),
        is_cell(*tree, start),
        all_done(*tree, old(seen)@, floor, budget as int),
        !old(seen)@.contains_key(key_of(start)),
        forall|k: u128| #[trigger] old(seen)@.contains_key(k) ==> old(seen)@[k] != id,
    ensures
        claims(*tree, old(seen)@, final(seen)@, start, id),
        final(seen)@.contains_key(key_of(start)),
        all_done(*tree, final(seen)@, floor, budget as int),
        found is Some <==> loose(*tree, start.origin, floor, budget as int),
        found matches Some(piece) ==> is_piece(solid_in_tree(*tree), start.origin, piece@),
{
    broadcast use vstd::std_specs::hash::group_hash_axioms;

    let ghost before = seen@;
    let ghost t = *tree;
    let mut stack: Vec<Cell> = Vec::new();
    let mut cells: Vec<Cell> = Vec::new();
    let mut voxels: u128 = 0;
    seen.insert(code_of(start.origin), id);
    stack.push(start);
    proof {
        lemma_is_cell(t, start);
        lemma_joined_self(solid_in_tree(t), start.origin);
        assert(claims(t, before, before, start, id));
        assert(walking(t, before, before, start, id, cells@, Seq::empty()));
        lemma_walk_claim(t, before, before, start, id, cells@, Seq::empty(), start);
        assert(Seq::<Cell>::empty().push(start) =~= stack@);
    }
    while stack.len() > 0
        invariant
            t == *tree,
            before == old(seen)@,
            tree.readable(),
            tree.tidied(),
            is_cell(t, start),
            all_done(t, before, floor, budget as int),
            !before.contains_key(key_of(start)),
            forall|k: u128| #[trigger] before.contains_key(k) ==> before[k] != id,
            walking(t, before, seen@, start, id, cells@, stack@),
            seen@.contains_key(key_of(start)) && seen@[key_of(start)] == id,
            forall|i: int| 0 <= i < cells@.len() ==> fenced(t, seen@, id, #[trigger] cells@[i]),
            floor ==> forall|i: int|
                0 <= i < cells@.len() ==> (#[trigger] cells@[i]).origin.y != 0,
            voxels == total_of(cells@),
            voxels <= budget,
        decreases budget - voxels,
    {
        broadcast use vstd::std_specs::hash::group_hash_axioms;

        let ghost stood = stack@;
        let ghost had = cells@;
        let cell = stack.pop().unwrap();
        proof {
            lemma_walk_pop(t, before, seen@, start, id, had, stood);
            lemma_is_cell(t, cell);
        }
        // Grounded: stop at once. The rest of this piece stays unwalked, and any
        // later walk that reaches it runs into what this one claimed and stops
        // too. Walking on would cost the whole budget for every cut into the
        // ground, which is most cuts.
        if floor && cell.origin.y == 0 {
            proof {
                assert(!loose(t, start.origin, floor, budget as int));
                lemma_gave_up(t, before, seen@, start, id, floor, budget as int);
            }
            return None;
        }
        cells.push(cell);
        proof {
            assert(cells@.drop_last() =~= had);
            assert(1 <= cell.size * cell.size * cell.size <= 0x4000_0000 * 0x4000_0000
                * 0x4000_0000) by (nonlinear_arith)
                requires
                    1 <= cell.size <= 0x4000_0000,
            ;
            assert(0 < cell.size * cell.size <= 0x4000_0000 * 0x4000_0000) by (nonlinear_arith)
                requires
                    1 <= cell.size <= 0x4000_0000,
            ;
        }
        let n: u128 = cell.size as u128;
        voxels = voxels + n * n * n;
        if voxels > budget as u128 {
            proof {
                assert forall|i: int| 0 <= i < cells@.len() implies is_cell(t, #[trigger] cells@[i])
                    && joined(solid_in_tree(t), start.origin, cells@[i].origin) by {
                    assert(walker(t, seen@, start, id, cells@[i]));
                }
                lemma_cells_in_piece(t, start.origin, cells@);
                assert(!loose(t, start.origin, floor, budget as int));
                lemma_gave_up(t, before, seen@, start, id, floor, budget as int);
            }
            return None;
        }
        let found = neighbours(tree, cell);
        for i in 0..found.len()
            invariant
                t == *tree,
                before == old(seen)@,
                tree.readable(),
                tree.tidied(),
                is_cell(t, start),
                is_cell(t, cell),
                joined(solid_in_tree(t), start.origin, cell.origin),
                all_done(t, before, floor, budget as int),
                !before.contains_key(key_of(start)),
                forall|k: u128| #[trigger] before.contains_key(k) ==> before[k] != id,
                walking(t, before, seen@, start, id, cells@, stack@),
                seen@.contains_key(key_of(start)) && seen@[key_of(start)] == id,
                cells@ == had.push(cell),
                forall|j: int| 0 <= j < had.len() ==> fenced(t, seen@, id, #[trigger] had[j]),
                forall|k: int|
                    0 <= k < found@.len() ==> is_cell(t, #[trigger] found@[k]) && touching(
                        cell,
                        found@[k],
                    ),
                forall|k: int|
                    0 <= k < i ==> seen@.contains_key(key_of(#[trigger] found@[k]))
                        && seen@[key_of(found@[k])] == id,
        {
            broadcast use vstd::std_specs::hash::group_hash_axioms;

            let n = found[i];
            let key = code_of(n.origin);
            proof {
                assert(is_cell(t, found@[i as int]));
                lemma_touching_joined(t, start.origin, cell, n);
            }
            let other = match seen.get(&key) {
                Some(other) => Some(*other),
                None => None,
            };
            match other {
                None => {
                    let ghost now = seen@;
                    let ghost stood = stack@;
                    proof {
                        lemma_walk_claim(t, before, now, start, id, cells@, stood, n);
                    }
                    seen.insert(key, id);
                    stack.push(n);
                },
                // An earlier walk's cell: this is that walk's piece, which was
                // grounded or too big, or it would have been walked to the end and
                // every cell of it claimed.
                Some(other) => {
                    if other != id {
                        proof {
                            lemma_ran_into(t, before, start, n, floor, budget as int);
                            lemma_gave_up(t, before, seen@, start, id, floor, budget as int);
                        }
                        return None;
                    }
                },
            }
        }
        proof {
            assert(fenced(t, seen@, id, cell)) by {
                assert forall|p: UVec3, q: UVec3|
                    cell.has(p) && #[trigger] adjacent(p, q) && solid_in_tree(t)(q) implies {
                    let k = key_of(cell_of_voxel(t, q)->0);
                    seen@.contains_key(k) && seen@[k] == id
                } by {
                    if cell.has(q) {
                        assert(cells@[had.len() as int] == cell);
                        assert(walker(t, seen@, start, id, cells@[had.len() as int]));
                    } else {
                        let c = cell_of_voxel(t, q)->0;
                        assert(found@.contains(c));
                        let k = choose|k: int| 0 <= k < found@.len() && found@[k] == c;
                        assert(seen@.contains_key(key_of(found@[k])));
                    }
                }
            }
            assert forall|i: int| 0 <= i < cells@.len() implies fenced(
                t,
                seen@,
                id,
                #[trigger] cells@[i],
            ) by {
                if i < had.len() {
                    assert(fenced(t, seen@, id, had[i]));
                }
            }
        }
    }
    proof {
        assert(stack@ =~= Seq::empty());
        assert(cells@.contains(start));
    }
    let piece = list_voxels_of(tree, &cells, budget);
    proof {
        lemma_walked(t, before, seen@, start, id, cells@, floor, budget as int);
    }
    let sorted = sort_voxels(&piece);
    proof {
        assert forall|q: UVec3| #[trigger] sorted@.contains(q) <==> joined(
            solid_in_tree(t),
            start.origin,
            q,
        ) by {
            lemma_fenced_piece(t, before, seen@, start, id, cells@, q);
            assert(sorted@.contains(q) <==> piece@.contains(q));
        }
    }
    Some(sorted)
}

/// The voxels of boxes of a tree, computed.
fn list_voxels_of(tree: &Contree, cells: &Vec<Cell>, budget: usize) -> (piece: Vec<UVec3>)
    requires
        tree.readable(),
        tree.tidied(),
        cells@.no_duplicates(),
        forall|i: int| 0 <= i < cells@.len() ==> is_cell(*tree, #[trigger] cells@[i]),
        total_of(cells@) <= budget,
    ensures
        piece@ == voxels_of_all(cells@),
        piece@.no_duplicates(),
        forall|p: UVec3| #[trigger] piece@.contains(p) <==> held_by_some(cells@, p),
{
    let mut piece: Vec<UVec3> = Vec::new();
    let ghost all = cells@;
    proof {
        lemma_cells_disjoint(*tree, all);
        lemma_voxels_of_all(all);
        assert(all.take(0) =~= Seq::empty());
    }
    for i in 0..cells.len()
        invariant
            all == cells@,
            forall|i: int| 0 <= i < all.len() ==> in_range(#[trigger] all[i]),
            total_of(all) <= budget,
            piece@ == voxels_of_all(all.take(i as int)),
    {
        let cell = cells[i];
        proof {
            assert(in_range(all[i as int]));
            lemma_total_part(all, i as int);
            assert(all.take(i + 1).drop_last() =~= all.take(i as int));
        }
        push_voxels(cell, &mut piece);
    }
    assert(all.take(all.len() as int) =~= all);
    piece
}

/// One box has no more voxels than all of them.
proof fn lemma_total_part(cells: Seq<Cell>, i: int)
    requires
        0 <= i < cells.len(),
        forall|i: int| 0 <= i < cells.len() ==> in_range(#[trigger] cells[i]),
    ensures
        1 <= cells[i].count() <= total_of(cells),
    decreases cells.len(),
{
    let last = cells.last();
    assert(in_range(cells[cells.len() - 1]));
    assert(1 <= last.size * last.size * last.size) by (nonlinear_arith)
        requires
            1 <= last.size,
    ;
    let rest = cells.drop_last();
    if rest.len() == 0 {
        assert(total_of(rest) == 0);
    } else {
        assert forall|i: int| 0 <= i < rest.len() implies in_range(#[trigger] rest[i]) by {
            assert(in_range(cells[i]));
        }
        lemma_total_part(
            rest,
            if i < rest.len() {
                i
            } else {
                0
            },
        );
    }
}

/// A walk that gave up leaves every claimed box's piece done with.
proof fn lemma_gave_up(
    tree: Contree,
    before: Map<u128, u128>,
    now: Map<u128, u128>,
    start: Cell,
    id: u128,
    floor: bool,
    budget: int,
)
    requires
        all_done(tree, before, floor, budget),
        claims(tree, before, now, start, id),
        !loose(tree, start.origin, floor, budget),
    ensures
        all_done(tree, now, floor, budget),
{
    assert forall|cell: Cell| #[trigger]
        is_cell(tree, cell) && now.contains_key(key_of(cell)) implies done_with(
        tree,
        now,
        cell,
        floor,
        budget,
    ) by {
        if before.contains_key(key_of(cell)) {
            assert(done_with(tree, before, cell, floor, budget));
        } else {
            lemma_loose_same(tree, start.origin, cell.origin, floor, budget);
        }
    }
}

/// A walk that ended has claimed the whole piece, and the piece is loose.
proof fn lemma_walked(
    tree: Contree,
    before: Map<u128, u128>,
    now: Map<u128, u128>,
    start: Cell,
    id: u128,
    cells: Seq<Cell>,
    floor: bool,
    budget: int,
)
    requires
        tree.readable(),
        tree.tidied(),
        all_done(tree, before, floor, budget),
        walking(tree, before, now, start, id, cells, Seq::empty()),
        forall|i: int| 0 <= i < cells.len() ==> fenced(tree, now, id, #[trigger] cells[i]),
        cells.contains(start),
        floor ==> forall|i: int| 0 <= i < cells.len() ==> (#[trigger] cells[i]).origin.y != 0,
        total_of(cells) <= budget,
    ensures
        loose(tree, start.origin, floor, budget),
        all_done(tree, now, floor, budget),
{
    let solid = solid_in_tree(tree);
    assert forall|i: int| 0 <= i < cells.len() implies is_cell(tree, #[trigger] cells[i]) && joined(
        solid,
        start.origin,
        cells[i].origin,
    ) by {
        assert(walker(tree, now, start, id, cells[i]));
    }
    lemma_cells_in_piece(tree, start.origin, cells);
    if floor {
        assert forall|q: UVec3| #[trigger] joined(solid, start.origin, q) implies q.y != 0 by {
            lemma_fenced_piece(tree, before, now, start, id, cells, q);
            let k = choose|k: int| 0 <= k < cells.len() && (#[trigger] cells[k]).has(q);
            assert(cells[k].origin.y != 0);
        }
    }
    assert forall|some: Seq<UVec3>| #[trigger]
        distinct_in_piece(tree, start.origin, some) implies some.len() <= budget by {
        assert forall|i: int| 0 <= i < some.len() implies voxels_of_all(cells).contains(
            #[trigger] some[i],
        ) by {
            lemma_fenced_piece(tree, before, now, start, id, cells, some[i]);
        }
        lemma_no_more_than(some, voxels_of_all(cells));
    }
    assert forall|cell: Cell| #[trigger]
        is_cell(tree, cell) && now.contains_key(key_of(cell)) implies done_with(
        tree,
        now,
        cell,
        floor,
        budget,
    ) by {
        if before.contains_key(key_of(cell)) {
            assert(done_with(tree, before, cell, floor, budget));
        } else {
            assert forall|other: Cell| #[trigger]
                is_cell(tree, other) && joined(solid, cell.origin, other.origin) implies now.contains_key(
                key_of(other),
            ) by {
                lemma_joined_through(solid, start.origin, cell.origin, other.origin);
                lemma_fenced_piece(tree, before, now, start, id, cells, other.origin);
                let k = choose|k: int| 0 <= k < cells.len() && (#[trigger] cells[k]).has(
                    other.origin,
                );
                lemma_is_cell(tree, cells[k]);
                assert(walker(tree, now, start, id, cells[k]));
            }
        }
    }
}

/// A piece comes loose where it has no more voxels than the budget, and, where there is
/// a floor, none of them stands on it.
pub proof fn law_a_piece_is_loose_where_it_is_small_and_off_the_floor(
    tree: Contree,
    a: UVec3,
    piece: Seq<UVec3>,
    floor: bool,
    budget: int,
)
    requires
        is_piece(solid_in_tree(tree), a, piece),
    ensures
        loose(tree, a, floor, budget) <==> {
            &&& piece.len() <= budget
            &&& floor ==> forall|k: int| 0 <= k < piece.len() ==> (#[trigger] piece[k]).y > 0
        },
{
    let solid = solid_in_tree(tree);
    assert(piece.no_duplicates()) by {
        assert forall|i: int, j: int| 0 <= i < piece.len() && 0 <= j < piece.len() && i
            != j implies piece[i] != piece[j] by {
            if i < j {
                assert(crate::physics::connect::before(piece[i], piece[j]));
            } else {
                assert(crate::physics::connect::before(piece[j], piece[i]));
            }
        }
    }
    assert forall|k: int| 0 <= k < piece.len() implies joined(solid, a, #[trigger] piece[k]) by {
        assert(piece.contains(piece[k]));
    }
    assert(distinct_in_piece(tree, a, piece));
    if piece.len() <= budget && (floor ==> forall|k: int|
        0 <= k < piece.len() ==> (#[trigger] piece[k]).y > 0) {
        assert forall|q: UVec3| floor && #[trigger] joined(solid, a, q) implies q.y != 0 by {
            assert(piece.contains(q));
        }
        assert forall|some: Seq<UVec3>| #[trigger] distinct_in_piece(
            tree,
            a,
            some,
        ) implies some.len() <= budget by {
            assert forall|i: int| 0 <= i < some.len() implies piece.contains(#[trigger] some[i]) by {
                assert(joined(solid, a, some[i]));
            }
            crate::address::lemma_no_more_than(some, piece);
        }
    }
}

} // verus!
