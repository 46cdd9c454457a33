//! A coarse Chebyshev distance field, for skipping empty space.
//!
//! Each cell holds the L-infinity distance, in cells, from itself to the
//! nearest solid voxel, capped at `MAX_DISTANCE`. A value of `d` at cell `c`
//! promises that every cell within the cube of radius `d` around `c` is empty,
//! which is what lets a ray advance by `d` cells in any direction at once.
//!
//! The promise is one-directional on purpose: the field may under-estimate and
//! cost speed, but it must never over-estimate, because a ray would then jump
//! over geometry. Every operation here preserves that.

use crate::address::{IVec3, UVec3};
use crate::bits::bit;
use crate::contree::{level_extent, tidy, Contree};
use crate::neat::{in_bytes, lemma_orderly_solid, orderly_at};
use crate::grid::{
    cell_count, cell_index, index_of, lemma_cell_bound, lemma_cell_injective, lemma_cell_of,
    lemma_cell_parts,
};
use crate::node::{lemma_slot_in_block, Node, BRICK_EDGE, CHILDREN};
use crate::edit::in_box;
use crate::plan::{
    child_x, child_y, child_z, fits, lemma_cell_inside, lemma_child_inside, stands_for,
};
use crate::sparse::{cell_at, in_cube, lemma_child_stands, lemma_place_in_child};
use crate::tree::{extent_of, kid, lemma_cell, lemma_extent, lemma_uniform, voxel_at, wf};
use core::ops::Range;
use vstd::prelude::*;

verus! {

/// Voxels per field cell, per axis.
///
/// Sixteen is two levels of the contree's 4x subdivision, so a cell maps onto
/// whole nodes. At extent 4096 the field is 256 cells per axis: 16 MB at one
/// byte each, against a 512 MB budget.
pub const CELL_VOXELS: u32 = 16;

/// The largest distance a cell may store, in cells.
///
/// This is not an arbitrary cap. Painting a voxel lowers the true distance of
/// every cell within Chebyshev reach of it, which is unbounded, but a cell
/// further than `MAX_DISTANCE` away already stores a value no greater than
/// `MAX_DISTANCE`, and so is already conservative without being touched. The
/// cap is what turns invalidation from a whole-field walk into a bounded box,
/// and the box grows with its cube.
pub const MAX_DISTANCE: u8 = 16;

/// Chebyshev distance to the nearest solid voxel, per coarse cell.
#[derive(Clone, Debug)]
pub struct DistanceField {
    cells: Vec<u8>,
    edge: u32,
}

/// The size of an integer.
pub open spec fn magnitude(v: int) -> int {
    if v < 0 {
        -v
    } else {
        v
    }
}

/// The Chebyshev length of a step.
pub open spec fn reach_of(dx: int, dy: int, dz: int) -> int {
    let (a, b, c) = (magnitude(dx), magnitude(dy), magnitude(dz));
    if a >= b && a >= c {
        a
    } else if b >= c {
        b
    } else {
        c
    }
}

/// The Chebyshev distance between two cells.
pub open spec fn apart_by(a: UVec3, b: UVec3) -> int {
    reach_of(a.x - b.x, a.y - b.y, a.z - b.z)
}

/// The cells of the grid that are marked.
pub open spec fn marked_cell(marks: spec_fn(UVec3) -> bool, edge: int, c: UVec3) -> bool {
    c.within(edge) && marks(c)
}

/// No cell claims more than its distance to a marked cell.
pub open spec fn conservative(cells: Seq<u8>, edge: int, marks: spec_fn(UVec3) -> bool) -> bool {
    forall|c: UVec3, s: UVec3|
        c.within(edge) && #[trigger] marked_cell(marks, edge, s) ==> #[trigger] value(
            cells,
            edge,
            c,
        ) <= apart_by(c, s)
}

/// Every cell claims its distance to the nearest marked cell, up to the cap.
pub open spec fn exact(cells: Seq<u8>, edge: int, marks: spec_fn(UVec3) -> bool) -> bool {
    &&& conservative(cells, edge, marks)
    &&& forall|c: UVec3|
        c.within(edge) ==> #[trigger] value(cells, edge, c) <= MAX_DISTANCE && (value(
            cells,
            edge,
            c,
        ) == MAX_DISTANCE || exists|s: UVec3| #[trigger]
            marked_cell(marks, edge, s) && apart_by(c, s) == value(cells, edge, c))
}

/// What a cell holds.
pub open spec fn value(cells: Seq<u8>, edge: int, c: UVec3) -> u8 {
    cells[cell_index(edge, c.x as int, c.y as int, c.z as int)]
}

/// The cell stored at a place.
#[verifier::opaque]
pub open spec fn cell_stored(edge: int, i: int) -> UVec3 {
    UVec3 {
        x: (i % edge) as u32,
        y: ((i / edge) % edge) as u32,
        z: ((i / edge) / edge) as u32,
    }
}

pub proof fn lemma_stored(edge: int, i: int)
    requires
        1 <= edge <= u32::MAX,
        0 <= i < cell_count(edge),
    ensures
        cell_stored(edge, i).within(edge),
        cell_index(
            edge,
            cell_stored(edge, i).x as int,
            cell_stored(edge, i).y as int,
            cell_stored(edge, i).z as int,
        ) == i,
{
    reveal(cell_stored);
    lemma_cell_of(edge, i);
}

pub proof fn lemma_stored_at(edge: int, c: UVec3)
    requires
        c.within(edge),
    ensures
        0 <= cell_index(edge, c.x as int, c.y as int, c.z as int) < cell_count(edge),
        cell_stored(edge, cell_index(edge, c.x as int, c.y as int, c.z as int)) == c,
{
    reveal(cell_stored);
    lemma_cell_bound(edge, c.x as int, c.y as int, c.z as int);
    lemma_cell_parts(edge, c.x as int, c.y as int, c.z as int);
}

/// Step `k` of the 27 around a cell, in storage order: 13 before the cell itself
/// and 13 after it.
pub open spec fn step_x(k: int) -> int {
    k % 3 - 1
}

pub open spec fn step_y(k: int) -> int {
    (k / 3) % 3 - 1
}

pub open spec fn step_z(k: int) -> int {
    k / 9 - 1
}

/// Whether step `k` stays in the grid.
pub open spec fn steps_inside(edge: int, c: UVec3, k: int) -> bool {
    0 <= c.x + step_x(k) < edge && 0 <= c.y + step_y(k) < edge && 0 <= c.z + step_z(k) < edge
}

/// The cell step `k` leads to.
pub open spec fn stepped(c: UVec3, k: int) -> UVec3 {
    UVec3 {
        x: (c.x + step_x(k)) as u32,
        y: (c.y + step_y(k)) as u32,
        z: (c.z + step_z(k)) as u32,
    }
}

/// Steps below 13 lead to a place stored before, steps above to one stored after.
proof fn lemma_step_order(edge: int, c: UVec3, k: int)
    requires
        edge <= u32::MAX,
        c.within(edge),
        0 <= k < 27,
        k != 13,
        steps_inside(edge, c, k),
    ensures
        stepped(c, k).within(edge),
        0 <= cell_index(
            edge,
            stepped(c, k).x as int,
            stepped(c, k).y as int,
            stepped(c, k).z as int,
        ) < cell_count(edge),
        k < 13 <==> cell_index(
            edge,
            stepped(c, k).x as int,
            stepped(c, k).y as int,
            stepped(c, k).z as int,
        ) < cell_index(edge, c.x as int, c.y as int, c.z as int),
{
    let n = stepped(c, k);
    let (dx, dy, dz) = (step_x(k), step_y(k), step_z(k));
    lemma_cell_bound(edge, c.x as int, c.y as int, c.z as int);
    lemma_cell_bound(edge, n.x as int, n.y as int, n.z as int);
    let here = cell_index(edge, c.x as int, c.y as int, c.z as int);
    let there = cell_index(edge, n.x as int, n.y as int, n.z as int);
    assert(there - here == dx + dy * edge + dz * (edge * edge)) by (nonlinear_arith)
        requires
            here == c.x + c.y * edge + c.z * edge * edge,
            there == n.x + n.y * edge + n.z * edge * edge,
            n.x == c.x + dx,
            n.y == c.y + dy,
            n.z == c.z + dz,
    ;
    let row = edge * edge;
    assert(dz == 0 ==> dz * row == 0) by (nonlinear_arith);
    assert(dz == 1 ==> dz * row == row) by (nonlinear_arith);
    assert(dz == -1 ==> dz * row == -row) by (nonlinear_arith);
    assert(dy == 0 ==> dy * edge == 0) by (nonlinear_arith);
    assert(dy == 1 ==> dy * edge == edge) by (nonlinear_arith);
    assert(dy == -1 ==> dy * edge == -edge) by (nonlinear_arith);
    assert(n.y * edge - c.y * edge == dy * edge) by (nonlinear_arith)
        requires
            n.y == c.y + dy,
    ;
    lemma_inside_layer(edge, c, n);
    assert(k == step_number(dx, dy, dz));
    lemma_step_number(dx, dy, dz);
}

/// Two rows of one layer are less than a layer apart.
proof fn lemma_inside_layer(edge: int, a: UVec3, b: UVec3)
    requires
        a.within(edge),
        b.within(edge),
    ensures
        magnitude((b.x + b.y * edge) - (a.x + a.y * edge)) < edge * edge,
{
    lemma_cell_bound(edge, a.x as int, a.y as int, a.z as int);
    lemma_cell_bound(edge, b.x as int, b.y as int, b.z as int);
}

/// A step changes a distance by at most one.
proof fn lemma_step_distance(c: UVec3, n: UVec3, s: UVec3)
    requires
        magnitude(n.x - c.x) <= 1,
        magnitude(n.y - c.y) <= 1,
        magnitude(n.z - c.z) <= 1,
    ensures
        apart_by(c, s) <= apart_by(n, s) + 1,
{
}

/// Which way a coordinate points.
spec fn sign(v: int) -> int {
    if v > 0 {
        1
    } else if v < 0 {
        -1
    } else {
        0
    }
}

/// The step with given components.
spec fn step_number(dx: int, dy: int, dz: int) -> int {
    (dx + 1) + (dy + 1) * 3 + (dz + 1) * 9
}

proof fn lemma_step_number(dx: int, dy: int, dz: int)
    requires
        -1 <= dx <= 1,
        -1 <= dy <= 1,
        -1 <= dz <= 1,
    ensures
        0 <= step_number(dx, dy, dz) < 27,
        step_x(step_number(dx, dy, dz)) == dx,
        step_y(step_number(dx, dy, dz)) == dy,
        step_z(step_number(dx, dy, dz)) == dz,
        step_number(dx, dy, dz) < 13 <==> (dz < 0 || dz == 0 && (dy < 0 || dy == 0 && dx < 0)),
        step_number(dx, dy, dz) > 13 <==> (dz > 0 || dz == 0 && (dy > 0 || dy == 0 && dx > 0)),
{
}

/// Where a cell lies as seen from a marked one that a forward pass alone reaches
/// by a shortest path.
spec fn downstream(c: UVec3, s: UVec3) -> bool {
    let (x, y, z, d) = (c.x - s.x, c.y - s.y, c.z - s.z, apart_by(c, s));
    z == d || (y == d && z >= 0) || (x == d && z >= 0 && y >= 0)
}

/// No cell is more than one above a neighbour stored before it.
spec fn settled_forward(cells: Seq<u8>, edge: int) -> bool {
    forall|c: UVec3, k: int|
        c.within(edge) && 0 <= k < 13 && #[trigger] steps_inside(edge, c, k) ==> value(
            cells,
            edge,
            c,
        ) <= value(cells, edge, stepped(c, k)) + 1
}

/// No cell is more than one above a neighbour stored after it.
spec fn settled_backward(cells: Seq<u8>, edge: int) -> bool {
    forall|c: UVec3, k: int|
        c.within(edge) && 13 < k < 27 && #[trigger] steps_inside(edge, c, k) ==> value(
            cells,
            edge,
            c,
        ) <= value(cells, edge, stepped(c, k)) + 1
}

/// Marked cells hold zero.
spec fn marks_zero(cells: Seq<u8>, edge: int, marks: spec_fn(UVec3) -> bool) -> bool {
    forall|s: UVec3| #[trigger] marked_cell(marks, edge, s) ==> value(cells, edge, s) == 0
}

/// After a forward pass, downstream cells hold no more than their distance.
proof fn lemma_forward(
    cells: Seq<u8>,
    edge: int,
    marks: spec_fn(UVec3) -> bool,
    c: UVec3,
    s: UVec3,
)
    requires
        marks_zero(cells, edge, marks),
        settled_forward(cells, edge),
        c.within(edge),
        marked_cell(marks, edge, s),
        downstream(c, s),
    ensures
        value(cells, edge, c) <= apart_by(c, s),
    decreases apart_by(c, s),
{
    let (x, y, z, d) = (c.x - s.x, c.y - s.y, c.z - s.z, apart_by(c, s));
    if d == 0 {
        assert(c == s);
    } else {
        let (dx, dy, dz) = (-sign(x), -sign(y), -sign(z));
        lemma_step_number(dx, dy, dz);
        let k = step_number(dx, dy, dz);
        let n = stepped(c, k);
        assert(steps_inside(edge, c, k));
        assert(apart_by(n, s) == d - 1);
        lemma_forward(cells, edge, marks, n, s);
    }
}

/// After both passes, every cell holds no more than its distance.
proof fn lemma_backward(
    before: Seq<u8>,
    cells: Seq<u8>,
    edge: int,
    marks: spec_fn(UVec3) -> bool,
    c: UVec3,
    s: UVec3,
)
    requires
        marks_zero(before, edge, marks),
        settled_forward(before, edge),
        settled_backward(cells, edge),
        forall|c: UVec3|
            c.within(edge) ==> #[trigger] value(cells, edge, c) <= value(before, edge, c),
        c.within(edge),
        marked_cell(marks, edge, s),
    ensures
        value(cells, edge, c) <= apart_by(c, s),
    decreases apart_by(c, s),
{
    let (x, y, z, d) = (c.x - s.x, c.y - s.y, c.z - s.z, apart_by(c, s));
    if downstream(c, s) {
        lemma_forward(before, edge, marks, c, s);
    } else {
        let (dx, dy, dz) = if z < 0 {
            (-sign(x), -sign(y), 1int)
        } else if y < 0 {
            (-sign(x), 1int, 0int)
        } else {
            (1int, 0int, 0int)
        };
        lemma_step_number(dx, dy, dz);
        let k = step_number(dx, dy, dz);
        let n = stepped(c, k);
        assert(steps_inside(edge, c, k));
        assert(apart_by(n, s) <= d - 1);
        lemma_backward(before, cells, edge, marks, n, s);
    }
}

/// No cell is below its capped distance to every marked cell.
spec fn not_low(cells: Seq<u8>, edge: int, marks: spec_fn(UVec3) -> bool) -> bool {
    forall|c: UVec3|
        c.within(edge) ==> #[trigger] value(cells, edge, c) <= MAX_DISTANCE && (value(
            cells,
            edge,
            c,
        ) == MAX_DISTANCE || exists|s: UVec3| #[trigger]
            marked_cell(marks, edge, s) && apart_by(c, s) <= value(cells, edge, c))
}

/// Lowers the cell stored at `here` to one above the lowest of the neighbours that
/// steps `first..last` lead to.
fn relax(cells: &mut Vec<u8>, edge: u32, here: usize, first: u32, last: u32, marks: Ghost<
    spec_fn(UVec3) -> bool,
>)
    requires
        1 <= edge,
        first <= last <= 27,
        last <= 13 || first > 13,
        old(cells)@.len() == cell_count(edge as int) <= u32::MAX,
        here < old(cells)@.len(),
        not_low(old(cells)@, edge as int, marks@),
    ensures
        final(cells)@.len() == old(cells)@.len(),
        forall|i: int|
            0 <= i < old(cells)@.len() && i != here ==> #[trigger] final(cells)@[i] == old(cells)@[i],
        final(cells)@[here as int] <= old(cells)@[here as int],
        old(cells)@[here as int] == 0 ==> final(cells)@[here as int] == 0,
        not_low(final(cells)@, edge as int, marks@),
        forall|k: int|
            first <= k < last && #[trigger] steps_inside(
                edge as int,
                cell_stored(edge as int, here as int),
                k,
            ) ==> final(cells)@[here as int] <= value(
                old(cells)@,
                edge as int,
                stepped(cell_stored(edge as int, here as int), k),
            ) + 1,
{
    let ghost e = edge as int;
    let ghost c = cell_stored(e, here as int);
    let ghost start = cells@;
    proof {
        lemma_stored(e, here as int);
        reveal(cell_stored);
        assert(value(start, e, c) <= MAX_DISTANCE);
    }
    let span = edge as usize;
    let x = (here % span) as i64;
    let y = ((here / span) % span) as i64;
    let z = ((here / span) / span) as i64;
    let mut best: u8 = cells[here];
    let ghost mut from: int = 13;
    for k in first..last
        invariant
            e == edge,
            1 <= edge,
            first <= last <= 27,
            last <= 13 || first > 13,
            cells@ == start,
            start.len() == cell_count(e) <= u32::MAX,
            here < start.len(),
            c == cell_stored(e, here as int),
            c.within(e),
            cell_index(e, c.x as int, c.y as int, c.z as int) == here,
            x == c.x,
            y == c.y,
            z == c.z,
            not_low(start, e, marks@),
            best <= start[here as int],
            best <= MAX_DISTANCE,
            from == 13 ==> best == start[here as int],
            from != 13 ==> {
                &&& 0 <= from < 27
                &&& steps_inside(e, c, from)
                &&& best == value(start, e, stepped(c, from)) + 1
            },
            forall|j: int|
                first <= j < k && #[trigger] steps_inside(e, c, j) ==> best <= value(
                    start,
                    e,
                    stepped(c, j),
                ) + 1,
    {
        let nx: i64 = x + (k % 3) as i64 - 1;
        let ny: i64 = y + ((k / 3) % 3) as i64 - 1;
        let nz: i64 = z + (k / 9) as i64 - 1;
        let side = edge as i64;
        // Outside the volume holds no geometry, so the cube's promise is
        // vacuously true out there and the neighbour contributes nothing.
        // Treating outside as solid instead would clamp every border cell to 1
        // and make the field useless on small volumes: at extent 64 the grid is
        // only 4 cells wide. A ray that skips out of the volume is terminated by
        // the root slab test, so nothing is lost.
        if nx >= 0 && ny >= 0 && nz >= 0 && nx < side && ny < side && nz < side {
            let there = index_of(edge, nx as u32, ny as u32, nz as u32);
            proof {
                assert(steps_inside(e, c, k as int));
                assert(stepped(c, k as int) == (UVec3 {
                    x: nx as u32,
                    y: ny as u32,
                    z: nz as u32,
                }));
                assert(value(start, e, stepped(c, k as int)) <= MAX_DISTANCE);
            }
            let through: u8 = cells[there] + 1;
            if through < best {
                best = through;
                proof {
                    from = k as int;
                }
            }
        }
    }
    cells.set(here, best);
    proof {
        let t = cells@;
        assert forall|d: UVec3| d.within(e) implies #[trigger] value(t, e, d) <= MAX_DISTANCE && (
        value(t, e, d) == MAX_DISTANCE || exists|s: UVec3| #[trigger]
            marked_cell(marks@, e, s) && apart_by(d, s) <= value(t, e, d)) by {
            lemma_stored_at(e, d);
            if d != c {
                if cell_index(e, d.x as int, d.y as int, d.z as int) == here {
                    lemma_cell_injective(
                        e,
                        d.x as int,
                        d.y as int,
                        d.z as int,
                        c.x as int,
                        c.y as int,
                        c.z as int,
                    );
                }
                assert(value(t, e, d) == value(start, e, d));
            } else if from == 13 {
                assert(value(start, e, d) == best);
            } else {
                let n = stepped(c, from);
                assert(n.within(e));
                assert(value(start, e, n) < MAX_DISTANCE);
                let s = choose|s: UVec3| #[trigger]
                    marked_cell(marks@, e, s) && apart_by(n, s) <= value(start, e, n);
                lemma_step_distance(c, n, s);
                assert(marked_cell(marks@, e, s) && apart_by(d, s) <= value(t, e, d));
            }
        }
    }
}

/// Propagates distances outward from the zeroes, in both directions.
fn sweep(cells: &mut Vec<u8>, edge: u32, marks: Ghost<spec_fn(UVec3) -> bool>)
    requires
        1 <= edge,
        old(cells)@.len() == cell_count(edge as int) <= u32::MAX,
        not_low(old(cells)@, edge as int, marks@),
        marks_zero(old(cells)@, edge as int, marks@),
    ensures
        final(cells)@.len() == old(cells)@.len(),
        exact(final(cells)@, edge as int, marks@),
{
    let ghost e = edge as int;
    let total = cells.len();
    // Forward: every neighbour stored before is already final.
    for here in 0..total
        invariant
            e == edge,
            1 <= edge,
            cells@.len() == total == cell_count(e) <= u32::MAX,
            not_low(cells@, e, marks@),
            marks_zero(cells@, e, marks@),
            settled_range(cells@, e, 0, here as int, 0, 13),
    {
        let ghost start = cells@;
        relax(cells, edge, here, 0, 13, marks);
        proof {
            lemma_kept_zero(start, cells@, e, marks@, here as int);
            lemma_settle_forward(start, cells@, e, here as int);
        }
    }
    let ghost forward = cells@;
    proof {
        lemma_settled(forward, e);
    }
    // Backward: the same for neighbours stored after.
    let mut left = total;
    while left > 0
        invariant
            e == edge,
            1 <= edge,
            left <= total,
            cells@.len() == total == cell_count(e) <= u32::MAX,
            forward.len() == total,
            not_low(cells@, e, marks@),
            forall|i: int| 0 <= i < total ==> #[trigger] cells@[i] <= forward[i],
            settled_range(cells@, e, left as int, total as int, 14, 27),
        decreases left,
    {
        let ghost start = cells@;
        left = left - 1;
        relax(cells, edge, left, 14, 27, marks);
        proof {
            lemma_settle_backward(start, cells@, e, left as int);
            assert forall|i: int| 0 <= i < total implies #[trigger] cells@[i] <= forward[i] by {
                assert(start[i] <= forward[i]);
            }
        }
    }
    proof {
        lemma_swept(forward, cells@, e, marks@);
    }
}

/// What both passes come to.
proof fn lemma_swept(forward: Seq<u8>, t: Seq<u8>, e: int, marks: spec_fn(UVec3) -> bool)
    requires
        forward.len() == t.len() == cell_count(e),
        settled_forward(forward, e),
        marks_zero(forward, e, marks),
        settled_range(t, e, 0, t.len() as int, 14, 27),
        not_low(t, e, marks),
        forall|i: int| 0 <= i < t.len() ==> #[trigger] t[i] <= forward[i],
    ensures
        exact(t, e, marks),
{
    lemma_settled(t, e);
    assert forall|c: UVec3| c.within(e) implies #[trigger] value(t, e, c) <= value(
        forward,
        e,
        c,
    ) by {
        lemma_stored_at(e, c);
    }
    assert forall|c: UVec3, s: UVec3|
        c.within(e) && #[trigger] marked_cell(marks, e, s) implies #[trigger] value(t, e, c)
        <= apart_by(c, s) by {
        lemma_backward(forward, t, e, marks, c, s);
    }
    assert forall|c: UVec3| c.within(e) implies #[trigger] value(t, e, c) <= MAX_DISTANCE && (value(
        t,
        e,
        c,
    ) == MAX_DISTANCE || exists|s: UVec3| #[trigger]
        marked_cell(marks, e, s) && apart_by(c, s) == value(t, e, c)) by {
        if value(t, e, c) != MAX_DISTANCE {
            let s = choose|s: UVec3| #[trigger]
                marked_cell(marks, e, s) && apart_by(c, s) <= value(t, e, c);
            assert(value(t, e, c) <= apart_by(c, s));
            assert(marked_cell(marks, e, s) && apart_by(c, s) == value(t, e, c));
        }
    }
}

/// The cells stored in `lo..hi` are no more than one above the neighbours that
/// steps `first..last` lead to.
spec fn settled_range(
    cells: Seq<u8>,
    edge: int,
    lo: int,
    hi: int,
    first: int,
    last: int,
) -> bool {
    forall|i: int, k: int|
        lo <= i < hi && first <= k < last && #[trigger] steps_inside(edge, cell_stored(edge, i), k)
            ==> cells[i] <= value(cells, edge, stepped(cell_stored(edge, i), k)) + 1
}

proof fn lemma_settled(cells: Seq<u8>, edge: int)
    requires
        cells.len() == cell_count(edge),
    ensures
        settled_range(cells, edge, 0, cells.len() as int, 0, 13) ==> settled_forward(cells, edge),
        settled_range(cells, edge, 0, cells.len() as int, 14, 27) ==> settled_backward(cells, edge),
{
    assert forall|c: UVec3, k: int| c.within(edge) && #[trigger] steps_inside(edge, c, k) implies {
        let i = cell_index(edge, c.x as int, c.y as int, c.z as int);
        0 <= i < cells.len() && steps_inside(edge, cell_stored(edge, i), k) && cell_stored(edge, i)
            == c
    } by {
        lemma_stored_at(edge, c);
    }
}

/// Relaxing the next cell forward settles one more, and disturbs none before it.
proof fn lemma_settle_forward(before: Seq<u8>, after: Seq<u8>, edge: int, here: int)
    requires
        1 <= edge <= u32::MAX,
        before.len() == after.len() == cell_count(edge),
        0 <= here < before.len(),
        settled_range(before, edge, 0, here, 0, 13),
        forall|i: int| 0 <= i < before.len() && i != here ==> #[trigger] after[i] == before[i],
        forall|k: int|
            0 <= k < 13 && #[trigger] steps_inside(edge, cell_stored(edge, here), k)
                ==> after[here] <= value(before, edge, stepped(cell_stored(edge, here), k)) + 1,
    ensures
        settled_range(after, edge, 0, here + 1, 0, 13),
{
    assert forall|i: int, k: int|
        0 <= i < here + 1 && 0 <= k < 13 && #[trigger] steps_inside(
            edge,
            cell_stored(edge, i),
            k,
        ) implies after[i] <= value(after, edge, stepped(cell_stored(edge, i), k)) + 1 by {
        lemma_stored(edge, i);
        lemma_step_order(edge, cell_stored(edge, i), k);
        let n = stepped(cell_stored(edge, i), k);
        assert(value(after, edge, n) == value(before, edge, n));
    }
}

/// Relaxing the next cell backward settles one more, and disturbs none after it.
proof fn lemma_settle_backward(before: Seq<u8>, after: Seq<u8>, edge: int, here: int)
    requires
        1 <= edge <= u32::MAX,
        before.len() == after.len() == cell_count(edge),
        0 <= here < before.len(),
        settled_range(before, edge, here + 1, before.len() as int, 14, 27),
        forall|i: int| 0 <= i < before.len() && i != here ==> #[trigger] after[i] == before[i],
        forall|k: int|
            14 <= k < 27 && #[trigger] steps_inside(edge, cell_stored(edge, here), k)
                ==> after[here] <= value(before, edge, stepped(cell_stored(edge, here), k)) + 1,
    ensures
        settled_range(after, edge, here, before.len() as int, 14, 27),
{
    assert forall|i: int, k: int|
        here <= i < before.len() && 14 <= k < 27 && #[trigger] steps_inside(
            edge,
            cell_stored(edge, i),
            k,
        ) implies after[i] <= value(after, edge, stepped(cell_stored(edge, i), k)) + 1 by {
        lemma_stored(edge, i);
        lemma_step_order(edge, cell_stored(edge, i), k);
        lemma_stored_distinct(edge, cell_stored(edge, i), k);
        let n = stepped(cell_stored(edge, i), k);
        assert(value(after, edge, n) == value(before, edge, n));
    }
}

/// A step leads to another place.
proof fn lemma_stored_distinct(edge: int, c: UVec3, k: int)
    requires
        edge <= u32::MAX,
        c.within(edge),
        0 <= k < 27,
        k != 13,
        steps_inside(edge, c, k),
    ensures
        cell_index(
            edge,
            stepped(c, k).x as int,
            stepped(c, k).y as int,
            stepped(c, k).z as int,
        ) != cell_index(edge, c.x as int, c.y as int, c.z as int),
{
    let n = stepped(c, k);
    lemma_step_order(edge, c, k);
    if cell_index(edge, n.x as int, n.y as int, n.z as int) == cell_index(
        edge,
        c.x as int,
        c.y as int,
        c.z as int,
    ) {
        lemma_cell_injective(
            edge,
            n.x as int,
            n.y as int,
            n.z as int,
            c.x as int,
            c.y as int,
            c.z as int,
        );
    }
}

/// Lowering one cell leaves the marked ones at zero.
proof fn lemma_kept_zero(
    before: Seq<u8>,
    after: Seq<u8>,
    edge: int,
    marks: spec_fn(UVec3) -> bool,
    here: int,
)
    requires
        before.len() == after.len() == cell_count(edge),
        marks_zero(before, edge, marks),
        forall|i: int| 0 <= i < before.len() && i != here ==> #[trigger] after[i] == before[i],
        0 <= here < before.len(),
        before[here] == 0 ==> after[here] == 0,
    ensures
        marks_zero(after, edge, marks),
{
    assert forall|s: UVec3| #[trigger] marked_cell(marks, edge, s) implies value(after, edge, s)
        == 0 by {
        lemma_stored_at(edge, s);
        assert(value(before, edge, s) == 0);
    }
}

/// The cell a voxel lies in.
pub open spec fn voxel_cell(p: UVec3) -> UVec3 {
    UVec3 {
        x: (p.x as int / 16) as u32,
        y: (p.y as int / 16) as u32,
        z: (p.z as int / 16) as u32,
    }
}

/// Whether a voxel is solid.
pub open spec fn solid_voxel(f: spec_fn(int, int, int) -> u8, p: UVec3) -> bool {
    f(p.x as int, p.y as int, p.z as int) != 0
}

/// Whether a solid voxel of a cube lies in a cell.
pub open spec fn solid_in(
    f: spec_fn(int, int, int) -> u8,
    cell: UVec3,
    x: int,
    y: int,
    z: int,
    extent: int,
) -> bool {
    exists|p: UVec3| #[trigger]
        solid_voxel(f, p) && in_cube(p, x, y, z, extent) && voxel_cell(p) == cell
}

/// Whether a cell of the coarse grid holds a solid voxel of the tree.
pub open spec fn solid_cell(tree: Contree) -> spec_fn(UVec3) -> bool {
    |c: UVec3| solid_in(tree.field(), c, 0, 0, 0, tree.side())
}

/// A whole number of steps.
pub open spec fn aligned(v: int, step: int) -> bool {
    v % step == 0
}

/// A child of an aligned cube is aligned.
pub proof fn lemma_child_aligned(v: int, c: int, step: int)
    requires
        step >= 1,
        aligned(v, 4 * step),
    ensures
        aligned(v + c * step, step),
{
    vstd::arithmetic::div_mod::lemma_fundamental_div_mod(v, 4 * step);
    let q = v / (4 * step);
    assert(v + c * step == (4 * q + c) * step + 0) by (nonlinear_arith)
        requires
            v == (4 * step) * q,
    ;
    vstd::arithmetic::div_mod::lemma_fundamental_div_mod_converse(
        v + c * step,
        step,
        4 * q + c,
        0,
    );
}

/// The extents are 4, 16, and multiples of 64.
pub proof fn lemma_extent_cells(level: int)
    requires
        0 <= level,
    ensures
        level == 0 ==> extent_of(level) == 4,
        level == 1 ==> extent_of(level) == 16,
        level >= 2 ==> extent_of(level) >= 64,
        level >= 1 ==> extent_of(level) % 16 == 0,
    decreases level,
{
    reveal_with_fuel(extent_of, 3);
    if level >= 2 {
        lemma_extent_cells(level - 1);
    }
}

/// An aligned cube lies in one cell, or covers whole cells.
pub proof fn lemma_aligned_cells(v: int, level: int)
    requires
        0 <= level,
        0 <= v,
        aligned(v, extent_of(level)),
    ensures
        level <= 1 ==> (v + extent_of(level) - 1) / 16 == v / 16,
        level >= 1 ==> v % 16 == 0,
{
    lemma_extent_cells(level);
    let e = extent_of(level);
    if level >= 1 {
        vstd::arithmetic::div_mod::lemma_fundamental_div_mod(v, e);
        vstd::arithmetic::div_mod::lemma_fundamental_div_mod(e, 16);
        let q = v / e;
        let r = e / 16;
        assert(v == (r * q) * 16) by (nonlinear_arith)
            requires
                v == e * q,
                e == 16 * r,
        ;
    }
}

/// Sets every cell of a box to zero.
fn zero_box(cells: &mut Vec<u8>, edge: u32, lo: UVec3, hi: UVec3)
    requires
        hi.within(edge as int),
        old(cells)@.len() == cell_count(edge as int) <= u32::MAX,
    ensures
        final(cells)@.len() == old(cells)@.len(),
        forall|c: UVec3|
            c.within(edge as int) ==> #[trigger] value(final(cells)@, edge as int, c) == if in_box(
                lo,
                hi,
                c.x as int,
                c.y as int,
                c.z as int,
            ) {
                0
            } else {
                value(old(cells)@, edge as int, c)
            },
{
    let ghost e = edge as int;
    let ghost start = cells@;
    let mut z = lo.z;
    while z <= hi.z
        invariant
            lo.z <= z,
            e == edge,
            hi.within(e),
            cells@.len() == start.len() == cell_count(e) <= u32::MAX,
            forall|c: UVec3|
                c.within(e) ==> #[trigger] value(cells@, e, c) == if in_box(
                    lo,
                    hi,
                    c.x as int,
                    c.y as int,
                    c.z as int,
                ) && c.z < z {
                    0
                } else {
                    value(start, e, c)
                },
        decreases hi.z + 1 - z,
    {
        let mut y = lo.y;
        while y <= hi.y
            invariant
                lo.y <= y,
                e == edge,
                hi.within(e),
                lo.z <= z <= hi.z,
                cells@.len() == start.len() == cell_count(e) <= u32::MAX,
                forall|c: UVec3|
                    c.within(e) ==> #[trigger] value(cells@, e, c) == if in_box(
                        lo,
                        hi,
                        c.x as int,
                        c.y as int,
                        c.z as int,
                    ) && (c.z < z || c.z == z && c.y < y) {
                        0
                    } else {
                        value(start, e, c)
                    },
            decreases hi.y + 1 - y,
        {
            let mut x = lo.x;
            while x <= hi.x
                invariant
                    lo.x <= x,
                    e == edge,
                    hi.within(e),
                    lo.z <= z <= hi.z,
                    lo.y <= y <= hi.y,
                    cells@.len() == start.len() == cell_count(e) <= u32::MAX,
                    forall|c: UVec3|
                        c.within(e) ==> #[trigger] value(cells@, e, c) == if in_box(
                            lo,
                            hi,
                            c.x as int,
                            c.y as int,
                            c.z as int,
                        ) && (c.z < z || c.z == z && (c.y < y || c.y == y && c.x < x)) {
                            0
                        } else {
                            value(start, e, c)
                        },
                decreases hi.x + 1 - x,
            {
                let ghost before = cells@;
                let i = index_of(edge, x, y, z);
                cells.set(i, 0);
                proof {
                    let at = UVec3 { x, y, z };
                    lemma_value_set(before, e, at, 0);
                    assert(i == cell_index(e, x as int, y as int, z as int));
                    assert(cells@ == before.update(i as int, 0));
                    assert forall|c: UVec3| c.within(e) implies #[trigger] value(cells@, e, c)
                        == if in_box(lo, hi, c.x as int, c.y as int, c.z as int) && (c.z < z || c.z
                        == z && (c.y < y || c.y == y && c.x < x + 1)) {
                        0
                    } else {
                        value(start, e, c)
                    } by {
                        assert(value(cells@, e, c) == if c == at {
                            0
                        } else {
                            value(before, e, c)
                        });
                    }
                }
                x = x + 1;
            }
            y = y + 1;
        }
        z = z + 1;
    }
}

/// Writing one cell changes that cell alone.
pub proof fn lemma_value_set(cells: Seq<u8>, edge: int, at: UVec3, v: u8)
    requires
        at.within(edge),
        cells.len() == cell_count(edge),
    ensures
        ({
            let i = cell_index(edge, at.x as int, at.y as int, at.z as int);
            forall|c: UVec3|
                c.within(edge) ==> #[trigger] value(cells.update(i, v), edge, c) == if c == at {
                    v
                } else {
                    value(cells, edge, c)
                }
        }),
{
    let i = cell_index(edge, at.x as int, at.y as int, at.z as int);
    lemma_stored_at(edge, at);
    assert forall|c: UVec3| c.within(edge) implies #[trigger] value(cells.update(i, v), edge, c)
        == if c == at {
        v
    } else {
        value(cells, edge, c)
    } by {
        lemma_stored_at(edge, c);
    }
}

/// Zeroes every cell a non-empty node covers.
///
/// Walks the tree rather than probing every voxel. Probing would be
/// `cells x 4096` lookups, about a billion at extent 1024, where the walk is
/// linear in occupied nodes and stops as soon as a node fits inside a cell.
fn mark_solid(
    tree: &Contree,
    node: Node,
    level: u32,
    origin: UVec3,
    cells: &mut Vec<u8>,
    edge: u32,
    f: Ghost<spec_fn(int, int, int) -> u8>,
)
    requires
        level <= 14,
        fits(tree.slots()),
        wf(tree.slots(), node, level as int),
        stands_for(
            f@,
            tree.slots(),
            node,
            level as int,
            origin.x as int,
            origin.y as int,
            origin.z as int,
        ),
        origin.x + extent_of(level as int) <= 16 * edge,
        origin.y + extent_of(level as int) <= 16 * edge,
        origin.z + extent_of(level as int) <= 16 * edge,
        aligned(origin.x as int, extent_of(level as int)),
        aligned(origin.y as int, extent_of(level as int)),
        aligned(origin.z as int, extent_of(level as int)),
        edge <= 0x400_0000,
        old(cells)@.len() == cell_count(edge as int) <= u32::MAX,
    ensures
        final(cells)@.len() == old(cells)@.len(),
        forall|c: UVec3|
            c.within(edge as int) ==> {
                let solid = solid_in(
                    f@,
                    c,
                    origin.x as int,
                    origin.y as int,
                    origin.z as int,
                    extent_of(level as int),
                );
                let now = #[trigger] value(final(cells)@, edge as int, c);
                let was = value(old(cells)@, edge as int, c);
                &&& now == was || now == 0
                &&& solid ==> now == 0
                &&& orderly_at(tree.slots(), node, level as int) && now == 0 && was != 0 ==> solid
            },
    decreases level,
{
    let ghost s = tree.slots();
    let ghost lv = level as int;
    let ghost e = edge as int;
    let ghost (x, y, z) = (origin.x as int, origin.y as int, origin.z as int);
    let ghost start = cells@;
    proof {
        lemma_extent(lv);
        lemma_extent_cells(lv);
    }
    if node.is_empty() {
        proof {
            assert forall|c: UVec3| c.within(e) implies !solid_in(
                f@,
                c,
                x,
                y,
                z,
                extent_of(lv),
            ) by {
                if solid_in(f@, c, x, y, z, extent_of(lv)) {
                    let p = choose|p: UVec3| #[trigger]
                        solid_voxel(f@, p) && in_cube(p, x, y, z, extent_of(lv)) && voxel_cell(p)
                            == c;
                    lemma_uniform(s, node, lv, p.x - x, p.y - y, p.z - z);
                    assert(voxel_at(s, node, lv, p.x - x, p.y - y, p.z - z) == f@(
                        x + (p.x - x),
                        y + (p.y - y),
                        z + (p.z - z),
                    ));
                }
            }
        }
        return;
    }
    let extent = level_extent(level);
    // A node no larger than a cell, or one with no structure left to descend
    // into, marks the cells it covers and stops. Levels 0 and 1 have extents 4
    // and 16, so this also guarantees the walk never reaches voxel children,
    // which live in a different arena and have no node to recurse on.
    if extent <= CELL_VOXELS || !node.is_subdivided() {
        let lo = UVec3::new(
            origin.x / CELL_VOXELS,
            origin.y / CELL_VOXELS,
            origin.z / CELL_VOXELS,
        );
        let hi = UVec3::new(
            (origin.x + (extent - 1)) / CELL_VOXELS,
            (origin.y + (extent - 1)) / CELL_VOXELS,
            (origin.z + (extent - 1)) / CELL_VOXELS,
        );
        zero_box(cells, edge, lo, hi);
        proof {
            lemma_aligned_cells(x, lv);
            lemma_aligned_cells(y, lv);
            lemma_aligned_cells(z, lv);
            assert forall|c: UVec3| c.within(e) implies {
                let solid = solid_in(f@, c, x, y, z, extent_of(lv));
                let now = #[trigger] value(cells@, e, c);
                let was = value(start, e, c);
                &&& now == was || now == 0
                &&& solid ==> now == 0
                &&& orderly_at(s, node, lv) && now == 0 && was != 0 ==> solid
            } by {
                let covered = in_box(lo, hi, c.x as int, c.y as int, c.z as int);
                if solid_in(f@, c, x, y, z, extent_of(lv)) {
                    let p = choose|p: UVec3| #[trigger]
                        solid_voxel(f@, p) && in_cube(p, x, y, z, extent_of(lv)) && voxel_cell(p)
                            == c;
                    assert(covered);
                }
                if covered && orderly_at(s, node, lv) {
                    if node.mask == 0 && lv >= 1 {
                        let p = UVec3 {
                            x: (16 * c.x) as u32,
                            y: (16 * c.y) as u32,
                            z: (16 * c.z) as u32,
                        };
                        lemma_uniform(s, node, lv, p.x - x, p.y - y, p.z - z);
                        assert(voxel_at(s, node, lv, p.x - x, p.y - y, p.z - z) == f@(
                            x + (p.x - x),
                            y + (p.y - y),
                            z + (p.z - z),
                        ));
                        assert(solid_voxel(f@, p) && in_cube(p, x, y, z, extent_of(lv))
                            && voxel_cell(p) == c);
                    } else {
                        let (dx, dy, dz) = lemma_orderly_solid(s, node, lv);
                        let p = UVec3 {
                            x: (x + dx) as u32,
                            y: (y + dy) as u32,
                            z: (z + dz) as u32,
                        };
                        assert(voxel_at(s, node, lv, dx, dy, dz) == f@(x + dx, y + dy, z + dz));
                        assert(solid_voxel(f@, p) && in_cube(p, x, y, z, extent_of(lv))
                            && voxel_cell(p) == c);
                    }
                }
            }
        }
        return;
    }
    let step = level_extent(level - 1);
    for i in 0..CHILDREN
        invariant
            2 <= level <= 14,
            lv == level,
            e == edge,
            s == tree.slots(),
            fits(s),
            wf(s, node, lv),
            node.mask != 0,
            stands_for(f@, s, node, lv, x, y, z),
            (x, y, z) == (origin.x as int, origin.y as int, origin.z as int),
            x + extent_of(lv) <= 16 * edge,
            y + extent_of(lv) <= 16 * edge,
            z + extent_of(lv) <= 16 * edge,
            aligned(x, extent_of(lv)),
            aligned(y, extent_of(lv)),
            aligned(z, extent_of(lv)),
            edge <= 0x400_0000,
            step == extent_of(lv - 1),
            step >= 4,
            extent_of(lv) == 4 * step,
            cells@.len() == start.len() == cell_count(e) <= u32::MAX,
            forall|c: UVec3|
                c.within(e) ==> {
                    let now = #[trigger] value(cells@, e, c);
                    let was = value(start, e, c);
                    &&& now == was || now == 0
                    &&& solid_upto(f@, c, lv, x, y, z, i as int) ==> now == 0
                    &&& orderly_at(s, node, lv) && now == 0 && was != 0 ==> solid_in(
                        f@,
                        c,
                        x,
                        y,
                        z,
                        extent_of(lv),
                    )
                },
    {
        let ghost before = cells@;
        let ghost (cx, cy, cz) = (
            child_x(x, i as int, lv),
            child_y(y, i as int, lv),
            child_z(z, i as int, lv),
        );
        let ghost child = kid(s, node, i as int);
        proof {
            lemma_cell(i as int);
            lemma_child_inside(x, y, z, lv, i as int);
            lemma_cell_inside(i as int % 4, step as int);
            lemma_cell_inside((i as int / 4) % 4, step as int);
            lemma_cell_inside(i as int / 16, step as int);
            lemma_child_aligned(x, i as int % 4, step as int);
            lemma_child_aligned(y, (i as int / 4) % 4, step as int);
            lemma_child_aligned(z, i as int / 16, step as int);
            if bit(node.mask, i as int) {
                lemma_slot_in_block(node, i as int);
            }
            assert(wf(s, child, lv - 1));
            lemma_child_stands(f@, s, node, lv, x, y, z, i as int);
        }
        if let Some(slot) = node.child_slot(i) {
            let child_origin = UVec3::new(
                origin.x + (i % BRICK_EDGE) * step,
                origin.y + ((i / BRICK_EDGE) % BRICK_EDGE) * step,
                origin.z + (i / (BRICK_EDGE * BRICK_EDGE)) * step,
            );
            mark_solid(tree, tree.arena().node(slot), level - 1, child_origin, cells, edge, f);
        }
        proof {
            assert forall|c: UVec3| c.within(e) implies {
                let now = #[trigger] value(cells@, e, c);
                let was = value(start, e, c);
                &&& now == was || now == 0
                &&& solid_upto(f@, c, lv, x, y, z, i + 1) ==> now == 0
                &&& orderly_at(s, node, lv) && now == 0 && was != 0 ==> solid_in(
                    f@,
                    c,
                    x,
                    y,
                    z,
                    extent_of(lv),
                )
            } by {
                let mid = value(before, e, c);
                let here = solid_in(f@, c, cx, cy, cz, extent_of(lv - 1));
                if here {
                    lemma_solid_wider(f@, c, cx, cy, cz, extent_of(lv - 1), x, y, z, extent_of(lv));
                    if !bit(node.mask, i as int) {
                        let p = choose|p: UVec3| #[trigger]
                            solid_voxel(f@, p) && in_cube(p, cx, cy, cz, extent_of(lv - 1))
                                && voxel_cell(p) == c;
                        lemma_uniform(s, child, lv - 1, p.x - cx, p.y - cy, p.z - cz);
                        assert(voxel_at(s, child, lv - 1, p.x - cx, p.y - cy, p.z - cz) == f@(
                            cx + (p.x - cx),
                            cy + (p.y - cy),
                            cz + (p.z - cz),
                        ));
                    }
                }
                if solid_upto(f@, c, lv, x, y, z, i + 1) && !solid_upto(
                    f@,
                    c,
                    lv,
                    x,
                    y,
                    z,
                    i as int,
                ) {
                    let j = choose|j: int|
                        0 <= j < i + 1 && #[trigger] solid_in_child(f@, c, lv, x, y, z, j);
                    assert(j == i) by {
                        if j < i {
                            assert(solid_in_child(f@, c, lv, x, y, z, j));
                        }
                    }
                }
                if orderly_at(s, node, lv) {
                    assert(tidy(s, child, lv - 1));
                    assert(in_bytes(s, child, lv - 1));
                    assert(orderly_at(s, child, lv - 1));
                }
            }
        }
    }
    proof {
        assert forall|c: UVec3| c.within(e) implies {
            let solid = solid_in(f@, c, x, y, z, extent_of(lv));
            let now = #[trigger] value(cells@, e, c);
            solid ==> now == 0
        } by {
            if solid_in(f@, c, x, y, z, extent_of(lv)) {
                let p = choose|p: UVec3| #[trigger]
                    solid_voxel(f@, p) && in_cube(p, x, y, z, extent_of(lv)) && voxel_cell(p) == c;
                lemma_place_in_child(p, x, y, z, lv);
                let j = cell_at(p, x, y, z, lv);
                assert(in_cube(
                    p,
                    child_x(x, j, lv),
                    child_y(y, j, lv),
                    child_z(z, j, lv),
                    extent_of(lv - 1),
                ));
                assert(solid_in_child(f@, c, lv, x, y, z, j));
            }
        }
    }
}

/// Whether a solid voxel of child `j` lies in a cell.
pub open spec fn solid_in_child(
    f: spec_fn(int, int, int) -> u8,
    cell: UVec3,
    level: int,
    x: int,
    y: int,
    z: int,
    j: int,
) -> bool {
    solid_in(
        f,
        cell,
        child_x(x, j, level),
        child_y(y, j, level),
        child_z(z, j, level),
        extent_of(level - 1),
    )
}

/// Whether a solid voxel of the first `n` children lies in a cell.
spec fn solid_upto(
    f: spec_fn(int, int, int) -> u8,
    cell: UVec3,
    level: int,
    x: int,
    y: int,
    z: int,
    n: int,
) -> bool {
    exists|j: int| 0 <= j < n && #[trigger] solid_in_child(f, cell, level, x, y, z, j)
}

/// A solid voxel of a cube is one of any cube around it.
proof fn lemma_solid_wider(
    f: spec_fn(int, int, int) -> u8,
    cell: UVec3,
    x: int,
    y: int,
    z: int,
    extent: int,
    x2: int,
    y2: int,
    z2: int,
    extent2: int,
)
    requires
        solid_in(f, cell, x, y, z, extent),
        x2 <= x && x + extent <= x2 + extent2,
        y2 <= y && y + extent <= y2 + extent2,
        z2 <= z && z + extent <= z2 + extent2,
    ensures
        solid_in(f, cell, x2, y2, z2, extent2),
{
    let p = choose|p: UVec3| #[trigger]
        solid_voxel(f, p) && in_cube(p, x, y, z, extent) && voxel_cell(p) == cell;
    assert(solid_voxel(f, p) && in_cube(p, x2, y2, z2, extent2) && voxel_cell(p) == cell);
}

/// How far outside `lo..=hi` a coordinate lies.
pub open spec fn outside_by(c: int, lo: int, hi: int) -> int {
    if lo - c > 0 && lo - c >= c - hi {
        lo - c
    } else if c - hi > 0 {
        c - hi
    } else {
        0
    }
}

/// The Chebyshev distance from a cell to the box of cells `lo..=hi`.
pub open spec fn box_gap(c: UVec3, lo: IVec3, hi: IVec3) -> int {
    reach_of(
        outside_by(c.x as int, lo.x as int, hi.x as int),
        outside_by(c.y as int, lo.y as int, hi.y as int),
        outside_by(c.z as int, lo.z as int, hi.z as int),
    )
}

/// The smaller of two values.
pub open spec fn lesser(a: int, b: int) -> int {
    if a < b {
        a
    } else {
        b
    }
}

/// Every cell of the box `lo..=hi` is lowered to its distance from the painted
/// box of cells, and no other cell changes.
pub open spec fn lowered(
    before: Seq<u8>,
    after: Seq<u8>,
    edge: int,
    lo: UVec3,
    hi: UVec3,
    solid_lo: IVec3,
    solid_hi: IVec3,
) -> bool {
    &&& after.len() == before.len()
    &&& forall|c: UVec3|
        c.within(edge) ==> #[trigger] value(after, edge, c) == if in_box(
            lo,
            hi,
            c.x as int,
            c.y as int,
            c.z as int,
        ) {
            lesser(
                value(before, edge, c) as int,
                lesser(box_gap(c, solid_lo, solid_hi), MAX_DISTANCE as int),
            )
        } else {
            value(before, edge, c) as int
        }
}

fn gap_along(c: u32, lo: i32, hi: i32) -> (gap: i64)
    ensures
        gap == outside_by(c as int, lo as int, hi as int),
        0 <= gap,
{
    let below: i64 = lo as i64 - c as i64;
    let above: i64 = c as i64 - hi as i64;
    if below > 0 && below >= above {
        below
    } else if above > 0 {
        above
    } else {
        0
    }
}

fn gap_to_box(c: UVec3, lo: IVec3, hi: IVec3) -> (gap: i64)
    ensures
        gap == box_gap(c, lo, hi),
        0 <= gap,
{
    let x: i64 = gap_along(c.x, lo.x, hi.x);
    let y: i64 = gap_along(c.y, lo.y, hi.y);
    let z: i64 = gap_along(c.z, lo.z, hi.z);
    if x >= y && x >= z {
        x
    } else if y >= z {
        y
    } else {
        z
    }
}

impl DistanceField {
    /// The raw grid.
    pub closed spec fn grid(&self) -> Seq<u8> {
        self.cells@
    }

    /// Cells along each axis.
    pub closed spec fn span(&self) -> u32 {
        self.edge
    }

    /// One byte for every cell, and places that fit 32 bits.
    pub open spec fn wf(&self) -> bool {
        &&& self.span() >= 1
        &&& self.grid().len() == cell_count(self.span() as int)
        &&& self.grid().len() <= u32::MAX
    }

    /// Cells per axis.
    pub fn edge(&self) -> (edge: u32)
        ensures
            edge == self.span(),
    {
        self.edge
    }

    /// The raw grid, row major: `x + y * edge + z * edge * edge`.
    pub fn cells(&self) -> (cells: &[u8])
        ensures
            cells@ == self.grid(),
    {
        self.cells.as_slice()
    }

    /// The field value of a cell; zero outside the grid.
    pub fn get(&self, cell: UVec3) -> (distance: u8)
        requires
            self.wf(),
        ensures
            distance == if cell.within(self.span() as int) {
                value(self.grid(), self.span() as int, cell)
            } else {
                0
            },
            cell.x < self.span() && cell.y < self.span() && cell.z < self.span() ==> distance
                == self.grid()[cell.x + cell.y * self.span() + cell.z * self.span() * self.span()],
    {
        if cell.x >= self.edge || cell.y >= self.edge || cell.z >= self.edge {
            return 0;
        }
        self.cells[index_of(self.edge, cell.x, cell.y, cell.z)]
    }

    /// The field value covering a voxel coordinate.
    pub fn sample_voxel(&self, p: UVec3) -> (distance: u8)
        requires
            self.wf(),
        ensures
            distance == if voxel_cell(p).within(self.span() as int) {
                value(self.grid(), self.span() as int, voxel_cell(p))
            } else {
                0
            },
            p.x / 16 < self.span() && p.y / 16 < self.span() && p.z / 16 < self.span()
                ==> distance == self.grid()[p.x / 16 + (p.y / 16) * self.span() + (p.z / 16)
                * self.span() * self.span()],
    {
        self.get(UVec3::new(p.x / CELL_VOXELS, p.y / CELL_VOXELS, p.z / CELL_VOXELS))
    }

    /// Builds the field for a whole tree.
    ///
    /// Two sweeps of a chamfer transform with all-one weights over all 26
    /// neighbours, which is exactly the Chebyshev distance: forward in storage
    /// order taking the neighbours stored before, then backward taking those
    /// stored after.
    pub fn build(tree: &Contree) -> (field: DistanceField)
        requires
            tree.readable(),
            tree.side() <= 16384,
        ensures
            field.wf(),
            field.span() == if tree.side() < 16 {
                1
            } else {
                tree.side() / 16
            },
            conservative(field.grid(), field.span() as int, solid_cell(*tree)),
            tree.orderly() ==> exact(field.grid(), field.span() as int, solid_cell(*tree)),
    {
        let extent = tree.extent();
        let edge: u32 = if extent < CELL_VOXELS { 1 } else { extent / CELL_VOXELS };
        let ghost e = edge as int;
        let ghost level = tree.height();
        proof {
            lemma_extent_cells(level);
            assert(extent == extent_of(level));
            assert(extent_of(level) <= 16 * edge);
            assert(edge * edge * edge <= 1024 * 1024 * 1024) by (nonlinear_arith)
                requires
                    0 <= edge <= 1024,
            ;
            assert(0 <= edge * edge <= 1024 * 1024) by (nonlinear_arith)
                requires
                    0 <= edge <= 1024,
            ;
        }
        let total: u32 = edge * edge * edge;
        let mut cells: Vec<u8> = vec![MAX_DISTANCE; total as usize];
        let ghost start = cells@;
        let ghost f = tree.field();
        proof {
            assert forall|c: UVec3| c.within(e) implies #[trigger] value(start, e, c)
                == MAX_DISTANCE by {
                lemma_stored_at(e, c);
            }
            assert(aligned(0, extent_of(level))) by {
                lemma_extent(level);
                vstd::arithmetic::div_mod::lemma_small_mod(0, extent_of(level) as nat);
            }
        }
        mark_solid(
            tree,
            tree.root(),
            tree.depth() - 1,
            UVec3::new(0, 0, 0),
            &mut cells,
            edge,
            Ghost(f),
        );
        let ghost zeroed = cells@;
        let ghost marks = |c: UVec3| value(zeroed, e, c) == 0;
        proof {
            assert forall|c: UVec3| c.within(e) implies #[trigger] value(zeroed, e, c)
                <= MAX_DISTANCE && (value(zeroed, e, c) == MAX_DISTANCE || exists|s: UVec3|
                #[trigger]
                marked_cell(marks, e, s) && apart_by(c, s) <= value(zeroed, e, c)) by {
                assert(value(start, e, c) == MAX_DISTANCE);
                if value(zeroed, e, c) == 0 {
                    assert(marked_cell(marks, e, c) && apart_by(c, c) <= value(zeroed, e, c));
                }
            }
        }
        sweep(&mut cells, edge, Ghost(marks));
        proof {
            let solid = solid_cell(*tree);
            assert forall|s: UVec3| #[trigger] marked_cell(solid, e, s) implies marked_cell(
                marks,
                e,
                s,
            ) by {
                assert(value(zeroed, e, s) == 0);
            }
            if tree.orderly() {
                assert forall|s: UVec3| #[trigger] marked_cell(marks, e, s) implies marked_cell(
                    solid,
                    e,
                    s,
                ) by {
                    assert(value(start, e, s) == MAX_DISTANCE);
                    assert(value(zeroed, e, s) == 0);
                }
            }
            assert(conservative(cells@, e, solid)) by {
                assert forall|c: UVec3, s: UVec3|
                    c.within(e) && #[trigger] marked_cell(solid, e, s) implies #[trigger] value(
                    cells@,
                    e,
                    c,
                ) <= apart_by(c, s) by {
                    assert(marked_cell(marks, e, s));
                }
            }
        }
        DistanceField { cells, edge }
    }

    /// Lowers the field to account for new geometry in the box of cells
    /// `solid_lo..=solid_hi`, in the cells `lo..=hi` around it.
    ///
    /// Returns the contiguous cell range touched, for upload. Only lowering is
    /// ever needed: a cell beyond `MAX_DISTANCE` of the edit already stores a
    /// value no larger than its true distance.
    pub fn lower_around(&mut self, lo: UVec3, hi: UVec3, solid_lo: IVec3, solid_hi: IVec3) -> (range:
        Range<u32>)
        requires
            old(self).wf(),
            lo.within(old(self).span() as int),
            hi.within(old(self).span() as int),
        ensures
            final(self).wf(),
            final(self).span() == old(self).span(),
            lowered(
                old(self).grid(),
                final(self).grid(),
                old(self).span() as int,
                lo,
                hi,
                solid_lo,
                solid_hi,
            ),
            range.start == cell_index(
                old(self).span() as int,
                lo.x as int,
                lo.y as int,
                lo.z as int,
            ),
            range.end == cell_index(
                old(self).span() as int,
                hi.x as int,
                hi.y as int,
                hi.z as int,
            ) + 1,
            forall|i: int|
                0 <= i < old(self).grid().len() && #[trigger] final(self).grid()[i] != old(self).grid()[i] ==> range.start <= i < range.end,
    {
        let edge = self.edge;
        let ghost e = edge as int;
        let ghost start = self.cells@;
        let mut z = lo.z;
        while z <= hi.z
            invariant
                lo.z <= z,
                e == edge == self.edge,
                1 <= edge,
                hi.within(e),
                self.cells@.len() == start.len() == cell_count(e) <= u32::MAX,
                forall|c: UVec3|
                    c.within(e) ==> #[trigger] value(self.cells@, e, c) == if in_box(
                        lo,
                        hi,
                        c.x as int,
                        c.y as int,
                        c.z as int,
                    ) && c.z < z {
                        lesser(
                            value(start, e, c) as int,
                            lesser(box_gap(c, solid_lo, solid_hi), MAX_DISTANCE as int),
                        )
                    } else {
                        value(start, e, c) as int
                    },
            decreases hi.z + 1 - z,
        {
            let mut y = lo.y;
            while y <= hi.y
                invariant
                    lo.y <= y,
                    e == edge == self.edge,
                    1 <= edge,
                    hi.within(e),
                    lo.z <= z <= hi.z,
                    self.cells@.len() == start.len() == cell_count(e) <= u32::MAX,
                    forall|c: UVec3|
                        c.within(e) ==> #[trigger] value(self.cells@, e, c) == if in_box(
                            lo,
                            hi,
                            c.x as int,
                            c.y as int,
                            c.z as int,
                        ) && (c.z < z || c.z == z && c.y < y) {
                            lesser(
                                value(start, e, c) as int,
                                lesser(box_gap(c, solid_lo, solid_hi), MAX_DISTANCE as int),
                            )
                        } else {
                            value(start, e, c) as int
                        },
                decreases hi.y + 1 - y,
            {
                let mut x = lo.x;
                while x <= hi.x
                    invariant
                        lo.x <= x,
                        e == edge == self.edge,
                        1 <= edge,
                        hi.within(e),
                        lo.z <= z <= hi.z,
                        lo.y <= y <= hi.y,
                        self.cells@.len() == start.len() == cell_count(e) <= u32::MAX,
                        forall|c: UVec3|
                            c.within(e) ==> #[trigger] value(self.cells@, e, c) == if in_box(
                                lo,
                                hi,
                                c.x as int,
                                c.y as int,
                                c.z as int,
                            ) && (c.z < z || c.z == z && (c.y < y || c.y == y && c.x < x)) {
                                lesser(
                                    value(start, e, c) as int,
                                    lesser(box_gap(c, solid_lo, solid_hi), MAX_DISTANCE as int),
                                )
                            } else {
                                value(start, e, c) as int
                            },
                    decreases hi.x + 1 - x,
                {
                    let ghost before = self.cells@;
                    let at = UVec3::new(x, y, z);
                    // Chebyshev distance from this cell to the painted box, which
                    // is what the new geometry can promise at worst.
                    let gap: i64 = gap_to_box(at, solid_lo, solid_hi);
                    let d: u8 = if gap < MAX_DISTANCE as i64 { gap as u8 } else { MAX_DISTANCE };
                    let i = index_of(edge, x, y, z);
                    let was: u8 = self.cells[i];
                    let now: u8 = if was < d { was } else { d };
                    self.cells.set(i, now);
                    proof {
                        lemma_value_set(before, e, at, now);
                        assert(value(before, e, at) == value(start, e, at));
                        assert forall|c: UVec3| c.within(e) implies #[trigger] value(
                            self.cells@,
                            e,
                            c,
                        ) == if in_box(lo, hi, c.x as int, c.y as int, c.z as int) && (c.z < z
                            || c.z == z && (c.y < y || c.y == y && c.x < x + 1)) {
                            lesser(
                                value(start, e, c) as int,
                                lesser(box_gap(c, solid_lo, solid_hi), MAX_DISTANCE as int),
                            )
                        } else {
                            value(start, e, c) as int
                        } by {
                            assert(value(self.cells@, e, c) == if c == at {
                                now
                            } else {
                                value(before, e, c)
                            });
                        }
                    }
                    x = x + 1;
                }
                y = y + 1;
            }
            z = z + 1;
        }
        let first = index_of(edge, lo.x, lo.y, lo.z);
        let last = index_of(edge, hi.x, hi.y, hi.z);
        proof {
            assert forall|i: int|
                0 <= i < start.len() && #[trigger] self.cells@[i] != start[i] implies first <= i
                <= last by {
                lemma_stored(e, i);
                let c = cell_stored(e, i);
                assert(value(self.cells@, e, c) == self.cells@[i]);
                lemma_box_order(e, lo, c);
                lemma_box_order(e, c, hi);
            }
        }
        Range { start: first as u32, end: last as u32 + 1 }
    }
}

/// Places follow coordinates: no smaller on any axis, stored no earlier.
pub proof fn lemma_box_order(edge: int, a: UVec3, b: UVec3)
    requires
        a.x <= b.x,
        a.y <= b.y,
        a.z <= b.z,
        edge >= 0,
    ensures
        cell_index(edge, a.x as int, a.y as int, a.z as int) <= cell_index(
            edge,
            b.x as int,
            b.y as int,
            b.z as int,
        ),
{
    assert(a.y * edge <= b.y * edge) by (nonlinear_arith)
        requires
            a.y <= b.y,
            edge >= 0,
    ;
    assert(a.z * edge * edge <= b.z * edge * edge) by (nonlinear_arith)
        requires
            a.z <= b.z,
            edge >= 0,
    ;
}

/// The field never over-estimates: a cell's value is no more than its distance
/// to any cell that holds geometry, so every cell nearer than that is empty.
pub proof fn law_nearer_cells_are_empty(
    field: DistanceField,
    marks: spec_fn(UVec3) -> bool,
    c: UVec3,
    n: UVec3,
)
    requires
        conservative(field.grid(), field.span() as int, marks),
        c.within(field.span() as int),
        n.within(field.span() as int),
        apart_by(c, n) < value(field.grid(), field.span() as int, c),
    ensures
        !marks(n),
{
    if marks(n) {
        assert(marked_cell(marks, field.span() as int, n));
    }
}

/// Painting keeps the field conservative: where the new geometry lies in the
/// painted box of cells, and every cell nearer to it than the cap was lowered,
/// no cell over-estimates.
pub proof fn law_painting_stays_conservative(
    before: Seq<u8>,
    after: Seq<u8>,
    edge: int,
    lo: UVec3,
    hi: UVec3,
    solid_lo: IVec3,
    solid_hi: IVec3,
    marks: spec_fn(UVec3) -> bool,
    painted: spec_fn(UVec3) -> bool,
)
    requires
        conservative(before, edge, marks),
        lowered(before, after, edge, lo, hi, solid_lo, solid_hi),
        forall|c: UVec3| c.within(edge) ==> #[trigger] value(before, edge, c) <= MAX_DISTANCE,
        forall|c: UVec3|
            #[trigger] marked_cell(painted, edge, c) ==> marks(c) || box_gap(c, solid_lo, solid_hi)
                == 0,
        forall|c: UVec3|
            c.within(edge) && #[trigger] box_gap(c, solid_lo, solid_hi) < MAX_DISTANCE ==> in_box(
                lo,
                hi,
                c.x as int,
                c.y as int,
                c.z as int,
            ),
    ensures
        conservative(after, edge, painted),
        forall|c: UVec3|
            c.within(edge) ==> #[trigger] value(after, edge, c) <= value(before, edge, c),
{
    assert forall|c: UVec3, s: UVec3|
        c.within(edge) && #[trigger] marked_cell(painted, edge, s) implies #[trigger] value(
        after,
        edge,
        c,
    ) <= apart_by(c, s) by {
        assert(value(before, edge, c) <= MAX_DISTANCE);
        if marks(s) {
            assert(marked_cell(marks, edge, s));
            assert(value(before, edge, c) <= apart_by(c, s));
        } else {
            assert(box_gap(c, solid_lo, solid_hi) <= apart_by(c, s));
        }
    }
}

/// Whether a cell lies no further from another than so many cells along any axis.
pub open spec fn no_further(c: UVec3, s: (int, int, int), d: int) -> bool {
    &&& -d <= c.x - s.0 <= d
    &&& -d <= c.y - s.1 <= d
    &&& -d <= c.z - s.2 <= d
}

/// What a cell claims, told of the voxels: no solid voxel lies in a cell nearer than
/// that along every axis, so that a ray may skip as far.
pub proof fn law_no_solid_voxel_is_nearer_than_claimed(
    tree: Contree,
    cells: Seq<u8>,
    edge: int,
    c: UVec3,
    p: UVec3,
)
    requires
        conservative(cells, edge, solid_cell(tree)),
        c.x < edge && c.y < edge && c.z < edge,
        p.x < tree.side() && p.y < tree.side() && p.z < tree.side(),
        p.x < 16 * edge && p.y < 16 * edge && p.z < 16 * edge,
        tree.at(p).0 != 0,
    ensures
        !no_further(
            c,
            (p.x as int / 16, p.y as int / 16, p.z as int / 16),
            value(cells, edge, c) - 1,
        ),
{
    let s = voxel_cell(p);
    assert(solid_voxel(tree.field(), p));
    assert(solid_in(tree.field(), s, 0, 0, 0, tree.side()));
    assert(marked_cell(solid_cell(tree), edge, s));
    assert(value(cells, edge, c) <= apart_by(c, s));
}

/// What an exact field claims is met: short of the cap, some solid voxel lies in a cell
/// just that far away.
pub proof fn law_a_claimed_distance_is_met(
    tree: Contree,
    cells: Seq<u8>,
    edge: int,
    c: UVec3,
) -> (p: UVec3)
    requires
        exact(cells, edge, solid_cell(tree)),
        c.x < edge && c.y < edge && c.z < edge,
        value(cells, edge, c) < 16,
    ensures
        p.x < tree.side() && p.y < tree.side() && p.z < tree.side(),
        tree.at(p).0 != 0,
        no_further(
            c,
            (p.x as int / 16, p.y as int / 16, p.z as int / 16),
            value(cells, edge, c) as int,
        ),
{
    assert(value(cells, edge, c) <= MAX_DISTANCE);
    let s = choose|s: UVec3| #[trigger]
        marked_cell(solid_cell(tree), edge, s) && apart_by(c, s) == value(cells, edge, c);
    assert(solid_in(tree.field(), s, 0, 0, 0, tree.side()));
    let p = choose|p: UVec3| #[trigger]
        solid_voxel(tree.field(), p) && in_cube(p, 0, 0, 0, tree.side()) && voxel_cell(p) == s;
    assert(solid_voxel(tree.field(), p));
    p
}

/// No cell claims more than the cap.
pub proof fn law_no_claim_passes_the_cap(tree: Contree, cells: Seq<u8>, edge: int, c: UVec3)
    requires
        exact(cells, edge, solid_cell(tree)),
        c.x < edge && c.y < edge && c.z < edge,
    ensures
        value(cells, edge, c) <= 16,
{
    assert(value(cells, edge, c) <= MAX_DISTANCE);
}

/// Lowering around painted cells never raises a claim and changes none outside the box
/// it was given. Inside, no cell claims more than its distance to any painted cell, and
/// none is lowered further than its distance to some painted cell, or than the cap.
pub proof fn law_lowering_counts_from_the_painted_cells(
    before: Seq<u8>,
    after: Seq<u8>,
    edge: int,
    lo: UVec3,
    hi: UVec3,
    solid_lo: IVec3,
    solid_hi: IVec3,
    c: UVec3,
    s: (int, int, int),
)
    requires
        lowered(before, after, edge, lo, hi, solid_lo, solid_hi),
        c.x < edge && c.y < edge && c.z < edge,
        solid_lo.x <= s.0 <= solid_hi.x,
        solid_lo.y <= s.1 <= solid_hi.y,
        solid_lo.z <= s.2 <= solid_hi.z,
    ensures
        ({
            let (was, now) = (value(before, edge, c), value(after, edge, c));
            let inside = lo.x <= c.x <= hi.x && lo.y <= c.y <= hi.y && lo.z <= c.z <= hi.z;
            &&& now <= was
            &&& !inside ==> now == was
            &&& inside ==> now <= 16 && !no_further(c, s, now - 1)
            &&& now < was && now < 16 ==> exists|r: (int, int, int)| #[trigger]
                no_further(c, r, now as int) && solid_lo.x <= r.0 <= solid_hi.x && solid_lo.y <= r.1
                    <= solid_hi.y && solid_lo.z <= r.2 <= solid_hi.z
        }),
{
    let now = value(after, edge, c);
    assert(c.within(edge));
    let nearest = |v: int, a: int, b: int|
        if v < a {
            a
        } else if v > b {
            b
        } else {
            v
        };
    let r = (
        nearest(c.x as int, solid_lo.x as int, solid_hi.x as int),
        nearest(c.y as int, solid_lo.y as int, solid_hi.y as int),
        nearest(c.z as int, solid_lo.z as int, solid_hi.z as int),
    );
    if now < value(before, edge, c) && now < 16 {
        assert(no_further(c, r, now as int));
    }
}

} // verus!
