//! How full of solid voxels each coarse cell is, for ambient occlusion.
//!
//! A point's surroundings are judged by how much solid sits around it: a flat
//! surface has half its neighbourhood full, an inner corner about three quarters.
//! That is sampled by counting the voxels in each 16-voxel cube and blending
//! between cube centres, which is what this grid holds. The shader does the
//! blending.
//!
//! The same cells as the distance field, so both grids index alike and travel
//! in one buffer.

use crate::address::{IVec3, UVec3};
use crate::bits::{bit, ones, rank};
use crate::contree::{level_extent, tidy, Contree};
use crate::dense::{lemma_extent_levels, lemma_extent_strict};
use crate::distance_field::{
    aligned, cell_stored, lemma_aligned_cells, lemma_child_aligned, lemma_extent_cells,
    lemma_stored, lemma_stored_at, value, CELL_VOXELS,
};
use crate::edit::in_box;
use crate::grid::{cell_count, cell_index, index_of};
use crate::node::{lemma_slot_in_block, Node, BRICK_EDGE, CHILDREN};
use crate::plan::{
    child_x, child_y, child_z, constant, fits, lemma_cell_inside, lemma_child_inside, stands_for,
    volume,
};
use crate::sparse::{
    cell_at, in_cube, lemma_child_cube, lemma_child_stands, lemma_place_in_child, lemma_walk_empty,
    lemma_walk_local, walk, walk_upto,
};
use crate::tree::{
    byte_of, extent_of, kid, lemma_cell, lemma_extent, lemma_ordinal, lemma_uniform,
    voxel_at, wf,
};
use core::ops::Range;
use vstd::prelude::*;

verus! {

/// Solid voxels per coarse cell, as a fraction scaled to a byte.
#[derive(Clone, Debug)]
pub struct Fullness {
    cells: Vec<u8>,
    edge: u32,
}

/// How many voxels of a cube are solid.
pub open spec fn solids(
    f: spec_fn(int, int, int) -> u8,
    level: int,
    x: int,
    y: int,
    z: int,
) -> int {
    walk(f, level, x, y, z).len() as int
}

/// A cell's count as the byte the shader reads: 0 for empty, 255 for solid.
pub open spec fn byte_for(count: int) -> int {
    count * 255 / 4096
}

/// How many voxels of a tree lie in a cell. A tree smaller than a cell lies in
/// it whole.
pub open spec fn cell_solids(tree: Contree, c: UVec3) -> int {
    if tree.height() == 0 {
        solids(tree.field(), 0, 0, 0, 0)
    } else {
        solids(tree.field(), 1, 16 * c.x, 16 * c.y, 16 * c.z)
    }
}

/// A cube has no more solid voxels than voxels.
pub proof fn lemma_solids_bound(
    f: spec_fn(int, int, int) -> u8,
    level: int,
    x: int,
    y: int,
    z: int,
)
    requires
        level >= -1,
    ensures
        0 <= solids(f, level, x, y, z) <= volume(level),
    decreases level + 1, 65int,
{
    if level >= 0 {
        lemma_solids_upto_bound(f, level, x, y, z, 64);
    }
}

proof fn lemma_solids_upto_bound(
    f: spec_fn(int, int, int) -> u8,
    level: int,
    x: int,
    y: int,
    z: int,
    n: int,
)
    requires
        level >= 0,
        0 <= n <= 64,
    ensures
        walk_upto(f, level, x, y, z, n).len() <= n * volume(level - 1),
    decreases level + 1, n,
{
    let v = volume(level - 1);
    assert(0 * v == 0);
    if n > 0 {
        lemma_solids_upto_bound(f, level, x, y, z, n - 1);
        lemma_solids_bound(
            f,
            level - 1,
            child_x(x, n - 1, level),
            child_y(y, n - 1, level),
            child_z(z, n - 1, level),
        );
        assert((n - 1) * v + v == n * v) by (nonlinear_arith);
    }
}

/// A cube of one solid material is solid throughout.
pub proof fn lemma_solids_full(
    f: spec_fn(int, int, int) -> u8,
    m: u8,
    level: int,
    x: int,
    y: int,
    z: int,
)
    requires
        level >= -1,
        m != 0,
        constant(f, m, x, y, z, extent_of(level)),
    ensures
        solids(f, level, x, y, z) == volume(level),
    decreases level + 1, 65int,
{
    if level < 0 {
        assert(f(x, y, z) == m);
    } else {
        lemma_solids_upto_full(f, m, level, x, y, z, 64);
    }
}

proof fn lemma_solids_upto_full(
    f: spec_fn(int, int, int) -> u8,
    m: u8,
    level: int,
    x: int,
    y: int,
    z: int,
    n: int,
)
    requires
        level >= 0,
        m != 0,
        0 <= n <= 64,
        constant(f, m, x, y, z, extent_of(level)),
    ensures
        walk_upto(f, level, x, y, z, n).len() == n * volume(level - 1),
    decreases level + 1, n,
{
    let v = volume(level - 1);
    assert(0 * v == 0);
    if n > 0 {
        lemma_solids_upto_full(f, m, level, x, y, z, n - 1);
        lemma_child_cube(x, y, z, level, n - 1);
        lemma_solids_full(
            f,
            m,
            level - 1,
            child_x(x, n - 1, level),
            child_y(y, n - 1, level),
            child_z(z, n - 1, level),
        );
        assert((n - 1) * v + v == n * v) by (nonlinear_arith);
    }
}

/// The solid voxels of a tidy leaf brick are its children.
proof fn lemma_brick_solids(
    f: spec_fn(int, int, int) -> u8,
    tree: Contree,
    node: Node,
    x: int,
    y: int,
    z: int,
    n: int,
)
    requires
        tidy(tree.slots(), node, 0),
        node.mask != 0,
        stands_for(f, tree.slots(), node, 0, x, y, z),
        0 <= n <= 64,
    ensures
        walk_upto(f, 0, x, y, z, n).len() == rank(node.mask, n),
    decreases n,
{
    if n > 0 {
        lemma_brick_solids(f, tree, node, x, y, z, n - 1);
        let i = n - 1;
        lemma_cell(i);
        reveal_with_fuel(extent_of, 2);
        let (dx, dy, dz) = (i % 4, (i / 4) % 4, i / 16);
        assert(voxel_at(tree.slots(), node, 0, dx, dy, dz) == f(x + dx, y + dy, z + dz));
        assert(child_x(x, i, 0) == x + dx);
        assert(child_y(y, i, 0) == y + dy);
        assert(child_z(z, i, 0) == z + dz);
        assert(byte_of(tree.slots(), node, i) == f(x + dx, y + dy, z + dz));
        assert((byte_of(tree.slots(), node, i) != 0) == bit(node.mask, i));
        let one = walk(f, -1, x + dx, y + dy, z + dz);
        assert(one.len() == if f(x + dx, y + dy, z + dz) != 0 {
            1int
        } else {
            0
        });
        assert(walk_upto(f, 0, x, y, z, n) == walk_upto(f, 0, x, y, z, n - 1) + one);
    }
}

/// How many solid voxels of a cube lie in a cell. A cube is aligned to its own
/// extent, so it lies inside one cell or covers whole cells.
pub open spec fn share(
    f: spec_fn(int, int, int) -> u8,
    level: int,
    x: int,
    y: int,
    z: int,
    c: UVec3,
) -> int {
    if level <= 1 {
        if c.x == x / 16 && c.y == y / 16 && c.z == z / 16 {
            solids(f, level, x, y, z)
        } else {
            0
        }
    } else if x <= 16 * c.x < x + extent_of(level) && y <= 16 * c.y < y + extent_of(level) && z
        <= 16 * c.z < z + extent_of(level) {
        solids(f, 1, 16 * c.x, 16 * c.y, 16 * c.z)
    } else {
        0
    }
}

/// How many solid voxels of the first `n` children lie in a cell.
spec fn share_upto(
    f: spec_fn(int, int, int) -> u8,
    level: int,
    x: int,
    y: int,
    z: int,
    c: UVec3,
    n: int,
) -> int
    decreases n,
{
    if n <= 0 {
        0
    } else {
        share_upto(f, level, x, y, z, c, n - 1) + share(
            f,
            level - 1,
            child_x(x, n - 1, level),
            child_y(y, n - 1, level),
            child_z(z, n - 1, level),
            c,
        )
    }
}

proof fn lemma_share_bound(
    f: spec_fn(int, int, int) -> u8,
    level: int,
    x: int,
    y: int,
    z: int,
    c: UVec3,
)
    requires
        level >= 0,
    ensures
        0 <= share(f, level, x, y, z, c) <= 4096,
{
    lemma_solids_bound(f, level, x, y, z);
    lemma_solids_bound(f, 1, 16 * c.x, 16 * c.y, 16 * c.z);
    reveal_with_fuel(volume, 3);
}

/// The children's shares make the node's.
proof fn lemma_shares(
    f: spec_fn(int, int, int) -> u8,
    level: int,
    x: int,
    y: int,
    z: int,
    c: UVec3,
)
    requires
        level >= 1,
        0 <= x,
        0 <= y,
        0 <= z,
        aligned(x, extent_of(level)),
        aligned(y, extent_of(level)),
        aligned(z, extent_of(level)),
    ensures
        share_upto(f, level, x, y, z, c, 64) == share(f, level, x, y, z, c),
{
    if level == 1 {
        lemma_shares_one(f, x, y, z, c, 64);
    } else {
        if corner_inside(c, x, y, z, extent_of(level)) {
            lemma_corner_child(c, x, y, z, level);
        }
        lemma_shares_many(f, level, x, y, z, c, 64);
    }
}

/// Inside one cell, the children's solid voxels are the node's.
proof fn lemma_shares_one(
    f: spec_fn(int, int, int) -> u8,
    x: int,
    y: int,
    z: int,
    c: UVec3,
    n: int,
)
    requires
        0 <= n <= 64,
        0 <= x,
        0 <= y,
        0 <= z,
        aligned(x, extent_of(1)),
        aligned(y, extent_of(1)),
        aligned(z, extent_of(1)),
    ensures
        share_upto(f, 1, x, y, z, c, n) == if c.x == x / 16 && c.y == y / 16 && c.z == z / 16 {
            walk_upto(f, 1, x, y, z, n).len() as int
        } else {
            0
        },
    decreases n,
{
    if n > 0 {
        lemma_shares_one(f, x, y, z, c, n - 1);
        lemma_cell(n - 1);
        lemma_extent_cells(1);
        lemma_extent_cells(0);
        let i = n - 1;
        assert(child_x(x, i, 1) == x + (i % 4) * 4);
        assert(child_y(y, i, 1) == y + ((i / 4) % 4) * 4);
        assert(child_z(z, i, 1) == z + (i / 16) * 4);
        assert(child_x(x, i, 1) / 16 == x / 16);
        assert(child_y(y, i, 1) / 16 == y / 16);
        assert(child_z(z, i, 1) / 16 == z / 16);
    }
}

/// Over whole cells, each cell lies in one child.
proof fn lemma_shares_many(
    f: spec_fn(int, int, int) -> u8,
    level: int,
    x: int,
    y: int,
    z: int,
    c: UVec3,
    n: int,
)
    requires
        level >= 2,
        0 <= n <= 64,
        0 <= x,
        0 <= y,
        0 <= z,
        aligned(x, extent_of(level)),
        aligned(y, extent_of(level)),
        aligned(z, extent_of(level)),
    ensures
        share_upto(f, level, x, y, z, c, n) == if corner_inside(c, x, y, z, extent_of(level))
            && corner_child(c, x, y, z, level) < n {
            solids(f, 1, 16 * c.x, 16 * c.y, 16 * c.z)
        } else {
            0
        },
    decreases n,
{
    if corner_inside(c, x, y, z, extent_of(level)) {
        lemma_corner_child(c, x, y, z, level);
    }
    if n > 0 {
        let i = n - 1;
        let step = extent_of(level - 1);
        lemma_shares_many(f, level, x, y, z, c, n - 1);
        lemma_cell(i);
        lemma_extent(level);
        lemma_extent(level - 1);
        lemma_child_inside(x, y, z, level, i);
        lemma_child_aligned(x, i % 4, step);
        lemma_child_aligned(y, (i / 4) % 4, step);
        lemma_child_aligned(z, i / 16, step);
        let (cx, cy, cz) = (child_x(x, i, level), child_y(y, i, level), child_z(z, i, level));
        lemma_aligned_cells(cx, level - 1);
        lemma_aligned_cells(cy, level - 1);
        lemma_aligned_cells(cz, level - 1);
        reveal_with_fuel(extent_of, 3);
        if level - 1 == 1 {
            assert(corner_inside(c, cx, cy, cz, step) == (c.x == cx / 16 && c.y == cy / 16 && c.z
                == cz / 16));
        }
        assert(share(f, level - 1, cx, cy, cz, c) == if corner_inside(c, cx, cy, cz, step) {
            solids(f, 1, 16 * c.x, 16 * c.y, 16 * c.z)
        } else {
            0
        });
    }
}

/// Whether a cell's first voxel lies in a cube.
spec fn corner_inside(c: UVec3, x: int, y: int, z: int, extent: int) -> bool {
    x <= 16 * c.x < x + extent && y <= 16 * c.y < y + extent && z <= 16 * c.z < z + extent
}

/// The child a cell's first voxel lies in.
spec fn corner_child(c: UVec3, x: int, y: int, z: int, level: int) -> int {
    let step = extent_of(level - 1);
    crate::node::ordinal((16 * c.x - x) / step, (16 * c.y - y) / step, (16 * c.z - z) / step)
}

proof fn lemma_corner_child(c: UVec3, x: int, y: int, z: int, level: int)
    requires
        level >= 1,
        corner_inside(c, x, y, z, extent_of(level)),
    ensures
        0 <= corner_child(c, x, y, z, level) < 64,
        forall|i: int|
            0 <= i < 64 ==> (#[trigger] corner_inside(
                c,
                child_x(x, i, level),
                child_y(y, i, level),
                child_z(z, i, level),
                extent_of(level - 1),
            ) <==> i == corner_child(c, x, y, z, level)),
{
    let step = extent_of(level - 1);
    lemma_extent(level);
    lemma_extent(level - 1);
    crate::tree::lemma_split(16 * c.x - x, step);
    crate::tree::lemma_split(16 * c.y - y, step);
    crate::tree::lemma_split(16 * c.z - z, step);
    lemma_ordinal((16 * c.x - x) / step, (16 * c.y - y) / step, (16 * c.z - z) / step);
    assert forall|i: int| 0 <= i < 64 implies (#[trigger] corner_inside(
        c,
        child_x(x, i, level),
        child_y(y, i, level),
        child_z(z, i, level),
        step,
    ) <==> i == corner_child(c, x, y, z, level)) by {
        lemma_cell(i);
        if corner_inside(c, child_x(x, i, level), child_y(y, i, level), child_z(z, i, level), step) {
            crate::tree::lemma_join_coord(i % 4, 16 * c.x - child_x(x, i, level), step);
            crate::tree::lemma_join_coord((i / 4) % 4, 16 * c.y - child_y(y, i, level), step);
            crate::tree::lemma_join_coord(i / 16, 16 * c.z - child_z(z, i, level), step);
        }
    }
}

proof fn lemma_share_upto_monotone(
    f: spec_fn(int, int, int) -> u8,
    level: int,
    x: int,
    y: int,
    z: int,
    c: UVec3,
    m: int,
    n: int,
)
    requires
        level >= 1,
        0 <= m <= n,
    ensures
        0 <= share_upto(f, level, x, y, z, c, m) <= share_upto(f, level, x, y, z, c, n),
    decreases n,
{
    if n > 0 {
        lemma_share_bound(
            f,
            level - 1,
            child_x(x, n - 1, level),
            child_y(y, n - 1, level),
            child_z(z, n - 1, level),
            c,
        );
        let k = if m < n {
            m
        } else {
            n - 1
        };
        lemma_share_upto_monotone(f, level, x, y, z, c, k, n - 1);
    }
}

/// A cube shares with no cell outside the ones it covers.
proof fn lemma_share_range(
    f: spec_fn(int, int, int) -> u8,
    level: int,
    x: int,
    y: int,
    z: int,
    c: UVec3,
    lo: UVec3,
    hi: UVec3,
)
    requires
        level >= 0,
        0 <= x,
        0 <= y,
        0 <= z,
        aligned(x, extent_of(level)),
        aligned(y, extent_of(level)),
        aligned(z, extent_of(level)),
        lo.x == x / 16 && lo.y == y / 16 && lo.z == z / 16,
        hi.x == (x + extent_of(level) - 1) / 16,
        hi.y == (y + extent_of(level) - 1) / 16,
        hi.z == (z + extent_of(level) - 1) / 16,
    ensures
        !in_box(lo, hi, c.x as int, c.y as int, c.z as int) ==> share(f, level, x, y, z, c) == 0,
        in_box(lo, hi, c.x as int, c.y as int, c.z as int) && level <= 1 ==> share(
            f,
            level,
            x,
            y,
            z,
            c,
        ) == solids(f, level, x, y, z),
        in_box(lo, hi, c.x as int, c.y as int, c.z as int) && level >= 2 ==> {
            &&& share(f, level, x, y, z, c) == solids(f, 1, 16 * c.x, 16 * c.y, 16 * c.z)
            &&& x <= 16 * c.x && 16 * c.x + 16 <= x + extent_of(level)
            &&& y <= 16 * c.y && 16 * c.y + 16 <= y + extent_of(level)
            &&& z <= 16 * c.z && 16 * c.z + 16 <= z + extent_of(level)
        },
{
    lemma_extent_cells(level);
    lemma_aligned_cells(x, level);
    lemma_aligned_cells(y, level);
    lemma_aligned_cells(z, level);
}

/// A cube of one material shares its voxels or none.
proof fn lemma_share_constant(
    f: spec_fn(int, int, int) -> u8,
    m: u8,
    level: int,
    x: int,
    y: int,
    z: int,
    c: UVec3,
    lo: UVec3,
    hi: UVec3,
)
    requires
        level >= 0,
        0 <= x,
        0 <= y,
        0 <= z,
        aligned(x, extent_of(level)),
        aligned(y, extent_of(level)),
        aligned(z, extent_of(level)),
        lo.x == x / 16 && lo.y == y / 16 && lo.z == z / 16,
        hi.x == (x + extent_of(level) - 1) / 16,
        hi.y == (y + extent_of(level) - 1) / 16,
        hi.z == (z + extent_of(level) - 1) / 16,
        constant(f, m, x, y, z, extent_of(level)),
    ensures
        share(f, level, x, y, z, c) == if m != 0 && in_box(
            lo,
            hi,
            c.x as int,
            c.y as int,
            c.z as int,
        ) {
            if level == 0 {
                64int
            } else {
                4096
            }
        } else {
            0
        },
{
    lemma_share_range(f, level, x, y, z, c, lo, hi);
    reveal_with_fuel(volume, 3);
    lemma_extent_cells(1);
    if in_box(lo, hi, c.x as int, c.y as int, c.z as int) {
        if level <= 1 {
            if m == 0 {
                lemma_walk_empty(f, level, x, y, z);
            } else {
                lemma_solids_full(f, m, level, x, y, z);
            }
        } else {
            let (a, b, d) = (16 * c.x, 16 * c.y, 16 * c.z);
            assert(constant(f, m, a, b, d, extent_of(1)));
            if m == 0 {
                lemma_walk_empty(f, 1, a, b, d);
            } else {
                lemma_solids_full(f, m, 1, a, b, d);
            }
        }
    }
}

/// What a cell has been counted to.
spec fn tally(counts: Seq<u32>, edge: int, c: UVec3) -> int {
    counts[cell_index(edge, c.x as int, c.y as int, c.z as int)] as int
}

proof fn lemma_tally_set(counts: Seq<u32>, edge: int, at: UVec3, v: u32)
    requires
        at.within(edge),
        counts.len() == cell_count(edge),
    ensures
        ({
            let i = cell_index(edge, at.x as int, at.y as int, at.z as int);
            forall|c: UVec3|
                c.within(edge) ==> #[trigger] tally(counts.update(i, v), edge, c) == if c == at {
                    v as int
                } else {
                    tally(counts, edge, c)
                }
        }),
{
    let i = cell_index(edge, at.x as int, at.y as int, at.z as int);
    lemma_stored_at(edge, at);
    assert forall|c: UVec3| c.within(edge) implies #[trigger] tally(counts.update(i, v), edge, c)
        == if c == at {
        v as int
    } else {
        tally(counts, edge, c)
    } by {
        lemma_stored_at(edge, c);
    }
}

/// Adds `per_cell` to every cell of a box.
fn add_box(counts: &mut Vec<u32>, edge: u32, lo: UVec3, hi: UVec3, per_cell: u32)
    requires
        hi.within(edge as int),
        old(counts)@.len() == cell_count(edge as int) <= u32::MAX,
        forall|c: UVec3|
            c.within(edge as int) && in_box(lo, hi, c.x as int, c.y as int, c.z as int)
                ==> #[trigger] tally(old(counts)@, edge as int, c) + per_cell <= u32::MAX,
    ensures
        final(counts)@.len() == old(counts)@.len(),
        forall|c: UVec3|
            c.within(edge as int) ==> #[trigger] tally(final(counts)@, edge as int, c) == tally(
                old(counts)@,
                edge as int,
                c,
            ) + if in_box(lo, hi, c.x as int, c.y as int, c.z as int) {
                per_cell as int
            } else {
                0
            },
{
    let ghost e = edge as int;
    let ghost start = counts@;
    let mut z = lo.z;
    while z <= hi.z
        invariant
            lo.z <= z,
            e == edge,
            hi.within(e),
            counts@.len() == start.len() == cell_count(e) <= u32::MAX,
            forall|c: UVec3|
                c.within(e) && in_box(lo, hi, c.x as int, c.y as int, c.z as int)
                    ==> #[trigger] tally(start, e, c) + per_cell <= u32::MAX,
            forall|c: UVec3|
                c.within(e) ==> #[trigger] tally(counts@, e, c) == tally(start, e, c) + if in_box(
                    lo,
                    hi,
                    c.x as int,
                    c.y as int,
                    c.z as int,
                ) && c.z < z {
                    per_cell as int
                } else {
                    0
                },
        decreases hi.z + 1 - z,
    {
        let mut y = lo.y;
        while y <= hi.y
            invariant
                lo.y <= y,
                e == edge,
                hi.within(e),
                lo.z <= z <= hi.z,
                counts@.len() == start.len() == cell_count(e) <= u32::MAX,
                forall|c: UVec3|
                    c.within(e) && in_box(lo, hi, c.x as int, c.y as int, c.z as int)
                        ==> #[trigger] tally(start, e, c) + per_cell <= u32::MAX,
                forall|c: UVec3|
                    c.within(e) ==> #[trigger] tally(counts@, e, c) == tally(start, e, c)
                        + if in_box(lo, hi, c.x as int, c.y as int, c.z as int) && (c.z < z || c.z
                        == z && c.y < y) {
                        per_cell as int
                    } else {
                        0
                    },
            decreases hi.y + 1 - y,
        {
            let mut x = lo.x;
            while x <= hi.x
                invariant
                    lo.x <= x,
                    e == edge,
                    hi.within(e),
                    lo.z <= z <= hi.z,
                    lo.y <= y <= hi.y,
                    counts@.len() == start.len() == cell_count(e) <= u32::MAX,
                    forall|c: UVec3|
                        c.within(e) && in_box(lo, hi, c.x as int, c.y as int, c.z as int)
                            ==> #[trigger] tally(start, e, c) + per_cell <= u32::MAX,
                    forall|c: UVec3|
                        c.within(e) ==> #[trigger] tally(counts@, e, c) == tally(start, e, c)
                            + if in_box(lo, hi, c.x as int, c.y as int, c.z as int) && (c.z < z
                            || c.z == z && (c.y < y || c.y == y && c.x < x)) {
                            per_cell as int
                        } else {
                            0
                        },
                decreases hi.x + 1 - x,
            {
                let ghost before = counts@;
                let ghost at = UVec3 { x, y, z };
                proof {
                    assert(tally(before, e, at) == tally(start, e, at));
                }
                let i = index_of(edge, x, y, z);
                let sum: u32 = counts[i] + per_cell;
                counts.set(i, sum);
                proof {
                    lemma_tally_set(before, e, at, sum);
                    assert forall|c: UVec3| c.within(e) implies #[trigger] tally(counts@, e, c)
                        == tally(start, e, c) + if in_box(
                        lo,
                        hi,
                        c.x as int,
                        c.y as int,
                        c.z as int,
                    ) && (c.z < z || c.z == z && (c.y < y || c.y == y && c.x < x + 1)) {
                        per_cell as int
                    } else {
                        0
                    } by {
                        assert(tally(counts@, e, c) == if c == at {
                            sum as int
                        } else {
                            tally(before, e, c)
                        });
                    }
                }
                x = x + 1;
            }
            y = y + 1;
        }
        z = z + 1;
    }
}

/// Whether a count asks for a cell.
spec fn wanted(only: Option<(UVec3, UVec3)>, c: UVec3) -> bool {
    match only {
        None => true,
        Some((lo, hi)) => in_box(lo, hi, c.x as int, c.y as int, c.z as int),
    }
}

/// Adds every solid voxel of `node` to the cell holding it, skipping nodes
/// outside `only` when it is given.
///
/// A node is aligned to its own extent and every extent is a power of four, so
/// a node either sits inside one cell or covers whole cells: there is never a
/// node straddling a cell boundary to split between two.
fn count(
    tree: &Contree,
    node: Node,
    level: u32,
    origin: UVec3,
    edge: u32,
    only: Option<(UVec3, UVec3)>,
    counts: &mut Vec<u32>,
    f: Ghost<spec_fn(int, int, int) -> u8>,
)
    requires
        level <= 14,
        fits(tree.slots()),
        wf(tree.slots(), node, level as int),
        tidy(tree.slots(), node, level as int),
        stands_for(
            f@,
            tree.slots(),
            node,
            level as int,
            origin.x as int,
            origin.y as int,
            origin.z as int,
        ),
        origin.x + extent_of(level as int) <= 16 * edge,
        origin.y + extent_of(level as int) <= 16 * edge,
        origin.z + extent_of(level as int) <= 16 * edge,
        aligned(origin.x as int, extent_of(level as int)),
        aligned(origin.y as int, extent_of(level as int)),
        aligned(origin.z as int, extent_of(level as int)),
        edge <= 0x400_0000,
        old(counts)@.len() == cell_count(edge as int) <= u32::MAX,
        forall|c: UVec3|
            c.within(edge as int) ==> #[trigger] tally(old(counts)@, edge as int, c) + share(
                f@,
                level as int,
                origin.x as int,
                origin.y as int,
                origin.z as int,
                c,
            ) <= u32::MAX,
    ensures
        final(counts)@.len() == old(counts)@.len(),
        forall|c: UVec3|
            c.within(edge as int) ==> {
                let more = share(
                    f@,
                    level as int,
                    origin.x as int,
                    origin.y as int,
                    origin.z as int,
                    c,
                );
                let was = tally(old(counts)@, edge as int, c);
                let now = #[trigger] tally(final(counts)@, edge as int, c);
                &&& was <= now <= was + more
                &&& wanted(only, c) ==> now == was + more
            },
    decreases level,
{
    let ghost s = tree.slots();
    let ghost lv = level as int;
    let ghost e = edge as int;
    let ghost (x, y, z) = (origin.x as int, origin.y as int, origin.z as int);
    let ghost start = counts@;
    let extent = level_extent(level);
    let lo = UVec3::new(
        origin.x / CELL_VOXELS,
        origin.y / CELL_VOXELS,
        origin.z / CELL_VOXELS,
    );
    let hi = UVec3::new(
        (origin.x + (extent - 1)) / CELL_VOXELS,
        (origin.y + (extent - 1)) / CELL_VOXELS,
        (origin.z + (extent - 1)) / CELL_VOXELS,
    );
    proof {
        lemma_extent(lv);
        lemma_extent_cells(lv);
        assert forall|c: UVec3| 0 <= #[trigger] share(f@, lv, x, y, z, c) by {
            lemma_share_bound(f@, lv, x, y, z, c);
        }
        assert forall|c: UVec3|
            !in_box(lo, hi, c.x as int, c.y as int, c.z as int) implies #[trigger] share(
            f@,
            lv,
            x,
            y,
            z,
            c,
        ) == 0 by {
            lemma_share_range(f@, lv, x, y, z, c, lo, hi);
        }
        if node.mask == 0 {
            assert(constant(f@, node.material as u8, x, y, z, extent_of(lv))) by {
                assert forall|a: int, b: int, d: int|
                    x <= a < x + extent_of(lv) && y <= b < y + extent_of(lv) && z <= d < z
                        + extent_of(lv) implies #[trigger] f@(a, b, d) == node.material as u8 by {
                    lemma_uniform(s, node, lv, a - x, b - y, d - z);
                    assert(voxel_at(s, node, lv, a - x, b - y, d - z) == f@(
                        x + (a - x),
                        y + (b - y),
                        z + (d - z),
                    ));
                }
            }
            assert forall|c: UVec3| #[trigger] share(f@, lv, x, y, z, c) == if node.material as u8 != 0
                && in_box(lo, hi, c.x as int, c.y as int, c.z as int) {
                if lv == 0 {
                    64int
                } else {
                    4096
                }
            } else {
                0
            } by {
                lemma_share_constant(f@, node.material as u8, lv, x, y, z, c, lo, hi);
            }
        }
    }
    if !node.is_subdivided() && node.material().is_empty() {
        return;
    }
    if let Some((only_lo, only_hi)) = only {
        if lo.x > only_hi.x || lo.y > only_hi.y || lo.z > only_hi.z || hi.x < only_lo.x || hi.y
            < only_lo.y || hi.z < only_lo.z {
            return;
        }
    }
    if !node.is_subdivided() {
        // Uniform solid: inside one cell it adds its own volume, and covering
        // whole cells it fills each of them.
        let span: u32 = if extent < CELL_VOXELS { extent } else { CELL_VOXELS };
        proof {
            assert(span == 4 || span == 16);
            assert(span == 4 ==> span * span * span == 64) by (nonlinear_arith);
            assert(span == 16 ==> span * span * span == 4096) by (nonlinear_arith);
            assert(span == 4 ==> span * span == 16) by (nonlinear_arith);
            assert(span == 16 ==> span * span == 256) by (nonlinear_arith);
            assert forall|c: UVec3|
                c.within(e) && in_box(
                    lo,
                    hi,
                    c.x as int,
                    c.y as int,
                    c.z as int,
                ) implies #[trigger] tally(start, e, c) + span * span * span <= u32::MAX by {
                assert(share(f@, lv, x, y, z, c) == span * span * span);
            }
        }
        let per_cell: u32 = span * span * span;
        add_box(counts, edge, lo, hi, per_cell);
        proof {
            assert forall|c: UVec3| c.within(e) implies {
                let now = #[trigger] tally(counts@, e, c);
                now == tally(start, e, c) + share(f@, lv, x, y, z, c)
            } by {}
        }
        return;
    }
    if level == 0 {
        // A brick's children are voxels, and its extent of 4 fits in a cell.
        proof {
            lemma_aligned_cells(x, 0);
            lemma_aligned_cells(y, 0);
            lemma_aligned_cells(z, 0);
            lemma_brick_solids(f@, *tree, node, x, y, z, 64);
            assert(share(f@, 0, x, y, z, lo) == ones(node.mask));
            assert(tally(start, e, lo) + share(f@, 0, x, y, z, lo) <= u32::MAX);
        }
        let i = index_of(edge, lo.x, lo.y, lo.z);
        let sum: u32 = counts[i] + node.child_count();
        counts.set(i, sum);
        proof {
            lemma_tally_set(start, e, lo, sum);
            assert forall|c: UVec3| c.within(e) implies {
                let now = #[trigger] tally(counts@, e, c);
                now == tally(start, e, c) + share(f@, lv, x, y, z, c)
            } by {
                assert(tally(counts@, e, c) == if c == lo {
                    sum as int
                } else {
                    tally(start, e, c)
                });
                assert(in_box(lo, hi, c.x as int, c.y as int, c.z as int) <==> c == lo);
            }
        }
        return;
    }
    let step = level_extent(level - 1);
    for i in 0..CHILDREN
        invariant
            1 <= level <= 14,
            lv == level,
            e == edge,
            s == tree.slots(),
            fits(s),
            wf(s, node, lv),
            tidy(s, node, lv),
            node.mask != 0,
            stands_for(f@, s, node, lv, x, y, z),
            (x, y, z) == (origin.x as int, origin.y as int, origin.z as int),
            x + extent_of(lv) <= 16 * edge,
            y + extent_of(lv) <= 16 * edge,
            z + extent_of(lv) <= 16 * edge,
            aligned(x, extent_of(lv)),
            aligned(y, extent_of(lv)),
            aligned(z, extent_of(lv)),
            edge <= 0x400_0000,
            step == extent_of(lv - 1),
            step >= 4,
            extent_of(lv) == 4 * step,
            counts@.len() == start.len() == cell_count(e) <= u32::MAX,
            forall|c: UVec3|
                c.within(e) ==> #[trigger] tally(start, e, c) + share(f@, lv, x, y, z, c)
                    <= u32::MAX,
            forall|c: UVec3|
                c.within(e) ==> {
                    let more = share_upto(f@, lv, x, y, z, c, i as int);
                    let was = tally(start, e, c);
                    let now = #[trigger] tally(counts@, e, c);
                    &&& was <= now <= was + more
                    &&& wanted(only, c) ==> now == was + more
                },
    {
        let ghost before = counts@;
        let ghost (cx, cy, cz) = (
            child_x(x, i as int, lv),
            child_y(y, i as int, lv),
            child_z(z, i as int, lv),
        );
        let ghost child = kid(s, node, i as int);
        proof {
            lemma_cell(i as int);
            lemma_child_inside(x, y, z, lv, i as int);
            lemma_cell_inside(i as int % 4, step as int);
            lemma_cell_inside((i as int / 4) % 4, step as int);
            lemma_cell_inside(i as int / 16, step as int);
            lemma_child_aligned(x, i as int % 4, step as int);
            lemma_child_aligned(y, (i as int / 4) % 4, step as int);
            lemma_child_aligned(z, i as int / 16, step as int);
            if bit(node.mask, i as int) {
                lemma_slot_in_block(node, i as int);
            }
            assert(wf(s, child, lv - 1));
            assert(tidy(s, child, lv - 1));
            lemma_child_stands(f@, s, node, lv, x, y, z, i as int);
            assert forall|c: UVec3| c.within(e) implies #[trigger] tally(before, e, c) + share(
                f@,
                lv - 1,
                cx,
                cy,
                cz,
                c,
            ) <= u32::MAX by {
                assert(tally(start, e, c) + share(f@, lv, x, y, z, c) <= u32::MAX);
                lemma_shares(f@, lv, x, y, z, c);
                lemma_share_upto_monotone(f@, lv, x, y, z, c, i + 1, 64);
            }
        }
        match node.child_slot(i) {
            Some(slot) => {
                let child_origin = UVec3::new(
                    origin.x + (i % BRICK_EDGE) * step,
                    origin.y + ((i / BRICK_EDGE) % BRICK_EDGE) * step,
                    origin.z + (i / (BRICK_EDGE * BRICK_EDGE)) * step,
                );
                count(
                    tree,
                    tree.arena().node(slot),
                    level - 1,
                    child_origin,
                    edge,
                    only,
                    counts,
                    f,
                );
            },
            None => {
                proof {
                    assert(constant(f@, 0, cx, cy, cz, extent_of(lv - 1))) by {
                        assert forall|a: int, b: int, d: int|
                            cx <= a < cx + extent_of(lv - 1) && cy <= b < cy + extent_of(lv - 1)
                                && cz <= d < cz + extent_of(lv - 1) implies #[trigger] f@(a, b, d)
                            == 0 by {
                            lemma_uniform(s, child, lv - 1, a - cx, b - cy, d - cz);
                            assert(voxel_at(s, child, lv - 1, a - cx, b - cy, d - cz) == f@(
                                cx + (a - cx),
                                cy + (b - cy),
                                cz + (d - cz),
                            ));
                        }
                    }
                    let clo = UVec3 {
                        x: (cx / 16) as u32,
                        y: (cy / 16) as u32,
                        z: (cz / 16) as u32,
                    };
                    let chi = UVec3 {
                        x: ((cx + step - 1) / 16) as u32,
                        y: ((cy + step - 1) / 16) as u32,
                        z: ((cz + step - 1) / 16) as u32,
                    };
                    assert forall|c: UVec3| #[trigger] share(f@, lv - 1, cx, cy, cz, c) == 0 by {
                        lemma_share_constant(f@, 0, lv - 1, cx, cy, cz, c, clo, chi);
                    }
                }
            },
        }
        proof {
            assert forall|c: UVec3| c.within(e) implies {
                let more = share_upto(f@, lv, x, y, z, c, i + 1);
                let was = tally(start, e, c);
                let now = #[trigger] tally(counts@, e, c);
                &&& was <= now <= was + more
                &&& wanted(only, c) ==> now == was + more
            } by {
                assert(tally(before, e, c) <= tally(counts@, e, c));
                lemma_share_bound(f@, lv - 1, cx, cy, cz, c);
                assert(share_upto(f@, lv, x, y, z, c, i + 1) == share_upto(
                    f@,
                    lv,
                    x,
                    y,
                    z,
                    c,
                    i as int,
                ) + share(f@, lv - 1, cx, cy, cz, c));
            }
        }
    }
    proof {
        assert forall|c: UVec3| c.within(e) implies share_upto(f@, lv, x, y, z, c, 64)
            == #[trigger] share(f@, lv, x, y, z, c) by {
            lemma_shares(f@, lv, x, y, z, c);
        }
    }
}

/// A cell's count as the byte the shader reads.
fn as_byte(count: u32) -> (byte: u8)
    requires
        count <= 4096,
    ensures
        byte == byte_for(count as int),
{
    (count * 255 / 4096) as u8
}

impl Fullness {
    /// The raw grid.
    pub closed spec fn grid(&self) -> Seq<u8> {
        self.cells@
    }

    /// Cells along each axis.
    pub closed spec fn span(&self) -> u32 {
        self.edge
    }

    /// One byte for every cell, and places that fit 32 bits.
    pub open spec fn wf(&self) -> bool {
        &&& self.span() >= 1
        &&& self.grid().len() == cell_count(self.span() as int)
        &&& self.grid().len() <= u32::MAX
    }

    /// Whether a cell reads how full the tree makes it.
    pub open spec fn agrees(&self, tree: Contree, c: UVec3) -> bool {
        value(self.grid(), self.span() as int, c) == byte_for(cell_solids(tree, c))
    }

    /// Cells per axis.
    pub fn edge(&self) -> (edge: u32)
        ensures
            edge == self.span(),
    {
        self.edge
    }

    /// The raw grid, row major: `x + y * edge + z * edge * edge`.
    pub fn cells(&self) -> (cells: &[u8])
        ensures
            cells@ == self.grid(),
    {
        self.cells.as_slice()
    }

    /// 0 for empty, 255 for solid. Outside the grid reads empty: beyond the
    /// world there is nothing to occlude anything.
    pub fn get(&self, cell: UVec3) -> (full: u8)
        requires
            self.wf(),
        ensures
            full == if cell.within(self.span() as int) {
                value(self.grid(), self.span() as int, cell)
            } else {
                0
            },
    {
        if cell.x >= self.edge || cell.y >= self.edge || cell.z >= self.edge {
            return 0;
        }
        self.cells[index_of(self.edge, cell.x, cell.y, cell.z)]
    }

    /// Counts the tree's voxels in every cell that `only` asks for.
    fn counted(tree: &Contree, edge: u32, only: Option<(UVec3, UVec3)>) -> (counts: Vec<u32>)
        requires
            tree.readable(),
            tree.tidied(),
            edge == (if tree.side() < 16 {
                1
            } else {
                tree.side() / 16
            }),
            cell_count(edge as int) <= u32::MAX,
        ensures
            counts@.len() == cell_count(edge as int),
            forall|c: UVec3|
                c.within(edge as int) ==> {
                    let n = #[trigger] tally(counts@, edge as int, c);
                    &&& n <= 4096
                    &&& wanted(only, c) ==> n == cell_solids(*tree, c)
                },
    {
        let ghost e = edge as int;
        let ghost level = tree.height();
        let ghost f = tree.field();
        proof {
            lemma_extent_cells(level);
            crate::dense::lemma_extent_levels(level);
            if level < 14 {
                crate::dense::lemma_extent_strict(level, 14);
            }
            crate::grid::lemma_cell_bound(e, 0, 0, 0);
            assert(edge * edge <= edge * edge * edge && 0 <= edge * edge) by (nonlinear_arith)
                requires
                    edge >= 1,
            ;
        }
        let total: u32 = edge * edge * edge;
        let mut counts: Vec<u32> = vec![0; total as usize];
        let ghost start = counts@;
        proof {
            assert forall|c: UVec3| c.within(e) implies #[trigger] tally(start, e, c) == 0 by {
                lemma_stored_at(e, c);
            }
            assert forall|c: UVec3| 0 <= #[trigger] share(f, level, 0, 0, 0, c) <= 4096 by {
                lemma_share_bound(f, level, 0, 0, 0, c);
            }
            assert(aligned(0, extent_of(level))) by {
                lemma_extent(level);
                vstd::arithmetic::div_mod::lemma_small_mod(0, extent_of(level) as nat);
            }
        }
        count(
            tree,
            tree.root(),
            tree.depth() - 1,
            UVec3::new(0, 0, 0),
            edge,
            only,
            &mut counts,
            Ghost(f),
        );
        proof {
            assert forall|c: UVec3| c.within(e) implies {
                let n = #[trigger] tally(counts@, e, c);
                &&& n <= 4096
                &&& wanted(only, c) ==> n == cell_solids(*tree, c)
            } by {
                assert(tally(start, e, c) == 0);
                assert(share(f, level, 0, 0, 0, c) == cell_solids(*tree, c));
            }
        }
        counts
    }

    /// Counts the whole tree.
    pub fn build(tree: &Contree) -> (full: Fullness)
        requires
            tree.readable(),
            tree.tidied(),
            tree.side() <= 16384,
        ensures
            full.wf(),
            full.span() == if tree.side() < 16 {
                1
            } else {
                tree.side() / 16
            },
            forall|c: UVec3| c.within(full.span() as int) ==> #[trigger] full.agrees(*tree, c),
    {
        let extent = tree.extent();
        let edge: u32 = if extent < CELL_VOXELS { 1 } else { extent / CELL_VOXELS };
        let ghost e = edge as int;
        proof {
            lemma_extent_cells(tree.height());
            assert(edge * edge * edge <= 1024 * 1024 * 1024) by (nonlinear_arith)
                requires
                    0 <= edge <= 1024,
            ;
        }
        let counts = Fullness::counted(tree, edge, None);
        let mut cells: Vec<u8> = Vec::new();
        for i in 0..counts.len()
            invariant
                e == edge,
                1 <= edge,
                counts@.len() == cell_count(e),
                forall|c: UVec3| c.within(e) ==> #[trigger] tally(counts@, e, c) <= 4096,
                cells@.len() == i,
                forall|k: int| 0 <= k < i ==> #[trigger] cells@[k] == byte_for(counts@[k] as int),
        {
            proof {
                lemma_stored(e, i as int);
                assert(tally(counts@, e, cell_stored(e, i as int)) <= 4096);
            }
            cells.push(as_byte(counts[i]));
        }
        let full = Fullness { cells, edge };
        proof {
            assert forall|c: UVec3| c.within(e) implies #[trigger] full.agrees(*tree, c) by {
                lemma_stored_at(e, c);
                assert(tally(counts@, e, c) == cell_solids(*tree, c));
            }
        }
        full
    }

    /// Recounts every cell the box `lo..=hi`, in voxels, touches, and returns
    /// the cell range to upload.
    ///
    /// An edit changes what is solid, and fullness has no safe direction to err
    /// in: too full darkens what should be lit, too empty lights what should be
    /// dark. So the cells it touched are counted again from the tree.
    pub fn recount(&mut self, tree: &Contree, lo: IVec3, hi: IVec3) -> (range: Range<u32>)
        requires
            old(self).wf(),
            tree.readable(),
            tree.tidied(),
            old(self).span() == (if tree.side() < 16 {
                1
            } else {
                tree.side() / 16
            }),
        ensures
            final(self).wf(),
            final(self).span() == old(self).span(),
            recounted(
                *old(self),
                *final(self),
                *tree,
                clamped_cell(lo, old(self).span() as int),
                clamped_cell(hi, old(self).span() as int),
            ),
            range.start == place(clamped_cell(lo, old(self).span() as int), old(self).span()),
            range.end == place(clamped_cell(hi, old(self).span() as int), old(self).span()) + 1,
    {
        let edge = self.edge;
        let ghost e = edge as int;
        let first = clamp_cell(lo, edge);
        let last = clamp_cell(hi, edge);
        let counts = Fullness::counted(tree, edge, Some((first, last)));
        let ghost start = self.cells@;
        for i in 0..counts.len()
            invariant
                e == edge == self.edge,
                1 <= edge,
                counts@.len() == cell_count(e) <= u32::MAX,
                self.cells@.len() == start.len() == counts@.len(),
                forall|c: UVec3| c.within(e) ==> #[trigger] tally(counts@, e, c) <= 4096,
                forall|k: int|
                    0 <= k < start.len() ==> #[trigger] self.cells@[k] == if k < i && in_box(
                        first,
                        last,
                        cell_stored(e, k).x as int,
                        cell_stored(e, k).y as int,
                        cell_stored(e, k).z as int,
                    ) {
                        byte_for(counts@[k] as int)
                    } else {
                        start[k] as int
                    },
        {
            proof {
                lemma_stored(e, i as int);
                reveal(cell_stored);
                assert(tally(counts@, e, cell_stored(e, i as int)) <= 4096);
            }
            let at = i as u32;
            let x: u32 = at % edge;
            let y: u32 = (at / edge) % edge;
            let z: u32 = (at / edge) / edge;
            if first.x <= x && x <= last.x && first.y <= y && y <= last.y && first.z <= z && z
                <= last.z {
                self.cells.set(i, as_byte(counts[i]));
            }
        }
        proof {
            assert forall|c: UVec3| c.within(e) implies #[trigger] value(self.grid(), e, c)
                == if in_box(first, last, c.x as int, c.y as int, c.z as int) {
                byte_for(cell_solids(*tree, c))
            } else {
                value(start, e, c) as int
            } by {
                lemma_stored_at(e, c);
                let k = cell_index(e, c.x as int, c.y as int, c.z as int);
                assert(cell_stored(e, k) == c);
                assert(self.cells@[k] == value(self.cells@, e, c));
                assert(tally(counts@, e, c) <= 4096);
            }
            crate::grid::lemma_cell_bound(e, last.x as int, last.y as int, last.z as int);
        }
        let from = index_of(edge, first.x, first.y, first.z);
        let to = index_of(edge, last.x, last.y, last.z);
        Range { start: from as u32, end: to as u32 + 1 }
    }
}

/// Where a cell is stored.
pub open spec fn place(c: UVec3, edge: u32) -> int {
    cell_index(edge as int, c.x as int, c.y as int, c.z as int)
}

/// Every cell from `first` to `last` reads how full the tree makes it, and no
/// other cell changed.
pub open spec fn recounted(
    before: Fullness,
    after: Fullness,
    tree: Contree,
    first: UVec3,
    last: UVec3,
) -> bool {
    let e = before.span() as int;
    &&& after.span() == before.span()
    &&& forall|c: UVec3|
        c.within(e) ==> #[trigger] value(after.grid(), e, c) == if in_box(
            first,
            last,
            c.x as int,
            c.y as int,
            c.z as int,
        ) {
            byte_for(cell_solids(tree, c))
        } else {
            value(before.grid(), e, c) as int
        }
}

/// A voxel coordinate's cell along one axis, kept inside the grid.
pub open spec fn clamped(v: int, edge: int) -> int {
    if v < 0 {
        0
    } else if v / 16 > edge - 1 {
        edge - 1
    } else {
        v / 16
    }
}

/// A voxel's cell, kept inside the grid.
pub open spec fn clamped_cell(p: IVec3, edge: int) -> UVec3 {
    UVec3 {
        x: clamped(p.x as int, edge) as u32,
        y: clamped(p.y as int, edge) as u32,
        z: clamped(p.z as int, edge) as u32,
    }
}

fn clamp_along(v: i32, edge: u32) -> (c: u32)
    requires
        edge >= 1,
    ensures
        c == clamped(v as int, edge as int),
        c < edge,
{
    if v < 0 {
        0
    } else {
        let cell: u32 = v as u32 / CELL_VOXELS;
        if cell > edge - 1 {
            edge - 1
        } else {
            cell
        }
    }
}

fn clamp_cell(p: IVec3, edge: u32) -> (c: UVec3)
    requires
        edge >= 1,
    ensures
        c == clamped_cell(p, edge as int),
        c.within(edge as int),
{
    UVec3::new(clamp_along(p.x, edge), clamp_along(p.y, edge), clamp_along(p.z, edge))
}

/// Whether a voxel lies in a box, both corners inclusive.
pub open spec fn in_span(lo: IVec3, hi: IVec3, p: UVec3) -> bool {
    lo.x <= p.x <= hi.x && lo.y <= p.y <= hi.y && lo.z <= p.z <= hi.z
}

/// A cell holds what it held where no voxel outside a box changed and the box does
/// not reach the cell.
proof fn lemma_untouched_cell(
    old_tree: Contree,
    new_tree: Contree,
    lo: IVec3,
    hi: IVec3,
    edge: int,
    c: UVec3,
)
    requires
        old_tree.height() == new_tree.height(),
        0 < new_tree.height() <= 14,
        c.within(edge),
        16 * edge <= new_tree.side() <= u32::MAX,
        forall|p: UVec3|
            p.within(new_tree.side()) && !in_span(lo, hi, p) ==> #[trigger] new_tree.at(p)
                == old_tree.at(p),
        !in_box(
            clamped_cell(lo, edge),
            clamped_cell(hi, edge),
            c.x as int,
            c.y as int,
            c.z as int,
        ),
    ensures
        cell_solids(new_tree, c) == cell_solids(old_tree, c),
{
    let (f, g) = (new_tree.field(), old_tree.field());
    reveal_with_fuel(extent_of, 3);
    assert forall|px: int, py: int, pz: int|
        16 * c.x <= px < 16 * c.x + extent_of(1) && 16 * c.y <= py < 16 * c.y + extent_of(1) && 16
            * c.z <= pz < 16 * c.z + extent_of(1) implies #[trigger] f(px, py, pz) == g(
        px,
        py,
        pz,
    ) by {
        let p = UVec3 { x: px as u32, y: py as u32, z: pz as u32 };
        assert(p.within(new_tree.side()));
        assert(!in_span(lo, hi, p));
        assert(new_tree.at(p) == old_tree.at(p));
    }
    lemma_walk_local(f, g, 1, 16 * c.x, 16 * c.y, 16 * c.z);
}

/// After an edit, recounting what it touched is as good as counting again from
/// nothing: where no voxel outside the box `lo` to `hi` changed, every cell reads
/// how full it is once the cells of the box are recounted.
pub proof fn law_recounting_matches_a_fresh_build(
    before: Fullness,
    after: Fullness,
    old_tree: Contree,
    new_tree: Contree,
    lo: IVec3,
    hi: IVec3,
)
    requires
        old_tree.height() == new_tree.height(),
        0 <= new_tree.height() <= 14,
        before.span() == (if new_tree.side() < 16 {
            1
        } else {
            new_tree.side() / 16
        }),
        forall|c: UVec3| c.within(before.span() as int) ==> #[trigger] before.agrees(old_tree, c),
        forall|p: UVec3|
            p.within(new_tree.side()) && !in_span(lo, hi, p) ==> #[trigger] new_tree.at(p)
                == old_tree.at(p),
        recounted(
            before,
            after,
            new_tree,
            clamped_cell(lo, before.span() as int),
            clamped_cell(hi, before.span() as int),
        ),
    ensures
        forall|c: UVec3| c.within(after.span() as int) ==> #[trigger] after.agrees(new_tree, c),
{
    let e = before.span() as int;
    lemma_extent_levels(new_tree.height());
    reveal_with_fuel(extent_of, 3);
    if new_tree.height() > 0 {
        lemma_extent_cells(new_tree.height());
    }
    if new_tree.height() < 14 {
        lemma_extent_strict(new_tree.height(), 14);
    }
    assert forall|c: UVec3| c.within(after.span() as int) implies #[trigger] after.agrees(
        new_tree,
        c,
    ) by {
        assert(before.agrees(old_tree, c));
        if !in_box(clamped_cell(lo, e), clamped_cell(hi, e), c.x as int, c.y as int, c.z as int) {
            lemma_untouched_cell(old_tree, new_tree, lo, hi, e, c);
        }
    }
}

/// A full cell reads 255, an empty one 0, and fuller never reads less.
pub proof fn law_the_byte_follows_the_count(a: int, b: int)
    requires
        0 <= a <= b <= 4096,
    ensures
        byte_for(0) == 0,
        byte_for(4096) == 255,
        byte_for(a) <= byte_for(b),
        0 <= byte_for(a) <= 255,
{
}

/// One for what holds.
spec fn one_if(b: bool) -> int {
    if b {
        1
    } else {
        0
    }
}

/// Solid voxels are counted one by one: where a single voxel turned solid, a cube that
/// holds it counts one more, and any other as many.
proof fn lemma_solids_change(
    f: spec_fn(int, int, int) -> u8,
    g: spec_fn(int, int, int) -> u8,
    level: int,
    x: int,
    y: int,
    z: int,
    p: UVec3,
)
    requires
        level >= -1,
        forall|a: int, b: int, c: int|
            x <= a < x + extent_of(level) && y <= b < y + extent_of(level) && z <= c < z
                + extent_of(level) && !(a == p.x && b == p.y && c == p.z) ==> (#[trigger] f(
                a,
                b,
                c,
            ) != 0) == (g(a, b, c) != 0),
        in_cube(p, x, y, z, extent_of(level)) ==> f(p.x as int, p.y as int, p.z as int) == 0 && g(
            p.x as int,
            p.y as int,
            p.z as int,
        ) != 0,
    ensures
        solids(g, level, x, y, z) == solids(f, level, x, y, z) + one_if(
            in_cube(p, x, y, z, extent_of(level)),
        ),
    decreases level + 1, 65int,
{
    if level < 0 {
        assert(extent_of(level) == 1);
        if !in_cube(p, x, y, z, 1) {
            assert((f(x, y, z) != 0) == (g(x, y, z) != 0));
        }
    } else {
        lemma_solids_upto_change(f, g, level, x, y, z, p, 64);
        if in_cube(p, x, y, z, extent_of(level)) {
            lemma_place_in_child(p, x, y, z, level);
        }
    }
}

proof fn lemma_solids_upto_change(
    f: spec_fn(int, int, int) -> u8,
    g: spec_fn(int, int, int) -> u8,
    level: int,
    x: int,
    y: int,
    z: int,
    p: UVec3,
    n: int,
)
    requires
        level >= 0,
        0 <= n <= 64,
        forall|a: int, b: int, c: int|
            x <= a < x + extent_of(level) && y <= b < y + extent_of(level) && z <= c < z
                + extent_of(level) && !(a == p.x && b == p.y && c == p.z) ==> (#[trigger] f(
                a,
                b,
                c,
            ) != 0) == (g(a, b, c) != 0),
        in_cube(p, x, y, z, extent_of(level)) ==> f(p.x as int, p.y as int, p.z as int) == 0 && g(
            p.x as int,
            p.y as int,
            p.z as int,
        ) != 0,
    ensures
        walk_upto(g, level, x, y, z, n).len() == walk_upto(f, level, x, y, z, n).len() + one_if(
            in_cube(p, x, y, z, extent_of(level)) && cell_at(p, x, y, z, level) < n,
        ),
    decreases level + 1, n,
{
    if in_cube(p, x, y, z, extent_of(level)) {
        lemma_place_in_child(p, x, y, z, level);
    }
    if n > 0 {
        let i = n - 1;
        lemma_solids_upto_change(f, g, level, x, y, z, p, i);
        lemma_child_cube(x, y, z, level, i);
        let (cx, cy, cz) = (child_x(x, i, level), child_y(y, i, level), child_z(z, i, level));
        assert(in_cube(p, cx, cy, cz, extent_of(level - 1)) ==> in_cube(
            p,
            x,
            y,
            z,
            extent_of(level),
        ));
        lemma_solids_change(f, g, level - 1, cx, cy, cz, p);
    }
}

/// A cell counts its solid voxels: where two volumes differ in one voxel, which is solid
/// in the second alone, the second counts one more in that voxel's cell, and as many in
/// every other.
pub proof fn law_a_solid_voxel_counts_one_in_its_own_cell(
    before: Contree,
    after: Contree,
    p: UVec3,
    c: UVec3,
)
    requires
        before.height() == after.height(),
        0 <= before.height() <= 14,
        p.x < before.side() && p.y < before.side() && p.z < before.side(),
        16 * c.x < before.side() && 16 * c.y < before.side() && 16 * c.z < before.side(),
        before.at(p).0 == 0,
        after.at(p).0 != 0,
        forall|q: UVec3|
            q != p && q.x < before.side() && q.y < before.side() && q.z < before.side() ==> (
            #[trigger] before.at(q).0 != 0) == (after.at(q).0 != 0),
    ensures
        cell_solids(after, c) - cell_solids(before, c) == if c.x == p.x as int / 16 && c.y
            == p.y as int / 16 && c.z == p.z as int / 16 {
            1int
        } else {
            0
        },
{
    let (f, g) = (before.field(), after.field());
    let (level, e) = if before.height() == 0 {
        (0int, 4int)
    } else {
        (1int, 16int)
    };
    let (x, y, z) = (16 * c.x, 16 * c.y, 16 * c.z);
    let side = before.side();
    lemma_cell_reach(before.height());
    lemma_cell_inside_side(side, e, c.x as int, p.x as int);
    lemma_cell_inside_side(side, e, c.y as int, p.y as int);
    lemma_cell_inside_side(side, e, c.z as int, p.z as int);
    assert(extent_of(level) == e);
    assert forall|a: int, b: int, d: int|
        x <= a < x + e && y <= b < y + e && z <= d < z + e && !(a == p.x && b == p.y && d
            == p.z) implies (#[trigger] f(a, b, d) != 0) == (g(a, b, d) != 0) by {
        let q = UVec3 { x: a as u32, y: b as u32, z: d as u32 };
        assert(q != p);
        assert((before.at(q).0 != 0) == (after.at(q).0 != 0));
    }
    lemma_solids_change(f, g, level, x, y, z, p);
}

/// How long cells are, and that they fill a volume's side.
proof fn lemma_cell_reach(height: int)
    requires
        0 <= height <= 14,
    ensures
        extent_of(0) == 4,
        extent_of(1) == 16,
        extent_of(height) <= 0x4000_0000,
        height == 0 ==> extent_of(height) == 4,
        height > 0 ==> extent_of(height) % 16 == 0,
{
    lemma_extent_cells(0);
    lemma_extent_cells(1);
    lemma_extent_cells(height);
    lemma_extent_levels(height);
    if height < 14 {
        lemma_extent_strict(height, 14);
    }
}

/// A cell that begins inside a volume ends inside it, and holds the coordinates whose
/// sixteenth is its own.
proof fn lemma_cell_inside_side(side: int, e: int, c: int, v: int)
    requires
        side == 4 && e == 4 || side % 16 == 0 && e == 16,
        0 <= 16 * c < side,
        0 <= v < side,
    ensures
        16 * c + e <= side,
        (16 * c <= v < 16 * c + e) == (c == v / 16),
{
}

/// A cell with nothing solid in it counts none.
pub proof fn law_an_empty_cell_counts_none(tree: Contree, c: UVec3)
    requires
        0 <= tree.height() <= 14,
        16 * c.x < tree.side() && 16 * c.y < tree.side() && 16 * c.z < tree.side(),
        forall|p: UVec3|
            p.x < tree.side() && p.y < tree.side() && p.z < tree.side() && p.x as int / 16 == c.x
                && p.y as int / 16 == c.y && p.z as int / 16 == c.z ==> (#[trigger] tree.at(p)).0
                == 0,
    ensures
        cell_solids(tree, c) == 0,
{
    let f = tree.field();
    let (level, e) = if tree.height() == 0 {
        (0int, 4int)
    } else {
        (1int, 16int)
    };
    let (x, y, z) = (16 * c.x, 16 * c.y, 16 * c.z);
    let side = tree.side();
    lemma_cell_reach(tree.height());
    lemma_cell_inside_side(side, e, c.x as int, 0);
    lemma_cell_inside_side(side, e, c.y as int, 0);
    lemma_cell_inside_side(side, e, c.z as int, 0);
    assert(constant(f, 0, x, y, z, e)) by {
        assert forall|a: int, b: int, d: int|
            x <= a < x + e && y <= b < y + e && z <= d < z + e implies #[trigger] f(a, b, d)
            == 0 by {
            let q = UVec3 { x: a as u32, y: b as u32, z: d as u32 };
            lemma_cell_inside_side(side, e, c.x as int, a);
            lemma_cell_inside_side(side, e, c.y as int, b);
            lemma_cell_inside_side(side, e, c.z as int, d);
            assert(tree.at(q).0 == 0);
        }
    }
    lemma_walk_empty(f, level, x, y, z);
}

/// The byte is the share of the cell's 4096 voxels that are solid, of 255, rounded down.
pub proof fn law_the_byte_is_the_share_rounded_down(count: int)
    requires
        0 <= count <= 4096,
    ensures
        4096 * byte_for(count) <= 255 * count < 4096 * byte_for(count) + 4096,
{
}

/// A voxel's cell is sixteen voxels wide, and what lies past the grid falls to the cell
/// at its edge.
pub proof fn law_a_voxel_falls_to_its_cell(v: int, edge: int)
    requires
        edge >= 1,
    ensures
        0 <= clamped(v, edge) < edge,
        0 <= v < 16 * edge ==> 16 * clamped(v, edge) <= v < 16 * clamped(v, edge) + 16,
        v < 0 ==> clamped(v, edge) == 0,
        v >= 16 * edge ==> clamped(v, edge) == edge - 1,
{
}

/// What a recount changes lies between the first and the last cell it covers, as cells
/// are stored.
pub proof fn law_a_recount_changes_nothing_outside_its_range(
    before: Fullness,
    after: Fullness,
    tree: Contree,
    first: UVec3,
    last: UVec3,
    c: UVec3,
)
    requires
        recounted(before, after, tree, first, last),
        c.x < before.span() && c.y < before.span() && c.z < before.span(),
        first.x < before.span() && first.y < before.span() && first.z < before.span(),
        last.x < before.span() && last.y < before.span() && last.z < before.span(),
        value(after.grid(), before.span() as int, c) != value(
            before.grid(),
            before.span() as int,
            c,
        ),
    ensures
        first.x <= c.x <= last.x,
        first.y <= c.y <= last.y,
        first.z <= c.z <= last.z,
        place(first, before.span()) <= place(c, before.span()) <= place(last, before.span()),
{
    let e = before.span() as int;
    assert(c.within(e));
    assert(in_box(first, last, c.x as int, c.y as int, c.z as int));
    lemma_place_climbs(e, first, c);
    lemma_place_climbs(e, c, last);
}

/// A cell no lower along any axis is stored no earlier.
proof fn lemma_place_climbs(e: int, a: UVec3, b: UVec3)
    requires
        a.x <= b.x && a.y <= b.y && a.z <= b.z,
        b.x < e && b.y < e && b.z < e,
    ensures
        cell_index(e, a.x as int, a.y as int, a.z as int) <= cell_index(
            e,
            b.x as int,
            b.y as int,
            b.z as int,
        ),
{
    assert(a.y * e <= b.y * e) by (nonlinear_arith)
        requires
            a.y <= b.y,
            e >= 0,
    ;
    assert(a.z * e * e <= b.z * e * e) by (nonlinear_arith)
        requires
            a.z <= b.z,
            e >= 0,
    ;
}

} // verus!
