//! How many slots an edit can take: a block for each node it touches.

use crate::address::UVec3;
use crate::plan::{child_x, child_y, child_z, lemma_child_inside, volume};
use crate::sparse::{cell_of, in_cube, lemma_cell_of};
use crate::tree::{extent_of, lemma_cell, lemma_cell_span, lemma_extent};
use vstd::prelude::*;

verus! {

/// A cube at a position whose coordinates all fit.
pub open spec fn in_space(level: int, x: int, y: int, z: int) -> bool {
    &&& 0 <= x && x + extent_of(level) <= 0x4000_0000
    &&& 0 <= y && y + extent_of(level) <= 0x4000_0000
    &&& 0 <= z && z + extent_of(level) <= 0x4000_0000
}

/// The most slots of a kind an edit can add below a node: a block for each node
/// it touches.
pub open spec fn growth(
    meets: spec_fn(int, int, int, int) -> bool,
    leaf: bool,
    level: int,
    x: int,
    y: int,
    z: int,
) -> int
    decreases level, 65int,
{
    if !meets(x, y, z, extent_of(level)) {
        0
    } else if level <= 0 {
        if leaf {
            64
        } else {
            0
        }
    } else {
        (if leaf {
            0int
        } else {
            64int
        }) + growth_upto(meets, leaf, level, x, y, z, 64)
    }
}

/// The same, below the first `n` children.
pub open spec fn growth_upto(
    meets: spec_fn(int, int, int, int) -> bool,
    leaf: bool,
    level: int,
    x: int,
    y: int,
    z: int,
    n: int,
) -> int
    decreases level, n,
{
    if n <= 0 || level <= 0 {
        0
    } else {
        growth_upto(meets, leaf, level, x, y, z, n - 1) + growth(
            meets,
            leaf,
            level - 1,
            child_x(x, n - 1, level),
            child_y(y, n - 1, level),
            child_z(z, n - 1, level),
        )
    }
}

pub proof fn lemma_growth(
    meets: spec_fn(int, int, int, int) -> bool,
    leaf: bool,
    level: int,
    x: int,
    y: int,
    z: int,
)
    requires
        level >= 0,
    ensures
        0 <= growth(meets, leaf, level, x, y, z) <= volume(level),
        !leaf ==> growth(meets, leaf, level, x, y, z) <= volume(level) - 64,
    decreases level, 65int,
{
    crate::plan::lemma_volume(level);
    if level == 0 {
        reveal_with_fuel(volume, 2);
    } else {
        crate::plan::lemma_volume(level - 1);
        lemma_growth_upto(meets, leaf, level, x, y, z, 64, 64);
    }
}

pub proof fn lemma_growth_upto(
    meets: spec_fn(int, int, int, int) -> bool,
    leaf: bool,
    level: int,
    x: int,
    y: int,
    z: int,
    m: int,
    n: int,
)
    requires
        level >= 1,
        0 <= m <= n <= 64,
    ensures
        0 <= growth_upto(meets, leaf, level, x, y, z, m) <= growth_upto(
            meets,
            leaf,
            level,
            x,
            y,
            z,
            n,
        ),
        growth_upto(meets, leaf, level, x, y, z, n) <= n * volume(level - 1),
        !leaf ==> growth_upto(meets, leaf, level, x, y, z, n) <= n * (volume(level - 1) - 64),
    decreases level, n,
{
    let v = volume(level - 1);
    assert(0 * v == 0 && 0 * (v - 64) == 0);
    if n > 0 {
        let k = if m < n {
            m
        } else {
            n - 1
        };
        lemma_growth_upto(meets, leaf, level, x, y, z, k, n - 1);
        lemma_growth(
            meets,
            leaf,
            level - 1,
            child_x(x, n - 1, level),
            child_y(y, n - 1, level),
            child_z(z, n - 1, level),
        );
        assert((n - 1) * v + v == n * v) by (nonlinear_arith);
        assert((n - 1) * (v - 64) + (v - 64) == n * (v - 64)) by (nonlinear_arith);
    }
}

/// An edit that touches less adds no more.
pub proof fn lemma_growth_less(
    few: spec_fn(int, int, int, int) -> bool,
    many: spec_fn(int, int, int, int) -> bool,
    leaf: bool,
    level: int,
    x: int,
    y: int,
    z: int,
)
    requires
        level >= 0,
        forall|a: int, b: int, c: int, e: int| #[trigger] few(a, b, c, e) ==> many(a, b, c, e),
    ensures
        growth(few, leaf, level, x, y, z) <= growth(many, leaf, level, x, y, z),
    decreases level, 65int,
{
    lemma_growth(many, leaf, level, x, y, z);
    if level > 0 {
        lemma_growth_upto_less(few, many, leaf, level, x, y, z, 64);
    }
}

pub proof fn lemma_growth_upto_less(
    few: spec_fn(int, int, int, int) -> bool,
    many: spec_fn(int, int, int, int) -> bool,
    leaf: bool,
    level: int,
    x: int,
    y: int,
    z: int,
    n: int,
)
    requires
        level >= 1,
        0 <= n <= 64,
        forall|a: int, b: int, c: int, e: int| #[trigger] few(a, b, c, e) ==> many(a, b, c, e),
    ensures
        growth_upto(few, leaf, level, x, y, z, n) <= growth_upto(many, leaf, level, x, y, z, n),
    decreases level, n,
{
    if n > 0 {
        lemma_growth_upto_less(few, many, leaf, level, x, y, z, n - 1);
        lemma_growth_less(
            few,
            many,
            leaf,
            level - 1,
            child_x(x, n - 1, level),
            child_y(y, n - 1, level),
            child_z(z, n - 1, level),
        );
    }
}

/// Cubes that are met alike add alike.
pub proof fn lemma_growth_agree(
    f: spec_fn(int, int, int, int) -> bool,
    g: spec_fn(int, int, int, int) -> bool,
    leaf: bool,
    level: int,
    x: int,
    y: int,
    z: int,
)
    requires
        level >= 0,
        in_space(level, x, y, z),
        forall|a: int, b: int, c: int, e: int|
            0 <= a <= u32::MAX && 0 <= b <= u32::MAX && 0 <= c <= u32::MAX && 0 <= e <= u32::MAX
                ==> #[trigger] f(a, b, c, e) == g(a, b, c, e),
    ensures
        growth(f, leaf, level, x, y, z) == growth(g, leaf, level, x, y, z),
    decreases level, 65int,
{
    lemma_extent(level);
    assert(f(x, y, z, extent_of(level)) == g(x, y, z, extent_of(level)));
    if level > 0 {
        lemma_growth_upto_agree(f, g, leaf, level, x, y, z, 64);
    }
}

pub proof fn lemma_growth_upto_agree(
    f: spec_fn(int, int, int, int) -> bool,
    g: spec_fn(int, int, int, int) -> bool,
    leaf: bool,
    level: int,
    x: int,
    y: int,
    z: int,
    n: int,
)
    requires
        level >= 1,
        0 <= n <= 64,
        in_space(level, x, y, z),
        forall|a: int, b: int, c: int, e: int|
            0 <= a <= u32::MAX && 0 <= b <= u32::MAX && 0 <= c <= u32::MAX && 0 <= e <= u32::MAX
                ==> #[trigger] f(a, b, c, e) == g(a, b, c, e),
    ensures
        growth_upto(f, leaf, level, x, y, z, n) == growth_upto(g, leaf, level, x, y, z, n),
    decreases level, n,
{
    if n > 0 {
        lemma_growth_upto_agree(f, g, leaf, level, x, y, z, n - 1);
        lemma_extent(level);
        lemma_extent(level - 1);
        lemma_cell(n - 1);
        lemma_child_inside(x, y, z, level, n - 1);
        lemma_cell_span((n - 1) % 4, 0, extent_of(level - 1));
        lemma_cell_span(((n - 1) / 4) % 4, 0, extent_of(level - 1));
        lemma_cell_span((n - 1) / 16, 0, extent_of(level - 1));
        lemma_growth_agree(
            f,
            g,
            leaf,
            level - 1,
            child_x(x, n - 1, level),
            child_y(y, n - 1, level),
            child_z(z, n - 1, level),
        );
    }
}

/// The cubes that hold one of some voxels.
pub open spec fn holding(voxels: Seq<UVec3>) -> spec_fn(int, int, int, int) -> bool {
    |x: int, y: int, z: int, extent: int|
        exists|k: int| 0 <= k < voxels.len() && in_cube(#[trigger] voxels[k], x, y, z, extent)
}

/// The most slots of a kind that changing one voxel can take: a block on each level.
pub open spec fn per_voxel(leaf: bool, level: int) -> int {
    if leaf {
        64
    } else {
        64 * level
    }
}

/// A child's cube lies in the node's.
proof fn lemma_child_holds(p: UVec3, level: int, x: int, y: int, z: int, i: int)
    requires
        level >= 1,
        0 <= i < 64,
        in_cube(
            p,
            child_x(x, i, level),
            child_y(y, i, level),
            child_z(z, i, level),
            extent_of(level - 1),
        ),
    ensures
        in_cube(p, x, y, z, extent_of(level)),
{
    let e = extent_of(level - 1);
    lemma_extent(level);
    lemma_extent(level - 1);
    lemma_cell(i);
    lemma_child_inside(x, y, z, level, i);
    lemma_cell_span(i % 4, 0, e);
    lemma_cell_span((i / 4) % 4, 0, e);
    lemma_cell_span(i / 16, 0, e);
}

/// Nothing grows below a cube that holds none of the voxels.
proof fn lemma_holding_none(
    voxels: Seq<UVec3>,
    leaf: bool,
    level: int,
    x: int,
    y: int,
    z: int,
    n: int,
)
    requires
        level >= 1,
        0 <= n <= 64,
        !holding(voxels)(x, y, z, extent_of(level)),
    ensures
        growth_upto(holding(voxels), leaf, level, x, y, z, n) == 0,
    decreases n,
{
    if n > 0 {
        lemma_holding_none(voxels, leaf, level, x, y, z, n - 1);
        let f = holding(voxels);
        let (cx, cy, cz) = (
            child_x(x, n - 1, level),
            child_y(y, n - 1, level),
            child_z(z, n - 1, level),
        );
        let e = extent_of(level - 1);
        if f(cx, cy, cz, e) {
            let k = choose|k: int|
                0 <= k < voxels.len() && in_cube(#[trigger] voxels[k], cx, cy, cz, e);
            lemma_child_holds(voxels[k], level, x, y, z, n - 1);
        }
        assert(growth(f, leaf, level - 1, cx, cy, cz) == 0);
    }
}

/// One voxel takes a block on each level.
proof fn lemma_growth_one(p: UVec3, leaf: bool, level: int, x: int, y: int, z: int)
    requires
        level >= 0,
    ensures
        growth(holding(seq![p]), leaf, level, x, y, z) <= per_voxel(leaf, level),
    decreases level, 65int,
{
    let f = holding(seq![p]);
    if level > 0 && f(x, y, z, extent_of(level)) {
        assert(seq![p][0] == p);
        assert(in_cube(p, x, y, z, extent_of(level)));
        lemma_growth_one_upto(p, leaf, level, x, y, z, 64);
    }
}

proof fn lemma_growth_one_upto(p: UVec3, leaf: bool, level: int, x: int, y: int, z: int, n: int)
    requires
        level >= 1,
        0 <= n <= 64,
        in_cube(p, x, y, z, extent_of(level)),
    ensures
        growth_upto(holding(seq![p]), leaf, level, x, y, z, n) <= if cell_of(
            p,
            x,
            y,
            z,
            extent_of(level - 1),
        ) < n {
            per_voxel(leaf, level - 1)
        } else {
            0
        },
    decreases level, n,
{
    if n > 0 {
        let f = holding(seq![p]);
        let (cx, cy, cz) = (
            child_x(x, n - 1, level),
            child_y(y, n - 1, level),
            child_z(z, n - 1, level),
        );
        lemma_growth_one_upto(p, leaf, level, x, y, z, n - 1);
        lemma_cell_of(p, x, y, z, level, n - 1);
        if cell_of(p, x, y, z, extent_of(level - 1)) == n - 1 {
            lemma_growth_one(p, leaf, level - 1, cx, cy, cz);
        } else {
            if f(cx, cy, cz, extent_of(level - 1)) {
                assert(in_cube(p, cx, cy, cz, extent_of(level - 1)));
            }
            assert(growth(f, leaf, level - 1, cx, cy, cz) == 0);
        }
    }
}

/// What voxels take together is no more than what they take each for itself.
proof fn lemma_growth_sum(
    voxels: Seq<UVec3>,
    p: UVec3,
    leaf: bool,
    level: int,
    x: int,
    y: int,
    z: int,
)
    requires
        level >= 0,
    ensures
        growth(holding(voxels.push(p)), leaf, level, x, y, z) <= growth(
            holding(voxels),
            leaf,
            level,
            x,
            y,
            z,
        ) + growth(holding(seq![p]), leaf, level, x, y, z),
    decreases level, 65int,
{
    let all = voxels.push(p);
    let (f, g, h) = (holding(voxels), holding(seq![p]), holding(all));
    let e = extent_of(level);
    lemma_growth(f, leaf, level, x, y, z);
    lemma_growth(g, leaf, level, x, y, z);
    if h(x, y, z, e) {
        let k = choose|k: int| 0 <= k < all.len() && in_cube(#[trigger] all[k], x, y, z, e);
        if k < voxels.len() {
            assert(in_cube(voxels[k], x, y, z, e));
        } else {
            assert(in_cube(seq![p][0], x, y, z, e));
        }
        assert(f(x, y, z, e) || g(x, y, z, e));
        if level > 0 {
            lemma_growth_sum_upto(voxels, p, leaf, level, x, y, z, 64);
            if !f(x, y, z, e) {
                lemma_holding_none(voxels, leaf, level, x, y, z, 64);
            }
            if !g(x, y, z, e) {
                lemma_holding_none(seq![p], leaf, level, x, y, z, 64);
            }
        }
    }
}

proof fn lemma_growth_sum_upto(
    voxels: Seq<UVec3>,
    p: UVec3,
    leaf: bool,
    level: int,
    x: int,
    y: int,
    z: int,
    n: int,
)
    requires
        level >= 1,
        0 <= n <= 64,
    ensures
        growth_upto(holding(voxels.push(p)), leaf, level, x, y, z, n) <= growth_upto(
            holding(voxels),
            leaf,
            level,
            x,
            y,
            z,
            n,
        ) + growth_upto(holding(seq![p]), leaf, level, x, y, z, n),
    decreases level, n,
{
    if n > 0 {
        lemma_growth_sum_upto(voxels, p, leaf, level, x, y, z, n - 1);
        lemma_growth_sum(
            voxels,
            p,
            leaf,
            level - 1,
            child_x(x, n - 1, level),
            child_y(y, n - 1, level),
            child_z(z, n - 1, level),
        );
    }
}

/// Changing voxels takes at most a block on each level for each of them.
pub proof fn law_each_voxel_takes_a_block_on_each_level(
    voxels: Seq<UVec3>,
    leaf: bool,
    level: int,
    x: int,
    y: int,
    z: int,
)
    requires
        level >= 0,
    ensures
        growth(holding(voxels), leaf, level, x, y, z) <= voxels.len() * per_voxel(leaf, level),
    decreases voxels.len(),
{
    let each = per_voxel(leaf, level);
    if voxels.len() == 0 {
        assert(!holding(voxels)(x, y, z, extent_of(level)));
        assert(0 * each == 0);
    } else {
        let rest = voxels.drop_last();
        let p = voxels.last();
        law_each_voxel_takes_a_block_on_each_level(rest, leaf, level, x, y, z);
        lemma_growth_one(p, leaf, level, x, y, z);
        lemma_growth_sum(rest, p, leaf, level, x, y, z);
        assert(rest.push(p) =~= voxels);
        let n = rest.len() as int;
        assert((n + 1) * each == n * each + each) by (nonlinear_arith);
    }
}

} // verus!
