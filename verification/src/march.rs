//! Marching a ray through a tree: recursive descent, children visited in
//! near-to-far order.
//!
//! Where along the ray it crosses a cube is told from outside, as keys that order
//! distances; everything decided from that is here.

use crate::address::UVec3;
use crate::bits::{bit, lemma_rank_monotone, ones, rank, test_bit};
use crate::contree::{level_extent, Contree};
use crate::dense::{lemma_extent_levels, lemma_extent_strict};
use crate::material::MaterialId;
use crate::node::{lemma_slot_in_block, Node, CHILDREN};
use crate::plan::{child_x, child_y, child_z, fits, stands_for};
use crate::sort::{holds, is_order, sorted_order, stands_before};
use crate::sparse::{
    cell_at, in_cube, lemma_child_cube, lemma_child_stands, lemma_place_in_child,
};
use crate::tree::{byte_of, extent_of, kid, lemma_cell, lemma_extent, lemma_ordinal, voxel_at, wf};
use vstd::prelude::*;

verus! {

/// Upper bound on child visits for one ray. Exceeding it reports an overrun and
/// returns a miss rather than looping.
pub const MAX_STEPS: u32 = 65_536;

/// What one ray cost.
#[derive(Clone, Copy, Debug, Default, PartialEq, Eq, Structural)]
pub struct MarchStats {
    pub steps: u32,
    pub overruns: u32,
}

/// The children of a mask that the ray crosses, of the first `n`, in child order.
/// `entries` holds, for a child the ray crosses, a key that orders entry
/// distances.
pub open spec fn crossed(mask: u64, entries: Seq<Option<u32>>, n: int) -> Seq<u32>
    decreases n,
{
    if n <= 0 {
        Seq::empty()
    } else if bit(mask, n - 1) && entries[n - 1] is Some {
        crossed(mask, entries, n - 1).push((n - 1) as u32)
    } else {
        crossed(mask, entries, n - 1)
    }
}

/// The entry keys of children.
pub open spec fn entry_keys(entries: Seq<Option<u32>>, children: Seq<u32>) -> Seq<u128> {
    Seq::new(children.len(), |i: int| entries[children[i] as int]->0 as u128)
}

/// The children in the order of their entry keys, earlier children first among
/// equals.
pub open spec fn near_to_far(
    entries: Seq<Option<u32>>,
    children: Seq<u32>,
    order: Seq<u32>,
) -> bool {
    exists|by: Seq<usize>| #[trigger]
        is_order(entry_keys(entries, children), by) && order == Seq::new(
            children.len(),
            |i: int| children[by[i] as int],
        )
}

/// Orders the children a ray crosses, counting one step for each child that
/// exists. `None` when the ray has used up its steps: the march is then a miss.
///
/// Closest-hit needs near-to-far order so the first hit found is the closest.
/// Shadow rays do not care which voxel they find, so they skip the sort.
pub fn children_to_visit(
    mask: u64,
    entries: &[Option<u32>],
    any_hit: bool,
    stats: &mut MarchStats,
) -> (order: Option<Vec<u32>>)
    requires
        entries@.len() == 64,
        old(stats).steps <= MAX_STEPS,
        old(stats).overruns < u32::MAX,
    ensures
        old(stats).steps + ones(mask) > MAX_STEPS ==> {
            &&& order is None
            &&& final(stats).steps == MAX_STEPS + 1
            &&& final(stats).overruns == old(stats).overruns + 1
        },
        old(stats).steps + ones(mask) <= MAX_STEPS ==> {
            &&& order is Some
            &&& final(stats).steps == old(stats).steps + ones(mask)
            &&& final(stats).overruns == old(stats).overruns
            &&& any_hit ==> order->0@ == crossed(mask, entries@, 64)
            &&& !any_hit ==> near_to_far(entries@, crossed(mask, entries@, 64), order->0@)
        },
        order is None <==> old(stats).steps + ones(mask) > 65_536,
{
    let mut found: Vec<u32> = Vec::new();
    for i in 0..CHILDREN
        invariant
            entries@.len() == 64,
            old(stats).steps + rank(mask, i as int) <= MAX_STEPS,
            stats.steps == old(stats).steps + rank(mask, i as int),
            stats.overruns == old(stats).overruns,
            old(stats).overruns < u32::MAX,
            found@ == crossed(mask, entries@, i as int),
            forall|k: int|
                0 <= k < found@.len() ==> #[trigger] found@[k] < 64
                    && entries@[found@[k] as int] is Some,
    {
        proof {
            lemma_rank_monotone(mask, i + 1, 64);
        }
        if test_bit(mask, i) {
            stats.steps = stats.steps + 1;
            if stats.steps > MAX_STEPS {
                stats.overruns = stats.overruns + 1;
                return None;
            }
            if entries[i as usize].is_some() {
                found.push(i);
            }
        }
    }
    if any_hit {
        return Some(found);
    }
    let mut keys: Vec<u128> = Vec::new();
    for k in 0..found.len()
        invariant
            entries@.len() == 64,
            forall|k: int|
                0 <= k < found@.len() ==> #[trigger] found@[k] < 64
                    && entries@[found@[k] as int] is Some,
            keys@ == entry_keys(entries@, found@).take(k as int),
    {
        let child = found[k];
        match entries[child as usize] {
            Some(key) => {
                keys.push(key as u128);
            },
            None => {},
        }
        assert(keys@ =~= entry_keys(entries@, found@).take(k + 1));
    }
    assert(keys@ =~= entry_keys(entries@, found@));
    let by = sorted_order(&keys);
    let mut order: Vec<u32> = Vec::new();
    for k in 0..by.len()
        invariant
            keys@.len() == found@.len() == by@.len(),
            is_order(keys@, by@),
            order@ == Seq::new(found@.len(), |i: int| found@[by@[i] as int]).take(k as int),
    {
        order.push(found[by[k]]);
        assert(order@ =~= Seq::new(found@.len(), |i: int| found@[by@[i] as int]).take(k + 1));
    }
    assert(order@ =~= Seq::new(found@.len(), |i: int| found@[by@[i] as int]));
    Some(order)
}

/// Whether a ray crosses cubes as `says` has it: for the corner and extent of a
/// cube, keys of where it enters and leaves.
pub open spec fn tells<F: Fn(UVec3, u32) -> Option<(u32, u32)>>(
    crosses: F,
    says: spec_fn(UVec3, u32) -> Option<(u32, u32)>,
) -> bool {
    forall|corner: UVec3, extent: u32, r: Option<(u32, u32)>| #[trigger]
        call_ensures(crosses, (corner, extent), r) ==> r == says(corner, extent)
}

/// The corner of a child.
pub open spec fn child_corner(level: int, x: int, y: int, z: int, i: int) -> UVec3 {
    UVec3 {
        x: child_x(x, i, level) as u32,
        y: child_y(y, i, level) as u32,
        z: child_z(z, i, level) as u32,
    }
}

/// Where a ray that is in a node from `enter` to `leave` is in one of its
/// children.
pub open spec fn in_child(
    says: spec_fn(UVec3, u32) -> Option<(u32, u32)>,
    level: int,
    x: int,
    y: int,
    z: int,
    enter: u32,
    leave: u32,
    i: int,
) -> Option<(u32, u32)> {
    match says(child_corner(level, x, y, z, i), extent_of(level - 1) as u32) {
        Some((a, b)) => if b < enter || a > leave {
            None
        } else {
            Some(
                (
                    if a > enter {
                        a
                    } else {
                        enter
                    },
                    if b < leave {
                        b
                    } else {
                        leave
                    },
                ),
            )
        },
        None => None,
    }
}

/// Where a ray reaches the solid region a voxel lies in, if it does: it crosses
/// every node around the voxel, and is not past `max` by then.
pub open spec fn reached(
    says: spec_fn(UVec3, u32) -> Option<(u32, u32)>,
    tree: Contree,
    max: u32,
    node: Node,
    level: int,
    x: int,
    y: int,
    z: int,
    enter: u32,
    leave: u32,
    p: UVec3,
) -> Option<u32>
    decreases level,
{
    if node.vacant() || enter > max || enter > leave {
        None
    } else if node.mask == 0 {
        Some(enter)
    } else {
        let i = cell_at(p, x, y, z, level);
        if !bit(node.mask, i) {
            None
        } else {
            match in_child(says, level, x, y, z, enter, leave, i) {
                None => None,
                Some((a, b)) => if a > max {
                    None
                } else if level <= 0 {
                    Some(a)
                } else {
                    reached(
                        says,
                        tree,
                        max,
                        kid(tree.slots(), node, i),
                        level - 1,
                        child_x(x, i, level),
                        child_y(y, i, level),
                        child_z(z, i, level),
                        a,
                        b,
                        p,
                    )
                },
            }
        }
    }
}

/// Whether a child is visited before another: near to far, or in child order
/// where any hit will do.
pub open spec fn child_before(
    says: spec_fn(UVec3, u32) -> Option<(u32, u32)>,
    any_hit: bool,
    level: int,
    x: int,
    y: int,
    z: int,
    enter: u32,
    leave: u32,
    i: int,
    j: int,
) -> bool {
    if any_hit {
        i < j
    } else {
        let (a, _) = in_child(says, level, x, y, z, enter, leave, i)->0;
        let (b, _) = in_child(says, level, x, y, z, enter, leave, j)->0;
        a < b || (a == b && i < j)
    }
}

/// Whether the region of a voxel is visited before that of another, or is the
/// same one.
pub open spec fn visited_before(
    says: spec_fn(UVec3, u32) -> Option<(u32, u32)>,
    tree: Contree,
    any_hit: bool,
    node: Node,
    level: int,
    x: int,
    y: int,
    z: int,
    enter: u32,
    leave: u32,
    p: UVec3,
    q: UVec3,
) -> bool
    decreases level,
{
    if node.mask == 0 {
        true
    } else {
        let (i, j) = (cell_at(p, x, y, z, level), cell_at(q, x, y, z, level));
        if i != j {
            child_before(says, any_hit, level, x, y, z, enter, leave, i, j)
        } else if level <= 0 {
            true
        } else {
            let (a, b) = in_child(says, level, x, y, z, enter, leave, i)->0;
            visited_before(
                says,
                tree,
                any_hit,
                kid(tree.slots(), node, i),
                level - 1,
                child_x(x, i, level),
                child_y(y, i, level),
                child_z(z, i, level),
                a,
                b,
                p,
                q,
            )
        }
    }
}

/// The region a voxel lies in: the whole cube of the node without children above it,
/// or the voxel alone. Its corner, and its extent.
pub open spec fn region_of(
    tree: Contree,
    node: Node,
    level: int,
    x: int,
    y: int,
    z: int,
    p: UVec3,
) -> (UVec3, u32)
    decreases level,
{
    if node.mask == 0 {
        (UVec3 { x: x as u32, y: y as u32, z: z as u32 }, extent_of(level) as u32)
    } else if level <= 0 {
        (p, 1)
    } else {
        let i = cell_at(p, x, y, z, level);
        region_of(
            tree,
            kid(tree.slots(), node, i),
            level - 1,
            child_x(x, i, level),
            child_y(y, i, level),
            child_z(z, i, level),
            p,
        )
    }
}

/// What a ray hit: a region of one material, a single voxel where the tree is
/// subdivided to the leaf, and where along the ray.
#[derive(Clone, Copy, Debug, PartialEq, Eq, Structural)]
pub struct RegionHit {
    pub t: u32,
    pub corner: UVec3,
    pub extent: u32,
    pub material: MaterialId,
}

impl RegionHit {
    /// Whether a voxel lies in the region.
    pub open spec fn has(self, p: UVec3) -> bool {
        in_cube(
            p,
            self.corner.x as int,
            self.corner.y as int,
            self.corner.z as int,
            self.extent as int,
        )
    }
}

/// What came of following a ray.
#[derive(Clone, Copy, Debug, PartialEq, Eq, Structural)]
pub enum Followed {
    Hit(RegionHit),
    Miss,
    /// The ray used up its steps.
    Overrun,
}

/// Whether a hit is the first region a ray reaches below a node, in the order it
/// visits them, and all of it.
pub open spec fn first_reached(
    says: spec_fn(UVec3, u32) -> Option<(u32, u32)>,
    tree: Contree,
    f: spec_fn(int, int, int) -> u8,
    max: u32,
    any_hit: bool,
    node: Node,
    level: int,
    x: int,
    y: int,
    z: int,
    enter: u32,
    leave: u32,
    hit: RegionHit,
) -> bool {
    &&& hit.extent >= 1
    &&& x <= hit.corner.x && hit.corner.x + hit.extent <= x + extent_of(level)
    &&& y <= hit.corner.y && hit.corner.y + hit.extent <= y + extent_of(level)
    &&& z <= hit.corner.z && hit.corner.z + hit.extent <= z + extent_of(level)
    &&& forall|p: UVec3| #[trigger]
        hit.has(p) ==> {
            &&& reached(says, tree, max, node, level, x, y, z, enter, leave, p) == Some(hit.t)
            &&& (hit.corner, hit.extent) == region_of(tree, node, level, x, y, z, p)
            &&& hit.material == MaterialId(f(p.x as int, p.y as int, p.z as int))
        }
    &&& forall|p: UVec3, q: UVec3|
        #![trigger hit.has(p), reached(says, tree, max, node, level, x, y, z, enter, leave, q)]
        hit.has(p) && in_cube(q, x, y, z, extent_of(level)) && reached(
            says,
            tree,
            max,
            node,
            level,
            x,
            y,
            z,
            enter,
            leave,
            q,
        ) is Some ==> visited_before(
            says,
            tree,
            any_hit,
            node,
            level,
            x,
            y,
            z,
            enter,
            leave,
            p,
            q,
        )
}

/// Whether a ray reaches nothing below a node.
pub open spec fn none_reached(
    says: spec_fn(UVec3, u32) -> Option<(u32, u32)>,
    tree: Contree,
    max: u32,
    node: Node,
    level: int,
    x: int,
    y: int,
    z: int,
    enter: u32,
    leave: u32,
) -> bool {
    forall|q: UVec3|
        in_cube(q, x, y, z, extent_of(level)) ==> #[trigger] reached(
            says,
            tree,
            max,
            node,
            level,
            x,
            y,
            z,
            enter,
            leave,
            q,
        ) is None
}

/// Whether a ray reaches nothing in a child.
pub open spec fn child_missed(
    says: spec_fn(UVec3, u32) -> Option<(u32, u32)>,
    tree: Contree,
    max: u32,
    node: Node,
    level: int,
    x: int,
    y: int,
    z: int,
    enter: u32,
    leave: u32,
    i: int,
) -> bool {
    forall|q: UVec3|
        in_cube(q, x, y, z, extent_of(level)) && cell_at(q, x, y, z, level) == i
            ==> #[trigger] reached(
            says,
            tree,
            max,
            node,
            level,
            x,
            y,
            z,
            enter,
            leave,
            q,
        ) is None
}

/// Whether a ray goes into a child: it crosses it no further than `max`, and the
/// children before it held nothing.
pub open spec fn goes_into(
    says: spec_fn(UVec3, u32) -> Option<(u32, u32)>,
    tree: Contree,
    max: u32,
    any_hit: bool,
    node: Node,
    level: int,
    x: int,
    y: int,
    z: int,
    enter: u32,
    leave: u32,
    i: int,
) -> bool {
    &&& bit(node.mask, i)
    &&& in_child(says, level, x, y, z, enter, leave, i) matches Some((a, _)) && a <= max
    &&& forall|j: int|
        0 <= j < 64 && bit(node.mask, j) && #[trigger] in_child(
            says,
            level,
            x,
            y,
            z,
            enter,
            leave,
            j,
        ) is Some && child_before(says, any_hit, level, x, y, z, enter, leave, j, i)
            ==> child_missed(says, tree, max, node, level, x, y, z, enter, leave, j)
}

/// How many children a ray is tested against below a node: those that exist in
/// every subdivided node it goes into.
pub open spec fn tested(
    says: spec_fn(UVec3, u32) -> Option<(u32, u32)>,
    tree: Contree,
    max: u32,
    any_hit: bool,
    node: Node,
    level: int,
    x: int,
    y: int,
    z: int,
    enter: u32,
    leave: u32,
) -> int
    decreases level, 65int,
{
    if node.vacant() || enter > max || enter > leave || node.mask == 0 {
        0
    } else if level <= 0 {
        ones(node.mask) as int
    } else {
        ones(node.mask) + tested_below(
            says,
            tree,
            max,
            any_hit,
            node,
            level,
            x,
            y,
            z,
            enter,
            leave,
            64,
        )
    }
}

/// The same, over the first `n` children of a node.
pub open spec fn tested_below(
    says: spec_fn(UVec3, u32) -> Option<(u32, u32)>,
    tree: Contree,
    max: u32,
    any_hit: bool,
    node: Node,
    level: int,
    x: int,
    y: int,
    z: int,
    enter: u32,
    leave: u32,
    n: int,
) -> int
    decreases level, n,
{
    if n <= 0 || level <= 0 {
        0
    } else {
        let before = tested_below(
            says,
            tree,
            max,
            any_hit,
            node,
            level,
            x,
            y,
            z,
            enter,
            leave,
            n - 1,
        );
        let i = n - 1;
        if goes_into(says, tree, max, any_hit, node, level, x, y, z, enter, leave, i) {
            let (a, b) = in_child(says, level, x, y, z, enter, leave, i)->0;
            before + tested(
                says,
                tree,
                max,
                any_hit,
                kid(tree.slots(), node, i),
                level - 1,
                child_x(x, i, level),
                child_y(y, i, level),
                child_z(z, i, level),
                a,
                b,
            )
        } else {
            before
        }
    }
}

/// Whether a child comes before another by entry key.
spec fn key_before(entries: Seq<Option<u32>>, any_hit: bool, i: int, j: int) -> bool {
    if any_hit {
        i < j
    } else {
        entries[i]->0 < entries[j]->0 || (entries[i]->0 == entries[j]->0 && i < j)
    }
}

/// The children a ray crosses, each once, in visiting order.
spec fn visit_order(
    mask: u64,
    entries: Seq<Option<u32>>,
    any_hit: bool,
    order: Seq<u32>,
) -> bool {
    &&& forall|k: int|
        0 <= k < order.len() ==> #[trigger] order[k] < 64 && bit(mask, order[k] as int)
            && entries[order[k] as int] is Some
    &&& forall|k: int, l: int|
        0 <= k < l < order.len() ==> key_before(
            entries,
            any_hit,
            #[trigger] order[k] as int,
            #[trigger] order[l] as int,
        )
    &&& forall|i: u32|
        i < 64 && bit(mask, i as int) && entries[i as int] is Some ==> #[trigger] order.contains(i)
}

proof fn lemma_crossed(mask: u64, entries: Seq<Option<u32>>, n: int)
    requires
        0 <= n <= 64,
        entries.len() == 64,
    ensures
        forall|k: int|
            0 <= k < crossed(mask, entries, n).len() ==> (#[trigger] crossed(
                mask,
                entries,
                n,
            )[k]) < n && bit(mask, crossed(mask, entries, n)[k] as int) && entries[crossed(
                mask,
                entries,
                n,
            )[k] as int] is Some,
        forall|k: int, l: int|
            0 <= k < l < crossed(mask, entries, n).len() ==> (#[trigger] crossed(
                mask,
                entries,
                n,
            )[k]) < (#[trigger] crossed(mask, entries, n)[l]),
        forall|i: u32|
            i < n && bit(mask, i as int) && entries[i as int] is Some ==> #[trigger] crossed(
                mask,
                entries,
                n,
            ).contains(i),
    decreases n,
{
    if n > 0 {
        lemma_crossed(mask, entries, n - 1);
        let before = crossed(mask, entries, n - 1);
        let now = crossed(mask, entries, n);
        assert forall|i: u32|
            i < n && bit(
                mask,
                i as int,
            ) && entries[i as int] is Some implies #[trigger] now.contains(
            i,
        ) by {
            if i == n - 1 {
                assert(now[before.len() as int] == i);
            } else {
                assert(before.contains(i));
                let k = choose|k: int| 0 <= k < before.len() && before[k] == i;
                assert(now[k] == i);
            }
        }
    }
}

proof fn lemma_visit_order(
    mask: u64,
    entries: Seq<Option<u32>>,
    any_hit: bool,
    order: Seq<u32>,
)
    requires
        entries.len() == 64,
        any_hit ==> order == crossed(mask, entries, 64),
        !any_hit ==> near_to_far(entries, crossed(mask, entries, 64), order),
    ensures
        visit_order(mask, entries, any_hit, order),
{
    lemma_crossed(mask, entries, 64);
    let children = crossed(mask, entries, 64);
    if !any_hit {
        let keys = entry_keys(entries, children);
        let by = choose|by: Seq<usize>| #[trigger]
            is_order(keys, by) && order == Seq::new(
                children.len(),
                |i: int| children[by[i] as int],
            );
        assert forall|k: int| 0 <= k < order.len() implies #[trigger] order[k] < 64 && bit(
            mask,
            order[k] as int,
        ) && entries[order[k] as int] is Some by {
            assert(order[k] == children[by[k] as int]);
        }
        assert forall|k: int, l: int| 0 <= k < l < order.len() implies key_before(
            entries,
            any_hit,
            #[trigger] order[k] as int,
            #[trigger] order[l] as int,
        ) by {
            let (a, b) = (by[k] as int, by[l] as int);
            assert(stands_before(keys, a, b));
            assert(keys[a] == entries[children[a] as int]->0);
            assert(keys[b] == entries[children[b] as int]->0);
            if keys[a] == keys[b] {
                assert(children[a] < children[b]);
            }
        }
        assert forall|i: u32|
            i < 64 && bit(
                mask,
                i as int,
            ) && entries[i as int] is Some implies #[trigger] order.contains(
            i,
        ) by {
            assert(children.contains(i));
            let c = choose|c: int| 0 <= c < children.len() && children[c] == i;
            assert(holds(by, c));
            let k = choose|k: int| 0 <= k < by.len() && #[trigger] by[k] == c;
            assert(order[k] == i);
        }
    }
}

/// What `visit` relies on of a node.
spec fn visitable(
    tree: Contree,
    node: Node,
    level: int,
    x: int,
    y: int,
    z: int,
) -> bool {
    &&& 0 <= level <= 14
    &&& fits(tree.slots())
    &&& wf(tree.slots(), node, level)
    &&& stands_for(tree.field(), tree.slots(), node, level, x, y, z)
    &&& 0 <= x && x + extent_of(level) <= 0x4000_0000
    &&& 0 <= y && y + extent_of(level) <= 0x4000_0000
    &&& 0 <= z && z + extent_of(level) <= 0x4000_0000
}

/// A uniform node a ray enters is the region it reaches.
proof fn lemma_uniform_reached(
    says: spec_fn(UVec3, u32) -> Option<(u32, u32)>,
    tree: Contree,
    max: u32,
    any_hit: bool,
    node: Node,
    level: int,
    x: int,
    y: int,
    z: int,
    enter: u32,
    leave: u32,
    hit: RegionHit,
)
    requires
        visitable(tree, node, level, x, y, z),
        node.uniform_solid(),
        enter <= max,
        enter <= leave,
        hit.t == enter,
        hit.corner.x == x && hit.corner.y == y && hit.corner.z == z,
        hit.extent == extent_of(level),
        hit.material == MaterialId(node.material as u8),
    ensures
        first_reached(
            says,
            tree,
            tree.field(),
            max,
            any_hit,
            node,
            level,
            x,
            y,
            z,
            enter,
            leave,
            hit,
        ),
{
    let f = tree.field();
    lemma_extent(level);
    assert forall|p: UVec3| #[trigger] hit.has(p) implies reached(
        says,
        tree,
        max,
        node,
        level,
        x,
        y,
        z,
        enter,
        leave,
        p,
    ) == Some(hit.t) && (hit.corner, hit.extent) == region_of(tree, node, level, x, y, z, p)
        && hit.material == MaterialId(f(p.x as int, p.y as int, p.z as int)) by {
        crate::tree::lemma_uniform(tree.slots(), node, level, p.x - x, p.y - y, p.z - z);
        assert(voxel_at(tree.slots(), node, level, p.x - x, p.y - y, p.z - z) == f(
            x + (p.x - x),
            y + (p.y - y),
            z + (p.z - z),
        ));
    }
}

/// What a ray reaches in one child, it reaches first of all where the children
/// visited before held nothing.
proof fn lemma_child_reached(
    says: spec_fn(UVec3, u32) -> Option<(u32, u32)>,
    tree: Contree,
    max: u32,
    any_hit: bool,
    node: Node,
    level: int,
    x: int,
    y: int,
    z: int,
    enter: u32,
    leave: u32,
    entries: Seq<Option<u32>>,
    order: Seq<u32>,
    k: int,
    hit: RegionHit,
)
    requires
        visitable(tree, node, level, x, y, z),
        node.mask != 0,
        enter <= max,
        enter <= leave,
        entries.len() == 64,
        entries_tell(says, node, level, x, y, z, enter, leave, entries),
        visit_order(node.mask, entries, any_hit, order),
        0 <= k < order.len(),
        missed_before(says, tree, max, node, level, x, y, z, enter, leave, order, k),
        entries[order[k] as int]->0 <= max,
        level == 0 ==> {
            &&& hit.t == entries[order[k] as int]->0
            &&& hit.corner == child_corner(0, x, y, z, order[k] as int)
            &&& hit.extent == 1
            &&& hit.material == MaterialId(byte_of(tree.slots(), node, order[k] as int))
        },
        level > 0 ==> {
            let i = order[k] as int;
            let (a, b) = in_child(says, level, x, y, z, enter, leave, i)->0;
            first_reached(
                says,
                tree,
                tree.field(),
                max,
                any_hit,
                kid(tree.slots(), node, i),
                level - 1,
                child_x(x, i, level),
                child_y(y, i, level),
                child_z(z, i, level),
                a,
                b,
                hit,
            )
        },
    ensures
        first_reached(
            says,
            tree,
            tree.field(),
            max,
            any_hit,
            node,
            level,
            x,
            y,
            z,
            enter,
            leave,
            hit,
        ),
{
    let f = tree.field();
    let s = tree.slots();
    let i = order[k] as int;
    let (cx, cy, cz) = (child_x(x, i, level), child_y(y, i, level), child_z(z, i, level));
    let step = extent_of(level - 1);
    lemma_extent(level);
    lemma_extent(level - 1);
    lemma_cell(i);
    lemma_child_cube(x, y, z, level, i);
    let there = in_child(says, level, x, y, z, enter, leave, i);
    assert(there is Some);
    let (a, b) = there->0;
    assert(entries[i] == Some(a));
    if level == 0 {
        reveal_with_fuel(extent_of, 2);
    }
    assert forall|p: UVec3| #[trigger] hit.has(p) implies in_cube(p, cx, cy, cz, step) && cell_at(
        p,
        x,
        y,
        z,
        level,
    ) == i && reached(says, tree, max, node, level, x, y, z, enter, leave, p) == Some(hit.t) && (
        hit.corner,
        hit.extent,
    ) == region_of(tree, node, level, x, y, z, p) && hit.material == MaterialId(f(p.x as int, p.y as int, p.z as int)) by {
        assert(in_cube(p, x, y, z, extent_of(level)));
        lemma_place_in_child(p, x, y, z, level);
        assert(in_cube(p, cx, cy, cz, step));
        if level == 0 {
            lemma_ordinal(p.x - x, p.y - y, p.z - z);
            assert(voxel_at(s, node, 0, p.x - x, p.y - y, p.z - z) == f(
                x + (p.x - x),
                y + (p.y - y),
                z + (p.z - z),
            ));
        }
    }
    assert forall|p: UVec3, q: UVec3|
        #![trigger hit.has(p), reached(says, tree, max, node, level, x, y, z, enter, leave, q)]
        hit.has(p) && in_cube(q, x, y, z, extent_of(level)) && reached(
            says,
            tree,
            max,
            node,
            level,
            x,
            y,
            z,
            enter,
            leave,
            q,
        ) is Some implies visited_before(
        says,
        tree,
        any_hit,
        node,
        level,
        x,
        y,
        z,
        enter,
        leave,
        p,
        q,
    ) by {
        assert(cell_at(p, x, y, z, level) == i);
        lemma_place_in_child(q, x, y, z, level);
        let j = cell_at(q, x, y, z, level);
        if j != i {
            assert(in_child(says, level, x, y, z, enter, leave, j) is Some);
            assert(bit(node.mask, j));
            assert(entries[j] is Some);
            assert(order.contains(j as u32));
            let l = choose|l: int| 0 <= l < order.len() && order[l] == j as u32;
            if l < k {
                assert(child_missed(says, tree, max, node, level, x, y, z, enter, leave, j));
            } else {
                assert(key_before(entries, any_hit, order[k] as int, order[l] as int));
            }
        } else if level > 0 {
            assert(hit.has(p));
            let child = kid(s, node, i);
            assert(reached(says, tree, max, child, level - 1, cx, cy, cz, a, b, q) is Some);
        }
    }
}

/// What the entry keys of children are.
spec fn entries_tell(
    says: spec_fn(UVec3, u32) -> Option<(u32, u32)>,
    node: Node,
    level: int,
    x: int,
    y: int,
    z: int,
    enter: u32,
    leave: u32,
    entries: Seq<Option<u32>>,
) -> bool {
    forall|i: int|
        0 <= i < entries.len() ==> #[trigger] entries[i] == if bit(node.mask, i) {
            match in_child(says, level, x, y, z, enter, leave, i) {
                Some((a, _)) => Some(a),
                None => None,
            }
        } else {
            None
        }
}

/// Whether the first `k` children visited held nothing.
spec fn missed_before(
    says: spec_fn(UVec3, u32) -> Option<(u32, u32)>,
    tree: Contree,
    max: u32,
    node: Node,
    level: int,
    x: int,
    y: int,
    z: int,
    enter: u32,
    leave: u32,
    order: Seq<u32>,
    k: int,
) -> bool {
    forall|l: int|
        0 <= l < k ==> child_missed(
            says,
            tree,
            max,
            node,
            level,
            x,
            y,
            z,
            enter,
            leave,
            #[trigger] order[l] as int,
        )
}

/// Where every child a ray crosses held nothing, it reaches nothing.
proof fn lemma_all_missed(
    says: spec_fn(UVec3, u32) -> Option<(u32, u32)>,
    tree: Contree,
    max: u32,
    any_hit: bool,
    node: Node,
    level: int,
    x: int,
    y: int,
    z: int,
    enter: u32,
    leave: u32,
    entries: Seq<Option<u32>>,
    order: Seq<u32>,
)
    requires
        visitable(tree, node, level, x, y, z),
        node.mask != 0,
        entries.len() == 64,
        entries_tell(says, node, level, x, y, z, enter, leave, entries),
        visit_order(node.mask, entries, any_hit, order),
        missed_before(
            says,
            tree,
            max,
            node,
            level,
            x,
            y,
            z,
            enter,
            leave,
            order,
            order.len() as int,
        ),
    ensures
        none_reached(says, tree, max, node, level, x, y, z, enter, leave),
{
    assert forall|q: UVec3| in_cube(q, x, y, z, extent_of(level)) implies #[trigger] reached(
        says,
        tree,
        max,
        node,
        level,
        x,
        y,
        z,
        enter,
        leave,
        q,
    ) is None by {
        lemma_place_in_child(q, x, y, z, level);
        let j = cell_at(q, x, y, z, level);
        if bit(node.mask, j) && in_child(says, level, x, y, z, enter, leave, j) is Some {
            assert(entries[j] is Some);
            assert(order.contains(j as u32));
            let l = choose|l: int| 0 <= l < order.len() && order[l] == j as u32;
            assert(child_missed(
                says,
                tree,
                max,
                node,
                level,
                x,
                y,
                z,
                enter,
                leave,
                order[l] as int,
            ));
        }
    }
}

/// How many children a ray is tested against below one child of a node.
spec fn child_cost(
    says: spec_fn(UVec3, u32) -> Option<(u32, u32)>,
    tree: Contree,
    max: u32,
    any_hit: bool,
    node: Node,
    level: int,
    x: int,
    y: int,
    z: int,
    enter: u32,
    leave: u32,
    i: int,
) -> int {
    if level > 0 && goes_into(says, tree, max, any_hit, node, level, x, y, z, enter, leave, i) {
        let (a, b) = in_child(says, level, x, y, z, enter, leave, i)->0;
        tested(
            says,
            tree,
            max,
            any_hit,
            kid(tree.slots(), node, i),
            level - 1,
            child_x(x, i, level),
            child_y(y, i, level),
            child_z(z, i, level),
            a,
            b,
        )
    } else {
        0
    }
}

/// The costs of a node's children, by index.
spec fn costs(
    says: spec_fn(UVec3, u32) -> Option<(u32, u32)>,
    tree: Contree,
    max: u32,
    any_hit: bool,
    node: Node,
    level: int,
    x: int,
    y: int,
    z: int,
    enter: u32,
    leave: u32,
) -> spec_fn(int) -> int {
    |i: int| child_cost(says, tree, max, any_hit, node, level, x, y, z, enter, leave, i)
}

/// A sum over the first `n` indices.
spec fn sum_upto(w: spec_fn(int) -> int, n: int) -> int
    decreases n,
{
    if n <= 0 {
        0
    } else {
        sum_upto(w, n - 1) + w(n - 1)
    }
}

/// A sum over listed indices.
spec fn sum_listed(w: spec_fn(int) -> int, order: Seq<u32>) -> int
    decreases order.len(),
{
    if order.len() == 0 {
        0
    } else {
        sum_listed(w, order.drop_last()) + w(order.last() as int)
    }
}

/// The same weights, but for one.
spec fn but_for(w: spec_fn(int) -> int, i: int) -> spec_fn(int) -> int {
    |j: int|
        if j == i {
            0
        } else {
            w(j)
        }
}

proof fn lemma_but_for(w: spec_fn(int) -> int, i: int, n: int)
    requires
        0 <= i,
        0 <= n,
    ensures
        sum_upto(w, n) == sum_upto(but_for(w, i), n) + if i < n {
            w(i)
        } else {
            0
        },
    decreases n,
{
    if n > 0 {
        lemma_but_for(w, i, n - 1);
    }
}

proof fn lemma_sum_positive(w: spec_fn(int) -> int, n: int)
    requires
        forall|i: int| #[trigger] w(i) >= 0,
    ensures
        sum_upto(w, n) >= 0,
    decreases n,
{
    if n > 0 {
        lemma_sum_positive(w, n - 1);
    }
}

proof fn lemma_sum_none(w: spec_fn(int) -> int, n: int)
    requires
        forall|i: int| 0 <= i < n ==> #[trigger] w(i) == 0,
    ensures
        sum_upto(w, n) == 0,
    decreases n,
{
    if n > 0 {
        lemma_sum_none(w, n - 1);
    }
}

/// The weights of distinct indices are no more than all the weights.
proof fn lemma_sum_listed(w: spec_fn(int) -> int, order: Seq<u32>, n: int)
    requires
        0 <= n,
        forall|i: int| #[trigger] w(i) >= 0,
        forall|k: int| 0 <= k < order.len() ==> #[trigger] order[k] < n,
        forall|k: int, l: int| 0 <= k < l < order.len() ==> order[k] != order[l],
    ensures
        sum_listed(w, order) <= sum_upto(w, n),
        (forall|i: int| 0 <= i < n && !order.contains(i as u32) ==> #[trigger] w(i) == 0)
            && n <= u32::MAX ==> sum_listed(w, order) == sum_upto(w, n),
    decreases order.len(),
{
    if order.len() == 0 {
        lemma_sum_positive(w, n);
        if n <= u32::MAX && forall|i: int|
            0 <= i < n && !order.contains(i as u32) ==> #[trigger] w(i) == 0 {
            lemma_sum_none(w, n);
        }
    } else {
        let last = order.last() as int;
        let rest = order.drop_last();
        let less = but_for(w, last);
        assert(order[order.len() - 1] < n);
        lemma_but_for(w, last, n);
        assert forall|i: int| #[trigger] less(i) >= 0 by {
            assert(w(i) >= 0);
        }
        lemma_sum_listed(less, rest, n);
        lemma_listed_same(w, less, rest, last);
        if n <= u32::MAX && forall|i: int|
            0 <= i < n && !order.contains(i as u32) ==> #[trigger] w(i) == 0 {
            assert forall|i: int| 0 <= i < n && !rest.contains(i as u32) implies #[trigger] less(i)
                == 0 by {
                if i != last {
                    if order.contains(i as u32) {
                        let k = choose|k: int| 0 <= k < order.len() && order[k] == i as u32;
                        assert(rest[k] == i as u32);
                    }
                    assert(w(i) == 0);
                }
            }
        }
    }
}

/// Weights that differ at an index not listed sum the same.
proof fn lemma_listed_same(
    w: spec_fn(int) -> int,
    less: spec_fn(int) -> int,
    order: Seq<u32>,
    last: int,
)
    requires
        less == but_for(w, last),
        forall|k: int| 0 <= k < order.len() ==> #[trigger] order[k] != last,
    ensures
        sum_listed(w, order) == sum_listed(less, order),
    decreases order.len(),
{
    if order.len() > 0 {
        assert(order[order.len() - 1] != last);
        assert forall|k: int| 0 <= k < order.drop_last().len() implies #[trigger] order.drop_last()[k]
            != last by {
            assert(order[k] != last);
        }
        lemma_listed_same(w, less, order.drop_last(), last);
    }
}

/// A ray is tested against no less than no children.
proof fn lemma_tested_positive(
    says: spec_fn(UVec3, u32) -> Option<(u32, u32)>,
    tree: Contree,
    max: u32,
    any_hit: bool,
    node: Node,
    level: int,
    x: int,
    y: int,
    z: int,
    enter: u32,
    leave: u32,
)
    ensures
        tested(says, tree, max, any_hit, node, level, x, y, z, enter, leave) >= 0,
    decreases level, 65int,
{
    if level > 0 {
        lemma_below_positive(says, tree, max, any_hit, node, level, x, y, z, enter, leave, 64);
    }
}

pub proof fn lemma_below_positive(
    says: spec_fn(UVec3, u32) -> Option<(u32, u32)>,
    tree: Contree,
    max: u32,
    any_hit: bool,
    node: Node,
    level: int,
    x: int,
    y: int,
    z: int,
    enter: u32,
    leave: u32,
    n: int,
)
    requires
        n <= 64,
    ensures
        tested_below(says, tree, max, any_hit, node, level, x, y, z, enter, leave, n) >= 0,
    decreases level, n,
{
    if n > 0 && level > 0 {
        lemma_below_positive(says, tree, max, any_hit, node, level, x, y, z, enter, leave, n - 1);
        let i = n - 1;
        if goes_into(says, tree, max, any_hit, node, level, x, y, z, enter, leave, i) {
            let (a, b) = in_child(says, level, x, y, z, enter, leave, i)->0;
            lemma_tested_positive(
                says,
                tree,
                max,
                any_hit,
                kid(tree.slots(), node, i),
                level - 1,
                child_x(x, i, level),
                child_y(y, i, level),
                child_z(z, i, level),
                a,
                b,
            );
        }
    }
}

proof fn lemma_costs_positive(
    says: spec_fn(UVec3, u32) -> Option<(u32, u32)>,
    tree: Contree,
    max: u32,
    any_hit: bool,
    node: Node,
    level: int,
    x: int,
    y: int,
    z: int,
    enter: u32,
    leave: u32,
    i: int,
)
    ensures
        costs(says, tree, max, any_hit, node, level, x, y, z, enter, leave)(i) >= 0,
{
    if level > 0 {
        let (a, b) = in_child(says, level, x, y, z, enter, leave, i)->0;
        lemma_tested_positive(
            says,
            tree,
            max,
            any_hit,
            kid(tree.slots(), node, i),
            level - 1,
            child_x(x, i, level),
            child_y(y, i, level),
            child_z(z, i, level),
            a,
            b,
        );
    }
}

/// What a ray is tested against below a node is the sum of its children's costs.
proof fn lemma_costs_sum(
    says: spec_fn(UVec3, u32) -> Option<(u32, u32)>,
    tree: Contree,
    max: u32,
    any_hit: bool,
    node: Node,
    level: int,
    x: int,
    y: int,
    z: int,
    enter: u32,
    leave: u32,
    n: int,
)
    requires
        0 <= n <= 64,
    ensures
        tested_below(says, tree, max, any_hit, node, level, x, y, z, enter, leave, n) == sum_upto(
            costs(says, tree, max, any_hit, node, level, x, y, z, enter, leave),
            n,
        ),
    decreases n,
{
    if n > 0 {
        lemma_costs_sum(says, tree, max, any_hit, node, level, x, y, z, enter, leave, n - 1);
    }
}

/// The child whose turn it is, no further than `max`, is gone into.
proof fn lemma_goes_into(
    says: spec_fn(UVec3, u32) -> Option<(u32, u32)>,
    tree: Contree,
    max: u32,
    any_hit: bool,
    node: Node,
    level: int,
    x: int,
    y: int,
    z: int,
    enter: u32,
    leave: u32,
    entries: Seq<Option<u32>>,
    order: Seq<u32>,
    k: int,
)
    requires
        entries.len() == 64,
        entries_tell(says, node, level, x, y, z, enter, leave, entries),
        visit_order(node.mask, entries, any_hit, order),
        0 <= k < order.len(),
        missed_before(says, tree, max, node, level, x, y, z, enter, leave, order, k),
        entries[order[k] as int]->0 <= max,
    ensures
        goes_into(says, tree, max, any_hit, node, level, x, y, z, enter, leave, order[k] as int),
{
    let i = order[k] as int;
    assert(order[k] < 64 && bit(node.mask, order[k] as int) && entries[order[k] as int] is Some);
    assert forall|j: int|
        0 <= j < 64 && bit(node.mask, j) && #[trigger] in_child(
            says,
            level,
            x,
            y,
            z,
            enter,
            leave,
            j,
        ) is Some && child_before(
            says,
            any_hit,
            level,
            x,
            y,
            z,
            enter,
            leave,
            j,
            i,
        ) implies child_missed(says, tree, max, node, level, x, y, z, enter, leave, j) by {
        assert(entries[j] is Some);
        assert(order.contains(j as u32));
        let l = choose|l: int| 0 <= l < order.len() && order[l] == j as u32;
        if l > k {
            assert(key_before(entries, any_hit, order[k] as int, order[l] as int));
        }
        assert(l < k);
        assert(child_missed(
            says,
            tree,
            max,
            node,
            level,
            x,
            y,
            z,
            enter,
            leave,
            order[l] as int,
        ));
    }
}

/// What the children visited so far cost is no more than the whole, and is the
/// whole once nothing is left to visit or something was reached.
proof fn lemma_cost_so_far(
    says: spec_fn(UVec3, u32) -> Option<(u32, u32)>,
    tree: Contree,
    max: u32,
    any_hit: bool,
    node: Node,
    level: int,
    x: int,
    y: int,
    z: int,
    enter: u32,
    leave: u32,
    entries: Seq<Option<u32>>,
    order: Seq<u32>,
    k: int,
)
    requires
        !node.vacant(),
        node.mask != 0,
        enter <= max,
        enter <= leave,
        entries.len() == 64,
        entries_tell(says, node, level, x, y, z, enter, leave, entries),
        visit_order(node.mask, entries, any_hit, order),
        0 <= k <= order.len(),
    ensures
        ones(node.mask) + sum_listed(
            costs(says, tree, max, any_hit, node, level, x, y, z, enter, leave),
            order.take(k),
        ) <= tested(says, tree, max, any_hit, node, level, x, y, z, enter, leave),
        k == order.len() || (k >= 1 && !child_missed(
            says,
            tree,
            max,
            node,
            level,
            x,
            y,
            z,
            enter,
            leave,
            order[k - 1] as int,
        )) ==> ones(node.mask) + sum_listed(
            costs(says, tree, max, any_hit, node, level, x, y, z, enter, leave),
            order.take(k),
        ) == tested(says, tree, max, any_hit, node, level, x, y, z, enter, leave),
{
    let w = costs(says, tree, max, any_hit, node, level, x, y, z, enter, leave);
    let some = order.take(k);
    assert forall|i: int| #[trigger] w(i) >= 0 by {
        lemma_costs_positive(says, tree, max, any_hit, node, level, x, y, z, enter, leave, i);
    }
    assert forall|l: int| 0 <= l < some.len() implies #[trigger] some[l] < 64 by {
        assert(order[l] < 64);
    }
    assert forall|l: int, m: int| 0 <= l < m < some.len() implies some[l] != some[m] by {
        assert(key_before(entries, any_hit, order[l] as int, order[m] as int));
    }
    lemma_sum_listed(w, some, 64);
    if k == order.len() || (k >= 1 && !child_missed(
        says,
        tree,
        max,
        node,
        level,
        x,
        y,
        z,
        enter,
        leave,
        order[k - 1] as int,
    )) {
        assert forall|i: int| 0 <= i < 64 && !some.contains(i as u32) implies #[trigger] w(i)
            == 0 by {
            if goes_into(says, tree, max, any_hit, node, level, x, y, z, enter, leave, i) {
                assert(entries[i] is Some);
                assert(order.contains(i as u32));
                let l = choose|l: int| 0 <= l < order.len() && order[l] == i as u32;
                if l < k {
                    assert(some[l] == i as u32);
                }
                let j = order[k - 1] as int;
                assert(key_before(entries, any_hit, order[k - 1] as int, order[l] as int));
                assert(order[k - 1] < 64 && bit(node.mask, j) && entries[j] is Some);
                assert(in_child(says, level, x, y, z, enter, leave, j) is Some);
                assert(child_before(says, any_hit, level, x, y, z, enter, leave, j, i));
                assert(false);
            }
        }
    }
    lemma_costs_sum(says, tree, max, any_hit, node, level, x, y, z, enter, leave, 64);
    if level <= 0 {
        lemma_sum_none(w, 64);
    }
}

/// What the leaving keys of children are.
spec fn leaves_tell(
    says: spec_fn(UVec3, u32) -> Option<(u32, u32)>,
    level: int,
    x: int,
    y: int,
    z: int,
    enter: u32,
    leave: u32,
    entries: Seq<Option<u32>>,
    leaves: Seq<u32>,
) -> bool {
    forall|k: int|
        0 <= k < entries.len() && #[trigger] entries[k] is Some ==> in_child(
            says,
            level,
            x,
            y,
            z,
            enter,
            leave,
            k,
        ) == Some((entries[k]->0, leaves[k]))
}

/// Midway through the children of a node: the first `k` of them held nothing, and
/// cost so many steps.
spec fn midway(
    says: spec_fn(UVec3, u32) -> Option<(u32, u32)>,
    tree: Contree,
    max: u32,
    any_hit: bool,
    node: Node,
    level: int,
    x: int,
    y: int,
    z: int,
    enter: u32,
    leave: u32,
    entries: Seq<Option<u32>>,
    leaves: Seq<u32>,
    order: Seq<u32>,
    k: int,
    spent: int,
) -> bool {
    &&& entries_tell(says, node, level, x, y, z, enter, leave, entries)
    &&& leaves_tell(says, level, x, y, z, enter, leave, entries, leaves)
    &&& missed_before(says, tree, max, node, level, x, y, z, enter, leave, order, k)
    &&& spent == sum_listed(
        costs(says, tree, max, any_hit, node, level, x, y, z, enter, leave),
        order.take(k),
    )
}

/// What came of a node for one ray: what it reached, and the steps it took.
spec fn followed(
    says: spec_fn(UVec3, u32) -> Option<(u32, u32)>,
    tree: Contree,
    max: u32,
    any_hit: bool,
    node: Node,
    level: int,
    x: int,
    y: int,
    z: int,
    enter: u32,
    leave: u32,
    found: Followed,
    before: int,
    after: int,
) -> bool {
    match found {
        Followed::Hit(hit) => {
            &&& first_reached(
                says,
                tree,
                tree.field(),
                max,
                any_hit,
                node,
                level,
                x,
                y,
                z,
                enter,
                leave,
                hit,
            )
            &&& after == before + tested(
                says,
                tree,
                max,
                any_hit,
                node,
                level,
                x,
                y,
                z,
                enter,
                leave,
            )
        },
        Followed::Miss => {
            &&& none_reached(says, tree, max, node, level, x, y, z, enter, leave)
            &&& after == before + tested(
                says,
                tree,
                max,
                any_hit,
                node,
                level,
                x,
                y,
                z,
                enter,
                leave,
            )
        },
        Followed::Overrun => before + tested(
            says,
            tree,
            max,
            any_hit,
            node,
            level,
            x,
            y,
            z,
            enter,
            leave,
        ) > MAX_STEPS,
    }
}

/// The children visited so far, and one more that held nothing.
proof fn lemma_midway_step(
    says: spec_fn(UVec3, u32) -> Option<(u32, u32)>,
    tree: Contree,
    max: u32,
    any_hit: bool,
    node: Node,
    level: int,
    x: int,
    y: int,
    z: int,
    enter: u32,
    leave: u32,
    entries: Seq<Option<u32>>,
    leaves: Seq<u32>,
    order: Seq<u32>,
    k: int,
    spent: int,
    more: int,
)
    requires
        midway(
            says,
            tree,
            max,
            any_hit,
            node,
            level,
            x,
            y,
            z,
            enter,
            leave,
            entries,
            leaves,
            order,
            k,
            spent,
        ),
        0 <= k < order.len(),
        child_missed(says, tree, max, node, level, x, y, z, enter, leave, order[k] as int),
        more == child_cost(
            says,
            tree,
            max,
            any_hit,
            node,
            level,
            x,
            y,
            z,
            enter,
            leave,
            order[k] as int,
        ),
    ensures
        midway(
            says,
            tree,
            max,
            any_hit,
            node,
            level,
            x,
            y,
            z,
            enter,
            leave,
            entries,
            leaves,
            order,
            k + 1,
            spent + more,
        ),
{
    assert(order.take(k + 1).drop_last() =~= order.take(k));
    assert(order.take(k + 1).last() == order[k]);
}

/// A child that cost so much, where a ray was followed into it.
proof fn lemma_followed_child(
    says: spec_fn(UVec3, u32) -> Option<(u32, u32)>,
    tree: Contree,
    max: u32,
    any_hit: bool,
    node: Node,
    level: int,
    x: int,
    y: int,
    z: int,
    enter: u32,
    leave: u32,
    entries: Seq<Option<u32>>,
    leaves: Seq<u32>,
    order: Seq<u32>,
    k: int,
    spent: int,
    found: Followed,
    first: int,
    before: int,
    after: int,
)
    requires
        visitable(tree, node, level, x, y, z),
        !node.vacant(),
        node.mask != 0,
        level >= 1,
        enter <= max,
        enter <= leave,
        entries.len() == 64,
        leaves.len() == 64,
        visit_order(node.mask, entries, any_hit, order),
        midway(
            says,
            tree,
            max,
            any_hit,
            node,
            level,
            x,
            y,
            z,
            enter,
            leave,
            entries,
            leaves,
            order,
            k,
            spent,
        ),
        0 <= k < order.len(),
        entries[order[k] as int]->0 <= max,
        before == first + ones(node.mask) + spent,
        followed(
            says,
            tree,
            max,
            any_hit,
            kid(tree.slots(), node, order[k] as int),
            level - 1,
            child_x(x, order[k] as int, level),
            child_y(y, order[k] as int, level),
            child_z(z, order[k] as int, level),
            entries[order[k] as int]->0,
            leaves[order[k] as int],
            found,
            before,
            after,
        ),
    ensures
        found is Miss ==> midway(
            says, tree, max, any_hit, node, level, x, y, z, enter, leave,
            entries,
            leaves,
            order,
            k + 1,
            spent + (after - before),
        ),
        found !is Miss ==> followed(
            says,
            tree,
            max,
            any_hit,
            node,
            level,
            x,
            y,
            z,
            enter,
            leave,
            found,
            first,
            after,
        ),
{
    let i = order[k] as int;
    assert(order[k] < 64 && bit(node.mask, order[k] as int) && entries[order[k] as int] is Some);
    let (a, b) = (entries[i]->0, leaves[i]);
    assert(in_child(says, level, x, y, z, enter, leave, i) == Some((a, b)));
    lemma_goes_into(
        says,
        tree,
        max,
        any_hit,
        node,
        level,
        x,
        y,
        z,
        enter,
        leave,
        entries,
        order,
        k,
    );
    let more = child_cost(says, tree, max, any_hit, node, level, x, y, z, enter, leave, i);
    assert(order.take(k + 1).drop_last() =~= order.take(k));
    assert(order.take(k + 1).last() == order[k]);
    match found {
        Followed::Miss => {
            lemma_child_missed(says, tree, max, node, level, x, y, z, enter, leave, i, a, b);
            lemma_midway_step(
                says,
                tree,
                max,
                any_hit,
                node,
                level,
                x,
                y,
                z,
                enter,
                leave,
                entries,
                leaves,
                order,
                k,
                spent,
                more,
            );
        },
        Followed::Hit(hit) => {
            lemma_child_reached(
                says,
                tree,
                max,
                any_hit,
                node,
                level,
                x,
                y,
                z,
                enter,
                leave,
                entries,
                order,
                k,
                hit,
            );
            lemma_not_missed(
                says,
                tree,
                max,
                any_hit,
                node,
                level,
                x,
                y,
                z,
                enter,
                leave,
                entries,
                order,
                k,
                hit,
            );
            lemma_cost_so_far(
                says,
                tree,
                max,
                any_hit,
                node,
                level,
                x,
                y,
                z,
                enter,
                leave,
                entries,
                order,
                k + 1,
            );
        },
        Followed::Overrun => {
            lemma_cost_so_far(
                says,
                tree,
                max,
                any_hit,
                node,
                level,
                x,
                y,
                z,
                enter,
                leave,
                entries,
                order,
                k + 1,
            );
        },
    }
}

/// A child something is reached in held something.
proof fn lemma_not_missed(
    says: spec_fn(UVec3, u32) -> Option<(u32, u32)>,
    tree: Contree,
    max: u32,
    any_hit: bool,
    node: Node,
    level: int,
    x: int,
    y: int,
    z: int,
    enter: u32,
    leave: u32,
    entries: Seq<Option<u32>>,
    order: Seq<u32>,
    k: int,
    hit: RegionHit,
)
    requires
        visitable(tree, node, level, x, y, z),
        0 <= k < order.len(),
        visit_order(node.mask, entries, any_hit, order),
        first_reached(
            says,
            tree,
            tree.field(),
            max,
            any_hit,
            node,
            level,
            x,
            y,
            z,
            enter,
            leave,
            hit,
        ),
        in_cube(
            hit.corner,
            child_x(x, order[k] as int, level),
            child_y(y, order[k] as int, level),
            child_z(z, order[k] as int, level),
            extent_of(level - 1),
        ),
    ensures
        !child_missed(says, tree, max, node, level, x, y, z, enter, leave, order[k] as int),
{
    let i = order[k] as int;
    assert(order[k] < 64);
    let p = hit.corner;
    lemma_child_cube(x, y, z, level, i);
    assert(in_cube(p, x, y, z, extent_of(level)));
    assert(hit.has(p));
    assert(reached(says, tree, max, node, level, x, y, z, enter, leave, p) == Some(hit.t));
    lemma_place_in_child(p, x, y, z, level);
}

/// Follows a ray below a node, which it is in from `enter` to `leave`.
fn visit<F: Fn(UVec3, u32) -> Option<(u32, u32)> + Copy>(
    tree: &Contree,
    node: Node,
    level: u32,
    origin: UVec3,
    crosses: F,
    max: u32,
    any_hit: bool,
    enter: u32,
    leave: u32,
    stats: &mut MarchStats,
) -> (found: Followed)
    requires
        forall|corner: UVec3, extent: u32| #[trigger] call_requires(crosses, (corner, extent)),
        visitable(
            *tree,
            node,
            level as int,
            origin.x as int,
            origin.y as int,
            origin.z as int,
        ),
        old(stats).steps <= MAX_STEPS,
        old(stats).overruns == 0,
    ensures
        old(stats).steps <= final(stats).steps,
        found is Overrun ==> final(stats).steps == MAX_STEPS + 1 && final(stats).overruns == 1,
        found !is Overrun ==> final(stats).steps <= MAX_STEPS && final(stats).overruns == 0,
        found matches Followed::Hit(hit) ==> enter <= hit.t <= max,
        forall|says: spec_fn(UVec3, u32) -> Option<(u32, u32)>| #[trigger]
            tells(crosses, says) ==> followed(
                says,
                *tree,
                max,
                any_hit,
                node,
                level as int,
                origin.x as int,
                origin.y as int,
                origin.z as int,
                enter,
                leave,
                found,
                old(stats).steps as int,
                final(stats).steps as int,
            ),
    decreases level,
{
    let ghost t = *tree;
    let ghost lv = level as int;
    let ghost (x, y, z) = (origin.x as int, origin.y as int, origin.z as int);
    let ghost first = stats.steps as int;
    if node.is_empty() || enter > max || enter > leave {
        return Followed::Miss;
    }
    proof {
        lemma_extent_levels(lv);
        lemma_extent(lv);
        lemma_extent(lv - 1);
    }
    if node.is_uniform_solid() {
        let hit = RegionHit {
            t: enter,
            corner: origin,
            extent: level_extent(level),
            material: node.material(),
        };
        proof {
            assert forall|says: spec_fn(UVec3, u32) -> Option<(u32, u32)>| #[trigger]
                tells(crosses, says) implies followed(
                says,
                t,
                max,
                any_hit,
                node,
                lv,
                x,
                y,
                z,
                enter,
                leave,
                Followed::Hit(hit),
                first,
                first,
            ) by {
                lemma_uniform_reached(says, t, max, any_hit, node, lv, x, y, z, enter, leave, hit);
            }
        }
        return Followed::Hit(hit);
    }
    let step: u32 = if level == 0 {
        1
    } else {
        level_extent(level - 1)
    };
    let mut entries: Vec<Option<u32>> = Vec::new();
    let mut leaves: Vec<u32> = Vec::new();
    for i in 0..CHILDREN
        invariant
            forall|corner: UVec3, extent: u32| #[trigger] call_requires(crosses, (corner, extent)),
            lv == level,
            x == origin.x && y == origin.y && z == origin.z,
            visitable(t, node, lv, x, y, z),
            step == extent_of(lv - 1),
            entries@.len() == i,
            leaves@.len() == i,
            forall|j: int| 0 <= j < i && #[trigger] entries@[j] is Some ==> entries@[j]->0 >= enter,
            forall|says: spec_fn(UVec3, u32) -> Option<(u32, u32)>| #[trigger]
                tells(crosses, says) ==> {
                    &&& entries_tell(says, node, lv, x, y, z, enter, leave, entries@)
                    &&& leaves_tell(says, lv, x, y, z, enter, leave, entries@, leaves@)
                },
    {
        let ghost had = entries@;
        let ghost were = leaves@;
        let mut entry: Option<u32> = None;
        let mut left: u32 = leave;
        if test_bit(node.mask, i) {
            proof {
                lemma_cell(i as int);
                lemma_child_cube(x, y, z, lv, i as int);
                lemma_corner_sums(lv, x, y, z, i as int, step as int);
            }
            let corner = UVec3::new(
                origin.x + (i % 4) * step,
                origin.y + ((i / 4) % 4) * step,
                origin.z + (i / 16) * step,
            );
            assert(corner == child_corner(lv, x, y, z, i as int));
            assert(call_requires(crosses, (corner, step)));
            match crosses(corner, step) {
                Some((a, b)) => {
                    if b >= enter && a <= leave {
                        entry = Some(
                            if a > enter {
                                a
                            } else {
                                enter
                            },
                        );
                        left = if b < leave {
                            b
                        } else {
                            leave
                        };
                    }
                },
                None => {},
            }
            proof {
                assert forall|says: spec_fn(UVec3, u32) -> Option<(u32, u32)>| #[trigger]
                    tells(crosses, says) implies match in_child(
                    says,
                    lv,
                    x,
                    y,
                    z,
                    enter,
                    leave,
                    i as int,
                ) {
                    Some((a, b)) => entry == Some(a) && left == b,
                    None => entry is None,
                } by {
                    assert(says(corner, step) == says(
                        child_corner(lv, x, y, z, i as int),
                        extent_of(lv - 1) as u32,
                    ));
                }
            }
        }
        entries.push(entry);
        leaves.push(left);
        proof {
            assert forall|says: spec_fn(UVec3, u32) -> Option<(u32, u32)>| #[trigger]
                tells(crosses, says) implies entries_tell(
                says,
                node,
                lv,
                x,
                y,
                z,
                enter,
                leave,
                entries@,
            ) && leaves_tell(says, lv, x, y, z, enter, leave, entries@, leaves@) by {
                assert(entries_tell(says, node, lv, x, y, z, enter, leave, had));
                assert(leaves_tell(says, lv, x, y, z, enter, leave, had, were));
                assert forall|k: int| 0 <= k < entries@.len() implies #[trigger] entries@[k]
                    == if bit(node.mask, k) {
                    match in_child(says, lv, x, y, z, enter, leave, k) {
                        Some((a, _)) => Some(a),
                        None => None,
                    }
                } else {
                    None
                } by {
                    if k < had.len() {
                        assert(entries@[k] == had[k]);
                    }
                }
                assert forall|k: int|
                    0 <= k < entries@.len() && #[trigger] entries@[k] is Some implies in_child(
                    says,
                    lv,
                    x,
                    y,
                    z,
                    enter,
                    leave,
                    k,
                ) == Some((entries@[k]->0, leaves@[k])) by {
                    if k < had.len() {
                        assert(entries@[k] == had[k]);
                        assert(leaves@[k] == were[k]);
                    }
                }
            }
        }
    }
    let order = match children_to_visit(node.mask, &entries, any_hit, stats) {
        Some(order) => order,
        None => {
            proof {
                assert forall|says: spec_fn(UVec3, u32) -> Option<(u32, u32)>| #[trigger]
                    tells(crosses, says) implies first + tested(
                    says,
                    t,
                    max,
                    any_hit,
                    node,
                    lv,
                    x,
                    y,
                    z,
                    enter,
                    leave,
                ) > MAX_STEPS by {
                    lemma_below_positive(
                        says,
                        t,
                        max,
                        any_hit,
                        node,
                        lv,
                        x,
                        y,
                        z,
                        enter,
                        leave,
                        64,
                    );
                }
            }
            return Followed::Overrun;
        },
    };
    proof {
        lemma_visit_order(node.mask, entries@, any_hit, order@);
        assert(order@.take(0) =~= Seq::empty());
    }
    let ghost began = stats.steps as int;
    for k in 0..order.len()
        invariant
            forall|corner: UVec3, extent: u32| #[trigger] call_requires(crosses, (corner, extent)),
            t == *tree,
            lv == level,
            x == origin.x && y == origin.y && z == origin.z,
            visitable(t, node, lv, x, y, z),
            node.mask != 0,
            !node.vacant(),
            enter <= max,
            enter <= leave,
            step == extent_of(lv - 1),
            entries@.len() == 64,
            leaves@.len() == 64,
            forall|j: int| 0 <= j < 64 && #[trigger] entries@[j] is Some ==> entries@[j]->0 >= enter,
            visit_order(node.mask, entries@, any_hit, order@),
            first == old(stats).steps,
            began == first + ones(node.mask),
            began <= stats.steps,
            stats.steps <= MAX_STEPS,
            stats.overruns == 0,
            forall|says: spec_fn(UVec3, u32) -> Option<(u32, u32)>| #[trigger]
                tells(crosses, says) ==> midway(
                    says,
                    t,
                    max,
                    any_hit,
                    node,
                    lv,
                    x,
                    y,
                    z,
                    enter,
                    leave,
                    entries@,
                    leaves@,
                    order@,
                    k as int,
                    stats.steps - began,
                ),
    {
        let i: u32 = order[k];
        proof {
            assert(order@[k as int] < 64);
            assert(entries@[i as int] is Some);
        }
        let a: u32 = entries[i as usize].unwrap();
        let b: u32 = leaves[i as usize];
        let ghost so_far = stats.steps as int;
        if a <= max {
            proof {
                lemma_slot_in_block(node, i as int);
                lemma_cell(i as int);
                lemma_child_cube(x, y, z, lv, i as int);
                lemma_corner_sums(lv, x, y, z, i as int, step as int);
            }
            let slot: u32 = node.child_slot(i).unwrap();
            let corner = UVec3::new(
                origin.x + (i % 4) * step,
                origin.y + ((i / 4) % 4) * step,
                origin.z + (i / 16) * step,
            );
            if level == 0 {
                let hit = RegionHit {
                    t: a,
                    corner,
                    extent: 1,
                    material: MaterialId(tree.arena().voxel(slot)),
                };
                proof {
                    assert forall|says: spec_fn(UVec3, u32) -> Option<(u32, u32)>| #[trigger]
                        tells(crosses, says) implies followed(
                        says,
                        t,
                        max,
                        any_hit,
                        node,
                        lv,
                        x,
                        y,
                        z,
                        enter,
                        leave,
                        Followed::Hit(hit),
                        first,
                        so_far,
                    ) by {
                        lemma_hit_voxel(
                            says,
                            t,
                            max,
                            any_hit,
                            node,
                            lv,
                            x,
                            y,
                            z,
                            enter,
                            leave,
                            entries@,
                            leaves@,
                            order@,
                            k as int,
                            so_far - began,
                            first,
                            hit,
                        );
                    }
                }
                return Followed::Hit(hit);
            }
            let child = tree.arena().node(slot);
            proof {
                lemma_child_stands(t.field(), t.slots(), node, lv, x, y, z, i as int);
                assert(child == kid(t.slots(), node, i as int));
            }
            let found = visit(
                tree,
                child,
                level - 1,
                corner,
                crosses,
                max,
                any_hit,
                a,
                b,
                stats,
            );
            let ghost now = stats.steps as int;
            proof {
                assert forall|says: spec_fn(UVec3, u32) -> Option<(u32, u32)>| #[trigger]
                    tells(crosses, says) implies (found is Miss ==> midway(
                    says,
                    t,
                    max,
                    any_hit,
                    node,
                    lv,
                    x,
                    y,
                    z,
                    enter,
                    leave,
                    entries@,
                    leaves@,
                    order@,
                    k + 1,
                    now - began,
                )) && (found !is Miss ==> followed(
                    says,
                    t,
                    max,
                    any_hit,
                    node,
                    lv,
                    x,
                    y,
                    z,
                    enter,
                    leave,
                    found,
                    first,
                    now,
                )) by {
                    lemma_followed_child(
                        says,
                        t,
                        max,
                        any_hit,
                        node,
                        lv,
                        x,
                        y,
                        z,
                        enter,
                        leave,
                        entries@,
                        leaves@,
                        order@,
                        k as int,
                        so_far - began,
                        found,
                        first,
                        so_far,
                        now,
                    );
                }
            }
            match found {
                Followed::Hit(hit) => {
                    return Followed::Hit(hit);
                },
                Followed::Overrun => {
                    return Followed::Overrun;
                },
                Followed::Miss => {},
            }
        } else {
            proof {
                assert forall|says: spec_fn(UVec3, u32) -> Option<(u32, u32)>| #[trigger]
                    tells(crosses, says) implies midway(
                    says,
                    t,
                    max,
                    any_hit,
                    node,
                    lv,
                    x,
                    y,
                    z,
                    enter,
                    leave,
                    entries@,
                    leaves@,
                    order@,
                    k + 1,
                    so_far - began,
                ) by {
                    assert(in_child(says, lv, x, y, z, enter, leave, i as int) == Some((a, b)));
                    lemma_midway_step(
                        says,
                        t,
                        max,
                        any_hit,
                        node,
                        lv,
                        x,
                        y,
                        z,
                        enter,
                        leave,
                        entries@,
                        leaves@,
                        order@,
                        k as int,
                        so_far - began,
                        0,
                    );
                }
            }
        }
    }
    proof {
        assert forall|says: spec_fn(UVec3, u32) -> Option<(u32, u32)>| #[trigger]
            tells(crosses, says) implies followed(
            says,
            t,
            max,
            any_hit,
            node,
            lv,
            x,
            y,
            z,
            enter,
            leave,
            Followed::Miss,
            first,
            stats.steps as int,
        ) by {
            lemma_all_missed(
                says,
                t,
                max,
                any_hit,
                node,
                lv,
                x,
                y,
                z,
                enter,
                leave,
                entries@,
                order@,
            );
            lemma_cost_so_far(
                says,
                t,
                max,
                any_hit,
                node,
                lv,
                x,
                y,
                z,
                enter,
                leave,
                entries@,
                order@,
                order@.len() as int,
            );
        }
    }
    Followed::Miss
}

/// A voxel a ray goes into is what it reaches.
proof fn lemma_hit_voxel(
    says: spec_fn(UVec3, u32) -> Option<(u32, u32)>,
    tree: Contree,
    max: u32,
    any_hit: bool,
    node: Node,
    level: int,
    x: int,
    y: int,
    z: int,
    enter: u32,
    leave: u32,
    entries: Seq<Option<u32>>,
    leaves: Seq<u32>,
    order: Seq<u32>,
    k: int,
    spent: int,
    first: int,
    hit: RegionHit,
)
    requires
        visitable(tree, node, level, x, y, z),
        !node.vacant(),
        node.mask != 0,
        level == 0,
        enter <= max,
        enter <= leave,
        entries.len() == 64,
        visit_order(node.mask, entries, any_hit, order),
        midway(
            says,
            tree,
            max,
            any_hit,
            node,
            level,
            x,
            y,
            z,
            enter,
            leave,
            entries,
            leaves,
            order,
            k,
            spent,
        ),
        0 <= k < order.len(),
        entries[order[k] as int]->0 <= max,
        hit.t == entries[order[k] as int]->0,
        hit.corner == child_corner(0, x, y, z, order[k] as int),
        hit.extent == 1,
        hit.material == MaterialId(byte_of(tree.slots(), node, order[k] as int)),
    ensures
        followed(
            says, tree, max, any_hit, node, level, x, y, z, enter, leave,
            Followed::Hit(hit),
            first,
            first + ones(node.mask) + spent,
        ),
{
    assert(order[k] < 64);
    lemma_child_reached(
        says,
        tree,
        max,
        any_hit,
        node,
        level,
        x,
        y,
        z,
        enter,
        leave,
        entries,
        order,
        k,
        hit,
    );
    lemma_child_cube(x, y, z, level, order[k] as int);
    lemma_cell(order[k] as int);
    reveal_with_fuel(extent_of, 2);
    lemma_not_missed(
        says,
        tree,
        max,
        any_hit,
        node,
        level,
        x,
        y,
        z,
        enter,
        leave,
        entries,
        order,
        k,
        hit,
    );
    lemma_cost_so_far(
        says,
        tree,
        max,
        any_hit,
        node,
        level,
        x,
        y,
        z,
        enter,
        leave,
        entries,
        order,
        k + 1,
    );
    assert(order.take(k + 1).drop_last() =~= order.take(k));
    assert(order.take(k + 1).last() == order[k]);
}

/// The sums that make a child's corner.
proof fn lemma_corner_sums(level: int, x: int, y: int, z: int, i: int, step: int)
    requires
        level >= 0,
        0 <= i < 64,
        step == extent_of(level - 1),
        extent_of(level) <= 0x4000_0000,
    ensures
        0 <= (i % 4) * step <= 0x4000_0000,
        0 <= ((i / 4) % 4) * step <= 0x4000_0000,
        0 <= (i / 16) * step <= 0x4000_0000,
        child_x(x, i, level) == x + (i % 4) * step,
        child_y(y, i, level) == y + ((i / 4) % 4) * step,
        child_z(z, i, level) == z + (i / 16) * step,
{
    lemma_cell(i);
    lemma_extent(level);
    lemma_extent(level - 1);
    lemma_child_cube(0, 0, 0, level, i);
}

/// A child below which a ray reaches nothing holds nothing it reaches.
proof fn lemma_child_missed(
    says: spec_fn(UVec3, u32) -> Option<(u32, u32)>,
    tree: Contree,
    max: u32,
    node: Node,
    level: int,
    x: int,
    y: int,
    z: int,
    enter: u32,
    leave: u32,
    i: int,
    a: u32,
    b: u32,
)
    requires
        level >= 1,
        0 <= i < 64,
        node.mask != 0,
        in_child(says, level, x, y, z, enter, leave, i) == Some((a, b)),
        none_reached(
            says,
            tree,
            max,
            kid(tree.slots(), node, i),
            level - 1,
            child_x(x, i, level),
            child_y(y, i, level),
            child_z(z, i, level),
            a,
            b,
        ),
    ensures
        child_missed(says, tree, max, node, level, x, y, z, enter, leave, i),
{
    assert forall|q: UVec3|
        in_cube(q, x, y, z, extent_of(level)) && cell_at(q, x, y, z, level)
            == i implies #[trigger] reached(
        says,
        tree,
        max,
        node,
        level,
        x,
        y,
        z,
        enter,
        leave,
        q,
    ) is None by {
        lemma_place_in_child(q, x, y, z, level);
        assert(in_cube(
            q,
            child_x(x, i, level),
            child_y(y, i, level),
            child_z(z, i, level),
            extent_of(level - 1),
        ));
        assert(reached(
            says,
            tree,
            max,
            kid(tree.slots(), node, i),
            level - 1,
            child_x(x, i, level),
            child_y(y, i, level),
            child_z(z, i, level),
            a,
            b,
            q,
        ) is None);
    }
}

/// Where a ray is in a tree, from no earlier than `start`.
pub open spec fn in_tree(
    says: spec_fn(UVec3, u32) -> Option<(u32, u32)>,
    tree: Contree,
    start: u32,
) -> Option<(u32, u32)> {
    match says(UVec3 { x: 0, y: 0, z: 0 }, tree.side() as u32) {
        Some((a, b)) => Some(
            (
                if a > start {
                    a
                } else {
                    start
                },
                b,
            ),
        ),
        None => None,
    }
}

/// What a march finds, and what it counts.
pub open spec fn marched(
    says: spec_fn(UVec3, u32) -> Option<(u32, u32)>,
    tree: Contree,
    start: u32,
    max: u32,
    any_hit: bool,
    found: Option<RegionHit>,
    before: MarchStats,
    after: MarchStats,
) -> bool {
    let (top, height) = (tree.top(), tree.height());
    match in_tree(says, tree, start) {
        None => found is None && after == before,
        Some((enter, leave)) => {
            let steps = tested(says, tree, max, any_hit, top, height, 0, 0, 0, enter, leave);
            if steps > MAX_STEPS {
                &&& found is None
                &&& after.steps == before.steps + MAX_STEPS + 1
                &&& after.overruns == before.overruns + 1
            } else {
                &&& after.steps == before.steps + steps
                &&& after.overruns == before.overruns
                &&& match found {
                    None => none_reached(
                        says,
                        tree,
                        max,
                        top,
                        height,
                        0,
                        0,
                        0,
                        enter,
                        leave,
                    ),
                    Some(hit) => first_reached(
                        says,
                        tree,
                        tree.field(),
                        max,
                        any_hit,
                        top,
                        height,
                        0,
                        0,
                        0,
                        enter,
                        leave,
                        hit,
                    ),
                }
            }
        },
    }
}

/// Marches a ray through a volume, from `start` to `max`, both keys of distances,
/// and tells the first region it reaches: the nearest, or with `any_hit` the first
/// in child order. `crosses` tells where the ray crosses a cube.
///
/// A ray that is tested against more than `MAX_STEPS` children counts an overrun,
/// and is a miss.
pub fn march<F: Fn(UVec3, u32) -> Option<(u32, u32)> + Copy>(
    tree: &Contree,
    crosses: F,
    start: u32,
    max: u32,
    any_hit: bool,
    stats: &mut MarchStats,
) -> (found: Option<RegionHit>)
    requires
        tree.readable(),
        forall|corner: UVec3, extent: u32| #[trigger] call_requires(crosses, (corner, extent)),
        old(stats).steps + MAX_STEPS + 1 <= u32::MAX,
        old(stats).overruns < u32::MAX,
    ensures
        old(stats).steps <= final(stats).steps <= old(stats).steps + MAX_STEPS + 1,
        final(stats).overruns > old(stats).overruns ==> found is None,
        found matches Some(hit) ==> start <= hit.t <= max,
        forall|says: spec_fn(UVec3, u32) -> Option<(u32, u32)>| #[trigger]
            tells(crosses, says) ==> marched(
                says,
                *tree,
                start,
                max,
                any_hit,
                found,
                *old(stats),
                *final(stats),
            ),
{
    proof {
        lemma_extent_levels(tree.height());
        if tree.height() < 14 {
            lemma_extent_strict(tree.height(), 14);
        }
    }
    let origin = UVec3::new(0, 0, 0);
    let extent: u32 = tree.extent();
    assert(call_requires(crosses, (origin, extent)));
    let (a, b) = match crosses(origin, extent) {
        Some(span) => span,
        None => return None,
    };
    let enter: u32 = if a > start {
        a
    } else {
        start
    };
    let mut ray = MarchStats { steps: 0, overruns: 0 };
    let found = visit(
        tree,
        tree.root(),
        tree.depth() - 1,
        origin,
        crosses,
        max,
        any_hit,
        enter,
        b,
        &mut ray,
    );
    stats.steps = stats.steps + ray.steps;
    stats.overruns = stats.overruns + ray.overruns;
    match found {
        Followed::Hit(hit) => Some(hit),
        _ => None,
    }
}

/// Whether a ray leaves no cube before it enters it.
pub open spec fn spans_run_forward(says: spec_fn(UVec3, u32) -> Option<(u32, u32)>) -> bool {
    forall|corner: UVec3, extent: u32|
        (#[trigger] says(corner, extent)) matches Some((a, b)) ==> a <= b
}

/// Whether a ray is in one child of a node at a time, at every level below it: it
/// has left the one it entered first by the time it enters another.
pub open spec fn one_at_a_time(
    says: spec_fn(UVec3, u32) -> Option<(u32, u32)>,
    tree: Contree,
    node: Node,
    level: int,
    x: int,
    y: int,
    z: int,
    enter: u32,
    leave: u32,
) -> bool
    decreases level,
{
    &&& forall|i: int, j: int|
        #![trigger in_child(
            says,
            level,
            x,
            y,
            z,
            enter,
            leave,
            i,
        ), in_child(says, level, x, y, z, enter, leave, j)]
        0 <= i < 64 && 0 <= j < 64 && i != j && bit(node.mask, i) && bit(node.mask, j) ==> {
            match (
                in_child(says, level, x, y, z, enter, leave, i),
                in_child(says, level, x, y, z, enter, leave, j),
            ) {
                (Some((a, b)), Some((c, _))) => a <= c ==> b <= c,
                _ => true,
            }
        }
    &&& level > 0 ==> forall|i: int|
        0 <= i < 64 && bit(node.mask, i) ==> {
            match #[trigger] in_child(says, level, x, y, z, enter, leave, i) {
                Some((a, b)) => one_at_a_time(
                    says,
                    tree,
                    kid(tree.slots(), node, i),
                    level - 1,
                    child_x(x, i, level),
                    child_y(y, i, level),
                    child_z(z, i, level),
                    a,
                    b,
                ),
                None => true,
            }
        }
}

/// A region is reached while the ray is in the node.
proof fn lemma_reached_inside(
    says: spec_fn(UVec3, u32) -> Option<(u32, u32)>,
    tree: Contree,
    max: u32,
    node: Node,
    level: int,
    x: int,
    y: int,
    z: int,
    enter: u32,
    leave: u32,
    p: UVec3,
)
    requires
        spans_run_forward(says),
        reached(says, tree, max, node, level, x, y, z, enter, leave, p) is Some,
    ensures
        enter <= reached(says, tree, max, node, level, x, y, z, enter, leave, p)->0 <= leave,
    decreases level,
{
    if node.mask != 0 && level > 0 {
        let i = cell_at(p, x, y, z, level);
        let (a, b) = in_child(says, level, x, y, z, enter, leave, i)->0;
        lemma_reached_inside(
            says,
            tree,
            max,
            kid(tree.slots(), node, i),
            level - 1,
            child_x(x, i, level),
            child_y(y, i, level),
            child_z(z, i, level),
            a,
            b,
            p,
        );
    }
}

/// Near-to-far order makes the first region a ray reaches the nearest: where it is
/// in one child at a time, no region it reaches is nearer than one visited before
/// it.
pub proof fn law_what_is_visited_first_is_nearest(
    says: spec_fn(UVec3, u32) -> Option<(u32, u32)>,
    tree: Contree,
    max: u32,
    node: Node,
    level: int,
    x: int,
    y: int,
    z: int,
    enter: u32,
    leave: u32,
    p: UVec3,
    q: UVec3,
)
    requires
        spans_run_forward(says),
        level >= 0,
        one_at_a_time(says, tree, node, level, x, y, z, enter, leave),
        in_cube(p, x, y, z, extent_of(level)),
        in_cube(q, x, y, z, extent_of(level)),
        reached(says, tree, max, node, level, x, y, z, enter, leave, p) is Some,
        reached(says, tree, max, node, level, x, y, z, enter, leave, q) is Some,
        visited_before(says, tree, false, node, level, x, y, z, enter, leave, p, q),
    ensures
        reached(says, tree, max, node, level, x, y, z, enter, leave, p)->0 <= reached(
            says,
            tree,
            max,
            node,
            level,
            x,
            y,
            z,
            enter,
            leave,
            q,
        )->0,
    decreases level,
{
    if node.mask != 0 {
        lemma_place_in_child(p, x, y, z, level);
        lemma_place_in_child(q, x, y, z, level);
        let (i, j) = (cell_at(p, x, y, z, level), cell_at(q, x, y, z, level));
        let s = tree.slots();
        let (a, b) = in_child(says, level, x, y, z, enter, leave, i)->0;
        let (c, d) = in_child(says, level, x, y, z, enter, leave, j)->0;
        if i == j && level > 0 {
            law_what_is_visited_first_is_nearest(
                says,
                tree,
                max,
                kid(s, node, i),
                level - 1,
                child_x(x, i, level),
                child_y(y, i, level),
                child_z(z, i, level),
                a,
                b,
                p,
                q,
            );
        } else if i != j && level > 0 {
            lemma_reached_inside(
                says,
                tree,
                max,
                kid(s, node, i),
                level - 1,
                child_x(x, i, level),
                child_y(y, i, level),
                child_z(z, i, level),
                a,
                b,
                p,
            );
            lemma_reached_inside(
                says,
                tree,
                max,
                kid(s, node, j),
                level - 1,
                child_x(x, j, level),
                child_y(y, j, level),
                child_z(z, j, level),
                c,
                d,
                q,
            );
        }
    }
}

/// Voxels that are each visited before the other, or with it, lie in one region.
pub proof fn law_regions_are_visited_whole(
    says: spec_fn(UVec3, u32) -> Option<(u32, u32)>,
    tree: Contree,
    any_hit: bool,
    node: Node,
    level: int,
    x: int,
    y: int,
    z: int,
    enter: u32,
    leave: u32,
    p: UVec3,
    q: UVec3,
)
    requires
        level >= 0,
        in_cube(p, x, y, z, extent_of(level)),
        in_cube(q, x, y, z, extent_of(level)),
        visited_before(says, tree, any_hit, node, level, x, y, z, enter, leave, p, q),
        visited_before(says, tree, any_hit, node, level, x, y, z, enter, leave, q, p),
    ensures
        region_of(tree, node, level, x, y, z, q) == region_of(tree, node, level, x, y, z, p),
    decreases level,
{
    if node.mask != 0 {
        lemma_place_in_child(p, x, y, z, level);
        lemma_place_in_child(q, x, y, z, level);
        let i = cell_at(p, x, y, z, level);
        assert(cell_at(q, x, y, z, level) == i);
        let (cx, cy, cz) = (child_x(x, i, level), child_y(y, i, level), child_z(z, i, level));
        let step = extent_of(level - 1);
        assert(in_cube(p, cx, cy, cz, step));
        assert(in_cube(q, cx, cy, cz, step));
        if level == 0 {
            reveal_with_fuel(extent_of, 2);
            assert(p == q);
        } else {
            let (a, b) = in_child(says, level, x, y, z, enter, leave, i)->0;
            law_regions_are_visited_whole(
                says,
                tree,
                any_hit,
                kid(tree.slots(), node, i),
                level - 1,
                cx,
                cy,
                cz,
                a,
                b,
                p,
                q,
            );
        }
    }
}

/// A voxel lies in its region.
proof fn lemma_region_has(
    tree: Contree,
    node: Node,
    level: int,
    x: int,
    y: int,
    z: int,
    p: UVec3,
)
    requires
        level >= 0,
        0 <= x && x + extent_of(level) <= u32::MAX,
        0 <= y && y + extent_of(level) <= u32::MAX,
        0 <= z && z + extent_of(level) <= u32::MAX,
        in_cube(p, x, y, z, extent_of(level)),
    ensures
        ({
            let (corner, extent) = region_of(tree, node, level, x, y, z, p);
            in_cube(p, corner.x as int, corner.y as int, corner.z as int, extent as int)
        }),
    decreases level,
{
    lemma_extent(level);
    if node.mask != 0 && level > 0 {
        lemma_place_in_child(p, x, y, z, level);
        let i = cell_at(p, x, y, z, level);
        let (cx, cy, cz) = (child_x(x, i, level), child_y(y, i, level), child_z(z, i, level));
        lemma_child_cube(x, y, z, level, i);
        assert(in_cube(p, cx, cy, cz, extent_of(level - 1)));
        lemma_region_has(tree, kid(tree.slots(), node, i), level - 1, cx, cy, cz, p);
    }
}

/// A hit is the whole of the first region: it holds every voxel the ray reaches that
/// is visited no later than one of its own.
pub proof fn law_a_hit_is_all_of_its_region(
    says: spec_fn(UVec3, u32) -> Option<(u32, u32)>,
    tree: Contree,
    f: spec_fn(int, int, int) -> u8,
    max: u32,
    any_hit: bool,
    node: Node,
    level: int,
    x: int,
    y: int,
    z: int,
    enter: u32,
    leave: u32,
    hit: RegionHit,
    p: UVec3,
    q: UVec3,
)
    requires
        level >= 0,
        0 <= x && x + extent_of(level) <= u32::MAX,
        0 <= y && y + extent_of(level) <= u32::MAX,
        0 <= z && z + extent_of(level) <= u32::MAX,
        first_reached(says, tree, f, max, any_hit, node, level, x, y, z, enter, leave, hit),
        hit.has(p),
        in_cube(q, x, y, z, extent_of(level)),
        reached(says, tree, max, node, level, x, y, z, enter, leave, q) is Some,
        visited_before(says, tree, any_hit, node, level, x, y, z, enter, leave, q, p),
    ensures
        hit.has(q),
{
    law_regions_are_visited_whole(
        says,
        tree,
        any_hit,
        node,
        level,
        x,
        y,
        z,
        enter,
        leave,
        p,
        q,
    );
    lemma_region_has(tree, node, level, x, y, z, q);
}

/// The children a ray visits are those that exist and that it crosses, each once and in
/// child order where any hit will do.
pub proof fn law_a_ray_visits_the_children_it_crosses(mask: u64, entries: Seq<Option<u32>>)
    requires
        entries.len() == 64,
    ensures
        forall|i: u32| #[trigger]
            crossed(mask, entries, 64).contains(i) <==> i < 64 && bit(mask, i as int)
                && entries[i as int] is Some,
        forall|k: int, l: int|
            0 <= k < l < crossed(mask, entries, 64).len() ==> #[trigger] crossed(
                mask,
                entries,
                64,
            )[k] < #[trigger] crossed(mask, entries, 64)[l],
{
    lemma_crossed(mask, entries, 64);
    let children = crossed(mask, entries, 64);
    assert forall|i: u32| #[trigger] children.contains(i) <==> i < 64 && bit(mask, i as int)
        && entries[i as int] is Some by {
        if children.contains(i) {
            let k = choose|k: int| 0 <= k < children.len() && children[k] == i;
            assert(children[k] == i);
        }
    }
}

/// Where the closest hit is wanted, the same children are visited by where the ray
/// enters them, and those it enters at once in child order.
pub proof fn law_nearer_children_are_visited_first(
    mask: u64,
    entries: Seq<Option<u32>>,
    order: Seq<u32>,
)
    requires
        entries.len() == 64,
        near_to_far(entries, crossed(mask, entries, 64), order),
    ensures
        forall|i: u32| #[trigger]
            order.contains(i) <==> i < 64 && bit(mask, i as int) && entries[i as int] is Some,
        order.no_duplicates(),
        forall|k: int, l: int|
            0 <= k < l < order.len() ==> {
                let (a, b) = (#[trigger] order[k], #[trigger] order[l]);
                &&& entries[a as int]->0 <= entries[b as int]->0
                &&& entries[a as int]->0 == entries[b as int]->0 ==> a < b
            },
{
    let children = crossed(mask, entries, 64);
    let keys = entry_keys(entries, children);
    law_a_ray_visits_the_children_it_crosses(mask, entries);
    let by = choose|by: Seq<usize>| #[trigger]
        is_order(keys, by) && order == Seq::new(children.len(), |i: int| children[by[i] as int]);
    crate::sort::law_an_order_is_sorted_and_stable(keys, by);
    assert forall|i: int| 0 <= i < by.len() implies 0 <= #[trigger] by[i] < children.len() by {}
    assert forall|i: u32| #[trigger] order.contains(i) <==> children.contains(i) by {
        if children.contains(i) {
            let c = choose|c: int| 0 <= c < children.len() && children[c] == i;
            assert(crate::sort::holds(by, c));
            let k = choose|k: int| 0 <= k < by.len() && #[trigger] by[k] == c;
            assert(order[k] == i);
        }
        if order.contains(i) {
            let k = choose|k: int| 0 <= k < order.len() && order[k] == i;
            assert(children[by[k] as int] == i);
        }
    }
    assert forall|k: int, l: int| 0 <= k < l < order.len() implies {
        let (a, b) = (#[trigger] order[k], #[trigger] order[l]);
        &&& entries[a as int]->0 <= entries[b as int]->0
        &&& entries[a as int]->0 == entries[b as int]->0 ==> a < b
        &&& a != b
    } by {
        let (c, d) = (by[k], by[l]);
        assert(keys[c as int] <= keys[d as int]);
        assert(order[k] == children[c as int] && order[l] == children[d as int]);
        assert(c != d);
    }
}

} // verus!
