//! Arena storage for contree nodes and leaf voxel bytes.
//!
//! Reclamation is a free list per size class, which is the deliberately simple
//! version of a page allocator. Replace it only if measurement shows
//! fragmentation actually costs something.

use crate::node::{Node, CHILDREN};
use crate::sort::{holds, sorted_order};
use core::ops::Range;
use vstd::prelude::*;

verus! {

/// Storage for the nodes and voxel bytes of one tree.
#[derive(Clone, Debug)]
pub struct NodeArena {
    pub(crate) nodes: Vec<Node>,
    pub(crate) voxels: Vec<u8>,
    pub(crate) node_free: Vec<Vec<u32>>,
    pub(crate) voxel_free: Vec<Vec<u32>>,
    pub(crate) dirty_nodes: Vec<Range<u32>>,
    pub(crate) dirty_voxels: Vec<Range<u32>>,
}

/// The stored slots: nodes, and the voxel bytes of leaf bricks.
#[verifier::ext_equal]
pub ghost struct Slots {
    pub nodes: Seq<Node>,
    pub voxels: Seq<u8>,
}

impl Slots {
    pub open spec fn none() -> Slots {
        Slots { nodes: Seq::empty(), voxels: Seq::empty() }
    }

    /// How many slots of a kind there are.
    pub open spec fn len(self, leaf: bool) -> nat {
        if leaf {
            self.voxels.len()
        } else {
            self.nodes.len()
        }
    }

    /// Whether a slot holds the same here as in `other`.
    pub open spec fn same(self, other: Slots, leaf: bool, slot: int) -> bool {
        if leaf {
            self.voxels[slot] == other.voxels[slot]
        } else {
            self.nodes[slot] == other.nodes[slot]
        }
    }
}

/// The start of the `k`-th free block of `count` slots, and whether there is one.
pub open spec fn is_block(free: Seq<Vec<u32>>, count: int, k: int) -> bool {
    1 <= count <= 64 && 0 <= k < free[count]@.len()
}

/// Whether a slot lies in a block of the free lists.
pub open spec fn in_lists(free: Seq<Vec<u32>>, slot: int) -> bool {
    exists|count: int, k: int| #[trigger]
        is_block(free, count, k) && free[count]@[k] <= slot < free[count]@[k] + count
}

/// Free blocks lie inside the storage and do not overlap.
pub open spec fn lists_wf(free: Seq<Vec<u32>>, len: int) -> bool {
    &&& free.len() == 65
    &&& forall|count: int, k: int| #[trigger]
        is_block(free, count, k) ==> free[count]@[k] + count <= len
    &&& forall|c: int, k: int, d: int, l: int|
        #![trigger is_block(free, c, k), is_block(free, d, l)]
        is_block(free, c, k) && is_block(free, d, l) && !(c == d && k == l) ==> free[c]@[k] + c
            <= free[d]@[l] || free[d]@[l] + d <= free[c]@[k]
}

/// Whether some range covers a slot.
pub open spec fn covered(ranges: Seq<Range<u32>>, slot: int) -> bool {
    exists|k: int| 0 <= k < ranges.len() && (#[trigger] ranges[k]).start <= slot < ranges[k].end
}

/// Sorted, with a gap between each range and the next.
pub open spec fn separate(ranges: Seq<Range<u32>>) -> bool {
    forall|i: int, j: int|
        0 <= i < j < ranges.len() ==> (#[trigger] ranges[i]).end < (#[trigger] ranges[j]).start
}

/// No range is empty.
pub open spec fn ordered(ranges: Seq<Range<u32>>) -> bool {
    forall|i: int| 0 <= i < ranges.len() ==> (#[trigger] ranges[i]).start < ranges[i].end
}

/// Slots are covered in one way only by ranges that are merged where they
/// touch: two such lists that cover the same slots are the same list.
pub proof fn law_merged_ranges_are_unique(a: Seq<Range<u32>>, b: Seq<Range<u32>>)
    requires
        ordered(a),
        separate(a),
        ordered(b),
        separate(b),
        forall|slot: int| #[trigger] covered(a, slot) == covered(b, slot),
    ensures
        a == b,
    decreases a.len(),
{
    if a.len() == 0 {
        if b.len() > 0 {
            assert(b[0].start <= b[0].start < b[0].end);
            assert(covered(b, b[0].start as int));
            assert(covered(a, b[0].start as int));
        }
    } else {
        let n = a.len() - 1;
        assert(a[n].start <= a[n].end - 1 < a[n].end);
        assert(covered(a, a[n].end - 1));
        assert(covered(b, a[n].end - 1));
        let m = b.len() - 1;
        lemma_last_range(a, b);
        lemma_last_range(b, a);
        let (rest, other) = (a.drop_last(), b.drop_last());
        assert forall|slot: int| #[trigger] covered(rest, slot) == covered(other, slot) by {
            lemma_but_last(a, slot);
            lemma_but_last(b, slot);
            assert(covered(a, slot) == covered(b, slot));
        }
        law_merged_ranges_are_unique(rest, other);
        assert(a =~= rest.push(a[n]));
        assert(b =~= other.push(b[m]));
    }
}

/// The last range lies inside that of a list that covers the same slots.
proof fn lemma_last_range(a: Seq<Range<u32>>, b: Seq<Range<u32>>)
    requires
        a.len() > 0,
        b.len() > 0,
        ordered(a),
        separate(a),
        ordered(b),
        separate(b),
        forall|slot: int| #[trigger] covered(a, slot) == covered(b, slot),
    ensures
        a.last().end <= b.last().end,
        a.last().start >= b.last().start,
{
    let (n, m) = (a.len() - 1, b.len() - 1);
    let top = a[n].end - 1;
    assert(a[n].start <= top < a[n].end);
    assert(covered(a, top));
    assert(covered(b, top));
    let k = choose|k: int| 0 <= k < b.len() && (#[trigger] b[k]).start <= top < b[k].end;
    if k < m {
        assert(b[k].end < b[m].start);
    }
    assert(a[n].end <= b[m].end);
    if a[n].start < b[m].start {
        let high = b[m].end - 1;
        assert(b[m].start <= high < b[m].end);
        assert(covered(b, high));
        assert(covered(a, high));
        let i = choose|i: int| 0 <= i < a.len() && (#[trigger] a[i]).start <= high < a[i].end;
        if i < n {
            assert(a[i].end < a[n].start);
        }
        let below = b[m].start - 1;
        assert(a[n].start <= below < a[n].end);
        assert(covered(a, below));
        assert(covered(b, below));
        let j = choose|j: int| 0 <= j < b.len() && (#[trigger] b[j]).start <= below < b[j].end;
        if j < m {
            assert(b[j].end < b[m].start);
        }
    }
}

/// What the other ranges cover is what the last one does not.
proof fn lemma_but_last(a: Seq<Range<u32>>, slot: int)
    requires
        a.len() > 0,
        ordered(a),
        separate(a),
    ensures
        covered(a.drop_last(), slot) == (covered(a, slot) && !(a.last().start <= slot
            < a.last().end)),
{
    let rest = a.drop_last();
    let n = a.len() - 1;
    if covered(rest, slot) {
        let k = choose|k: int|
            0 <= k < rest.len() && (#[trigger] rest[k]).start <= slot < rest[k].end;
        assert(a[k].start <= slot < a[k].end);
        assert(a[k].end < a[n].start);
    }
    if covered(a, slot) && !(a.last().start <= slot < a.last().end) {
        let k = choose|k: int| 0 <= k < a.len() && (#[trigger] a[k]).start <= slot < a[k].end;
        assert(rest[k].start <= slot < rest[k].end);
    }
}

/// Merges overlapping and adjacent ranges, leaving disjoint ones separate.
fn normalize(ranges: &Vec<Range<u32>>) -> (out: Vec<Range<u32>>)
    requires
        ordered(ranges@),
    ensures
        ordered(out@),
        separate(out@),
        forall|slot: int| covered(out@, slot) == covered(ranges@, slot),
{
    let mut keys: Vec<u128> = Vec::new();
    for i in 0..ranges.len()
        invariant
            keys@.len() == i,
            forall|k: int| 0 <= k < i ==> #[trigger] keys@[k] == ranges@[k].start,
    {
        keys.push(ranges[i].start as u128);
    }
    let order = sorted_order(&keys);
    let mut out: Vec<Range<u32>> = Vec::new();
    for n in 0..order.len()
        invariant
            ordered(ranges@),
            order@.len() == ranges@.len(),
            keys@.len() == ranges@.len(),
            forall|k: int| 0 <= k < keys@.len() ==> #[trigger] keys@[k] == ranges@[k].start,
            crate::sort::is_order(keys@, order@),
            ordered(out@),
            separate(out@),
            n == 0 ==> out@.len() == 0,
            n > 0 ==> out@.len() > 0 && out@.last().start <= ranges@[order@[n - 1] as int].start,
            forall|slot: int|
                covered(out@, slot) == (exists|k: int|
                    0 <= k < n && ranges@[(#[trigger] order@[k]) as int].start <= slot
                        < ranges@[order@[k] as int].end),
    {
        let at = order[n];
        let start: u32 = ranges[at].start;
        let end: u32 = ranges[at].end;
        let ghost before = out@;
        let len = out.len();
        proof {
            if n > 0 {
                assert(keys@[order@[n - 1] as int] <= keys@[order@[n as int] as int]);
            }
        }
        if len > 0 && start <= out[len - 1].end {
            let first: u32 = out[len - 1].start;
            let last: u32 = out[len - 1].end;
            let until: u32 = if last > end { last } else { end };
            out.pop();
            out.push(Range { start: first, end: until });
            proof {
                assert forall|slot: int| covered(out@, slot) == (covered(before, slot) || start
                    <= slot < end) by {
                    if covered(before, slot) {
                        let k = choose|k: int|
                            0 <= k < before.len() && (#[trigger] before[k]).start <= slot
                                < before[k].end;
                        assert(out@[k].start <= slot < out@[k].end);
                    }
                    if start <= slot < end {
                        assert(out@[len - 1].start <= slot < out@[len - 1].end);
                    }
                    if covered(out@, slot) {
                        let k = choose|k: int|
                            0 <= k < out@.len() && (#[trigger] out@[k]).start <= slot < out@[k].end;
                        if k < len - 1 {
                            assert(before[k].start <= slot < before[k].end);
                        } else if !(start <= slot < end) {
                            assert(before[k].start <= slot < before[k].end);
                        }
                    }
                }
            }
        } else {
            out.push(Range { start, end });
            proof {
                if len > 0 {
                    assert forall|i: int, j: int| 0 <= i < j < out@.len() implies (
                    #[trigger] out@[i]).end < (#[trigger] out@[j]).start by {
                        if j == len {
                            assert(before[len - 1].end < start);
                            if i < len - 1 {
                                assert(before[i].end < before[len - 1].start);
                            }
                        }
                    }
                }
                assert forall|slot: int| covered(out@, slot) == (covered(before, slot) || start
                    <= slot < end) by {
                    if covered(before, slot) {
                        let k = choose|k: int|
                            0 <= k < before.len() && (#[trigger] before[k]).start <= slot
                                < before[k].end;
                        assert(out@[k].start <= slot < out@[k].end);
                    }
                    if start <= slot < end {
                        assert(out@[len as int].start <= slot < out@[len as int].end);
                    }
                    if covered(out@, slot) {
                        let k = choose|k: int|
                            0 <= k < out@.len() && (#[trigger] out@[k]).start <= slot < out@[k].end;
                        if k < len {
                            assert(before[k].start <= slot < before[k].end);
                        }
                    }
                }
            }
        }
        proof {
            assert forall|slot: int| covered(out@, slot) == (exists|k: int|
                0 <= k < n + 1 && ranges@[(#[trigger] order@[k]) as int].start <= slot
                    < ranges@[order@[k] as int].end) by {
                if covered(before, slot) {
                    let k = choose|k: int|
                        0 <= k < n && ranges@[(#[trigger] order@[k]) as int].start <= slot
                            < ranges@[order@[k] as int].end;
                    assert(0 <= k < n + 1 && ranges@[order@[k] as int].start <= slot);
                }
                if start <= slot < end {
                    assert(ranges@[order@[n as int] as int].start <= slot);
                }
            }
        }
    }
    proof {
        assert forall|slot: int| covered(out@, slot) == covered(ranges@, slot) by {
            if covered(ranges@, slot) {
                let j = choose|j: int|
                    0 <= j < ranges@.len() && (#[trigger] ranges@[j]).start <= slot
                        < ranges@[j].end;
                assert(holds(order@, j));
                let k = choose|k: int| 0 <= k < order@.len() && #[trigger] order@[k] == j;
                assert(ranges@[order@[k] as int].start <= slot);
            }
        }
    }
    out
}

/// Adding a range adds what it covers.
pub proof fn lemma_covered_push(ranges: Seq<Range<u32>>, range: Range<u32>)
    ensures
        forall|slot: int|
            #[trigger] covered(ranges.push(range), slot) == (covered(ranges, slot) || range.start <= slot
                < range.end),
{
    let more = ranges.push(range);
    assert forall|slot: int|
        covered(more, slot) == (covered(ranges, slot) || range.start <= slot < range.end) by {
        if covered(ranges, slot) {
            let k = choose|k: int|
                0 <= k < ranges.len() && (#[trigger] ranges[k]).start <= slot < ranges[k].end;
            assert(more[k].start <= slot < more[k].end);
        }
        if range.start <= slot < range.end {
            assert(more[ranges.len() as int].start <= slot < more[ranges.len() as int].end);
        }
        if covered(more, slot) {
            let k = choose|k: int|
                0 <= k < more.len() && (#[trigger] more[k]).start <= slot < more[k].end;
            if k < ranges.len() {
                assert(ranges[k].start <= slot < ranges[k].end);
            }
        }
    }
}

/// Popping a block takes exactly that block out of the free slots.
proof fn lemma_take(old_lists: Seq<Vec<u32>>, new_lists: Seq<Vec<u32>>, len: int, count: int)
    requires
        lists_wf(old_lists, len),
        1 <= count <= 64,
        new_lists.len() == 65,
        forall|c: int|
            0 <= c < 65 && c != count ==> (#[trigger] new_lists[c])@ == old_lists[c]@,
        new_lists[count]@ == if old_lists[count]@.len() > 0 {
            old_lists[count]@.drop_last()
        } else {
            old_lists[count]@
        },
    ensures
        forall|n: int| len <= n ==> lists_wf(new_lists, n),
        forall|slot: int|
            in_lists(new_lists, slot) == (in_lists(old_lists, slot) && !(old_lists[count]@.len() > 0
                && old_lists[count]@.last() <= slot < old_lists[count]@.last() + count)),
        old_lists[count]@.len() > 0 ==> old_lists[count]@.last() + count <= len && forall|slot: int|
            old_lists[count]@.last() <= slot < old_lists[count]@.last() + count ==> in_lists(
                old_lists,
                slot,
            ),
        forall|slot: int| in_lists(old_lists, slot) ==> slot < len,
{
    assert forall|c: int, k: int| #[trigger] is_block(new_lists, c, k) implies is_block(
        old_lists,
        c,
        k,
    ) && new_lists[c]@[k] == old_lists[c]@[k] by {}
    let top = old_lists[count]@.len() - 1;
    if top >= 0 {
        assert(is_block(old_lists, count, top));
    }
    assert forall|slot: int|
        in_lists(new_lists, slot) == (in_lists(old_lists, slot) && !(old_lists[count]@.len() > 0
            && old_lists[count]@.last() <= slot < old_lists[count]@.last() + count)) by {
        if in_lists(new_lists, slot) {
            let (c, k) = choose|c: int, k: int| #[trigger]
                is_block(new_lists, c, k) && new_lists[c]@[k] <= slot < new_lists[c]@[k] + c;
            assert(is_block(old_lists, c, k));
        }
        if in_lists(old_lists, slot) {
            let (c, k) = choose|c: int, k: int| #[trigger]
                is_block(old_lists, c, k) && old_lists[c]@[k] <= slot < old_lists[c]@[k] + c;
            if !(c == count && k == top) {
                assert(is_block(new_lists, c, k));
            }
        }
    }
}

/// Pushing a block adds exactly that block to the free slots.
proof fn lemma_give(
    old_lists: Seq<Vec<u32>>,
    new_lists: Seq<Vec<u32>>,
    len: int,
    start: u32,
    count: int,
)
    requires
        lists_wf(old_lists, len),
        1 <= count <= 64,
        new_lists.len() == 65,
        forall|c: int|
            0 <= c < 65 && c != count ==> (#[trigger] new_lists[c])@ == old_lists[c]@,
        new_lists[count]@ == old_lists[count]@.push(start),
    ensures
        start + count <= len && (forall|slot: int|
            start <= slot < start + count ==> !in_lists(old_lists, slot)) ==> lists_wf(
            new_lists,
            len,
        ),
        forall|slot: int|
            in_lists(new_lists, slot) == (in_lists(old_lists, slot) || start <= slot < start
                + count),
{
    let top = old_lists[count]@.len() as int;
    assert(is_block(new_lists, count, top));
    assert forall|c: int, k: int| #[trigger] is_block(new_lists, c, k) && !(c == count && k
        == top) implies is_block(old_lists, c, k) && new_lists[c]@[k] == old_lists[c]@[k] by {}
    assert forall|slot: int|
        in_lists(new_lists, slot) == (in_lists(old_lists, slot) || start <= slot < start
            + count) by {
        if in_lists(new_lists, slot) {
            let (c, k) = choose|c: int, k: int| #[trigger]
                is_block(new_lists, c, k) && new_lists[c]@[k] <= slot < new_lists[c]@[k] + c;
            if !(c == count && k == top) {
                assert(is_block(old_lists, c, k));
            }
        }
        if in_lists(old_lists, slot) {
            let (c, k) = choose|c: int, k: int| #[trigger]
                is_block(old_lists, c, k) && old_lists[c]@[k] <= slot < old_lists[c]@[k] + c;
            assert(is_block(new_lists, c, k));
        }
    }
    if start + count <= len && (forall|slot: int|
        start <= slot < start + count ==> !in_lists(old_lists, slot)) {
        assert forall|c: int, k: int|
            is_block(new_lists, c, k) && !(c == count && k == top) implies #[trigger] new_lists[c]@[k]
            + c <= start || start + count <= new_lists[c]@[k] by {
            assert(is_block(old_lists, c, k));
            let s = old_lists[c]@[k] as int;
            let at = if s > start as int { s } else { start as int };
            if s < start + count && start < s + c {
                assert(in_lists(old_lists, at));
            }
        }
    }
}

impl NodeArena {
    /// What is stored.
    pub open(crate) spec fn slots(&self) -> Slots {
        Slots { nodes: self.nodes@, voxels: self.voxels@ }
    }

    /// The free blocks of a kind, by size class.
    pub open(crate) spec fn free_lists(&self, leaf: bool) -> Seq<Vec<u32>> {
        if leaf {
            self.voxel_free@
        } else {
            self.node_free@
        }
    }

    /// The ranges of a kind written since the last `clear_dirty`, in the order
    /// they were written.
    pub open(crate) spec fn written(&self, leaf: bool) -> Seq<Range<u32>> {
        if leaf {
            self.dirty_voxels@
        } else {
            self.dirty_nodes@
        }
    }

    /// Whether a slot is in a free block.
    #[verifier::inline]
    pub open spec fn is_free(&self, leaf: bool, slot: int) -> bool {
        in_lists(self.free_lists(leaf), slot)
    }

    /// Whether a slot was allocated or written since the last `clear_dirty`.
    pub open spec fn is_dirty(&self, leaf: bool, slot: int) -> bool {
        covered(self.written(leaf), slot)
    }

    /// Slots are addressable, free blocks are stored blocks that do not overlap,
    /// and written ranges are ranges.
    pub open spec fn wf(&self) -> bool {
        self.kind_wf(false) && self.kind_wf(true)
    }

    /// What `wf` says of one kind of slot.
    pub open spec fn kind_wf(&self, leaf: bool) -> bool {
        &&& self.slots().len(leaf) <= u32::MAX
        &&& lists_wf(self.free_lists(leaf), self.slots().len(leaf) as int)
        &&& ordered(self.written(leaf))
    }

    pub fn new() -> (arena: NodeArena)
        ensures
            arena.wf(),
            arena.slots() == Slots::none(),
            forall|leaf: bool, slot: int| !arena.is_free(leaf, slot),
            forall|leaf: bool, slot: int| !arena.is_dirty(leaf, slot),
    {
        // Indexed by slot count; 0 is unused so that the count reads directly.
        let mut node_free: Vec<Vec<u32>> = Vec::new();
        let mut voxel_free: Vec<Vec<u32>> = Vec::new();
        for count in 0..CHILDREN + 1
            invariant
                node_free@.len() == count,
                voxel_free@.len() == count,
                forall|c: int| 0 <= c < count ==> (#[trigger] node_free@[c])@.len() == 0,
                forall|c: int| 0 <= c < count ==> (#[trigger] voxel_free@[c])@.len() == 0,
        {
            node_free.push(Vec::new());
            voxel_free.push(Vec::new());
        }
        NodeArena {
            nodes: Vec::new(),
            voxels: Vec::new(),
            node_free,
            voxel_free,
            dirty_nodes: Vec::new(),
            dirty_voxels: Vec::new(),
        }
    }

    /// Takes a block of `count` node slots, reusing a freed block of that size
    /// where there is one.
    pub fn alloc_nodes(&mut self, count: u32) -> (start: u32)
        requires
            old(self).wf(),
            1 <= count <= CHILDREN,
            old(self).free_lists(false)[count as int]@.len() > 0 || old(self).slots().len(false)
                + count <= u32::MAX,
        ensures
            final(self).wf(),
            final(self).free_lists(true) == old(self).free_lists(true),
            final(self).written(true) == old(self).written(true),
            final(self).written(false) == old(self).written(false).push(
                (Range { start, end: (start + count) as u32 }),
            ),
            old(self).free_lists(false)[count as int]@.len() > 0 ==> {
                &&& final(self).slots() == old(self).slots()
                &&& start == old(self).free_lists(false)[count as int]@.last()
                &&& final(self).free_lists(false)[count as int]@ == old(self).free_lists(
                    false,
                )[count as int]@.drop_last()
            },
            old(self).free_lists(false)[count as int]@.len() == 0 ==> {
                &&& start == old(self).slots().len(false)
                &&& final(self).slots() == (Slots {
                    nodes: old(self).slots().nodes + Seq::new(
                        count as nat,
                        |i: int| Node::solid(0),
                    ),
                    ..old(self).slots()
                })
                &&& final(self).free_lists(false)[count as int]@.len() == 0
            },
            forall|c: int|
                0 <= c < 65 && c != count ==> (#[trigger] final(self).free_lists(false)[c])@
                    == old(self).free_lists(false)[c]@,
            start + count <= final(self).slots().len(false),
            forall|slot: int|
                start <= slot < start + count ==> old(self).is_free(false, slot) || slot >= old(self).slots().len(false),
            forall|leaf: bool, slot: int|
                final(self).is_free(leaf, slot) == (old(self).is_free(leaf, slot) && !(leaf == false
                    && start <= slot < start + count)),
            forall|leaf: bool, slot: int|
                final(self).is_dirty(leaf, slot) == (old(self).is_dirty(leaf, slot) || (leaf == false
                    && start <= slot < start + count)),
    {
        let ghost before = *self;
        let start = match self.node_free[count as usize].pop() {
            Some(start) => start,
            None => {
                let start = self.nodes.len() as u32;
                let total = self.nodes.len() + count as usize;
                self.nodes.resize(total, Node::empty());
                start
            },
        };
        proof {
            lemma_take(before.free_lists(false), self.free_lists(false), before.slots().len(false) as int, count as int);
        }
        self.dirty_nodes.push(Range { start, end: start + count });
        proof {
            lemma_covered_push(before.written(false), Range { start, end: (start + count) as u32 });
            assert(self.free_lists(true) == before.free_lists(true));
        }
        start
    }

    /// Gives a block of `count` node slots back for reuse.
    pub fn free_nodes(&mut self, start: u32, count: u32)
        requires
            old(self).wf(),
            1 <= count <= CHILDREN,
        ensures
            final(self).slots() == old(self).slots(),
            final(self).written(false) == old(self).written(false),
            final(self).written(true) == old(self).written(true),
            final(self).free_lists(true) == old(self).free_lists(true),
            final(self).free_lists(false).len() == 65,
            forall|c: int|
                0 <= c < 65 && c != count ==> (#[trigger] final(self).free_lists(false)[c])@
                    == old(self).free_lists(false)[c]@,
            final(self).free_lists(false)[count as int]@ == old(self).free_lists(
                false,
            )[count as int]@.push(start),
            forall|leaf: bool, slot: int|
                final(self).is_free(leaf, slot) == (old(self).is_free(leaf, slot) || (leaf == false
                    && start <= slot < start + count)),
            start + count <= old(self).slots().len(false) && (forall|slot: int|
                start <= slot < start + count ==> !old(self).is_free(false, slot)) ==> final(self).wf(),
    {
        let ghost before = *self;
        self.node_free[count as usize].push(start);
        proof {
            lemma_give(before.free_lists(false), self.free_lists(false), before.slots().len(false) as int, start, count as int);
            assert(self.free_lists(true) == before.free_lists(true));
            assert(self.written(false) == before.written(false));
            assert(self.written(true) == before.written(true));
        }
    }

    /// The node in a slot.
    pub fn node(&self, slot: u32) -> (value: Node)
        requires
            slot < self.slots().nodes.len(),
        ensures
            value == self.slots().nodes[slot as int],
    {
        self.nodes[slot as usize]
    }

    /// Writes a node slot, and marks it dirty.
    pub fn set_node(&mut self, slot: u32, value: Node)
        requires
            slot < old(self).slots().nodes.len(),
            slot < u32::MAX,
        ensures
            final(self).slots() == (Slots {
                nodes: old(self).slots().nodes.update(slot as int, value),
                ..old(self).slots()
            }),
            forall|leaf: bool| #[trigger]
                final(self).free_lists(leaf) == old(self).free_lists(leaf),
            final(self).written(true) == old(self).written(true),
            final(self).written(false) == old(self).written(false).push(
                (Range { start: slot, end: (slot + 1) as u32 }),
            ),
            old(self).wf() ==> final(self).wf(),
            forall|leaf: bool, s: int|
                final(self).is_dirty(leaf, s) == (old(self).is_dirty(leaf, s) || (leaf == false && s
                    == slot)),
    {
        self.nodes.set(slot as usize, value);
        self.dirty_nodes.push(Range { start: slot, end: slot + 1 });
        proof {
            lemma_covered_push(old(self).written(false), Range { start: slot, end: (slot + 1) as u32 });
        }
    }

    /// Every node slot, in order.
    pub fn nodes(&self) -> (all: &[Node])
        ensures
            all@ == self.slots().nodes,
    {
        self.nodes.as_slice()
    }

    /// The node slots touched since the last `clear_dirty`, as ranges merged where
    /// contiguous.
    pub fn dirty_nodes(&self) -> (ranges: Vec<Range<u32>>)
        requires
            ordered(self.written(false)),
        ensures
            ordered(ranges@),
            separate(ranges@),
            forall|slot: int| covered(ranges@, slot) == self.is_dirty(false, slot),
    {
        normalize(&self.dirty_nodes)
    }

    /// Takes a block of `count` voxel slots, reusing a freed block of that size
    /// where there is one.
    pub fn alloc_voxels(&mut self, count: u32) -> (start: u32)
        requires
            old(self).wf(),
            1 <= count <= CHILDREN,
            old(self).free_lists(true)[count as int]@.len() > 0 || old(self).slots().len(true)
                + count <= u32::MAX,
        ensures
            final(self).wf(),
            final(self).free_lists(false) == old(self).free_lists(false),
            final(self).written(false) == old(self).written(false),
            final(self).written(true) == old(self).written(true).push(
                (Range { start, end: (start + count) as u32 }),
            ),
            old(self).free_lists(true)[count as int]@.len() > 0 ==> {
                &&& final(self).slots() == old(self).slots()
                &&& start == old(self).free_lists(true)[count as int]@.last()
                &&& final(self).free_lists(true)[count as int]@ == old(self).free_lists(
                    true,
                )[count as int]@.drop_last()
            },
            old(self).free_lists(true)[count as int]@.len() == 0 ==> {
                &&& start == old(self).slots().len(true)
                &&& final(self).slots() == (Slots {
                    voxels: old(self).slots().voxels + Seq::new(
                        count as nat,
                        |i: int| 0u8,
                    ),
                    ..old(self).slots()
                })
                &&& final(self).free_lists(true)[count as int]@.len() == 0
            },
            forall|c: int|
                0 <= c < 65 && c != count ==> (#[trigger] final(self).free_lists(true)[c])@
                    == old(self).free_lists(true)[c]@,
            start + count <= final(self).slots().len(true),
            forall|slot: int|
                start <= slot < start + count ==> old(self).is_free(true, slot) || slot >= old(self).slots().len(true),
            forall|leaf: bool, slot: int|
                final(self).is_free(leaf, slot) == (old(self).is_free(leaf, slot) && !(leaf == true
                    && start <= slot < start + count)),
            forall|leaf: bool, slot: int|
                final(self).is_dirty(leaf, slot) == (old(self).is_dirty(leaf, slot) || (leaf == true
                    && start <= slot < start + count)),
    {
        let ghost before = *self;
        let start = match self.voxel_free[count as usize].pop() {
            Some(start) => start,
            None => {
                let start = self.voxels.len() as u32;
                let total = self.voxels.len() + count as usize;
                self.voxels.resize(total, 0);
                start
            },
        };
        proof {
            lemma_take(before.free_lists(true), self.free_lists(true), before.slots().len(true) as int, count as int);
        }
        self.dirty_voxels.push(Range { start, end: start + count });
        proof {
            lemma_covered_push(before.written(true), Range { start, end: (start + count) as u32 });
            assert(self.free_lists(false) == before.free_lists(false));
        }
        start
    }

    /// Gives a block of `count` voxel slots back for reuse.
    pub fn free_voxels(&mut self, start: u32, count: u32)
        requires
            old(self).wf(),
            1 <= count <= CHILDREN,
        ensures
            final(self).slots() == old(self).slots(),
            final(self).written(false) == old(self).written(false),
            final(self).written(true) == old(self).written(true),
            final(self).free_lists(false) == old(self).free_lists(false),
            final(self).free_lists(true).len() == 65,
            forall|c: int|
                0 <= c < 65 && c != count ==> (#[trigger] final(self).free_lists(true)[c])@
                    == old(self).free_lists(true)[c]@,
            final(self).free_lists(true)[count as int]@ == old(self).free_lists(
                true,
            )[count as int]@.push(start),
            forall|leaf: bool, slot: int|
                final(self).is_free(leaf, slot) == (old(self).is_free(leaf, slot) || (leaf == true
                    && start <= slot < start + count)),
            start + count <= old(self).slots().len(true) && (forall|slot: int|
                start <= slot < start + count ==> !old(self).is_free(true, slot)) ==> final(self).wf(),
    {
        let ghost before = *self;
        self.voxel_free[count as usize].push(start);
        proof {
            lemma_give(before.free_lists(true), self.free_lists(true), before.slots().len(true) as int, start, count as int);
            assert(self.free_lists(false) == before.free_lists(false));
            assert(self.written(true) == before.written(true));
            assert(self.written(false) == before.written(false));
        }
    }

    /// The voxel in a slot.
    pub fn voxel(&self, slot: u32) -> (value: u8)
        requires
            slot < self.slots().voxels.len(),
        ensures
            value == self.slots().voxels[slot as int],
    {
        self.voxels[slot as usize]
    }

    /// Writes a voxel slot, and marks it dirty.
    pub fn set_voxel(&mut self, slot: u32, value: u8)
        requires
            slot < old(self).slots().voxels.len(),
            slot < u32::MAX,
        ensures
            final(self).slots() == (Slots {
                voxels: old(self).slots().voxels.update(slot as int, value),
                ..old(self).slots()
            }),
            forall|leaf: bool| #[trigger]
                final(self).free_lists(leaf) == old(self).free_lists(leaf),
            final(self).written(false) == old(self).written(false),
            final(self).written(true) == old(self).written(true).push(
                (Range { start: slot, end: (slot + 1) as u32 }),
            ),
            old(self).wf() ==> final(self).wf(),
            forall|leaf: bool, s: int|
                final(self).is_dirty(leaf, s) == (old(self).is_dirty(leaf, s) || (leaf == true && s
                    == slot)),
    {
        self.voxels.set(slot as usize, value);
        self.dirty_voxels.push(Range { start: slot, end: slot + 1 });
        proof {
            lemma_covered_push(old(self).written(true), Range { start: slot, end: (slot + 1) as u32 });
        }
    }

    /// Every voxel slot, in order.
    pub fn voxels(&self) -> (all: &[u8])
        ensures
            all@ == self.slots().voxels,
    {
        self.voxels.as_slice()
    }

    /// The voxel slots touched since the last `clear_dirty`, as ranges merged where
    /// contiguous.
    pub fn dirty_voxels(&self) -> (ranges: Vec<Range<u32>>)
        requires
            ordered(self.written(true)),
        ensures
            ordered(ranges@),
            separate(ranges@),
            forall|slot: int| covered(ranges@, slot) == self.is_dirty(true, slot),
    {
        normalize(&self.dirty_voxels)
    }

    /// Forgets which slots were touched.
    pub fn clear_dirty(&mut self)
        ensures
            final(self).slots() == old(self).slots(),
            forall|leaf: bool| #[trigger]
                final(self).free_lists(leaf) == old(self).free_lists(leaf),
            forall|leaf: bool| (#[trigger] final(self).written(leaf)).len() == 0,
            forall|leaf: bool, slot: int| !final(self).is_dirty(leaf, slot),
            old(self).wf() ==> final(self).wf(),
    {
        self.dirty_nodes.clear();
        self.dirty_voxels.clear();
    }
}

impl Default for NodeArena {
    fn default() -> (arena: NodeArena)
        ensures
            arena.wf(),
            arena.slots() == Slots::none(),
            forall|leaf: bool, slot: int| !arena.is_free(leaf, slot),
            forall|leaf: bool, slot: int| !arena.is_dirty(leaf, slot),
    {
        NodeArena::new()
    }
}

} // verus!
