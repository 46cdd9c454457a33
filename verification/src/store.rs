//! Storing the 64 children of one node.

use crate::arena::{NodeArena, Slots};
use crate::bits::{bit, lemma_rank_monotone, lemma_rank_strict};
use crate::bits::{lemma_full_mask, lemma_set_bit, lemma_zero_mask, ones, rank};
use crate::material::MaterialId;
use crate::node::{ordinal, Node, CHILDREN};
use crate::tree::{
    all_same_solid, all_same_voxel, apart, byte_of, bytes_of, canon, extent_of, in_block, kid,
    kids_of, owns, sep, voxel_at, wf,
};
use crate::tree::{lemma_extent, lemma_no_kids, lemma_ordinal, lemma_split, lemma_uniform};
use vstd::prelude::*;

verus! {

/// The mask whose bits are the first `n` of `present`.
pub open spec fn mask_of(present: Seq<bool>, n: int) -> u64
    decreases n,
{
    if n <= 0 {
        0
    } else if present[n - 1] {
        mask_of(present, n - 1) | (1u64 << ((n - 1) as u32))
    } else {
        mask_of(present, n - 1)
    }
}

/// Those of the first `n` items that are present, in order.
pub open spec fn packed<T>(items: Seq<T>, present: Seq<bool>, n: int) -> Seq<T>
    decreases n,
{
    if n <= 0 {
        Seq::empty()
    } else if present[n - 1] {
        packed(items, present, n - 1).push(items[n - 1])
    } else {
        packed(items, present, n - 1)
    }
}

/// Which of 64 nodes hold anything.
pub open spec fn nodes_present(kids: Seq<Node>) -> Seq<bool> {
    Seq::new(64, |i: int| !kids[i].vacant())
}

/// Which of 64 voxels are solid.
pub open spec fn voxels_present(bytes: Seq<u8>) -> Seq<bool> {
    Seq::new(64, |i: int| bytes[i] != 0)
}

/// What storing 64 nodes at the end of the slots gives, and the node that
/// stands for them: nothing where they are all empty, themselves where they are
/// all the same solid, and a subdivided node otherwise.
pub open spec fn join_nodes(s: Slots, kids: Seq<Node>) -> (Slots, Node) {
    let present = nodes_present(kids);
    let mask = mask_of(present, 64);
    if mask == 0 {
        (s, Node::solid(0))
    } else if all_same_solid(kids) {
        (s, kids[0])
    } else {
        (
            Slots { nodes: s.nodes + packed(kids, present, 64), ..s },
            Node { mask, child_base: s.nodes.len() as u32, material: 0 },
        )
    }
}

/// The same for the 64 voxels of a leaf brick.
pub open spec fn join_bytes(s: Slots, bytes: Seq<u8>) -> (Slots, Node) {
    let present = voxels_present(bytes);
    let mask = mask_of(present, 64);
    if mask == 0 {
        (s, Node::solid(0))
    } else if all_same_voxel(bytes) {
        (s, Node::solid(bytes[0]))
    } else {
        (
            Slots { voxels: s.voxels + packed(bytes, present, 64), ..s },
            Node { mask, child_base: s.voxels.len() as u32, material: 0 },
        )
    }
}

/// How many slots that takes.
pub open spec fn nodes_needed(kids: Seq<Node>) -> nat {
    if all_same_solid(kids) {
        0
    } else {
        ones(mask_of(nodes_present(kids), 64))
    }
}

pub open spec fn voxels_needed(bytes: Seq<u8>) -> nat {
    if all_same_voxel(bytes) {
        0
    } else {
        ones(mask_of(voxels_present(bytes), 64))
    }
}

/// Whether a node stands for 64 nodes one level down.
pub open spec fn is_join(s: Slots, kids: Seq<Node>, node: Node) -> bool {
    if forall|i: int| 0 <= i < 64 ==> (#[trigger] kids[i]).vacant() {
        node == Node::solid(0)
    } else if all_same_solid(kids) {
        node == kids[0]
    } else {
        &&& node.mask != 0
        &&& node.material == 0
        &&& node.child_base + ones(node.mask) <= s.nodes.len()
        &&& forall|i: int| 0 <= i < 64 ==> bit(node.mask, i) == !(#[trigger] kids[i]).vacant()
        &&& forall|i: int|
            0 <= i < 64 && bit(node.mask, i) ==> s.nodes[node.slot(i)] == #[trigger] kids[i]
    }
}

/// Whether a leaf brick stands for 64 voxels.
pub open spec fn is_brick(s: Slots, bytes: Seq<u8>, node: Node) -> bool {
    if forall|i: int| 0 <= i < 64 ==> #[trigger] bytes[i] == 0 {
        node == Node::solid(0)
    } else if all_same_voxel(bytes) {
        node == Node::solid(bytes[0])
    } else {
        &&& node.mask != 0
        &&& node.material == 0
        &&& node.child_base + ones(node.mask) <= s.voxels.len()
        &&& forall|i: int| 0 <= i < 64 ==> bit(node.mask, i) == (#[trigger] bytes[i] != 0)
        &&& forall|i: int|
            0 <= i < 64 && bit(node.mask, i) ==> s.voxels[node.slot(i)] == #[trigger] bytes[i]
    }
}

/// What storing a node's children changes: its own block, which was free or
/// is new, and nothing else.
pub open spec fn block_taken(before: NodeArena, after: NodeArena, node: Node, leaf: bool) -> bool {
    &&& after.wf()
    &&& before.slots().len(leaf) <= after.slots().len(leaf) <= before.slots().len(leaf) + ones(
        node.mask,
    )
    &&& before.slots().len(!leaf) == after.slots().len(!leaf)
    &&& forall|slot: int|
        before.slots().len(leaf) <= slot < after.slots().len(leaf) ==> #[trigger] in_block(
            node,
            slot,
        )
    &&& forall|k: bool, slot: int|
        0 <= slot < before.slots().len(k) && !(k == leaf && in_block(node, slot))
            ==> #[trigger] after.slots().same(before.slots(), k, slot)
    &&& forall|slot: int| #[trigger]
        in_block(node, slot) ==> before.is_free(leaf, slot) || slot >= before.slots().len(leaf)
    &&& forall|k: bool, slot: int|
        after.is_free(k, slot) == (before.is_free(k, slot) && !(k == leaf && in_block(node, slot)))
    &&& forall|k: bool, slot: int|
        after.is_dirty(k, slot) == (before.is_dirty(k, slot) || (k == leaf && in_block(node, slot)))
}

/// Where the next block of `count` slots is taken: the block of that size freed
/// last, or the end of the slots.
pub open spec fn next_block(arena: NodeArena, leaf: bool, count: int) -> int {
    let freed = arena.free_lists(leaf)[count]@;
    if freed.len() > 0 {
        freed.last() as int
    } else {
        arena.slots().len(leaf) as int
    }
}

/// The free blocks of a size once one more of that size is taken.
pub open spec fn but_one(freed: Seq<u32>) -> Seq<u32> {
    if freed.len() > 0 {
        freed.drop_last()
    } else {
        freed
    }
}

/// Whether so many slots can be taken: none are needed, a block of that size is free,
/// or the slots can still be numbered in 32 bits with that many more.
pub open spec fn can_take(arena: NodeArena, leaf: bool, count: int) -> bool {
    ||| count == 0
    ||| arena.free_lists(leaf)[count]@.len() > 0
    ||| arena.slots().len(leaf) + count <= u32::MAX
}

/// A node's block was taken where the next one lies, and no other was.
pub open spec fn block_placed(before: NodeArena, after: NodeArena, node: Node, leaf: bool) -> bool {
    let count = ones(node.mask) as int;
    &&& node.mask == 0 ==> after == before
    &&& node.mask != 0 ==> {
        &&& node.child_base == next_block(before, leaf, count)
        &&& after.slots().len(leaf) == if before.free_lists(leaf)[count]@.len() > 0 {
            before.slots().len(leaf)
        } else {
            before.slots().len(leaf) + ones(node.mask)
        }
    }
    &&& forall|k: bool, c: int|
        0 <= c < 65 ==> (#[trigger] after.free_lists(k)[c])@ == if node.mask != 0 && k == leaf && c
            == count {
            but_one(before.free_lists(k)[c]@)
        } else {
            before.free_lists(k)[c]@
        }
}

/// The same blocks are free, in the same order.
pub open spec fn same_free(before: NodeArena, after: NodeArena) -> bool {
    forall|leaf: bool, c: int|
        0 <= c < 65 ==> (#[trigger] after.free_lists(leaf)[c])@ == before.free_lists(leaf)[c]@
}

/// Nothing has been freed.
pub open spec fn none_free(arena: NodeArena) -> bool {
    forall|leaf: bool, slot: int| !arena.is_free(leaf, slot)
}

pub proof fn lemma_mask_bits(present: Seq<bool>, n: int)
    requires
        0 <= n <= 64,
    ensures
        forall|k: int|
            0 <= k < 64 ==> #[trigger] bit(mask_of(present, n), k) == (k < n && present[k]),
    decreases n,
{
    if n == 0 {
        lemma_zero_mask(0);
    } else {
        lemma_mask_bits(present, n - 1);
        lemma_set_bit(mask_of(present, n - 1), (n - 1) as u32);
        let mask = mask_of(present, n - 1);
        assert forall|k: int| 0 <= k < 64 implies #[trigger] bit(mask_of(present, n), k) == (k < n
            && present[k]) by {
            assert(bit(mask, k) == (k < n - 1 && present[k]));
            assert(bit(mask | (1u64 << ((n - 1) as u32)), k) == (k == n - 1 || bit(mask, k)));
        }
    }
}

pub proof fn lemma_packed<T>(items: Seq<T>, present: Seq<bool>, n: int)
    requires
        0 <= n <= 64,
    ensures
        packed(items, present, n).len() == rank(mask_of(present, 64), n),
        forall|i: int|
            #![trigger items[i]]
            0 <= i < n && present[i] ==> packed(items, present, n)[rank(
                mask_of(present, 64),
                i,
            ) as int] == items[i] && rank(mask_of(present, 64), i) < rank(mask_of(present, 64), n),
    decreases n,
{
    let mask = mask_of(present, 64);
    lemma_mask_bits(present, 64);
    if n > 0 {
        lemma_packed(items, present, n - 1);
        assert(bit(mask, n - 1) == present[n - 1]);
        assert forall|i: int|
            #![trigger items[i]]
            0 <= i < n && present[i] implies packed(items, present, n)[rank(mask, i) as int]
            == items[i] && rank(mask, i) < rank(mask, n) by {
            assert(bit(mask, i));
            lemma_rank_strict(mask, i, n);
        }
    }
}

/// Which masks say that nothing is there, or everything.
pub proof fn lemma_mask_extremes(present: Seq<bool>)
    requires
        present.len() == 64,
    ensures
        mask_of(present, 64) == 0 <==> (forall|i: int| 0 <= i < 64 ==> !#[trigger] present[i]),
        mask_of(present, 64) == u64::MAX <==> (forall|i: int| 0 <= i < 64 ==> #[trigger] present[i]),
        ones(mask_of(present, 64)) <= 64,
        mask_of(present, 64) != 0 ==> ones(mask_of(present, 64)) >= 1,
{
    let mask = mask_of(present, 64);
    lemma_mask_bits(present, 64);
    lemma_zero_mask(mask);
    lemma_full_mask(mask);
    lemma_rank_monotone(mask, 0, 64);
    if forall|i: int| 0 <= i < 64 ==> !#[trigger] present[i] {
        assert forall|i: int| 0 <= i < 64 implies !bit(mask, i) by {
            assert(!present[i]);
        }
    }
    if forall|i: int| 0 <= i < 64 ==> #[trigger] present[i] {
        assert forall|i: int| 0 <= i < 64 implies bit(mask, i) by {
            assert(present[i]);
        }
    }
    if mask == 0 {
        assert forall|i: int| 0 <= i < 64 implies !#[trigger] present[i] by {
            assert(!bit(mask, i));
        }
    }
    if mask == u64::MAX {
        assert forall|i: int| 0 <= i < 64 implies #[trigger] present[i] by {
            assert(bit(mask, i));
        }
    }
}

/// Returns whether every one of 64 nodes is the same uniform solid.
pub fn same_solid(kids: &Vec<Node>) -> (same: bool)
    requires
        kids@.len() == 64,
    ensures
        same == all_same_solid(kids@),
{
    let first = kids[0];
    if !first.is_uniform_solid() {
        return false;
    }
    for i in 0..64usize
        invariant
            kids@.len() == 64,
            first == kids@[0],
            forall|k: int| 0 <= k < i ==> #[trigger] kids@[k] == first,
    {
        if kids[i] != first {
            return false;
        }
    }
    true
}

/// Returns whether every one of 64 voxels is the same solid material.
pub fn same_voxel(bytes: &Vec<u8>) -> (same: bool)
    requires
        bytes@.len() == 64,
    ensures
        same == all_same_voxel(bytes@),
{
    let first: u8 = bytes[0];
    if first == 0 {
        return false;
    }
    for i in 0..64usize
        invariant
            bytes@.len() == 64,
            first == bytes@[0],
            forall|k: int| 0 <= k < i ==> #[trigger] bytes@[k] == first,
    {
        if bytes[i] != first {
            return false;
        }
    }
    true
}

/// Stores what stands at the 64 children, and returns the node over them.
pub fn store_nodes(arena: &mut NodeArena, kids: &Vec<Node>) -> (node: Node)
    requires
        old(arena).wf(),
        kids@.len() == 64,
        can_take(*old(arena), false, nodes_needed(kids@) as int),
    ensures
        block_taken(*old(arena), *final(arena), node, false),
        block_placed(*old(arena), *final(arena), node, false),
        is_join(final(arena).slots(), kids@, node),
        node.mask != 0 ==> ones(node.mask) <= nodes_needed(kids@),
        none_free(*old(arena)) ==> (final(arena).slots(), node) == join_nodes(
            old(arena).slots(),
            kids@,
        ),
{
    let ghost before = *arena;
    let ghost present = nodes_present(kids@);
    let mut mask: u64 = 0;
    for i in 0..CHILDREN
        invariant
            kids@.len() == 64,
            present == nodes_present(kids@),
            mask == mask_of(present, i as int),
    {
        if !kids[i as usize].is_empty() {
            mask = mask | (1u64 << i);
        }
    }
    proof {
        lemma_mask_extremes(present);
        lemma_mask_bits(present, 64);
        assert(forall|i: int| 0 <= i < 64 ==> present[i] == !(#[trigger] kids@[i]).vacant());
    }
    if mask == 0 {
        proof {
            lemma_zero_mask(0);
            assert forall|i: int| 0 <= i < 64 implies (#[trigger] kids@[i]).vacant() by {
                assert(!present[i]);
            }
        }
        return Node::empty();
    }
    proof {
        if forall|i: int| 0 <= i < 64 ==> (#[trigger] kids@[i]).vacant() {
            assert forall|i: int| 0 <= i < 64 implies !#[trigger] present[i] by {
                assert(kids@[i].vacant());
            }
        }
    }
    if same_solid(kids) {
        proof {
            lemma_zero_mask(0);
        }
        return kids[0];
    }
    let count = mask.count_ones();
    let base = arena.alloc_nodes(count);
    let ghost taken = *arena;
    let ghost items = packed(kids@, present, 64);
    let mut slot: u32 = base;
    proof {
        lemma_packed(kids@, present, 64);
    }
    for i in 0..CHILDREN
        invariant
            kids@.len() == 64,
            present == nodes_present(kids@),
            mask == mask_of(present, 64),
            forall|k: int| 0 <= k < 64 ==> #[trigger] bit(mask, k) == present[k],
            items == packed(kids@, present, 64),
            items.len() == ones(mask),
            slot == base + rank(mask, i as int),
            base + ones(mask) <= taken.slots().nodes.len(),
            arena.wf(),
            arena.slots().len(false) == taken.slots().len(false),
            arena.slots().voxels == taken.slots().voxels,
            forall|leaf: bool| #[trigger] arena.free_lists(leaf) == taken.free_lists(leaf),
            forall|k: int|
                0 <= k < taken.slots().nodes.len() && !(base <= k < base + ones(mask))
                    ==> #[trigger] arena.slots().nodes[k] == taken.slots().nodes[k],
            forall|k: int|
                base <= k < slot ==> #[trigger] arena.slots().nodes[k] == items[k - base],
            forall|leaf: bool, k: int| arena.is_dirty(leaf, k) == taken.is_dirty(leaf, k),
            forall|k: int| base <= k < base + ones(mask) ==> taken.is_dirty(false, k),
    {
        proof {
            lemma_rank_monotone(mask, i as int, 64);
            assert(bit(mask, i as int) == present[i as int]);
        }
        if !kids[i as usize].is_empty() {
            proof {
                lemma_rank_strict(mask, i as int, 64);
                lemma_packed(kids@, present, 64);
                assert(items[rank(mask, i as int) as int] == kids@[i as int]);
            }
            arena.set_node(slot, kids[i as usize]);
            slot = slot + 1;
        }
    }
    let node = Node::subdivided(mask, base);
    proof {
        assert(forall|slot: int| #[trigger]
            in_block(node, slot) == (base <= slot < base + ones(mask)));
        assert forall|k: bool, slot: int|
            0 <= slot < before.slots().len(k) && !(k == false && in_block(
                node,
                slot,
            )) implies #[trigger] arena.slots().same(before.slots(), k, slot) by {
            if k == false {
                assert(taken.slots().same(before.slots(), k, slot));
            }
        }
        assert forall|k: bool, slot: int| arena.is_free(k, slot) == (before.is_free(k, slot) && !(k
            == false && in_block(node, slot))) by {
            assert(arena.free_lists(k) == taken.free_lists(k));
        }
        assert forall|k: bool, slot: int|
            arena.is_dirty(k, slot) == (before.is_dirty(k, slot) || (k == false && in_block(
                node,
                slot,
            ))) by {
            assert(arena.is_dirty(k, slot) == taken.is_dirty(k, slot));
        }
        assert(block_taken(before, *arena, node, false));
        assert(block_placed(before, *arena, node, false)) by {
            assert forall|k: bool, c: int| 0 <= c < 65 implies (#[trigger] arena.free_lists(
                k,
            )[c])@ == if k == false && c == count {
                but_one(before.free_lists(k)[c]@)
            } else {
                before.free_lists(k)[c]@
            } by {
                assert(arena.free_lists(k) == taken.free_lists(k));
            }
        }
        assert forall|i: int| 0 <= i < 64 && bit(mask, i) implies arena.slots().nodes[node.slot(
            i,
        )] == #[trigger] kids@[i] by {
            lemma_packed(kids@, present, 64);
            lemma_rank_strict(mask, i, 64);
        }
        assert forall|i: int| 0 <= i < 64 implies bit(node.mask, i) == (!(#[trigger] kids@[i]).vacant()) by {
            assert(bit(mask, i) == present[i]);
        }
        if none_free(before) {
            assert(before.free_lists(false)[count as int]@.len() == 0) by {
                if before.free_lists(false)[count as int]@.len() > 0 {
                    let first = before.free_lists(false)[count as int]@[0] as int;
                    assert(crate::arena::is_block(before.free_lists(false), count as int, 0));
                    assert(before.is_free(false, first));
                }
            }
            assert(arena.slots().nodes =~= before.slots().nodes + items);
        }
    }
    node
}

/// Stores what stands at the 64 children, and returns the leaf brick over them.
pub fn store_voxels(arena: &mut NodeArena, bytes: &Vec<u8>) -> (node: Node)
    requires
        old(arena).wf(),
        bytes@.len() == 64,
        can_take(*old(arena), true, voxels_needed(bytes@) as int),
    ensures
        block_taken(*old(arena), *final(arena), node, true),
        block_placed(*old(arena), *final(arena), node, true),
        is_brick(final(arena).slots(), bytes@, node),
        node.mask != 0 ==> ones(node.mask) <= voxels_needed(bytes@),
        none_free(*old(arena)) ==> (final(arena).slots(), node) == join_bytes(
            old(arena).slots(),
            bytes@,
        ),
{
    let ghost before = *arena;
    let ghost present = voxels_present(bytes@);
    let mut mask: u64 = 0;
    for i in 0..CHILDREN
        invariant
            bytes@.len() == 64,
            present == voxels_present(bytes@),
            mask == mask_of(present, i as int),
    {
        if bytes[i as usize] != 0 {
            mask = mask | (1u64 << i);
        }
    }
    proof {
        lemma_mask_extremes(present);
        lemma_mask_bits(present, 64);
        assert(forall|i: int| 0 <= i < 64 ==> present[i] == (#[trigger] bytes@[i] != 0));
    }
    if mask == 0 {
        proof {
            lemma_zero_mask(0);
            assert forall|i: int| 0 <= i < 64 implies #[trigger] bytes@[i] == 0 by {
                assert(!present[i]);
            }
        }
        return Node::empty();
    }
    proof {
        if forall|i: int| 0 <= i < 64 ==> #[trigger] bytes@[i] == 0 {
            assert forall|i: int| 0 <= i < 64 implies !#[trigger] present[i] by {
                assert(bytes@[i] == 0);
            }
        }
    }
    if same_voxel(bytes) {
        proof {
            lemma_zero_mask(0);
        }
        return Node::uniform(MaterialId(bytes[0]));
    }
    let count = mask.count_ones();
    let base = arena.alloc_voxels(count);
    let ghost taken = *arena;
    let ghost items = packed(bytes@, present, 64);
    let mut slot: u32 = base;
    proof {
        lemma_packed(bytes@, present, 64);
    }
    for i in 0..CHILDREN
        invariant
            bytes@.len() == 64,
            present == voxels_present(bytes@),
            mask == mask_of(present, 64),
            forall|k: int| 0 <= k < 64 ==> #[trigger] bit(mask, k) == present[k],
            items == packed(bytes@, present, 64),
            items.len() == ones(mask),
            slot == base + rank(mask, i as int),
            base + ones(mask) <= taken.slots().voxels.len(),
            arena.wf(),
            arena.slots().len(true) == taken.slots().len(true),
            arena.slots().nodes == taken.slots().nodes,
            forall|leaf: bool| #[trigger] arena.free_lists(leaf) == taken.free_lists(leaf),
            forall|k: int|
                0 <= k < taken.slots().voxels.len() && !(base <= k < base + ones(mask))
                    ==> #[trigger] arena.slots().voxels[k] == taken.slots().voxels[k],
            forall|k: int|
                base <= k < slot ==> #[trigger] arena.slots().voxels[k] == items[k - base],
            forall|leaf: bool, k: int| arena.is_dirty(leaf, k) == taken.is_dirty(leaf, k),
            forall|k: int| base <= k < base + ones(mask) ==> taken.is_dirty(true, k),
    {
        proof {
            lemma_rank_monotone(mask, i as int, 64);
            assert(bit(mask, i as int) == present[i as int]);
        }
        if bytes[i as usize] != 0 {
            proof {
                lemma_rank_strict(mask, i as int, 64);
                lemma_packed(bytes@, present, 64);
                assert(items[rank(mask, i as int) as int] == bytes@[i as int]);
            }
            arena.set_voxel(slot, bytes[i as usize]);
            slot = slot + 1;
        }
    }
    let node = Node::subdivided(mask, base);
    proof {
        assert(forall|slot: int| #[trigger]
            in_block(node, slot) == (base <= slot < base + ones(mask)));
        assert forall|k: bool, slot: int|
            0 <= slot < before.slots().len(k) && !(k == true && in_block(
                node,
                slot,
            )) implies #[trigger] arena.slots().same(before.slots(), k, slot) by {
            if k == true {
                assert(taken.slots().same(before.slots(), k, slot));
            }
        }
        assert forall|k: bool, slot: int| arena.is_free(k, slot) == (before.is_free(k, slot) && !(k
            == true && in_block(node, slot))) by {
            assert(arena.free_lists(k) == taken.free_lists(k));
        }
        assert forall|k: bool, slot: int|
            arena.is_dirty(k, slot) == (before.is_dirty(k, slot) || (k == true && in_block(
                node,
                slot,
            ))) by {
            assert(arena.is_dirty(k, slot) == taken.is_dirty(k, slot));
        }
        assert(block_taken(before, *arena, node, true));
        assert(block_placed(before, *arena, node, true)) by {
            assert forall|k: bool, c: int| 0 <= c < 65 implies (#[trigger] arena.free_lists(
                k,
            )[c])@ == if k == true && c == count {
                but_one(before.free_lists(k)[c]@)
            } else {
                before.free_lists(k)[c]@
            } by {
                assert(arena.free_lists(k) == taken.free_lists(k));
            }
        }
        assert forall|i: int| 0 <= i < 64 && bit(mask, i) implies arena.slots().voxels[node.slot(
            i,
        )] == #[trigger] bytes@[i] by {
            lemma_packed(bytes@, present, 64);
            lemma_rank_strict(mask, i, 64);
        }
        assert forall|i: int| 0 <= i < 64 implies bit(node.mask, i) == (#[trigger] bytes@[i] != 0) by {
            assert(bit(mask, i) == present[i]);
        }
        if none_free(before) {
            assert(before.free_lists(true)[count as int]@.len() == 0) by {
                if before.free_lists(true)[count as int]@.len() > 0 {
                    let first = before.free_lists(true)[count as int]@[0] as int;
                    assert(crate::arena::is_block(before.free_lists(true), count as int, 0));
                    assert(before.is_free(true, first));
                }
            }
            assert(arena.slots().voxels =~= before.slots().voxels + items);
        }
    }
    node
}

/// Whether one of the nodes reaches a slot.
pub open spec fn owned_by_some(
    s: Slots,
    nodes: Seq<Node>,
    level: int,
    leaf: bool,
    slot: int,
) -> bool {
    exists|i: int| 0 <= i < nodes.len() && owns(s, #[trigger] nodes[i], level, leaf, slot)
}

/// Whether no node reaches a slot of the block over them.
pub open spec fn clear_of_block(s: Slots, nodes: Seq<Node>, level: int, node: Node) -> bool {
    forall|i: int, slot: int|
        0 <= i < nodes.len() && in_block(node, slot) ==> !#[trigger] owns(
            s,
            nodes[i],
            level,
            false,
            slot,
        )
}

/// What stands at a child of a join, up to how an empty node is written.
pub proof fn lemma_join_kid(s: Slots, kids: Seq<Node>, node: Node, i: int)
    requires
        kids.len() == 64,
        is_join(s, kids, node),
        0 <= i < 64,
    ensures
        kid(s, node, i) == kids[i] || (kids[i].vacant() && kid(s, node, i) == Node::solid(0)),
        !kids[i].vacant() ==> kid(s, node, i) == kids[i],
{
    if forall|i: int| 0 <= i < 64 ==> (#[trigger] kids[i]).vacant() {
        lemma_no_kids(s, node, i);
        assert(kids[i].vacant());
    } else if all_same_solid(kids) {
        lemma_no_kids(s, node, i);
        assert(kids[i] == kids[0]);
    } else {
        assert(bit(node.mask, i) == !kids[i].vacant());
    }
}

/// A join is well stored where the nodes are, reaches what they reach and its
/// own block, and is canonical where they are.
pub proof fn lemma_join(s: Slots, kids: Seq<Node>, node: Node, level: int)
    requires
        level >= 1,
        kids.len() == 64,
        is_join(s, kids, node),
        forall|i: int| 0 <= i < 64 ==> wf(s, #[trigger] kids[i], level - 1),
    ensures
        wf(s, node, level),
        forall|leaf: bool, slot: int| #[trigger]
            owns(s, node, level, leaf, slot) ==> (!leaf && in_block(node, slot)) || owned_by_some(
                s,
                kids,
                level - 1,
                leaf,
                slot,
            ),
        (forall|i: int| 0 <= i < 64 ==> canon(s, #[trigger] kids[i], level - 1)) ==> canon(
            s,
            node,
            level,
        ),
{
    assert forall|i: int| 0 <= i < 64 implies wf(s, #[trigger] kid(s, node, i), level - 1) by {
        lemma_join_kid(s, kids, node, i);
        assert(wf(s, kids[i], level - 1));
    }
    if node.mask == 0 {
        if all_same_solid(kids) {
            assert(wf(s, kids[0], level - 1));
        }
    }
    assert forall|leaf: bool, slot: int| #[trigger] owns(s, node, level, leaf, slot) implies (!leaf
        && in_block(node, slot)) || owned_by_some(s, kids, level - 1, leaf, slot) by {
        if leaf || !in_block(node, slot) {
            let i = choose|i: int|
                0 <= i < 64 && owns(s, #[trigger] kid(s, node, i), level - 1, leaf, slot);
            lemma_join_kid(s, kids, node, i);
            assert(owns(s, kids[i], level - 1, leaf, slot));
        }
    }
    if forall|i: int| 0 <= i < 64 ==> canon(s, #[trigger] kids[i], level - 1) {
        assert forall|i: int| 0 <= i < 64 implies canon(s, #[trigger] kid(s, node, i), level - 1) by {
            lemma_join_kid(s, kids, node, i);
            assert(canon(s, kids[i], level - 1));
        }
        if node.mask == 0 {
            assert(canon(s, kids[0], level - 1));
        } else {
            assert forall|i: int| 0 <= i < 64 && bit(node.mask, i) implies !(#[trigger] kid(
                s,
                node,
                i,
            )).vacant() by {
                assert(bit(node.mask, i) == !kids[i].vacant());
            }
            let seen = kids_of(s, node);
            if all_same_solid(seen) {
                assert forall|i: int| 0 <= i < 64 implies #[trigger] kids[i] == kids[0] by {
                    assert(seen[i] == seen[0]);
                    lemma_join_kid(s, kids, node, i);
                    lemma_join_kid(s, kids, node, 0);
                }
                lemma_join_kid(s, kids, node, 0);
                assert(seen[0] == kid(s, node, 0));
                assert(all_same_solid(kids));
            }
        }
    }
}

/// A join reaches what the nodes reach.
pub proof fn lemma_join_owns(
    s: Slots,
    kids: Seq<Node>,
    node: Node,
    level: int,
    leaf: bool,
    slot: int,
)
    requires
        level >= 1,
        kids.len() == 64,
        is_join(s, kids, node),
        owned_by_some(s, kids, level - 1, leaf, slot),
    ensures
        owns(s, node, level, leaf, slot),
{
    let i = choose|i: int| 0 <= i < 64 && owns(s, #[trigger] kids[i], level - 1, leaf, slot);
    if all_same_solid(kids) {
        assert(kids[i] == kids[0]);
    }
    assert(!kids[i].vacant());
    lemma_join_kid(s, kids, node, i);
    assert(owns(s, kid(s, node, i), level - 1, leaf, slot));
    if node.mask == 0 {
        lemma_no_kids(s, node, i);
    }
}

/// A join reaches no slot twice where the nodes do not, and stay off its block.
pub proof fn lemma_join_sep(s: Slots, kids: Seq<Node>, node: Node, level: int)
    requires
        level >= 1,
        kids.len() == 64,
        is_join(s, kids, node),
        forall|i: int| 0 <= i < 64 ==> sep(s, #[trigger] kids[i], level - 1),
        apart(s, kids, level - 1),
        clear_of_block(s, kids, level - 1, node),
    ensures
        sep(s, node, level),
{
    if node.mask != 0 {
        assert forall|i: int| 0 <= i < 64 implies sep(s, #[trigger] kid(s, node, i), level - 1) by {
            lemma_join_kid(s, kids, node, i);
            assert(sep(s, kids[i], level - 1));
        }
        assert forall|i: int, slot: int| 0 <= i < 64 && in_block(node, slot) implies !#[trigger] owns(
            s,
            kid(s, node, i),
            level - 1,
            false,
            slot,
        ) by {
            lemma_join_kid(s, kids, node, i);
            assert(!owns(s, kids[i], level - 1, false, slot));
        }
        let seen = kids_of(s, node);
        assert forall|i: int, j: int, leaf: bool, slot: int|
            #![trigger owns(s, seen[i], level - 1, leaf, slot), owns(s, seen[j], level - 1, leaf, slot)]
            0 <= i < j < seen.len() implies !(owns(s, seen[i], level - 1, leaf, slot) && owns(
            s,
            seen[j],
            level - 1,
            leaf,
            slot,
        )) by {
            lemma_join_kid(s, kids, node, i);
            lemma_join_kid(s, kids, node, j);
            assert(seen[i] == kid(s, node, i) && seen[j] == kid(s, node, j));
            assert(!(owns(s, kids[i], level - 1, leaf, slot) && owns(
                s,
                kids[j],
                level - 1,
                leaf,
                slot,
            )));
        }
    }
}

/// A join stands for what the nodes stand for.
pub proof fn lemma_join_voxel(
    s: Slots,
    kids: Seq<Node>,
    node: Node,
    level: int,
    x: int,
    y: int,
    z: int,
)
    requires
        level >= 1,
        kids.len() == 64,
        is_join(s, kids, node),
        0 <= x < extent_of(level),
        0 <= y < extent_of(level),
        0 <= z < extent_of(level),
    ensures
        ({
            let step = extent_of(level - 1);
            voxel_at(s, node, level, x, y, z) == voxel_at(
                s,
                kids[ordinal(x / step, y / step, z / step)],
                level - 1,
                x % step,
                y % step,
                z % step,
            )
        }),
{
    lemma_extent(level);
    lemma_extent(level - 1);
    let step = extent_of(level - 1);
    lemma_split(x, step);
    lemma_split(y, step);
    lemma_split(z, step);
    lemma_ordinal(x / step, y / step, z / step);
    let i = ordinal(x / step, y / step, z / step);
    lemma_join_kid(s, kids, node, i);
    if kids[i].vacant() {
        lemma_uniform(s, kids[i], level - 1, x % step, y % step, z % step);
        lemma_uniform(s, Node::solid(0), level - 1, x % step, y % step, z % step);
    }
}

/// A leaf brick is well stored and canonical, and holds the voxels given.
pub proof fn lemma_brick(s: Slots, bytes: Seq<u8>, node: Node)
    requires
        bytes.len() == 64,
        is_brick(s, bytes, node),
    ensures
        wf(s, node, 0),
        sep(s, node, 0),
        canon(s, node, 0),
        forall|leaf: bool, slot: int| #[trigger]
            owns(s, node, 0, leaf, slot) ==> leaf && in_block(node, slot),
        forall|i: int| 0 <= i < 64 ==> #[trigger] byte_of(s, node, i) == bytes[i],
{
    assert forall|i: int| 0 <= i < 64 implies #[trigger] byte_of(s, node, i) == bytes[i] by {
        if node.mask == 0 {
            lemma_no_kids(s, node, i);
            assert(bytes[i] == if all_same_voxel(bytes) {
                bytes[0]
            } else {
                0
            });
        } else {
            assert(bit(node.mask, i) == (bytes[i] != 0));
        }
    }
    if node.mask != 0 {
        assert forall|i: int| 0 <= i < 64 && bit(node.mask, i) implies #[trigger] byte_of(
            s,
            node,
            i,
        ) != 0 by {
            assert(bit(node.mask, i) == (bytes[i] != 0));
        }
        assert(bytes_of(s, node) =~= bytes);
    }
}

} // verus!
