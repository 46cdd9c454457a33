//! Blocks given back, and taken again: storing a node's children anew, after
//! giving their block back, puts them where they were.

use crate::arena::{NodeArena, Slots};
use crate::bits::{
    bit, lemma_mask_same, lemma_rank_monotone, lemma_rank_onto, lemma_zero_mask, ones,
};
use crate::contree::marked;
use crate::node::Node;
use crate::store::{
    block_placed, block_taken, but_one, is_brick, is_join, lemma_mask_bits, mask_of, nodes_needed,
    nodes_present, same_free, voxels_needed, voxels_present,
};
use crate::tree::{all_same_solid, all_same_voxel, bytes_of, in_block, kids_of};
use vstd::prelude::*;

verus! {

/// The free blocks of a size once a node's own block is given back: it comes
/// last among those of its size.
pub open spec fn with_block(before: NodeArena, node: Node, leaf: bool, k: bool, c: int) -> Seq<u32> {
    if node.mask != 0 && k == leaf && c == ones(node.mask) {
        before.free_lists(k)[c]@.push(node.child_base)
    } else {
        before.free_lists(k)[c]@
    }
}

/// A node's own block was added to the free blocks, and no other.
pub open spec fn given_back(before: NodeArena, after: NodeArena, node: Node, leaf: bool) -> bool {
    forall|k: bool, c: int|
        0 <= c < 65 ==> (#[trigger] after.free_lists(k)[c])@ == with_block(before, node, leaf, k, c)
}

/// One node's block was given back and another's taken: where the new block lies,
/// what else is stored and free, and that it alone was marked.
pub open spec fn exchanged(
    before: NodeArena,
    after: NodeArena,
    node: Node,
    new: Node,
    leaf: bool,
) -> bool {
    let count = ones(new.mask) as int;
    let freed = with_block(before, node, leaf, leaf, count);
    let len = before.slots().len(leaf);
    &&& new.mask != 0 ==> new.child_base == if freed.len() > 0 {
        freed.last() as int
    } else {
        len as int
    }
    &&& after.slots().len(leaf) == if new.mask != 0 && freed.len() == 0 {
        len + ones(new.mask)
    } else {
        len
    }
    &&& after.slots().len(!leaf) == before.slots().len(!leaf)
    &&& forall|k: bool, slot: int|
        0 <= slot < before.slots().len(k) && !(k == leaf && in_block(new, slot))
            ==> #[trigger] after.slots().same(before.slots(), k, slot)
    &&& forall|k: bool, c: int|
        0 <= c < 65 ==> (#[trigger] after.free_lists(k)[c])@ == if new.mask != 0 && k == leaf && c
            == count {
            but_one(with_block(before, node, leaf, k, c))
        } else {
            with_block(before, node, leaf, k, c)
        }
    &&& forall|k: bool, slot: int|
        after.is_dirty(k, slot) == (before.is_dirty(k, slot) || (k == leaf && in_block(new, slot)))
}

/// Giving a block back and taking one exchanges them.
pub proof fn lemma_exchanged(
    start: NodeArena,
    node: Node,
    leaf: bool,
    freed: NodeArena,
    done: NodeArena,
    new: Node,
)
    requires
        freed.slots() == start.slots(),
        given_back(start, freed, node, leaf),
        forall|k: bool, slot: int| freed.is_dirty(k, slot) == start.is_dirty(k, slot),
        block_taken(freed, done, new, leaf),
        block_placed(freed, done, new, leaf),
    ensures
        exchanged(start, done, node, new, leaf),
{
    let count = ones(new.mask) as int;
    lemma_rank_monotone(new.mask, 0, 64);
    assert(freed.free_lists(leaf)[count]@ == with_block(start, node, leaf, leaf, count));
    assert forall|k: bool, slot: int|
        0 <= slot < start.slots().len(k) && !(k == leaf && in_block(
            new,
            slot,
        )) implies #[trigger] done.slots().same(start.slots(), k, slot) by {
        assert(done.slots().same(freed.slots(), k, slot));
    }
    assert forall|k: bool, c: int| 0 <= c < 65 implies (#[trigger] done.free_lists(k)[c])@
        == if new.mask != 0 && k == leaf && c == count {
        but_one(with_block(start, node, leaf, k, c))
    } else {
        with_block(start, node, leaf, k, c)
    } by {
        assert(freed.free_lists(k)[c]@ == with_block(start, node, leaf, k, c));
    }
}

/// Giving a node's own block back.
pub(crate) fn give_back(arena: &mut NodeArena, node: Node, leaf: bool)
    requires
        old(arena).wf(),
        node.mask != 0 ==> node.child_base + ones(node.mask) <= old(arena).slots().len(leaf),
        forall|slot: int| #[trigger] in_block(node, slot) ==> !old(arena).is_free(leaf, slot),
    ensures
        final(arena).wf(),
        final(arena).slots() == old(arena).slots(),
        given_back(*old(arena), *final(arena), node, leaf),
        forall|k: bool, slot: int|
            final(arena).is_free(k, slot) == (old(arena).is_free(k, slot) || (k == leaf && in_block(
                node,
                slot,
            ))),
        forall|k: bool, slot: int|
            final(arena).is_dirty(k, slot) == old(arena).is_dirty(k, slot),
        marked(*old(arena), *final(arena)),
        node.mask == 0 ==> *final(arena) == *old(arena),
{
    if node.is_subdivided() {
        proof {
            lemma_zero_mask(node.mask);
            lemma_rank_monotone(node.mask, 0, 64);
            assert forall|slot: int|
                node.child_base <= slot < node.child_base + ones(node.mask) implies !old(
                arena,
            ).is_free(leaf, slot) by {
                assert(in_block(node, slot));
            }
        }
        if leaf {
            arena.free_voxels(node.child_base, node.child_count());
        } else {
            arena.free_nodes(node.child_base, node.child_count());
        }
        proof {
            assert forall|k: bool, slot: int|
                arena.is_dirty(k, slot) == old(arena).is_dirty(k, slot) by {
                assert(arena.written(k) == old(arena).written(k));
            }
        }
    }
}

/// A block of the size given back last lies where that one was.
pub proof fn lemma_put_back(
    start: NodeArena,
    node: Node,
    leaf: bool,
    freed: NodeArena,
    done: NodeArena,
    new: Node,
)
    requires
        node.mask != 0,
        new.mask == node.mask,
        new.material == node.material,
        node.child_base + ones(node.mask) <= start.slots().len(leaf),
        freed.slots() == start.slots(),
        given_back(start, freed, node, leaf),
        block_taken(freed, done, new, leaf),
        block_placed(freed, done, new, leaf),
        forall|i: int|
            0 <= i < 64 && #[trigger] bit(node.mask, i) ==> if leaf {
                done.slots().voxels[new.slot(i)] == start.slots().voxels[node.slot(i)]
            } else {
                done.slots().nodes[new.slot(i)] == start.slots().nodes[node.slot(i)]
            },
    ensures
        new == node,
        done.slots() == start.slots(),
        same_free(start, done),
{
    let count = ones(node.mask) as int;
    lemma_rank_monotone(node.mask, 0, 64);
    let had = start.free_lists(leaf)[count]@;
    assert(freed.free_lists(leaf)[count]@ == had.push(node.child_base));
    assert(new == node);
    assert forall|k: bool, c: int| 0 <= c < 65 implies (#[trigger] done.free_lists(k)[c])@
        == start.free_lists(k)[c]@ by {
        assert(freed.free_lists(k)[c]@ == if k == leaf && c == count {
            had.push(node.child_base)
        } else {
            start.free_lists(k)[c]@
        });
        if k == leaf && c == count {
            assert(but_one(had.push(node.child_base)) =~= had);
        }
    }
    let (s, t) = (start.slots(), done.slots());
    assert forall|k: bool, slot: int| 0 <= slot < s.len(k) implies #[trigger] t.same(s, k, slot) by {
        if k == leaf && in_block(node, slot) {
            let i = lemma_rank_onto(node.mask, 64, slot - node.child_base);
            assert(node.slot(i) == slot);
        } else {
            assert(t.same(freed.slots(), k, slot));
        }
    }
    assert forall|slot: int| 0 <= slot < s.nodes.len() implies #[trigger] t.nodes[slot]
        == s.nodes[slot] by {
        assert(t.same(s, false, slot));
    }
    assert forall|slot: int| 0 <= slot < s.voxels.len() implies #[trigger] t.voxels[slot]
        == s.voxels[slot] by {
        assert(t.same(s, true, slot));
    }
    assert(s.len(true) == t.len(true) && s.len(false) == t.len(false)) by {
        assert(s.len(leaf) == t.len(leaf));
        assert(s.len(!leaf) == t.len(!leaf));
    }
    assert(t.nodes =~= s.nodes);
    assert(t.voxels =~= s.voxels);
}

/// A brick's own voxels are stored as the brick is.
pub proof fn lemma_same_brick(s: Slots, node: Node, t: Slots, new: Node)
    requires
        is_brick(s, bytes_of(s, node), node),
        is_brick(t, bytes_of(s, node), new),
    ensures
        new.mask == node.mask,
        new.material == node.material,
        node.mask == 0 ==> new == node,
        forall|i: int|
            0 <= i < 64 && #[trigger] bit(node.mask, i) ==> t.voxels[new.slot(i)]
                == s.voxels[node.slot(i)],
{
    let bytes = bytes_of(s, node);
    lemma_zero_mask(node.mask);
    if node.mask != 0 {
        assert forall|i: int| 0 <= i < 64 implies #[trigger] bit(new.mask, i) == bit(
            node.mask,
            i,
        ) by {
            assert(bit(new.mask, i) == (bytes[i] != 0));
        }
        lemma_mask_same(new.mask, node.mask);
        assert forall|i: int| 0 <= i < 64 && #[trigger] bit(node.mask, i) implies t.voxels[new.slot(
            i,
        )] == s.voxels[node.slot(i)] by {
            assert(s.voxels[node.slot(i)] == bytes[i]);
        }
    }
}

/// What stands at a node's own children is stored as the node is.
pub proof fn lemma_same_join(s: Slots, node: Node, t: Slots, new: Node)
    requires
        is_join(s, kids_of(s, node), node),
        is_join(t, kids_of(s, node), new),
    ensures
        new.mask == node.mask,
        new.material == node.material,
        node.mask == 0 ==> new == node,
        forall|i: int|
            0 <= i < 64 && #[trigger] bit(node.mask, i) ==> t.nodes[new.slot(i)]
                == s.nodes[node.slot(i)],
{
    let kids = kids_of(s, node);
    lemma_zero_mask(node.mask);
    if node.mask != 0 {
        assert(!(all_same_solid(kids) && node == kids[0]));
        assert forall|i: int| 0 <= i < 64 implies #[trigger] bit(new.mask, i) == bit(
            node.mask,
            i,
        ) by {
            assert(bit(new.mask, i) == !kids[i].vacant());
        }
        lemma_mask_same(new.mask, node.mask);
        assert forall|i: int| 0 <= i < 64 && #[trigger] bit(node.mask, i) implies t.nodes[new.slot(
            i,
        )] == s.nodes[node.slot(i)] by {
            assert(s.nodes[node.slot(i)] == kids[i]);
        }
    }
}

/// A brick's own voxels need the block it has.
pub proof fn lemma_same_bytes_needed(s: Slots, node: Node)
    requires
        is_brick(s, bytes_of(s, node), node),
    ensures
        voxels_needed(bytes_of(s, node)) == ones(node.mask),
{
    let bytes = bytes_of(s, node);
    let present = voxels_present(bytes);
    lemma_zero_mask(node.mask);
    lemma_zero_mask(0);
    lemma_mask_bits(present, 64);
    if !all_same_voxel(bytes) {
        assert forall|i: int| 0 <= i < 64 implies #[trigger] bit(mask_of(present, 64), i) == bit(
            node.mask,
            i,
        ) by {
            assert(present[i] == (bytes[i] != 0));
        }
        lemma_mask_same(mask_of(present, 64), node.mask);
    }
}

/// What stands at a node's own children needs the block it has.
pub proof fn lemma_same_kids_needed(s: Slots, node: Node)
    requires
        is_join(s, kids_of(s, node), node),
    ensures
        nodes_needed(kids_of(s, node)) == ones(node.mask),
{
    let kids = kids_of(s, node);
    let present = nodes_present(kids);
    lemma_zero_mask(node.mask);
    lemma_zero_mask(0);
    lemma_mask_bits(present, 64);
    if !all_same_solid(kids) {
        assert forall|i: int| 0 <= i < 64 implies #[trigger] bit(mask_of(present, 64), i) == bit(
            node.mask,
            i,
        ) by {
            assert(present[i] == !kids[i].vacant());
        }
        lemma_mask_same(mask_of(present, 64), node.mask);
    } else {
        assert(!kids[0].vacant());
        assert(node == kids[0]);
    }
}

} // verus!
