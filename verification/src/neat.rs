//! The forms a tree can be stored in: what rewriting a node leaves behind, and what
//! it keeps of the nodes it does not rewrite.

use crate::arena::Slots;
use crate::bits::{bit, lemma_rank_monotone, lemma_zero_mask, ones};
use crate::contree::{lemma_canon_tidy, tidy};
use crate::node::Node;
use crate::plan::{child_x, child_y, child_z};
use crate::store::{is_brick, is_join, lemma_brick, lemma_join_kid};
use crate::tree::{
    agree, all_same_solid, all_same_voxel, byte_of, bytes_of, canon, extent_of, kid, kids_of,
    lemma_cell, lemma_cell_span, lemma_extent, lemma_join_coord, lemma_no_kids, lemma_same_byte,
    lemma_same_kid, lemma_uniform, owns, voxel_at, wf,
};
use vstd::prelude::*;

verus! {

/// Whether every node at one of these cubes is what storing its own children gives.
pub open spec fn neat_at(
    at: spec_fn(int, int, int, int) -> bool,
    s: Slots,
    node: Node,
    level: int,
    x: int,
    y: int,
    z: int,
) -> bool
    decreases level,
{
    at(x, y, z, extent_of(level)) ==> if level <= 0 {
        is_brick(s, bytes_of(s, node), node)
    } else {
        &&& is_join(s, kids_of(s, node), node)
        &&& forall|i: int|
            0 <= i < 64 ==> neat_at(
                at,
                s,
                #[trigger] kid(s, node, i),
                level - 1,
                child_x(x, i, level),
                child_y(y, i, level),
                child_z(z, i, level),
            )
    }
}

/// Whether every node without children names its material by one byte.
pub open spec fn in_bytes(s: Slots, node: Node, level: int) -> bool
    decreases level,
{
    if node.mask == 0 {
        node.material <= 255
    } else {
        level > 0 ==> forall|i: int|
            0 <= i < 64 ==> in_bytes(s, #[trigger] kid(s, node, i), level - 1)
    }
}

/// A canonical node is what storing its own children gives, and so is every node
/// below it.
pub proof fn lemma_canon_neat(
    at: spec_fn(int, int, int, int) -> bool,
    s: Slots,
    node: Node,
    level: int,
    x: int,
    y: int,
    z: int,
)
    requires
        level >= 0,
        canon(s, node, level),
        wf(s, node, level),
    ensures
        neat_at(at, s, node, level, x, y, z),
    decreases level,
{
    lemma_zero_mask(node.mask);
    if level == 0 {
        let bytes = bytes_of(s, node);
        if node.mask == 0 {
            assert forall|i: int| 0 <= i < 64 implies #[trigger] bytes[i] == node.material by {
                lemma_no_kids(s, node, i);
            }
            assert(bytes[0] == node.material);
            if node.material != 0 {
                assert(all_same_voxel(bytes));
            }
        } else {
            crate::bits::lemma_some_bit(node.mask);
            let k = choose|k: int| 0 <= k < 64 && bit(node.mask, k);
            assert(byte_of(s, node, k) != 0);
            assert(bytes[k] != 0);
            assert forall|i: int| 0 <= i < 64 implies bit(node.mask, i) == (#[trigger] bytes[i]
                != 0) by {
                assert(bytes[i] == byte_of(s, node, i));
            }
        }
    } else {
        let kids = kids_of(s, node);
        if node.mask == 0 {
            assert forall|i: int| 0 <= i < 64 implies #[trigger] kids[i] == node by {
                lemma_no_kids(s, node, i);
            }
            assert(kids[0] == node);
            if node.material != 0 {
                assert(all_same_solid(kids));
            }
        } else {
            crate::bits::lemma_some_bit(node.mask);
            let k = choose|k: int| 0 <= k < 64 && bit(node.mask, k);
            assert(!kid(s, node, k).vacant());
            assert(!kids[k].vacant());
            assert forall|i: int| 0 <= i < 64 implies bit(node.mask, i) == !(
            #[trigger] kids[i]).vacant() by {
                assert(kids[i] == kid(s, node, i));
            }
        }
        assert forall|i: int| 0 <= i < 64 implies neat_at(
            at,
            s,
            #[trigger] kid(s, node, i),
            level - 1,
            child_x(x, i, level),
            child_y(y, i, level),
            child_z(z, i, level),
        ) by {
            if node.mask == 0 {
                lemma_no_kids(s, node, i);
            } else {
                assert(canon(s, kid(s, node, i), level - 1));
                assert(wf(s, kid(s, node, i), level - 1));
            }
            lemma_canon_neat(
                at,
                s,
                kid(s, node, i),
                level - 1,
                child_x(x, i, level),
                child_y(y, i, level),
                child_z(z, i, level),
            );
        }
    }
}

/// Where every slot a node reaches is stored alike, its block is stored.
proof fn lemma_block_stored(s: Slots, t: Slots, node: Node, level: int)
    requires
        level >= 0,
        agree(s, t, node, level),
        node.mask != 0,
    ensures
        node.child_base + ones(node.mask) <= t.len(level == 0),
{
    lemma_zero_mask(node.mask);
    lemma_rank_monotone(node.mask, 0, 64);
    let last = node.child_base + ones(node.mask) - 1;
    assert(owns(s, node, level, level == 0, last));
}

/// Which form a node is stored in depends on the slots it reaches alone.
pub proof fn lemma_frame_neat(
    at: spec_fn(int, int, int, int) -> bool,
    s: Slots,
    t: Slots,
    node: Node,
    level: int,
    x: int,
    y: int,
    z: int,
)
    requires
        level >= 0,
        agree(s, t, node, level),
        neat_at(at, s, node, level, x, y, z),
    ensures
        neat_at(at, t, node, level, x, y, z),
    decreases level,
{
    if at(x, y, z, extent_of(level)) {
        if node.mask != 0 {
            lemma_block_stored(s, t, node, level);
        }
        if level == 0 {
            assert forall|i: int| 0 <= i < 64 implies #[trigger] byte_of(t, node, i) == byte_of(
                s,
                node,
                i,
            ) by {
                lemma_same_byte(s, t, node, i);
            }
            assert(bytes_of(t, node) =~= bytes_of(s, node));
            let bytes = bytes_of(s, node);
            assert forall|i: int| 0 <= i < 64 && bit(node.mask, i) implies t.voxels[node.slot(i)]
                == #[trigger] bytes[i] by {
                assert(bytes_of(t, node)[i] == byte_of(t, node, i));
            }
        } else {
            assert forall|i: int| 0 <= i < 64 implies #[trigger] kid(t, node, i) == kid(s, node, i)
                && neat_at(
                at,
                t,
                kid(t, node, i),
                level - 1,
                child_x(x, i, level),
                child_y(y, i, level),
                child_z(z, i, level),
            ) by {
                lemma_same_kid(s, t, node, level, i);
                lemma_frame_neat(
                    at,
                    s,
                    t,
                    kid(s, node, i),
                    level - 1,
                    child_x(x, i, level),
                    child_y(y, i, level),
                    child_z(z, i, level),
                );
            }
            assert(kids_of(t, node) =~= kids_of(s, node));
            let kids = kids_of(s, node);
            assert forall|i: int| 0 <= i < 64 && bit(node.mask, i) implies t.nodes[node.slot(i)]
                == #[trigger] kids[i] by {
                assert(kids_of(t, node)[i] == kid(t, node, i));
            }
        }
    }
}

/// What is neat at many cubes is at fewer.
pub proof fn lemma_neat_fewer(
    few: spec_fn(int, int, int, int) -> bool,
    many: spec_fn(int, int, int, int) -> bool,
    s: Slots,
    node: Node,
    level: int,
    x: int,
    y: int,
    z: int,
)
    requires
        level >= 0,
        forall|a: int, b: int, c: int, e: int| #[trigger] few(a, b, c, e) ==> many(a, b, c, e),
        neat_at(many, s, node, level, x, y, z),
    ensures
        neat_at(few, s, node, level, x, y, z),
    decreases level,
{
    if few(x, y, z, extent_of(level)) && level > 0 {
        assert(many(x, y, z, extent_of(level)));
        assert forall|i: int| 0 <= i < 64 implies neat_at(
            few,
            s,
            #[trigger] kid(s, node, i),
            level - 1,
            child_x(x, i, level),
            child_y(y, i, level),
            child_z(z, i, level),
        ) by {
            lemma_neat_fewer(
                few,
                many,
                s,
                kid(s, node, i),
                level - 1,
                child_x(x, i, level),
                child_y(y, i, level),
                child_z(z, i, level),
            );
        }
    }
}

/// A brick over voxels is what storing its own voxels gives.
pub proof fn lemma_brick_itself(s: Slots, bytes: Seq<u8>, node: Node)
    requires
        bytes.len() == 64,
        is_brick(s, bytes, node),
    ensures
        is_brick(s, bytes_of(s, node), node),
{
    lemma_brick(s, bytes, node);
    assert(bytes_of(s, node) =~= bytes);
}

/// A node over nodes is what storing its own children gives.
pub proof fn lemma_join_itself(s: Slots, kids: Seq<Node>, node: Node)
    requires
        kids.len() == 64,
        is_join(s, kids, node),
    ensures
        is_join(s, kids_of(s, node), node),
{
    let own = kids_of(s, node);
    lemma_zero_mask(node.mask);
    assert forall|i: int| 0 <= i < 64 implies (#[trigger] own[i]).vacant() == kids[i].vacant() && (
    !kids[i].vacant() ==> own[i] == kids[i]) by {
        lemma_join_kid(s, kids, node, i);
        assert(own[i] == kid(s, node, i));
    }
    if forall|i: int| 0 <= i < 64 ==> (#[trigger] kids[i]).vacant() {
        assert forall|i: int| 0 <= i < 64 implies (#[trigger] own[i]).vacant() by {
            assert(kids[i].vacant());
        }
    } else {
        let k = choose|k: int| 0 <= k < 64 && !(#[trigger] kids[k]).vacant();
        assert(!own[k].vacant());
        if all_same_solid(kids) {
            assert forall|i: int| 0 <= i < 64 implies #[trigger] own[i] == own[0] by {
                assert(kids[i] == kids[0]);
                assert(!kids[i].vacant());
            }
            assert(own[0] == kids[0]);
        } else {
            if all_same_solid(own) {
                assert forall|i: int| 0 <= i < 64 implies #[trigger] kids[i] == kids[0] by {
                    assert(own[i] == own[0]);
                    assert(own[0].vacant() == kids[0].vacant());
                    assert(own[i].vacant() == kids[i].vacant());
                }
                assert(own[0] == kids[0]);
            }
            assert forall|i: int| 0 <= i < 64 implies bit(node.mask, i) == !(
            #[trigger] own[i]).vacant() by {
                assert(bit(node.mask, i) == !kids[i].vacant());
            }
            assert forall|i: int| 0 <= i < 64 && bit(node.mask, i) implies s.nodes[node.slot(i)]
                == #[trigger] own[i] by {
                assert(own[i] == kid(s, node, i));
            }
        }
    }
}

/// Whether a node passes `check_canonical`, and names its materials by bytes,
/// depends on the slots it reaches alone.
pub proof fn lemma_frame_tidy(s: Slots, t: Slots, node: Node, level: int)
    requires
        level >= 0,
        agree(s, t, node, level),
    ensures
        tidy(s, node, level) ==> tidy(t, node, level),
        in_bytes(s, node, level) ==> in_bytes(t, node, level),
    decreases level,
{
    if node.mask != 0 {
        lemma_block_stored(s, t, node, level);
        if level == 0 {
            assert forall|i: int| 0 <= i < 64 implies #[trigger] byte_of(t, node, i) == byte_of(
                s,
                node,
                i,
            ) by {
                lemma_same_byte(s, t, node, i);
            }
        } else {
            assert forall|i: int| 0 <= i < 64 implies #[trigger] kid(t, node, i) == kid(s, node, i)
                && (tidy(s, kid(s, node, i), level - 1) ==> tidy(t, kid(t, node, i), level - 1)) && (
            in_bytes(s, kid(s, node, i), level - 1) ==> in_bytes(t, kid(t, node, i), level - 1)) by {
                lemma_same_kid(s, t, node, level, i);
                lemma_frame_tidy(s, t, kid(s, node, i), level - 1);
            }
            assert(kids_of(t, node) =~= kids_of(s, node));
            if tidy(s, node, level) {
                assert forall|i: int| 0 <= i < 64 implies tidy(
                    t,
                    #[trigger] kid(t, node, i),
                    level - 1,
                ) by {
                    assert(tidy(s, kid(s, node, i), level - 1));
                }
            }
            if in_bytes(s, node, level) {
                assert forall|i: int| 0 <= i < 64 implies in_bytes(
                    t,
                    #[trigger] kid(t, node, i),
                    level - 1,
                ) by {
                    assert(in_bytes(s, kid(s, node, i), level - 1));
                }
            }
        }
    }
}

/// A node over nodes passes where they do.
pub proof fn lemma_join_tidy(s: Slots, kids: Seq<Node>, node: Node, level: int)
    requires
        level >= 1,
        kids.len() == 64,
        is_join(s, kids, node),
    ensures
        (forall|i: int| 0 <= i < 64 ==> tidy(s, #[trigger] kids[i], level - 1)) ==> tidy(
            s,
            node,
            level,
        ),
        (forall|i: int| 0 <= i < 64 ==> in_bytes(s, #[trigger] kids[i], level - 1)) ==> in_bytes(
            s,
            node,
            level,
        ),
{
    lemma_join_itself(s, kids, node);
    lemma_zero_mask(node.mask);
    let own = kids_of(s, node);
    assert forall|i: int| 0 <= i < 64 implies (#[trigger] kid(s, node, i) == kids[i] || kid(
        s,
        node,
        i,
    ) == Node::solid(0)) && own[i] == kid(s, node, i) by {
        lemma_join_kid(s, kids, node, i);
    }
    if node.mask != 0 {
        if forall|i: int| 0 <= i < 64 ==> tidy(s, #[trigger] kids[i], level - 1) {
            assert forall|i: int| 0 <= i < 64 implies tidy(
                s,
                #[trigger] kid(s, node, i),
                level - 1,
            ) by {
                assert(tidy(s, kids[i], level - 1));
            }
            assert forall|i: int| 0 <= i < 64 && bit(node.mask, i) implies !(#[trigger] kid(
                s,
                node,
                i,
            )).vacant() by {
                assert(bit(node.mask, i) == !own[i].vacant());
            }
            assert(!all_same_solid(own));
        }
        if forall|i: int| 0 <= i < 64 ==> in_bytes(s, #[trigger] kids[i], level - 1) {
            assert forall|i: int| 0 <= i < 64 implies in_bytes(
                s,
                #[trigger] kid(s, node, i),
                level - 1,
            ) by {
                assert(in_bytes(s, kids[i], level - 1));
            }
        }
    } else {
        assert(in_bytes(s, kids[0], level - 1) ==> kids[0].mask == 0 ==> kids[0].material <= 255);
    }
}

/// A canonical node passes, and names its materials by bytes.
pub proof fn lemma_canon_orderly(s: Slots, node: Node, level: int)
    requires
        level >= 0,
        wf(s, node, level),
        canon(s, node, level),
    ensures
        tidy(s, node, level),
        in_bytes(s, node, level),
    decreases level,
{
    lemma_canon_tidy(s, node, level);
    if node.mask != 0 && level > 0 {
        assert forall|i: int| 0 <= i < 64 implies in_bytes(
            s,
            #[trigger] kid(s, node, i),
            level - 1,
        ) by {
            assert(wf(s, kid(s, node, i), level - 1));
            assert(canon(s, kid(s, node, i), level - 1));
            lemma_canon_orderly(s, kid(s, node, i), level - 1);
        }
    }
}

/// Whether a node passes `check_canonical` and names its materials by bytes.
pub open spec fn orderly_at(s: Slots, node: Node, level: int) -> bool {
    tidy(s, node, level) && in_bytes(s, node, level)
}

/// A node that passes and is not empty has a solid voxel.
pub proof fn lemma_orderly_solid(s: Slots, node: Node, level: int) -> (at: (int, int, int))
    requires
        level >= 0,
        orderly_at(s, node, level),
        !node.vacant(),
    ensures
        0 <= at.0 < extent_of(level),
        0 <= at.1 < extent_of(level),
        0 <= at.2 < extent_of(level),
        voxel_at(s, node, level, at.0, at.1, at.2) != 0,
    decreases level,
{
    lemma_extent(level);
    lemma_extent(level - 1);
    if node.mask == 0 {
        lemma_uniform(s, node, level, 0, 0, 0);
        (0, 0, 0)
    } else {
        crate::bits::lemma_some_bit(node.mask);
        let i = choose|i: int| 0 <= i < 64 && bit(node.mask, i);
        lemma_cell(i);
        if level == 0 {
            assert(byte_of(s, node, i) != 0);
            (i % 4, (i / 4) % 4, i / 16)
        } else {
            let step = extent_of(level - 1);
            assert(tidy(s, kid(s, node, i), level - 1));
            assert(in_bytes(s, kid(s, node, i), level - 1));
            assert(!kid(s, node, i).vacant());
            let (dx, dy, dz) = lemma_orderly_solid(s, kid(s, node, i), level - 1);
            lemma_join_coord(i % 4, dx, step);
            lemma_join_coord((i / 4) % 4, dy, step);
            lemma_join_coord(i / 16, dz, step);
            let (x, y, z) = ((i % 4) * step + dx, ((i / 4) % 4) * step + dy, (i / 16) * step + dz);
            lemma_cell_span(i % 4, dx, step);
            lemma_cell_span((i / 4) % 4, dy, step);
            lemma_cell_span(i / 16, dz, step);
            (x, y, z)
        }
    }
}

} // verus!
