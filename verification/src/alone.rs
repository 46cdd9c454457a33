//! What an edit leaves alone: the nodes of cubes that it does not meet, and every
//! slot below them.

use crate::arena::NodeArena;
use crate::node::Node;
use crate::plan::{child_x, child_y, child_z};
use crate::tree::{
    agree, extent_of, kid, lemma_frame_owns, lemma_kid_owned, lemma_no_kids, lemma_same_kid, owns,
};
use vstd::prelude::*;

verus! {

/// Whether every slot a node reaches is stored as it was, and marked as it was.
pub open spec fn quiet(before: NodeArena, after: NodeArena, node: Node, level: int) -> bool {
    &&& agree(before.slots(), after.slots(), node, level)
    &&& forall|leaf: bool, slot: int| #[trigger]
        owns(before.slots(), node, level, leaf, slot) ==> after.is_dirty(leaf, slot)
            == before.is_dirty(leaf, slot)
}

/// Whether the nodes at cubes that are not met are the same, up to how an empty one
/// is written, and quiet.
pub open spec fn left_alone(
    meets: spec_fn(int, int, int, int) -> bool,
    before: NodeArena,
    node: Node,
    after: NodeArena,
    new: Node,
    level: int,
    x: int,
    y: int,
    z: int,
) -> bool
    decreases level,
{
    if !meets(x, y, z, extent_of(level)) {
        (new == node || (new.vacant() && node.vacant())) && quiet(before, after, node, level)
    } else {
        level > 0 ==> forall|i: int|
            0 <= i < 64 ==> left_alone(
                meets,
                before,
                #[trigger] kid(before.slots(), node, i),
                after,
                kid(after.slots(), new, i),
                level - 1,
                child_x(x, i, level),
                child_y(y, i, level),
                child_z(z, i, level),
            )
    }
}

pub proof fn lemma_quiet_trans(
    start: NodeArena,
    before: NodeArena,
    after: NodeArena,
    node: Node,
    level: int,
)
    requires
        level >= 0,
        quiet(start, before, node, level),
        quiet(before, after, node, level),
    ensures
        quiet(start, after, node, level),
{
    let (s, t, u) = (start.slots(), before.slots(), after.slots());
    assert forall|leaf: bool, slot: int| #[trigger] owns(s, node, level, leaf, slot) implies 0
        <= slot < u.len(leaf) && u.same(s, leaf, slot) && after.is_dirty(leaf, slot)
        == start.is_dirty(leaf, slot) by {
        lemma_frame_owns(s, t, node, level, leaf, slot);
        assert(owns(t, node, level, leaf, slot));
    }
}

/// The children of a quiet node are the same, and quiet.
proof fn lemma_quiet_kid(before: NodeArena, after: NodeArena, node: Node, level: int, i: int)
    requires
        level >= 1,
        0 <= i < 64,
        quiet(before, after, node, level),
    ensures
        kid(after.slots(), node, i) == kid(before.slots(), node, i),
        quiet(before, after, kid(before.slots(), node, i), level - 1),
{
    let s = before.slots();
    lemma_same_kid(s, after.slots(), node, level, i);
    assert forall|leaf: bool, slot: int| #[trigger]
        owns(s, kid(s, node, i), level - 1, leaf, slot) implies after.is_dirty(leaf, slot)
        == before.is_dirty(leaf, slot) by {
        lemma_kid_owned(s, node, level, i, leaf, slot);
    }
}

/// A quiet node is left alone, whatever is met.
pub proof fn lemma_quiet_alone(
    meets: spec_fn(int, int, int, int) -> bool,
    before: NodeArena,
    after: NodeArena,
    node: Node,
    level: int,
    x: int,
    y: int,
    z: int,
)
    requires
        level >= 0,
        quiet(before, after, node, level),
    ensures
        left_alone(meets, before, node, after, node, level, x, y, z),
    decreases level,
{
    if level > 0 && meets(x, y, z, extent_of(level)) {
        let (s, t) = (before.slots(), after.slots());
        assert forall|i: int| 0 <= i < 64 implies left_alone(
            meets,
            before,
            #[trigger] kid(s, node, i),
            after,
            kid(t, node, i),
            level - 1,
            child_x(x, i, level),
            child_y(y, i, level),
            child_z(z, i, level),
        ) by {
            lemma_quiet_kid(before, after, node, level, i);
            lemma_quiet_alone(
                meets,
                before,
                after,
                kid(s, node, i),
                level - 1,
                child_x(x, i, level),
                child_y(y, i, level),
                child_z(z, i, level),
            );
        }
    }
}

/// What was left alone still is, once the replacement has been quiet.
pub proof fn lemma_alone_to(
    meets: spec_fn(int, int, int, int) -> bool,
    before: NodeArena,
    node: Node,
    after: NodeArena,
    later: NodeArena,
    new: Node,
    level: int,
    x: int,
    y: int,
    z: int,
)
    requires
        level >= 0,
        left_alone(meets, before, node, after, new, level, x, y, z),
        quiet(after, later, new, level),
    ensures
        left_alone(meets, before, node, later, new, level, x, y, z),
    decreases level,
{
    if !meets(x, y, z, extent_of(level)) {
        if new == node {
            lemma_quiet_trans(before, after, later, node, level);
        }
    } else if level > 0 {
        let (s, t, u) = (before.slots(), after.slots(), later.slots());
        assert forall|i: int| 0 <= i < 64 implies left_alone(
            meets,
            before,
            #[trigger] kid(s, node, i),
            later,
            kid(u, new, i),
            level - 1,
            child_x(x, i, level),
            child_y(y, i, level),
            child_z(z, i, level),
        ) by {
            lemma_quiet_kid(after, later, new, level, i);
            lemma_alone_to(
                meets,
                before,
                kid(s, node, i),
                after,
                later,
                kid(t, new, i),
                level - 1,
                child_x(x, i, level),
                child_y(y, i, level),
                child_z(z, i, level),
            );
        }
    }
}

/// What was left alone was so from where the node had been quiet.
pub proof fn lemma_alone_from(
    meets: spec_fn(int, int, int, int) -> bool,
    earlier: NodeArena,
    before: NodeArena,
    node: Node,
    after: NodeArena,
    new: Node,
    level: int,
    x: int,
    y: int,
    z: int,
)
    requires
        level >= 0,
        quiet(earlier, before, node, level),
        left_alone(meets, before, node, after, new, level, x, y, z),
    ensures
        left_alone(meets, earlier, node, after, new, level, x, y, z),
    decreases level,
{
    if !meets(x, y, z, extent_of(level)) {
        lemma_quiet_trans(earlier, before, after, node, level);
    } else if level > 0 {
        let (r, s, t) = (earlier.slots(), before.slots(), after.slots());
        assert forall|i: int| 0 <= i < 64 implies left_alone(
            meets,
            earlier,
            #[trigger] kid(r, node, i),
            after,
            kid(t, new, i),
            level - 1,
            child_x(x, i, level),
            child_y(y, i, level),
            child_z(z, i, level),
        ) by {
            lemma_quiet_kid(earlier, before, node, level, i);
            assert(kid(s, node, i) == kid(r, node, i));
            lemma_alone_from(
                meets,
                earlier,
                before,
                kid(r, node, i),
                after,
                kid(t, new, i),
                level - 1,
                child_x(x, i, level),
                child_y(y, i, level),
                child_z(z, i, level),
            );
        }
    }
}

/// It does not matter how an empty node is written.
pub proof fn lemma_alone_vacant(
    meets: spec_fn(int, int, int, int) -> bool,
    before: NodeArena,
    node: Node,
    after: NodeArena,
    new: Node,
    other: Node,
    level: int,
    x: int,
    y: int,
    z: int,
)
    requires
        level >= 0,
        new.vacant(),
        other.vacant(),
        left_alone(meets, before, node, after, new, level, x, y, z),
    ensures
        left_alone(meets, before, node, after, other, level, x, y, z),
{
    if level > 0 && meets(x, y, z, extent_of(level)) {
        let (s, t) = (before.slots(), after.slots());
        assert forall|i: int| 0 <= i < 64 implies left_alone(
            meets,
            before,
            #[trigger] kid(s, node, i),
            after,
            kid(t, other, i),
            level - 1,
            child_x(x, i, level),
            child_y(y, i, level),
            child_z(z, i, level),
        ) by {
            lemma_no_kids(t, new, i);
            lemma_no_kids(t, other, i);
        }
    }
}

/// What is left alone by one edit is by an edit that meets more, where it meets it.
pub proof fn lemma_alone_wider(
    few: spec_fn(int, int, int, int) -> bool,
    many: spec_fn(int, int, int, int) -> bool,
    before: NodeArena,
    node: Node,
    after: NodeArena,
    new: Node,
    level: int,
    x: int,
    y: int,
    z: int,
)
    requires
        level >= 0,
        forall|a: int, b: int, c: int, e: int| #[trigger] few(a, b, c, e) ==> many(a, b, c, e),
        left_alone(few, before, node, after, new, level, x, y, z),
    ensures
        left_alone(many, before, node, after, new, level, x, y, z),
    decreases level,
{
    if !many(x, y, z, extent_of(level)) {
        assert(!few(x, y, z, extent_of(level)));
    } else if !few(x, y, z, extent_of(level)) {
        lemma_quiet_alone(many, before, after, node, level, x, y, z);
        if new != node {
            lemma_alone_vacant(many, before, node, after, node, new, level, x, y, z);
        }
    } else if level > 0 {
        let (s, t) = (before.slots(), after.slots());
        assert forall|i: int| 0 <= i < 64 implies left_alone(
            many,
            before,
            #[trigger] kid(s, node, i),
            after,
            kid(t, new, i),
            level - 1,
            child_x(x, i, level),
            child_y(y, i, level),
            child_z(z, i, level),
        ) by {
            lemma_alone_wider(
                few,
                many,
                before,
                kid(s, node, i),
                after,
                kid(t, new, i),
                level - 1,
                child_x(x, i, level),
                child_y(y, i, level),
                child_z(z, i, level),
            );
        }
    }
}

} // verus!
