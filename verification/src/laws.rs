//! What holds of trees as a whole: one layout for one content, and edits that
//! compose.

use crate::address::UVec3;
use crate::arena::{NodeArena, Slots};
use crate::bits::{bit, lemma_some_bit};
use crate::contree::{
    defect, dense_voxels, lemma_canon_tidy, lemma_defect, marked, Contree,
};
use crate::dense::DenseVolume;
use crate::edit::{
    all_among, boxed, cubes, edited, has_room, high_corner, lemma_listed_place, listed, low_corner,
    painted, places, room_for_count, same_storage, same_voxels, settled,
};
use crate::material::MaterialId;
use crate::node::Node;
use crate::plan::{
    alike, child_x, child_y, child_z, constant, lemma_plan_constant, lemma_plan_same, stands_for,
};
use crate::sparse::{lemma_child_stands, list_voxels};
use crate::tree::{
    all_same_solid, all_same_voxel, byte_of, bytes_of, canon, extent_of, kid, kids_of, lemma_cell,
    lemma_extent, lemma_ordinal, lemma_uniform, voxel_at,
};
use vstd::prelude::*;

verus! {

/// Two trees built out of the same voxels are laid out alike, slot for slot,
/// whichever builder laid them out.
pub proof fn law_one_layout_for_the_same_voxels(
    a: Contree,
    b: Contree,
    f: spec_fn(int, int, int) -> u8,
    g: spec_fn(int, int, int) -> u8,
)
    requires
        a.height() == b.height(),
        a.height() >= 0,
        a.built_from(f),
        b.built_from(g),
        alike(f, g, 0, 0, 0, a.side()),
    ensures
        a.slots() == b.slots(),
        a.top() == b.top(),
{
    lemma_plan_same(f, g, Slots::none(), a.height(), 0, 0, 0);
}

/// A list of the solid voxels of a flat volume builds the tree the volume builds.
pub proof fn law_a_list_builds_what_the_volume_builds(
    dense: DenseVolume,
    voxels: Seq<(UVec3, MaterialId)>,
    from_dense: Contree,
    from_voxels: Contree,
)
    requires
        from_dense.height() == from_voxels.height(),
        0 <= from_dense.height() <= 14,
        from_dense.built_from(dense_voxels(dense)),
        from_voxels.built_from(list_voxels(voxels)),
        forall|k: int|
            0 <= k < voxels.len() ==> dense.at((#[trigger] voxels[k]).0) == voxels[k].1,
        forall|p: UVec3|
            p.within(from_dense.side()) && #[trigger] dense.at(p) != MaterialId(0) ==> places(
                voxels,
            ).contains(p),
    ensures
        from_dense.slots() == from_voxels.slots(),
        from_dense.top() == from_voxels.top(),
{
    let (f, g) = (dense_voxels(dense), list_voxels(voxels));
    let side = from_dense.side();
    crate::dense::lemma_extent_levels(from_dense.height());
    assert forall|x: int, y: int, z: int|
        0 <= x < 0 + side && 0 <= y < 0 + side && 0 <= z < 0 + side implies #[trigger] f(x, y, z)
        == g(x, y, z) by {
        let p = UVec3 { x: x as u32, y: y as u32, z: z as u32 };
        if listed(voxels, p) is Some {
            lemma_listed_is(voxels, dense, p);
        } else if dense.at(p) != MaterialId(0) {
            assert(places(voxels).contains(p));
            let k = choose|k: int| 0 <= k < places(voxels).len() && places(voxels)[k] == p;
            lemma_place_listed(voxels, k);
        }
    }
    law_one_layout_for_the_same_voxels(from_dense, from_voxels, f, g);
}

/// A list that agrees with a volume says of a position what the volume holds.
proof fn lemma_listed_is(voxels: Seq<(UVec3, MaterialId)>, dense: DenseVolume, p: UVec3)
    requires
        listed(voxels, p) is Some,
        forall|k: int|
            0 <= k < voxels.len() ==> dense.at((#[trigger] voxels[k]).0) == voxels[k].1,
    ensures
        listed(voxels, p) == Some(dense.at(p).0),
    decreases voxels.len(),
{
    if voxels.last().0 == p {
        assert(dense.at(voxels[voxels.len() - 1].0) == voxels[voxels.len() - 1].1);
    } else {
        let rest = voxels.drop_last();
        assert forall|k: int| 0 <= k < rest.len() implies dense.at((#[trigger] rest[k]).0)
            == rest[k].1 by {
            assert(rest[k] == voxels[k]);
        }
        lemma_listed_is(rest, dense, p);
    }
}

/// A list says something of every position in it.
proof fn lemma_place_listed(voxels: Seq<(UVec3, MaterialId)>, k: int)
    requires
        0 <= k < voxels.len(),
    ensures
        listed(voxels, voxels[k].0) is Some,
    decreases voxels.len(),
{
    if voxels.last().0 != voxels[k].0 {
        lemma_place_listed(voxels.drop_last(), k);
        assert(voxels.drop_last()[k] == voxels[k]);
    }
}

/// Whether two nodes are subdivided alike, down to the voxels, wherever their
/// children are stored.
pub open spec fn same_shape(s: Slots, a: Node, t: Slots, b: Node, level: int) -> bool
    decreases level,
{
    &&& a.mask == 0 <==> b.mask == 0
    &&& a.mask == 0 ==> a.material == b.material
    &&& forall|i: int| 0 <= i < 64 ==> #[trigger] bit(a.mask, i) == bit(b.mask, i)
    &&& a.mask != 0 ==> forall|i: int|
        0 <= i < 64 && #[trigger] bit(a.mask, i) ==> if level <= 0 {
            byte_of(s, a, i) == byte_of(t, b, i)
        } else {
            same_shape(s, kid(s, a, i), t, kid(t, b, i), level - 1)
        }
}

/// A canonical node over voxels that are all alike is a uniform one.
proof fn lemma_canon_constant(
    f: spec_fn(int, int, int) -> u8,
    m: u8,
    s: Slots,
    node: Node,
    level: int,
    x: int,
    y: int,
    z: int,
)
    requires
        level >= 0,
        canon(s, node, level),
        stands_for(f, s, node, level, x, y, z),
        constant(f, m, x, y, z, extent_of(level)),
    ensures
        node == Node::solid(m),
    decreases level,
{
    lemma_extent(level);
    if node.mask == 0 {
        lemma_uniform(s, node, level, 0, 0, 0);
        assert(voxel_at(s, node, level, 0, 0, 0) == f(x + 0, y + 0, z + 0));
        assert(f(x, y, z) == m);
    } else if level == 0 {
        reveal_with_fuel(extent_of, 2);
        assert forall|i: int| 0 <= i < 64 implies #[trigger] byte_of(s, node, i) == m by {
            lemma_cell(i);
            lemma_ordinal(i % 4, (i / 4) % 4, i / 16);
            assert(voxel_at(s, node, 0, i % 4, (i / 4) % 4, i / 16) == f(
                x + i % 4,
                y + (i / 4) % 4,
                z + i / 16,
            ));
            assert(f(x + i % 4, y + (i / 4) % 4, z + i / 16) == m);
        }
        lemma_some_bit(node.mask);
        let i = choose|i: int| 0 <= i < 64 && bit(node.mask, i);
        assert(byte_of(s, node, i) != 0);
        let bytes = bytes_of(s, node);
        assert(bytes[0] == m);
        assert(all_same_voxel(bytes));
    } else {
        lemma_extent(level - 1);
        assert forall|i: int| 0 <= i < 64 implies #[trigger] kid(s, node, i) == Node::solid(m) by {
            lemma_child_stands(f, s, node, level, x, y, z, i);
            lemma_child_constant(f, m, level, x, y, z, i);
            lemma_canon_constant(
                f,
                m,
                s,
                kid(s, node, i),
                level - 1,
                child_x(x, i, level),
                child_y(y, i, level),
                child_z(z, i, level),
            );
        }
        lemma_some_bit(node.mask);
        let i = choose|i: int| 0 <= i < 64 && bit(node.mask, i);
        assert(!kid(s, node, i).vacant());
        let kids = kids_of(s, node);
        assert(kids[0] == Node::solid(m));
        assert(kid(s, node, i) == Node::solid(m));
        assert(all_same_solid(kids));
    }
}

proof fn lemma_child_constant(
    f: spec_fn(int, int, int) -> u8,
    m: u8,
    level: int,
    x: int,
    y: int,
    z: int,
    i: int,
)
    requires
        level >= 1,
        0 <= i < 64,
        constant(f, m, x, y, z, extent_of(level)),
    ensures
        constant(
            f,
            m,
            child_x(x, i, level),
            child_y(y, i, level),
            child_z(z, i, level),
            extent_of(level - 1),
        ),
{
    crate::sparse::lemma_child_cube(x, y, z, level, i);
}

/// There is one canonical shape for any content: two canonical trees that hold the
/// same voxels are subdivided alike, however they came to be.
pub proof fn law_one_canonical_shape_for_the_same_voxels(a: Contree, b: Contree)
    requires
        a.readable(),
        b.readable(),
        a.canonical(),
        b.canonical(),
        a.height() == b.height(),
        forall|p: UVec3| p.within(a.side()) ==> #[trigger] a.at(p) == b.at(p),
    ensures
        same_shape(a.slots(), a.top(), b.slots(), b.top(), a.height()),
{
    let f = a.field();
    crate::dense::lemma_extent_levels(a.height());
    assert(stands_for(f, a.slots(), a.top(), a.height(), 0, 0, 0));
    assert forall|dx: int, dy: int, dz: int|
        0 <= dx < extent_of(b.height()) && 0 <= dy < extent_of(b.height()) && 0 <= dz < extent_of(
            b.height(),
        ) implies #[trigger] voxel_at(b.slots(), b.top(), b.height(), dx, dy, dz) == f(
        0 + dx,
        0 + dy,
        0 + dz,
    ) by {
        let p = UVec3 { x: dx as u32, y: dy as u32, z: dz as u32 };
        assert(a.at(p) == b.at(p));
    }
    lemma_same_shape(f, a.slots(), a.top(), b.slots(), b.top(), a.height(), 0, 0, 0);
}

proof fn lemma_same_shape(
    f: spec_fn(int, int, int) -> u8,
    s: Slots,
    a: Node,
    t: Slots,
    b: Node,
    level: int,
    x: int,
    y: int,
    z: int,
)
    requires
        level >= 0,
        canon(s, a, level),
        canon(t, b, level),
        stands_for(f, s, a, level, x, y, z),
        stands_for(f, t, b, level, x, y, z),
    ensures
        same_shape(s, a, t, b, level),
        a.vacant() == b.vacant(),
    decreases level,
{
    if a.mask == 0 {
        lemma_uniform_constant(f, s, a, level, x, y, z);
        lemma_canon_constant(f, a.material as u8, t, b, level, x, y, z);
    } else if b.mask == 0 {
        lemma_uniform_constant(f, t, b, level, x, y, z);
        lemma_canon_constant(f, b.material as u8, s, a, level, x, y, z);
    } else {
        assert forall|i: int| 0 <= i < 64 implies #[trigger] bit(a.mask, i) == bit(b.mask, i) && (
        bit(a.mask, i) ==> if level <= 0 {
            byte_of(s, a, i) == byte_of(t, b, i)
        } else {
            same_shape(s, kid(s, a, i), t, kid(t, b, i), level - 1)
        }) by {
            if level == 0 {
                reveal_with_fuel(extent_of, 2);
                lemma_cell(i);
                lemma_ordinal(i % 4, (i / 4) % 4, i / 16);
                assert(voxel_at(s, a, 0, i % 4, (i / 4) % 4, i / 16) == f(
                    x + i % 4,
                    y + (i / 4) % 4,
                    z + i / 16,
                ));
                assert(voxel_at(t, b, 0, i % 4, (i / 4) % 4, i / 16) == f(
                    x + i % 4,
                    y + (i / 4) % 4,
                    z + i / 16,
                ));
            } else {
                lemma_child_stands(f, s, a, level, x, y, z, i);
                lemma_child_stands(f, t, b, level, x, y, z, i);
                assert(canon(s, kid(s, a, i), level - 1));
                assert(canon(t, kid(t, b, i), level - 1));
                lemma_same_shape(
                    f,
                    s,
                    kid(s, a, i),
                    t,
                    kid(t, b, i),
                    level - 1,
                    child_x(x, i, level),
                    child_y(y, i, level),
                    child_z(z, i, level),
                );
                assert(bit(a.mask, i) == !kid(s, a, i).vacant());
                assert(bit(b.mask, i) == !kid(t, b, i).vacant());
            }
        }
    }
}

/// A uniform node's voxels are all alike.
proof fn lemma_uniform_constant(
    f: spec_fn(int, int, int) -> u8,
    s: Slots,
    node: Node,
    level: int,
    x: int,
    y: int,
    z: int,
)
    requires
        level >= 0,
        node.mask == 0,
        canon(s, node, level),
        stands_for(f, s, node, level, x, y, z),
    ensures
        constant(f, node.material as u8, x, y, z, extent_of(level)),
{
    assert forall|px: int, py: int, pz: int|
        x <= px < x + extent_of(level) && y <= py < y + extent_of(level) && z <= pz < z + extent_of(
            level,
        ) implies #[trigger] f(px, py, pz) == node.material as u8 by {
        lemma_uniform(s, node, level, px - x, py - y, pz - z);
        assert(voxel_at(s, node, level, px - x, py - y, pz - z) == f(
            x + (px - x),
            y + (py - y),
            z + (pz - z),
        ));
    }
}

/// A canonical tree with nothing in it has an empty root, and one of a single
/// material a uniform root: erasing everything, or filling everything, collapses
/// the tree.
pub proof fn law_a_tree_of_one_material_collapses(tree: Contree, m: MaterialId)
    requires
        tree.readable(),
        tree.canonical(),
        forall|p: UVec3| p.within(tree.side()) ==> #[trigger] tree.at(p) == m,
    ensures
        tree.top() == Node::solid(m.0),
{
    let f = tree.field();
    crate::dense::lemma_extent_levels(tree.height());
    assert forall|x: int, y: int, z: int|
        0 <= x < 0 + tree.side() && 0 <= y < 0 + tree.side() && 0 <= z < 0
            + tree.side() implies #[trigger] f(x, y, z) == m.0 by {
        let p = UVec3 { x: x as u32, y: y as u32, z: z as u32 };
        assert(tree.at(p) == m);
    }
    assert(stands_for(f, tree.slots(), tree.top(), tree.height(), 0, 0, 0));
    lemma_canon_constant(f, m.0, tree.slots(), tree.top(), tree.height(), 0, 0, 0);
}

/// A volume of one material builds a tree that stores nothing but its root.
pub proof fn law_one_material_takes_no_slots(
    tree: Contree,
    f: spec_fn(int, int, int) -> u8,
    m: u8,
)
    requires
        tree.height() >= 0,
        tree.built_from(f),
        constant(f, m, 0, 0, 0, tree.side()),
    ensures
        tree.slots() == Slots::none(),
        tree.top() == Node::solid(m),
{
    lemma_plan_constant(f, m, Slots::none(), tree.height(), 0, 0, 0);
}

/// The canonical form is what `check_canonical` accepts: it finds no defect in a canonical
/// tree.
pub proof fn law_a_canonical_tree_has_no_defect(tree: Contree)
    requires
        tree.readable(),
        tree.canonical(),
    ensures
        defect(tree.slots(), tree.top(), tree.height()) is None,
{
    lemma_canon_tidy(tree.slots(), tree.top(), tree.height());
    lemma_defect(tree.slots(), tree.top(), tree.height());
}

/// A buffer that mirrors an arena, brought up to date by copying the marked slots
/// of the arena after an edit, mirrors it again.
pub proof fn law_marked_slots_suffice_to_mirror(
    before: NodeArena,
    after: NodeArena,
    mirror: Slots,
    leaf: bool,
    slot: int,
)
    requires
        marked(before, after),
        0 <= slot < after.slots().len(leaf),
        after.is_dirty(leaf, slot) ==> mirror.same(after.slots(), leaf, slot),
        !after.is_dirty(leaf, slot) && slot < before.slots().len(leaf) ==> mirror.same(
            before.slots(),
            leaf,
            slot,
        ),
    ensures
        mirror.same(after.slots(), leaf, slot),
{
    if !after.is_dirty(leaf, slot) {
        assert(after.slots().same(before.slots(), leaf, slot));
    }
}

/// Room for as many voxels as a canonical tree has is room for an edit of any of them.
pub proof fn law_room_for_the_solid_voxels_is_room_to_cut_any(tree: Contree, cut: Seq<UVec3>)
    requires
        tree.readable(),
        tree.canonical(),
        room_for_count(tree, tree.solids().len() as int),
        forall|k: int|
            0 <= k < cut.len() ==> (#[trigger] cut[k]).within(tree.side()) && tree.at(cut[k])
                != MaterialId(0),
    ensures
        has_room(tree, cut),
{
    let all = places(tree.solids());
    crate::sparse::lemma_solids(tree);
    assert forall|k: int| 0 <= k < cut.len() implies all.contains(#[trigger] cut[k]) by {
        let j = choose|j: int| 0 <= j < tree.solids().len() && (#[trigger] tree.solids()[j]).0 == cut[k];
        assert(all[j] == cut[k]);
    }
    assert(all_among(cut, all));
}

/// Painting the same voxels again changes nothing.
pub proof fn law_repeated_edits_are_stable(
    voxels: Seq<(UVec3, MaterialId)>,
    before: MaterialId,
    p: UVec3,
)
    ensures
        painted(voxels, painted(voxels, before, p), p) == painted(voxels, before, p),
{
}

/// Writing the same voxels again leaves a tree stored as it was, slot by slot: the
/// blocks the edit gives back are the ones it takes again, so repeating an edit does
/// not grow the arena. A tree that passed `check_canonical` before passes it still.
pub proof fn law_repeating_an_edit_takes_no_slots(
    voxels: Seq<(UVec3, MaterialId)>,
    before: Contree,
    once: Contree,
    twice: Contree,
)
    requires
        edited(before, once),
        edited(once, twice),
        settled(before, once, boxed(low_corner(places(voxels)), high_corner(places(voxels)))),
        settled(once, twice, boxed(low_corner(places(voxels)), high_corner(places(voxels)))),
        forall|p: UVec3|
            p.within(before.side()) ==> #[trigger] once.at(p) == painted(voxels, before.at(p), p),
        forall|p: UVec3|
            p.within(once.side()) ==> #[trigger] twice.at(p) == painted(voxels, once.at(p), p),
    ensures
        same_voxels(once, twice),
        before.tidied() ==> twice.tidied(),
        same_storage(once, twice),
        twice.slots().nodes.len() == once.slots().nodes.len(),
        twice.slots().voxels.len() == once.slots().voxels.len(),
{
    assert forall|p: UVec3| p.within(once.side()) implies #[trigger] twice.at(p) == once.at(p) by {
        assert(once.at(p) == painted(voxels, before.at(p), p));
    }
}

/// The same of a sphere painted twice, whatever it touches and covers.
pub proof fn law_repeating_a_sphere_takes_no_slots(
    met: spec_fn(UVec3, u32) -> bool,
    says: spec_fn(UVec3) -> bool,
    material: MaterialId,
    before: Contree,
    once: Contree,
    twice: Contree,
)
    requires
        edited(before, once),
        edited(once, twice),
        settled(before, once, cubes(met)),
        settled(once, twice, cubes(met)),
        forall|p: UVec3|
            p.within(before.side()) ==> #[trigger] once.at(p) == if says(p) {
                material
            } else {
                before.at(p)
            },
        forall|p: UVec3|
            p.within(once.side()) ==> #[trigger] twice.at(p) == if says(p) {
                material
            } else {
                once.at(p)
            },
    ensures
        same_voxels(once, twice),
        before.tidied() ==> twice.tidied(),
        same_storage(once, twice),
        twice.slots().nodes.len() == once.slots().nodes.len(),
        twice.slots().voxels.len() == once.slots().voxels.len(),
{
    assert forall|p: UVec3| p.within(once.side()) implies #[trigger] twice.at(p) == once.at(p) by {
        assert(once.at(p) == if says(p) {
            material
        } else {
            before.at(p)
        });
    }
}

/// Painting voxels and then painting back what they held restores every one of
/// them: erasing is painting with the empty material, and edits compose back to
/// where they started.
pub proof fn law_painting_back_restores(
    voxels: Seq<(UVec3, MaterialId)>,
    held: Seq<(UVec3, MaterialId)>,
    at: spec_fn(UVec3) -> MaterialId,
    p: UVec3,
)
    requires
        places(held) == places(voxels),
        forall|k: int| 0 <= k < held.len() ==> (#[trigger] held[k]).1 == at(held[k].0),
    ensures
        painted(held, painted(voxels, at(p), p), p) == at(p),
{
    if listed(held, p) is Some {
        lemma_listed_agrees(held, at, p);
    } else if listed(voxels, p) is Some {
        let k = lemma_listed_place(voxels, p);
        assert(places(held).len() == held.len());
        assert(places(voxels).len() == voxels.len());
        assert(places(voxels)[k] == p);
        assert(places(held)[k] == held[k].0);
        lemma_place_listed(held, k);
    }
}

proof fn lemma_listed_agrees(
    voxels: Seq<(UVec3, MaterialId)>,
    at: spec_fn(UVec3) -> MaterialId,
    p: UVec3,
)
    requires
        listed(voxels, p) is Some,
        forall|k: int| 0 <= k < voxels.len() ==> (#[trigger] voxels[k]).1 == at(voxels[k].0),
    ensures
        listed(voxels, p) == Some(at(p).0),
    decreases voxels.len(),
{
    if voxels.last().0 == p {
        assert(voxels[voxels.len() - 1].1 == at(voxels[voxels.len() - 1].0));
    } else {
        let rest = voxels.drop_last();
        assert forall|k: int| 0 <= k < rest.len() implies (#[trigger] rest[k]).1 == at(rest[k].0) by {
            assert(rest[k] == voxels[k]);
        }
        lemma_listed_agrees(rest, at, p);
    }
}

} // verus!
