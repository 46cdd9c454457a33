//! Merging: a body that came out of the terrain goes back into it and frees its
//! slot.

use crate::address::{IVec3, UVec3};
use crate::body::BodyId;
use crate::contree::Contree;
use crate::edit::{
    code, code_of, edited, has_room, lemma_code_injective, listed, painted, places,
};
use crate::material::MaterialId;
use crate::physics::joint::JointEnds;
use std::collections::HashSet;
use vstd::prelude::*;

verus! {

/// Whether a landing place is a voxel of the world, and empty there.
pub open spec fn lands(tree: Contree, at: IVec3) -> bool {
    &&& 0 <= at.x < tree.side()
    &&& 0 <= at.y < tree.side()
    &&& 0 <= at.z < tree.side()
    &&& tree.at(UVec3 { x: at.x as u32, y: at.y as u32, z: at.z as u32 }) == MaterialId(0)
}

/// Whether a landing place is a cell.
pub open spec fn at_place(at: IVec3, p: UVec3) -> bool {
    at.x == p.x && at.y == p.y && at.z == p.z
}

/// What landing voxels write: only where the world is empty, and where two land
/// in one place, the first.
pub open spec fn written(tree: Contree, landed: Seq<(IVec3, MaterialId)>) -> Seq<
    (UVec3, MaterialId),
>
    decreases landed.len(),
{
    if landed.len() == 0 {
        Seq::empty()
    } else {
        let before = written(tree, landed.drop_last());
        let (at, material) = landed.last();
        let p = UVec3 { x: at.x as u32, y: at.y as u32, z: at.z as u32 };
        if lands(tree, at) && !places(before).contains(p) {
            before.push((p, material))
        } else {
            before
        }
    }
}

/// Everything written lies in the world, where it was empty.
pub proof fn law_a_merge_stays_inside_the_world(tree: Contree, landed: Seq<(IVec3, MaterialId)>, k: int)
    requires
        0 <= k < written(tree, landed).len(),
    ensures
        written(tree, landed)[k].0.within(tree.side()),
        tree.at(written(tree, landed)[k].0) == MaterialId(0),
    decreases landed.len(),
{
    let before = written(tree, landed.drop_last());
    if k < before.len() {
        law_a_merge_stays_inside_the_world(tree, landed.drop_last(), k);
    }
}

/// Writes a body's voxels into the world, each at the world voxel under its
/// centre, and returns the cells written.
///
/// Only where the world is empty: a merge adds and never overwrites. Only inside
/// the world: a voxel past its edge is dropped. A body at an angle is not on the
/// world's grid, so its voxels snap, and its shape can change by up to a voxel. Two
/// voxels that snap to one cell keep the first.
pub fn merge(landed: &[(IVec3, MaterialId)], tree: &mut Contree) -> (cells: Vec<UVec3>)
    requires
        old(tree).sound(),
        has_room(*old(tree), places(written(*old(tree), landed@))),
    ensures
        edited(*old(tree), *final(tree)),
        cells@ == places(written(*old(tree), landed@)),
        forall|p: UVec3|
            p.within(old(tree).side()) ==> #[trigger] final(tree).at(p) == painted(
                written(*old(tree), landed@),
                old(tree).at(p),
                p,
            ),
        forall|k: int|
            {
                let at = (#[trigger] landed@[k]).0;
                &&& 0 <= k < landed@.len()
                &&& 0 <= at.x < old(tree).side()
                &&& 0 <= at.y < old(tree).side()
                &&& 0 <= at.z < old(tree).side()
                &&& old(tree).at(UVec3 { x: at.x as u32, y: at.y as u32, z: at.z as u32 }).0 == 0
                &&& forall|j: int| 0 <= j < k ==> (#[trigger] landed@[j]).0 != at
            } ==> final(tree).at(
                UVec3 {
                    x: landed@[k].0.x as u32,
                    y: landed@[k].0.y as u32,
                    z: landed@[k].0.z as u32,
                },
            ) == landed@[k].1,
        forall|p: UVec3|
            p.within(old(tree).side()) && (old(tree).at(p).0 != 0 || forall|k: int|
                0 <= k < landed@.len() ==> !at_place((#[trigger] landed@[k]).0, p))
                ==> #[trigger] final(tree).at(p) == old(tree).at(p),
        forall|p: UVec3| #[trigger]
            cells@.contains(p) <==> {
                &&& p.within(old(tree).side())
                &&& old(tree).at(p).0 == 0
                &&& exists|k: int| 0 <= k < landed@.len() && at_place((#[trigger] landed@[k]).0, p)
            },
        cells@.no_duplicates(),
{
    broadcast use vstd::std_specs::hash::group_hash_axioms;

    let ghost t = *tree;
    proof {
        crate::dense::lemma_extent_levels(tree.height());
        if tree.height() < 14 {
            crate::dense::lemma_extent_strict(tree.height(), 14);
        }
    }
    let extent: i32 = tree.extent() as i32;
    let mut taken: HashSet<u128> = HashSet::new();
    let mut out: Vec<(UVec3, MaterialId)> = Vec::new();
    let mut cells: Vec<UVec3> = Vec::new();
    proof {
        assert(landed@.take(0) =~= Seq::empty());
        assert(cells@ =~= places(out@));
    }
    for i in 0..landed.len()
        invariant
            t == *tree,
            tree.sound(),
            extent == t.side(),
            out@ == written(t, landed@.take(i as int)),
            cells@ == places(out@),
            forall|p: UVec3|
                taken@.contains(#[trigger] code(p.x as int, p.y as int, p.z as int) as u128)
                    == places(out@).contains(p),
    {
        broadcast use vstd::std_specs::hash::group_hash_axioms;

        let (at, material) = landed[i];
        let ghost had = out@;
        proof {
            assert(landed@.take(i + 1).drop_last() =~= landed@.take(i as int));
            assert(landed@.take(i + 1).last() == landed@[i as int]);
        }
        if 0 <= at.x && at.x < extent && 0 <= at.y && at.y < extent && 0 <= at.z && at.z < extent {
            let p = UVec3::new(at.x as u32, at.y as u32, at.z as u32);
            if tree.get(p).is_empty() {
                let key: u128 = code_of(p);
                if !taken.contains(&key) {
                    let ghost was = taken@;
                    taken.insert(key);
                    out.push((p, material));
                    cells.push(p);
                    proof {
                        assert(places(out@) =~= places(had).push(p));
                        assert forall|q: UVec3|
                            taken@.contains(
                                #[trigger] code(q.x as int, q.y as int, q.z as int) as u128,
                            ) == places(out@).contains(q) by {
                            assert(was.contains(code(q.x as int, q.y as int, q.z as int) as u128)
                                == places(had).contains(q));
                            if code(q.x as int, q.y as int, q.z as int) == code(
                                p.x as int,
                                p.y as int,
                                p.z as int,
                            ) {
                                lemma_code_injective(
                                    p.x as int,
                                    p.y as int,
                                    p.z as int,
                                    q.x as int,
                                    q.y as int,
                                    q.z as int,
                                );
                            }
                            let now = places(out@);
                            if now.contains(q) {
                                let k = choose|k: int| 0 <= k < now.len() && now[k] == q;
                                if k < places(had).len() {
                                    assert(places(had)[k] == q);
                                }
                            }
                            if places(had).contains(q) {
                                let k = choose|k: int|
                                    0 <= k < places(had).len() && places(had)[k] == q;
                                assert(now[k] == q);
                            }
                            assert(now[places(had).len() as int] == p);
                        }
                    }
                }
            }
        }
    }
    assert(landed@.take(landed@.len() as int) =~= landed@);
    tree.fill_voxels(&out);
    proof {
        assert forall|k: int|
            {
                let at = (#[trigger] landed@[k]).0;
                &&& 0 <= k < landed@.len()
                &&& 0 <= at.x < t.side()
                &&& 0 <= at.y < t.side()
                &&& 0 <= at.z < t.side()
                &&& t.at(UVec3 { x: at.x as u32, y: at.y as u32, z: at.z as u32 }).0 == 0
                &&& forall|j: int| 0 <= j < k ==> (#[trigger] landed@[j]).0 != at
            } implies tree.at(
            UVec3 {
                x: landed@[k].0.x as u32,
                y: landed@[k].0.y as u32,
                z: landed@[k].0.z as u32,
            },
        ) == landed@[k].1 by {
            law_a_merge_keeps_each_voxels_material(t, landed@, k);
        }
        assert forall|p: UVec3|
            p.within(t.side()) && (t.at(p).0 != 0 || forall|k: int|
                0 <= k < landed@.len() ==> !at_place((#[trigger] landed@[k]).0, p))
            implies #[trigger] tree.at(p) == t.at(p) by {
            law_a_merge_touches_nothing_else(t, landed@, p);
        }
        assert forall|p: UVec3| #[trigger] cells@.contains(p) <==> {
            &&& p.within(t.side())
            &&& t.at(p).0 == 0
            &&& exists|k: int| 0 <= k < landed@.len() && at_place((#[trigger] landed@[k]).0, p)
        } by {
            law_what_is_written_is_what_landed_on_empty_cells(t, landed@, p);
        }
        lemma_written_once(t, landed@);
    }
    cells
}

/// A merge adds and never overwrites: what was solid stays as it was, and what a
/// landing voxel wrote is at one of the landing places.
pub proof fn law_a_merge_never_overwrites(
    tree: Contree,
    landed: Seq<(IVec3, MaterialId)>,
    p: UVec3,
)
    requires
        p.within(tree.side()),
        tree.at(p) != MaterialId(0),
    ensures
        painted(written(tree, landed), tree.at(p), p) == tree.at(p),
{
    lemma_nothing_written(tree, landed, p);
}

proof fn lemma_nothing_written(tree: Contree, landed: Seq<(IVec3, MaterialId)>, p: UVec3)
    requires
        tree.at(p) != MaterialId(0),
    ensures
        listed(written(tree, landed), p) is None,
    decreases landed.len(),
{
    if landed.len() > 0 {
        lemma_nothing_written(tree, landed.drop_last(), p);
        let before = written(tree, landed.drop_last());
        let (at, material) = landed.last();
        let q = UVec3 { x: at.x as u32, y: at.y as u32, z: at.z as u32 };
        if lands(tree, at) && !places(before).contains(q) {
            assert(before.push((q, material)).drop_last() =~= before);
        }
    }
}

/// Whether a joint, or the mouse's hold, names a body.
pub open spec fn named(joints: Seq<JointEnds>, held: Option<JointEnds>, id: BodyId) -> bool {
    ||| exists|k: int| 0 <= k < joints.len() && #[trigger] names(joints[k], id)
    ||| held is Some && names(held->0, id)
}

/// Whether a joint names a body.
pub open spec fn names(joint: JointEnds, id: BodyId) -> bool {
    joint.a == id || joint.b == Some(id)
}

pub(crate) fn is_end(joint: JointEnds, id: BodyId) -> (r: bool)
    ensures
        r == names(joint, id),
{
    if joint.a.0 == id.0 {
        return true;
    }
    match joint.b {
        Some(b) => b.0 == id.0,
        None => false,
    }
}

/// Whether a body goes back into the world: it came out of the terrain, it has
/// slept long enough, nothing can see it, and neither a joint nor the mouse holds
/// it.
pub fn may_merge(
    id: BodyId,
    settled: bool,
    out_of_view: bool,
    joints: &[JointEnds],
    held: Option<JointEnds>,
) -> (may: bool)
    ensures
        may <==> settled && out_of_view && !named(joints@, held, id),
{
    if !settled || !out_of_view {
        return false;
    }
    if let Some(joint) = held {
        if is_end(joint, id) {
            return false;
        }
    }
    for k in 0..joints.len()
        invariant
            settled && out_of_view,
            held is Some ==> !names(held->0, id),
            forall|l: int| 0 <= l < k ==> !#[trigger] names(joints@[l], id),
    {
        if is_end(joints[k], id) {
            assert(names(joints@[k as int], id));
            return false;
        }
    }
    true
}

/// What is written somewhere landed there first, on an empty cell.
proof fn lemma_written_from(
    tree: Contree,
    landed: Seq<(IVec3, MaterialId)>,
    p: UVec3,
) -> (k: int)
    requires
        places(written(tree, landed)).contains(p),
    ensures
        0 <= k < landed.len(),
        landed[k].0.x == p.x && landed[k].0.y == p.y && landed[k].0.z == p.z,
        lands(tree, landed[k].0),
        p.within(tree.side()),
        tree.at(p) == MaterialId(0),
    decreases landed.len(),
{
    let rest = landed.drop_last();
    let before = written(tree, rest);
    let all = places(written(tree, landed));
    let i = choose|i: int| 0 <= i < all.len() && all[i] == p;
    if i < before.len() {
        assert(places(before)[i] == p);
        lemma_written_from(tree, rest, p)
    } else {
        landed.len() - 1
    }
}

/// The first voxel to land on an empty cell is written there.
proof fn lemma_first_is_written(tree: Contree, landed: Seq<(IVec3, MaterialId)>, k: int, p: UVec3)
    requires
        0 <= k < landed.len(),
        landed[k].0.x == p.x && landed[k].0.y == p.y && landed[k].0.z == p.z,
        p.within(tree.side()),
        tree.at(p) == MaterialId(0),
        forall|j: int| 0 <= j < k ==> (#[trigger] landed[j]).0 != landed[k].0,
    ensures
        listed(written(tree, landed), p) == Some(landed[k].1.0),
        places(written(tree, landed)).contains(p),
    decreases landed.len(),
{
    let rest = landed.drop_last();
    let before = written(tree, rest);
    let (at, material) = landed.last();
    let q = UVec3 { x: at.x as u32, y: at.y as u32, z: at.z as u32 };
    if k < rest.len() {
        assert forall|j: int| 0 <= j < k implies (#[trigger] rest[j]).0 != rest[k].0 by {
            assert(landed[j].0 != landed[k].0);
        }
        lemma_first_is_written(tree, rest, k, p);
        if lands(tree, at) && !places(before).contains(q) {
            assert(before.push((q, material)).drop_last() =~= before);
        }
    } else {
        if places(before).contains(p) {
            let j = lemma_written_from(tree, rest, p);
            assert(landed[j].0 == rest[j].0);
        }
        assert(before.push((q, material)).drop_last() =~= before);
    }
    let at_k = crate::edit::lemma_listed_place(written(tree, landed), p);
    assert(places(written(tree, landed))[at_k] == p);
}

/// A merge goes voxel for voxel, each with its own material: an empty cell of the
/// world takes the material of the first voxel that landed on it.
pub proof fn law_a_merge_keeps_each_voxels_material(
    tree: Contree,
    landed: Seq<(IVec3, MaterialId)>,
    k: int,
)
    requires
        0 <= k < landed.len(),
        0 <= landed[k].0.x < tree.side() <= u32::MAX,
        0 <= landed[k].0.y < tree.side(),
        0 <= landed[k].0.z < tree.side(),
        tree.at(
            UVec3 {
                x: landed[k].0.x as u32,
                y: landed[k].0.y as u32,
                z: landed[k].0.z as u32,
            },
        ).0 == 0,
        forall|j: int| 0 <= j < k ==> (#[trigger] landed[j]).0 != landed[k].0,
    ensures
        ({
            let p = UVec3 {
                x: landed[k].0.x as u32,
                y: landed[k].0.y as u32,
                z: landed[k].0.z as u32,
            };
            painted(written(tree, landed), tree.at(p), p) == landed[k].1
        }),
{
    let p = UVec3 {
        x: landed[k].0.x as u32,
        y: landed[k].0.y as u32,
        z: landed[k].0.z as u32,
    };
    lemma_first_is_written(tree, landed, k, p);
}

/// A cell that no voxel landed on is left as it was, and so is one that was solid.
pub proof fn law_a_merge_touches_nothing_else(
    tree: Contree,
    landed: Seq<(IVec3, MaterialId)>,
    p: UVec3,
)
    requires
        tree.at(p).0 != 0 || forall|k: int|
            0 <= k < landed.len() ==> !at_place((#[trigger] landed[k]).0, p),
    ensures
        painted(written(tree, landed), tree.at(p), p) == tree.at(p),
        !places(written(tree, landed)).contains(p),
{
    let out = written(tree, landed);
    if places(out).contains(p) {
        let k = lemma_written_from(tree, landed, p);
        assert(at_place(landed[k].0, p));
    }
    if listed(out, p) is Some {
        let k = crate::edit::lemma_listed_place(out, p);
        assert(places(out)[k] == p);
    }
}

/// The cells written are the empty cells of the world that some voxel landed on.
pub proof fn law_what_is_written_is_what_landed_on_empty_cells(
    tree: Contree,
    landed: Seq<(IVec3, MaterialId)>,
    p: UVec3,
)
    ensures
        places(written(tree, landed)).contains(p) <==> {
            &&& p.within(tree.side())
            &&& tree.at(p).0 == 0
            &&& exists|k: int| 0 <= k < landed.len() && at_place((#[trigger] landed[k]).0, p)
        },
{
    if places(written(tree, landed)).contains(p) {
        let k = lemma_written_from(tree, landed, p);
        assert(at_place(landed[k].0, p));
    }
    if p.within(tree.side()) && tree.at(p).0 == 0 && exists|k: int|
        0 <= k < landed.len() && at_place((#[trigger] landed[k]).0, p) {
        let any = choose|k: int| 0 <= k < landed.len() && at_place((#[trigger] landed[k]).0, p);
        let k = lemma_first_to_land(landed, p, any);
        lemma_first_is_written(tree, landed, k, p);
    }
}

/// Where a voxel landed, one landed first.
proof fn lemma_first_to_land(landed: Seq<(IVec3, MaterialId)>, p: UVec3, k: int) -> (first: int)
    requires
        0 <= k < landed.len(),
        at_place(landed[k].0, p),
    ensures
        0 <= first <= k,
        at_place(landed[first].0, p),
        forall|j: int| 0 <= j < first ==> (#[trigger] landed[j]).0 != landed[first].0,
    decreases k,
{
    if exists|j: int| 0 <= j < k && (#[trigger] landed[j]).0 == landed[k].0 {
        let j = choose|j: int| 0 <= j < k && (#[trigger] landed[j]).0 == landed[k].0;
        lemma_first_to_land(landed, p, j)
    } else {
        k
    }
}

/// Nothing is written twice.
proof fn lemma_written_once(tree: Contree, landed: Seq<(IVec3, MaterialId)>)
    ensures
        places(written(tree, landed)).no_duplicates(),
    decreases landed.len(),
{
    if landed.len() > 0 {
        lemma_written_once(tree, landed.drop_last());
        let before = written(tree, landed.drop_last());
        let all = places(written(tree, landed));
        assert forall|i: int, j: int| 0 <= i < j < all.len() implies all[i] != all[j] by {
            assert(places(before)[i] == all[i]);
            if j < before.len() {
                assert(places(before)[j] == all[j]);
            }
        }
    }
}

/// Cells are written in the order in which something first landed on them.
pub proof fn law_cells_are_written_in_landing_order(
    tree: Contree,
    landed: Seq<(IVec3, MaterialId)>,
    i: int,
    j: int,
)
    requires
        0 <= i < j < written(tree, landed).len(),
    ensures
        exists|k: int|
            0 <= k < landed.len() && at_place(
                (#[trigger] landed[k]).0,
                written(tree, landed)[i].0,
            ) && forall|l: int|
                0 <= l <= k ==> !at_place((#[trigger] landed[l]).0, written(tree, landed)[j].0),
    decreases landed.len(),
{
    let rest = landed.drop_last();
    let before = written(tree, rest);
    let out = written(tree, landed);
    assert(out[i] == before[i]);
    assert(places(before)[i] == before[i].0);
    assert(places(before).contains(before[i].0));
    let k = if j < before.len() {
        assert(out[j] == before[j]);
        law_cells_are_written_in_landing_order(tree, rest, i, j);
        choose|k: int|
            0 <= k < rest.len() && at_place((#[trigger] rest[k]).0, before[i].0) && forall|l: int|
                0 <= l <= k ==> !at_place((#[trigger] rest[l]).0, before[j].0)
    } else {
        lemma_written_from(tree, rest, before[i].0)
    };
    assert(at_place(rest[k].0, before[i].0));
    assert(at_place(landed[k].0, out[i].0));
    assert forall|l: int| 0 <= l <= k implies !at_place(
        (#[trigger] landed[l]).0,
        out[j].0,
    ) by {
        assert(rest[l] == landed[l]);
        if j >= before.len() && at_place(rest[l].0, out[j].0) {
            law_what_is_written_is_what_landed_on_empty_cells(tree, rest, out[j].0);
        }
    }
}

/// A body stays out of the world while a joint or the mouse holds it, and goes back
/// once it is settled, out of view and held by nothing.
pub proof fn law_what_is_held_does_not_merge(
    joints: Seq<JointEnds>,
    held: Option<JointEnds>,
    id: BodyId,
)
    ensures
        named(joints, held, id) <==> {
            ||| exists|k: int|
                0 <= k < joints.len() && ((#[trigger] joints[k]).a == id || joints[k].b == Some(id))
            ||| held matches Some(joint) && (joint.a == id || joint.b == Some(id))
        },
{
    if exists|k: int|
        0 <= k < joints.len() && ((#[trigger] joints[k]).a == id || joints[k].b == Some(id)) {
        let k = choose|k: int|
            0 <= k < joints.len() && ((#[trigger] joints[k]).a == id || joints[k].b == Some(id));
        assert(names(joints[k], id));
    }
}

} // verus!
