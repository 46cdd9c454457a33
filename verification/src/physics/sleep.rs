//! Sleeping: a body at rest stops costing anything until something could move it.
//!
//! Waking runs to a fixed point at the start of a tick, before anything is
//! detected, so no contact or joint is ever solved against a sleeper and a sleeper
//! never has to stand in as a static body.
//!
//! Bodies fall asleep together or not at all: every group of awake bodies touching
//! or jointed together sleeps in the same tick, once each of them has been still
//! long enough. So a pile never has some of its bodies stopped while their
//! neighbours still press on them.

use crate::body::{position_of, stands_at, BodyId};
use crate::physics::graph::{
    leads_to, lemma_leads_back, lemma_leads_closed, lemma_leads_self, lemma_leads_step,
    lemma_leads_through,
};
use crate::physics::joint::JointEnds;
use crate::physics::merge::{is_end, names};
use vstd::prelude::*;

verus! {

/// Whether a joint runs from one body in a list to another.
pub open spec fn joint_runs(ids: Seq<BodyId>, joints: Seq<JointEnds>, i: int, j: int) -> bool {
    exists|k: int| 0 <= k < joints.len() && #[trigger] runs_between(ids, joints[k], i, j)
}

/// Whether one joint runs from one body in a list to another.
pub open spec fn runs_between(ids: Seq<BodyId>, joint: JointEnds, i: int, j: int) -> bool {
    &&& joint.b is Some
    &&& stands_at(ids, joint.a, i)
    &&& stands_at(ids, joint.b->0, j)
}

/// Which boxes overlap: a square table, a row for each body.
pub open spec fn is_table(touching: Seq<Vec<bool>>, n: int) -> bool {
    &&& touching.len() == n
    &&& forall|i: int| 0 <= i < n ==> (#[trigger] touching[i])@.len() == n
}

/// Whether a body that is awake wakes another: its box, grown by how far it can
/// travel, overlaps the other's, or a joint holds the two together. A body without
/// mass is not simulated, and pushes nothing.
pub open spec fn stirs(
    heavy: Seq<bool>,
    touching: Seq<Vec<bool>>,
    ids: Seq<BodyId>,
    joints: Seq<JointEnds>,
) -> spec_fn(int, int) -> bool {
    |i: int, j: int|
        {
            ||| heavy[i] && touching[i]@[j]
            ||| joint_runs(ids, joints, i, j)
            ||| joint_runs(ids, joints, j, i)
        }
}

/// Whether a body is awake before anything is woken: it was, or the mouse holds
/// it.
pub open spec fn up(asleep: Seq<bool>, ids: Seq<BodyId>, grabbed: Option<BodyId>, i: int) -> bool {
    !asleep[i] || grabbed == Some(ids[i])
}

/// Whether something awake leads to a body.
pub open spec fn roused(
    asleep: Seq<bool>,
    heavy: Seq<bool>,
    touching: Seq<Vec<bool>>,
    ids: Seq<BodyId>,
    joints: Seq<JointEnds>,
    grabbed: Option<BodyId>,
    j: int,
) -> bool {
    exists|i: int|
        0 <= i < ids.len() && up(asleep, ids, grabbed, i) && #[trigger] leads_to(
            stirs(heavy, touching, ids, joints),
            ids.len() as int,
            i,
            j,
        )
}

/// How many are asleep.
pub open spec fn sleepers(asleep: Seq<bool>) -> int
    decreases asleep.len(),
{
    if asleep.len() == 0 {
        0
    } else {
        sleepers(asleep.drop_last()) + if asleep.last() {
            1int
        } else {
            0
        }
    }
}

proof fn lemma_sleepers(asleep: Seq<bool>, j: int)
    requires
        0 <= j < asleep.len(),
        asleep[j],
    ensures
        sleepers(asleep.update(j, false)) == sleepers(asleep) - 1,
        sleepers(asleep) >= 1,
    decreases asleep.len(),
{
    let then = asleep.update(j, false);
    lemma_sleepers_positive(asleep.drop_last());
    if j == asleep.len() - 1 {
        assert(then.drop_last() =~= asleep.drop_last());
    } else {
        assert(then.drop_last() =~= asleep.drop_last().update(j, false));
        lemma_sleepers(asleep.drop_last(), j);
    }
}

proof fn lemma_sleepers_positive(asleep: Seq<bool>)
    ensures
        sleepers(asleep) >= 0,
    decreases asleep.len(),
{
    if asleep.len() > 0 {
        lemma_sleepers_positive(asleep.drop_last());
    }
}

/// What waking changed: who sleeps on, and whose count of stillness starts again.
#[derive(Debug)]
pub struct Woken {
    pub asleep: Vec<bool>,
    pub restarted: Vec<bool>,
}

/// Wakes every sleeper that something awake could move, until nothing changes.
///
/// - An awake body whose box, grown by how far it can travel this tick and the
///   margin, overlaps a sleeper's box wakes it. So a stack a body lands on wakes
///   from the top down, within the tick.
/// - A joint wakes its other side when either side is awake. A joint to the world
///   wakes nothing: the world is never awake.
/// - `grabbed`, the body the mouse holds, is always awake.
///
/// A body that is woken or held starts counting its stillness again. So does one
/// that was awake, at the other end of a joint that woke a body: the rounds tell
/// which did.
pub fn wake(
    asleep: &[bool],
    heavy: &[bool],
    touching: &Vec<Vec<bool>>,
    ids: &[BodyId],
    joints: &[JointEnds],
    grabbed: Option<BodyId>,
) -> (woken: Woken)
    requires
        asleep@.len() == ids@.len(),
        heavy@.len() == ids@.len(),
        is_table(touching@, ids@.len() as int),
    ensures
        woken.asleep@.len() == ids@.len(),
        woken.restarted@.len() == ids@.len(),
        forall|j: int|
            0 <= j < ids@.len() ==> (#[trigger] woken.asleep@[j] <==> !roused(
                asleep@,
                heavy@,
                touching@,
                ids@,
                joints@,
                grabbed,
                j,
            )),
        forall|j: int|
            0 <= j < ids@.len() && (grabbed == Some(ids@[j]) || asleep@[j]
                && !woken.asleep@[j]) ==> #[trigger] woken.restarted@[j],
        forall|j: int|
            0 <= j < ids@.len() && #[trigger] woken.restarted@[j] ==> {
                ||| grabbed == Some(ids@[j])
                ||| asleep@[j] && !woken.asleep@[j]
                ||| held_to_woken(asleep@, woken.asleep@, ids@, joints@, j)
            },
        exists|r: nat|
            (#[trigger] after_rounds(
                heavy@,
                touching@,
                ids@,
                joints@,
                at_first(asleep@, ids@, grabbed),
                r,
            )) == (woken.asleep@, woken.restarted@),
        one_round(heavy@, touching@, ids@, joints@, (woken.asleep@, woken.restarted@)) == (
            woken.asleep@,
            woken.restarted@,
        ),
{
    let n: usize = ids.len();
    let ghost edge = stirs(heavy@, touching@, ids@, joints@);
    let mut now: Vec<bool> = Vec::new();
    let mut restarted: Vec<bool> = Vec::new();
    for i in 0..n
        invariant
            n == ids@.len() == asleep@.len(),
            now@.len() == i,
            restarted@.len() == i,
            forall|j: int|
                0 <= j < i ==> (#[trigger] now@[j] <==> !up(asleep@, ids@, grabbed, j)),
            forall|j: int|
                0 <= j < i ==> (#[trigger] restarted@[j] <==> grabbed == Some(ids@[j])),
    {
        let held = match grabbed {
            Some(id) => id.0 == ids[i].0,
            None => false,
        };
        now.push(asleep[i] && !held);
        restarted.push(held);
    }
    proof {
        assert forall|j: int| 0 <= j < n && !now@[j] implies #[trigger] roused(
            asleep@,
            heavy@,
            touching@,
            ids@,
            joints@,
            grabbed,
            j,
        ) by {
            assert(now@[j] <==> !up(asleep@, ids@, grabbed, j));
            lemma_leads_self(edge, n as int, j);
        }
    }
    let mut changed = true;
    let ghost mut rounds: nat = 0;
    let ghost first = at_first(asleep@, ids@, grabbed);
    proof {
        assert(first.0 =~= now@);
        assert(first.1 =~= restarted@);
    }
    while changed
        invariant
            after_rounds(heavy@, touching@, ids@, joints@, first, rounds) == (now@, restarted@),
            !changed ==> one_round(heavy@, touching@, ids@, joints@, (now@, restarted@)) == (
                now@,
                restarted@,
            ),
            n == ids@.len() == asleep@.len() == heavy@.len(),
            is_table(touching@, n as int),
            edge == stirs(heavy@, touching@, ids@, joints@),
            now@.len() == n,
            restarted@.len() == n,
            waking(
                asleep@,
                heavy@,
                touching@,
                ids@,
                joints@,
                grabbed,
                now@,
                restarted@,
            ),
            !changed ==> boxes_done(heavy@, touching@, now@, n as int, 0),
            !changed ==> joints_done(ids@, joints@, now@, joints@.len() as int),
        decreases
                sleepers(now@),
                if changed {
                    1int
                } else {
                    0
                },
    {
        changed = false;
        let ghost round = now@;
        let ghost began = (now@, restarted@);
        for i in 0..n
            invariant
                began.0 == round,
                began.0.len() == n,
                !changed ==> restarted@ == began.1,
                (now@, restarted@) == boxes_pass(heavy@, touching@, began, i as int),
                n == ids@.len() == asleep@.len() == heavy@.len(),
                is_table(touching@, n as int),
                edge == stirs(heavy@, touching@, ids@, joints@),
                now@.len() == n,
                restarted@.len() == n,
                waking(
                    asleep@,
                    heavy@,
                    touching@,
                    ids@,
                    joints@,
                    grabbed,
                    now@,
                    restarted@,
                ),
                !changed ==> now@ == round && boxes_done(heavy@, touching@, now@, i as int, 0),
                changed ==> sleepers(now@) < sleepers(round),
        {
            let ghost row = (now@, restarted@);
            if !now[i] && heavy[i] {
                for j in 0..n
                    invariant
                        i < n,
                        began.0 == round,
                        !changed ==> restarted@ == began.1,
                        (now@, restarted@) == row_pass(row, touching@[i as int]@, j as int),
                        n == ids@.len() == asleep@.len() == heavy@.len(),
                        is_table(touching@, n as int),
                        edge == stirs(heavy@, touching@, ids@, joints@),
                        now@.len() == n,
                        restarted@.len() == n,
                        !now@[i as int] && heavy@[i as int],
                        waking(
                            asleep@,
                            heavy@,
                            touching@,
                            ids@,
                            joints@,
                            grabbed,
                            now@,
                            restarted@,
                        ),
                        !changed ==> now@ == round && boxes_done(
                            heavy@,
                            touching@,
                            now@,
                            i as int,
                            j as int,
                        ),
                        changed ==> sleepers(now@) < sleepers(round),
                {
                    if now[j] && touching[i][j] {
                        proof {
                            lemma_sleepers(now@, j as int);
                            lemma_woken(
                                asleep@,
                                heavy@,
                                touching@,
                                ids@,
                                joints@,
                                grabbed,
                                now@,
                                restarted@,
                                i as int,
                                j as int,
                            );
                        }
                        now.set(j, false);
                        restarted.set(j, true);
                        changed = true;
                    }
                }
            }
        }
        let ghost boxed = (now@, restarted@);
        for k in 0..joints.len()
            invariant
                began.0 == round,
                !changed ==> restarted@ == began.1,
                (now@, restarted@) == joints_pass(ids@, joints@, boxed, k as int),
                n == ids@.len() == asleep@.len() == heavy@.len(),
                is_table(touching@, n as int),
                edge == stirs(heavy@, touching@, ids@, joints@),
                now@.len() == n,
                restarted@.len() == n,
                waking(
                    asleep@,
                    heavy@,
                    touching@,
                    ids@,
                    joints@,
                    grabbed,
                    now@,
                    restarted@,
                ),
                !changed ==> now@ == round && boxes_done(heavy@, touching@, now@, n as int, 0)
                    && joints_done(ids@, joints@, now@, k as int),
                changed ==> sleepers(now@) < sleepers(round),
        {
            let joint = joints[k];
            if let Some(other) = joint.b {
                let first = position_of(ids, joint.a);
                let second = position_of(ids, other);
                if let Some(i) = first {
                    if let Some(j) = second {
                        proof {
                            assert(runs_between(ids@, joints@[k as int], i as int, j as int));
                            lemma_one_place(ids@, joint, i as int, j as int);
                        }
                        if now[i] != now[j] {
                            let ghost (from, to) = if now@[i as int] {
                                (j as int, i as int)
                            } else {
                                (i as int, j as int)
                            };
                            proof {
                                assert(joint_runs(ids@, joints@, i as int, j as int));
                                assert(edge(from, to));
                                lemma_sleepers(now@, to);
                                lemma_woken(
                                    asleep@,
                                    heavy@,
                                    touching@,
                                    ids@,
                                    joints@,
                                    grabbed,
                                    now@,
                                    restarted@,
                                    from,
                                    to,
                                );
                                lemma_restarted(
                                    asleep@,
                                    heavy@,
                                    touching@,
                                    ids@,
                                    joints@,
                                    grabbed,
                                    now@.update(to, false),
                                    restarted@.update(to, true),
                                    from,
                                    to,
                                );
                                assert(now@.update(i as int, false).update(j as int, false)
                                    =~= now@.update(to, false));
                                assert(restarted@.update(i as int, true).update(j as int, true)
                                    =~= restarted@.update(to, true).update(from, true));
                            }
                            now.set(i, false);
                            restarted.set(i, true);
                            now.set(j, false);
                            restarted.set(j, true);
                            changed = true;
                        }
                    }
                }
            }
        }
        proof {
            lemma_sleepers_positive(now@);
            assert((now@, restarted@) == one_round(heavy@, touching@, ids@, joints@, began));
            rounds = rounds + 1;
            assert((rounds - 1) as nat + 1 == rounds);
        }
    }
    proof {
        assert forall|j: int| 0 <= j < n implies (#[trigger] now@[j] <==> !roused(
            asleep@,
            heavy@,
            touching@,
            ids@,
            joints@,
            grabbed,
            j,
        )) by {
            if roused(asleep@, heavy@, touching@, ids@, joints@, grabbed, j) {
                lemma_all_woken(asleep@, heavy@, touching@, ids@, joints@, grabbed, now@, restarted@, j);
            }
        }
    }
    Woken { asleep: now, restarted }
}

/// Who is asleep before anything is woken, and whose count starts again: what the
/// mouse holds is awake.
pub open spec fn at_first(
    asleep: Seq<bool>,
    ids: Seq<BodyId>,
    grabbed: Option<BodyId>,
) -> (Seq<bool>, Seq<bool>) {
    (
        Seq::new(ids.len(), |j: int| !up(asleep, ids, grabbed, j)),
        Seq::new(ids.len(), |j: int| grabbed == Some(ids[j])),
    )
}

/// An awake body wakes those of the first `j` bodies that it touches.
pub open spec fn row_pass(
    now: (Seq<bool>, Seq<bool>),
    row: Seq<bool>,
    j: int,
) -> (Seq<bool>, Seq<bool>)
    decreases j,
{
    if j <= 0 {
        now
    } else {
        let before = row_pass(now, row, j - 1);
        if before.0[j - 1] && row[j - 1] {
            (before.0.update(j - 1, false), before.1.update(j - 1, true))
        } else {
            before
        }
    }
}

/// Each of the first `i` bodies in turn wakes what it touches, if it is awake by
/// then and has mass.
pub open spec fn boxes_pass(
    heavy: Seq<bool>,
    touching: Seq<Vec<bool>>,
    now: (Seq<bool>, Seq<bool>),
    i: int,
) -> (Seq<bool>, Seq<bool>)
    decreases i,
{
    if i <= 0 {
        now
    } else {
        let before = boxes_pass(heavy, touching, now, i - 1);
        if !before.0[i - 1] && heavy[i - 1] {
            row_pass(before, touching[i - 1]@, now.0.len() as int)
        } else {
            before
        }
    }
}

/// Each of the first `k` joints in turn wakes both its bodies, if just one of them
/// is asleep by then. Both start counting again.
pub open spec fn joints_pass(
    ids: Seq<BodyId>,
    joints: Seq<JointEnds>,
    now: (Seq<bool>, Seq<bool>),
    k: int,
) -> (Seq<bool>, Seq<bool>)
    decreases k,
{
    if k <= 0 {
        now
    } else {
        let before = joints_pass(ids, joints, now, k - 1);
        let joint = joints[k - 1];
        if exists|i: int, j: int| #[trigger] runs_between(ids, joint, i, j) {
            let (i, j) = choose|i: int, j: int| #[trigger] runs_between(ids, joint, i, j);
            if before.0[i] != before.0[j] {
                (
                    before.0.update(i, false).update(j, false),
                    before.1.update(i, true).update(j, true),
                )
            } else {
                before
            }
        } else {
            before
        }
    }
}

/// A round of waking: the boxes, and after them the joints.
pub open spec fn one_round(
    heavy: Seq<bool>,
    touching: Seq<Vec<bool>>,
    ids: Seq<BodyId>,
    joints: Seq<JointEnds>,
    now: (Seq<bool>, Seq<bool>),
) -> (Seq<bool>, Seq<bool>) {
    joints_pass(
        ids,
        joints,
        boxes_pass(heavy, touching, now, ids.len() as int),
        joints.len() as int,
    )
}

/// Some rounds of waking.
pub open spec fn after_rounds(
    heavy: Seq<bool>,
    touching: Seq<Vec<bool>>,
    ids: Seq<BodyId>,
    joints: Seq<JointEnds>,
    now: (Seq<bool>, Seq<bool>),
    r: nat,
) -> (Seq<bool>, Seq<bool>)
    decreases r,
{
    if r == 0 {
        now
    } else {
        one_round(
            heavy,
            touching,
            ids,
            joints,
            after_rounds(heavy, touching, ids, joints, now, (r - 1) as nat),
        )
    }
}

/// Whether a body was awake, at the other end of a joint from one that was woken.
pub open spec fn held_to_woken(
    before: Seq<bool>,
    after: Seq<bool>,
    ids: Seq<BodyId>,
    joints: Seq<JointEnds>,
    j: int,
) -> bool {
    exists|i: int|
        0 <= i < ids.len() && before[i] && !after[i] && (#[trigger] joint_runs(ids, joints, i, j)
            || joint_runs(ids, joints, j, i))
}

/// Midway through waking: everyone awake is roused by someone, no one fell
/// asleep, and counts start again where they should.
spec fn waking(
    asleep: Seq<bool>,
    heavy: Seq<bool>,
    touching: Seq<Vec<bool>>,
    ids: Seq<BodyId>,
    joints: Seq<JointEnds>,
    grabbed: Option<BodyId>,
    now: Seq<bool>,
    restarted: Seq<bool>,
) -> bool {
    &&& forall|j: int|
        0 <= j < ids.len() && !#[trigger] now[j] ==> roused(
            asleep,
            heavy,
            touching,
            ids,
            joints,
            grabbed,
            j,
        )
    &&& forall|j: int| 0 <= j < ids.len() && up(asleep, ids, grabbed, j) ==> !#[trigger] now[j]
    &&& forall|j: int|
        0 <= j < ids.len() && (grabbed == Some(ids[j]) || asleep[j] && !now[j])
            ==> #[trigger] restarted[j]
    &&& forall|j: int|
        0 <= j < ids.len() && #[trigger] restarted[j] ==> {
            ||| grabbed == Some(ids[j])
            ||| asleep[j] && !now[j]
            ||| held_to_woken(asleep, now, ids, joints, j)
        }
}

/// Whether no awake body overlaps a sleeper, as far as they have been looked at.
spec fn boxes_done(
    heavy: Seq<bool>,
    touching: Seq<Vec<bool>>,
    now: Seq<bool>,
    i: int,
    j: int,
) -> bool {
    &&& forall|a: int, b: int|
        0 <= a < i && 0 <= b < now.len() && !now[a] && heavy[a] && #[trigger] touching[a]@[b]
            ==> !now[b]
    &&& forall|b: int|
        0 <= b < j && b < now.len() && !now[i] && heavy[i] && #[trigger] touching[i]@[b] ==> !now[b]
}

/// Whether no joint holds an awake body to a sleeper, as far as they have been
/// looked at.
spec fn joints_done(ids: Seq<BodyId>, joints: Seq<JointEnds>, now: Seq<bool>, k: int) -> bool {
    forall|l: int, a: int, b: int|
        0 <= l < k && #[trigger] runs_between(ids, joints[l], a, b) ==> now[a] == now[b]
}

/// A joint runs between one pair of places only.
proof fn lemma_one_place(ids: Seq<BodyId>, joint: JointEnds, i: int, j: int)
    requires
        runs_between(ids, joint, i, j),
    ensures
        forall|a: int, b: int| #[trigger] runs_between(ids, joint, a, b) ==> a == i && b == j,
{
    assert forall|a: int, b: int| #[trigger] runs_between(ids, joint, a, b) implies a == i && b
        == j by {
        if a < i {
            assert(ids[a] != joint.a);
        }
        if i < a {
            assert(ids[i] != joint.a);
        }
        if b < j {
            assert(ids[b] != joint.b->0);
        }
        if j < b {
            assert(ids[j] != joint.b->0);
        }
    }
}

/// Waking a sleeper that an awake body stirs.
proof fn lemma_woken(
    asleep: Seq<bool>,
    heavy: Seq<bool>,
    touching: Seq<Vec<bool>>,
    ids: Seq<BodyId>,
    joints: Seq<JointEnds>,
    grabbed: Option<BodyId>,
    now: Seq<bool>,
    restarted: Seq<bool>,
    i: int,
    j: int,
)
    requires
        asleep.len() == ids.len() == now.len() == restarted.len(),
        waking(asleep, heavy, touching, ids, joints, grabbed, now, restarted),
        0 <= i < ids.len(),
        0 <= j < ids.len(),
        !now[i],
        now[j],
        stirs(heavy, touching, ids, joints)(i, j),
    ensures
        waking(
            asleep,
            heavy,
            touching,
            ids,
            joints,
            grabbed,
            now.update(j, false),
            restarted.update(j, true),
        ),
        asleep[j],
{
    let edge = stirs(heavy, touching, ids, joints);
    let n = ids.len() as int;
    let then = now.update(j, false);
    let again = restarted.update(j, true);
    assert(!up(asleep, ids, grabbed, j)) by {
        if up(asleep, ids, grabbed, j) {
            assert(!now[j]);
        }
    }
    assert(roused(asleep, heavy, touching, ids, joints, grabbed, i));
    let s = choose|s: int|
        0 <= s < ids.len() && up(asleep, ids, grabbed, s) && #[trigger] leads_to(edge, n, s, i);
    lemma_leads_step(edge, n, s, i, j);
    assert(roused(asleep, heavy, touching, ids, joints, grabbed, j));
    assert forall|k: int| 0 <= k < ids.len() && !#[trigger] then[k] implies roused(
        asleep,
        heavy,
        touching,
        ids,
        joints,
        grabbed,
        k,
    ) by {
        if k != j {
            assert(!now[k]);
        }
    }
    assert forall|k: int| 0 <= k < ids.len() && up(asleep, ids, grabbed, k) implies !#[trigger] then[k] by {
        assert(!now[k]);
    }
    assert forall|k: int|
        0 <= k < ids.len() && (grabbed == Some(ids[k]) || asleep[k]
            && !then[k]) implies #[trigger] again[k] by {
        if k != j {
            assert(restarted[k]);
        }
    }
    assert forall|k: int| 0 <= k < ids.len() && #[trigger] again[k] implies {
        ||| grabbed == Some(ids[k])
        ||| asleep[k] && !then[k]
        ||| held_to_woken(asleep, then, ids, joints, k)
    } by {
        if k != j {
            assert(restarted[k]);
            if held_to_woken(asleep, now, ids, joints, k) {
                let o = choose|o: int|
                    0 <= o < ids.len() && asleep[o] && !now[o] && (#[trigger] joint_runs(
                        ids,
                        joints,
                        o,
                        k,
                    ) || joint_runs(ids, joints, k, o));
                assert(asleep[o] && !then[o]);
                assert(joint_runs(ids, joints, o, k) || joint_runs(ids, joints, k, o));
            }
        }
    }
}

/// Starting the count of the body a joint woke another from again.
proof fn lemma_restarted(
    asleep: Seq<bool>,
    heavy: Seq<bool>,
    touching: Seq<Vec<bool>>,
    ids: Seq<BodyId>,
    joints: Seq<JointEnds>,
    grabbed: Option<BodyId>,
    now: Seq<bool>,
    restarted: Seq<bool>,
    from: int,
    to: int,
)
    requires
        asleep.len() == ids.len() == now.len() == restarted.len(),
        waking(asleep, heavy, touching, ids, joints, grabbed, now, restarted),
        0 <= from < ids.len(),
        0 <= to < ids.len(),
        asleep[to],
        !now[to],
        joint_runs(ids, joints, from, to) || joint_runs(ids, joints, to, from),
    ensures
        waking(
            asleep,
            heavy,
            touching,
            ids,
            joints,
            grabbed,
            now,
            restarted.update(from, true),
        ),
{
    let again = restarted.update(from, true);
    assert(held_to_woken(asleep, now, ids, joints, from)) by {
        let o = to;
        assert(joint_runs(ids, joints, o, from) || joint_runs(ids, joints, from, o));
    }
    assert forall|k: int| 0 <= k < ids.len() && #[trigger] again[k] implies {
        ||| grabbed == Some(ids[k])
        ||| asleep[k] && !now[k]
        ||| held_to_woken(asleep, now, ids, joints, k)
    } by {
        if k != from {
            assert(restarted[k]);
        }
    }
    assert forall|k: int|
        0 <= k < ids.len() && (grabbed == Some(ids[k]) || asleep[k]
            && !now[k]) implies #[trigger] again[k] by {
        if k != from {
            assert(restarted[k]);
        }
    }
}

/// Once nothing more can be woken, everyone something awake leads to is awake.
proof fn lemma_all_woken(
    asleep: Seq<bool>,
    heavy: Seq<bool>,
    touching: Seq<Vec<bool>>,
    ids: Seq<BodyId>,
    joints: Seq<JointEnds>,
    grabbed: Option<BodyId>,
    now: Seq<bool>,
    restarted: Seq<bool>,
    j: int,
)
    requires
        asleep.len() == ids.len() == now.len() == heavy.len(),
        is_table(touching, ids.len() as int),
        waking(asleep, heavy, touching, ids, joints, grabbed, now, restarted),
        boxes_done(heavy, touching, now, ids.len() as int, 0),
        joints_done(ids, joints, now, joints.len() as int),
        0 <= j < ids.len(),
        roused(asleep, heavy, touching, ids, joints, grabbed, j),
    ensures
        !now[j],
{
    let edge = stirs(heavy, touching, ids, joints);
    let n = ids.len() as int;
    let s = choose|s: int|
        0 <= s < ids.len() && up(asleep, ids, grabbed, s) && #[trigger] leads_to(edge, n, s, j);
    let awake = |i: int| !now[i];
    assert(!now[s]);
    assert forall|a: int, b: int|
        0 <= a < n && 0 <= b < n && #[trigger] edge(a, b) && awake(a) implies awake(b) by {
        if heavy[a] && touching[a]@[b] {
        } else if joint_runs(ids, joints, a, b) {
            let k = choose|k: int| 0 <= k < joints.len() && #[trigger] runs_between(ids, joints[k], a, b);
            assert(now[a] == now[b]);
        } else {
            let k = choose|k: int| 0 <= k < joints.len() && #[trigger] runs_between(ids, joints[k], b, a);
            assert(now[b] == now[a]);
        }
    }
    lemma_leads_closed(edge, n, awake, s, j);
}

/// What puts two bodies in one group: both awake and their boxes overlap, or a
/// joint holds them together.
pub open spec fn together(
    active: Seq<bool>,
    touching: Seq<Vec<bool>>,
    ids: Seq<BodyId>,
    joints: Seq<JointEnds>,
) -> spec_fn(int, int) -> bool {
    |i: int, j: int|
        {
            ||| active[i] && active[j] && (i < j && touching[i]@[j] || j < i && touching[j]@[i])
            ||| joint_runs(ids, joints, i, j)
            ||| joint_runs(ids, joints, j, i)
        }
}

/// Whether every awake body of a body's group has rested.
pub open spec fn group_rested(
    active: Seq<bool>,
    rested: Seq<bool>,
    touching: Seq<Vec<bool>>,
    ids: Seq<BodyId>,
    joints: Seq<JointEnds>,
    i: int,
) -> bool {
    forall|k: int|
        0 <= k < ids.len() && active[k] && #[trigger] leads_to(
            together(active, touching, ids, joints),
            ids.len() as int,
            i,
            k,
        ) ==> rested[k]
}

/// A forest of groups. Following `group` from any body ends at its group's root,
/// which `label` tells; `height` grows along the way, and stays below `top`.
spec fn forest(group: Seq<usize>, label: Seq<int>, height: Seq<int>, top: int, n: int) -> bool {
    &&& group.len() == n && label.len() == n && height.len() == n
    &&& forall|i: int| 0 <= i < n ==> 0 <= #[trigger] group[i] < n
    &&& forall|i: int| 0 <= i < n ==> 0 <= #[trigger] label[i] < n
    &&& forall|i: int| 0 <= i < n ==> 0 <= #[trigger] height[i] <= top
    &&& forall|i: int|
        0 <= i < n && #[trigger] group[i] != i ==> height[group[i] as int] > height[i]
    &&& forall|i: int| 0 <= i < n ==> label[#[trigger] group[i] as int] == label[i]
    &&& forall|i: int| 0 <= i < n && #[trigger] group[i] == i ==> label[i] == i
    &&& forall|i: int| 0 <= i < n ==> group[#[trigger] label[i]] == label[i]
}

/// The root of a body's group. Halves the way there as it goes.
fn root(
    group: &mut Vec<usize>,
    start: usize,
    Ghost(label): Ghost<Seq<int>>,
    Ghost(height): Ghost<Seq<int>>,
    Ghost(top): Ghost<int>,
) -> (r: usize)
    requires
        forest(old(group)@, label, height, top, old(group)@.len() as int),
        start < old(group)@.len(),
    ensures
        final(group)@.len() == old(group)@.len(),
        forest(final(group)@, label, height, top, old(group)@.len() as int),
        r == label[start as int],
{
    let ghost n = group@.len() as int;
    let mut i = start;
    while group[i] != i
        invariant
            n == group@.len() == old(group)@.len(),
            i < n,
            start < n,
            forest(group@, label, height, top, n),
            label[i as int] == label[start as int],
        decreases top - height[i as int],
    {
        let up: usize = group[i];
        let next: usize = group[up];
        proof {
            let was = group@;
            let now = was.update(i as int, next);
            assert(height[up as int] > height[i as int]);
            assert(label[was[up as int] as int] == label[up as int]);
            assert(label[was[i as int] as int] == label[i as int]);
            if next != up {
                assert(height[next as int] > height[up as int]);
            }
            assert(0 <= height[next as int] <= top);
            assert forall|k: int| 0 <= k < n implies now[#[trigger] label[k]] == label[k] by {
                assert(was[label[k]] == label[k]);
            }
            assert forall|k: int| 0 <= k < n && #[trigger] now[k] != k implies height[now[k] as int]
                > height[k] by {
                if k != i {
                    assert(was[k] != k);
                }
            }
            assert forall|k: int| 0 <= k < n implies label[#[trigger] now[k] as int] == label[k] by {
                if k != i {
                    assert(label[was[k] as int] == label[k]);
                }
            }
            assert forall|k: int| 0 <= k < n && #[trigger] now[k] == k implies label[k] == k by {
                if k != i {
                    assert(was[k] == k);
                }
            }
        }
        group.set(i, next);
        i = next;
    }
    proof {
        let r = label[start as int];
        assert(label[i as int] == i);
    }
    i
}

/// The labels once two roots' groups are one.
spec fn merged_label(label: Seq<int>, a: int, b: int) -> Seq<int> {
    Seq::new(
        label.len(),
        |i: int|
            if label[i] == a {
                b
            } else {
                label[i]
            },
    )
}

/// The heights once the first root hangs under the second.
spec fn merged_height(label: Seq<int>, height: Seq<int>, a: int, b: int) -> Seq<int> {
    Seq::new(
        label.len(),
        |i: int|
            if a != b && label[i] == b {
                height[i] + height[a] + 1
            } else {
                height[i]
            },
    )
}

proof fn lemma_merged(group: Seq<usize>, label: Seq<int>, height: Seq<int>, top: int, a: usize, b: usize)
    requires
        forest(group, label, height, top, group.len() as int),
        a < group.len(),
        b < group.len(),
        label[a as int] == a,
        label[b as int] == b,
    ensures
        forest(
            group.update(a as int, b),
            merged_label(label, a as int, b as int),
            merged_height(label, height, a as int, b as int),
            2 * top + 1,
            group.len() as int,
        ),
{
    let n = group.len() as int;
    let then = group.update(a as int, b);
    let l = merged_label(label, a as int, b as int);
    let h = merged_height(label, height, a as int, b as int);
    assert(group[label[a as int]] == a);
    assert(group[label[b as int]] == b);
    assert(0 <= height[a as int] <= top);
    assert forall|i: int| 0 <= i < n implies 0 <= #[trigger] h[i] <= 2 * top + 1 by {
        assert(0 <= height[i] <= top);
    }
    assert forall|i: int| 0 <= i < n && #[trigger] then[i] != i implies h[then[i] as int] > h[i] by {
        if i != a {
            assert(group[i] != i);
            assert(label[group[i] as int] == label[i]);
        }
    }
    assert forall|i: int| 0 <= i < n implies l[#[trigger] then[i] as int] == l[i] by {
        if i != a {
            assert(label[group[i] as int] == label[i]);
        }
    }
    assert forall|i: int| 0 <= i < n && #[trigger] then[i] == i implies l[i] == i by {
        if i != a {
            assert(group[i] == i);
        }
    }
    assert forall|i: int| 0 <= i < n implies then[#[trigger] l[i]] == l[i] by {
        assert(group[label[i]] == label[i]);
    }
    assert forall|i: int| 0 <= i < n implies 0 <= #[trigger] l[i] < n by {
        assert(0 <= label[i] < n);
    }
    assert forall|i: int| 0 <= i < n implies 0 <= #[trigger] then[i] < n by {
        assert(0 <= group[i] < n);
    }
}

/// Bodies of one label are of one group.
spec fn labels_sound(edge: spec_fn(int, int) -> bool, label: Seq<int>) -> bool {
    forall|i: int, j: int|
        0 <= i < label.len() && 0 <= j < label.len() && #[trigger] label[i] == #[trigger] label[j]
            ==> leads_to(edge, label.len() as int, i, j)
}

proof fn lemma_labels_merged(
    edge: spec_fn(int, int) -> bool,
    label: Seq<int>,
    i: int,
    j: int,
)
    requires
        forall|a: int, b: int| #[trigger] edge(a, b) ==> edge(b, a),
        labels_sound(edge, label),
        0 <= i < label.len(),
        0 <= j < label.len(),
        edge(i, j),
    ensures
        labels_sound(edge, merged_label(label, label[i], label[j])),
{
    let n = label.len() as int;
    let l = merged_label(label, label[i], label[j]);
    assert forall|a: int, b: int|
        0 <= a < l.len() && 0 <= b < l.len() && #[trigger] l[a] == #[trigger] l[b] implies leads_to(
        edge,
        n,
        a,
        b,
    ) by {
        if label[a] != label[b] {
            // One of them carried the first label and the other the second.
            let (first, second) = if label[a] == label[i] {
                (a, b)
            } else {
                (b, a)
            };
            assert(label[first] == label[i] && label[second] == label[j]);
            lemma_leads_step(edge, n, first, i, j);
            lemma_leads_through(edge, n, first, j, second);
            lemma_leads_back(edge, n, first, second);
        }
    }
}

/// What becomes of a body's count of stillness in a tick.
#[derive(Clone, Copy, Debug, PartialEq, Eq, Structural)]
pub enum Count {
    /// It stays as it is: the body is not simulated.
    Stays,
    /// It goes on.
    Grows,
    /// It starts again.
    Restarts,
}

/// How a body's count of stillness goes on. A sleeper counts on, which is how long
/// it has slept. An awake body counts while it is still and no motor drives it.
pub fn count(heavy: bool, asleep: bool, still: bool, driven: bool) -> (count: Count)
    ensures
        count == if !heavy {
            Count::Stays
        } else if asleep || (still && !driven) {
            Count::Grows
        } else {
            Count::Restarts
        },
        count == Count::Stays <==> !heavy,
        count == Count::Restarts ==> !asleep,
        heavy && !asleep ==> (count == Count::Grows <==> still && !driven),
        heavy && asleep ==> count == Count::Grows,
{
    if !heavy {
        Count::Stays
    } else if asleep || (still && !driven) {
        Count::Grows
    } else {
        Count::Restarts
    }
}

/// Which bodies a motor drives: those a joint with a motor names. Such a body never
/// sleeps, or a servo that reached its target would ignore the next one.
pub fn driven(ids: &[BodyId], motored: &[JointEnds]) -> (out: Vec<bool>)
    ensures
        out@.len() == ids@.len(),
        forall|i: int|
            0 <= i < ids@.len() ==> (#[trigger] out@[i] <==> exists|k: int|
                0 <= k < motored@.len() && #[trigger] names(motored@[k], ids@[i])),
{
    let mut out: Vec<bool> = Vec::new();
    for i in 0..ids.len()
        invariant
            out@.len() == i,
            forall|j: int|
                0 <= j < i ==> (#[trigger] out@[j] <==> exists|k: int|
                    0 <= k < motored@.len() && #[trigger] names(motored@[k], ids@[j])),
    {
        let mut found = false;
        for k in 0..motored.len()
            invariant
                i < ids@.len(),
                found <==> exists|l: int| 0 <= l < k && #[trigger] names(motored@[l], ids@[i as int]),
        {
            if is_end(motored[k], ids[i]) {
                found = true;
            }
        }
        out.push(found);
    }
    out
}

/// Puts to sleep every group of awake bodies, touching or jointed together, that
/// has rested as a whole: tells of each body whether it falls asleep.
///
/// `active` are the bodies that are awake and have mass, and `rested` those that
/// have been still long enough.
#[verifier::rlimit(60)]
pub fn settle(
    active: &[bool],
    rested: &[bool],
    touching: &Vec<Vec<bool>>,
    ids: &[BodyId],
    joints: &[JointEnds],
) -> (falls_asleep: Vec<bool>)
    requires
        active@.len() == ids@.len(),
        rested@.len() == ids@.len(),
        is_table(touching@, ids@.len() as int),
    ensures
        falls_asleep@.len() == ids@.len(),
        forall|i: int|
            0 <= i < ids@.len() ==> (#[trigger] falls_asleep@[i] <==> active@[i] && group_rested(
                active@,
                rested@,
                touching@,
                ids@,
                joints@,
                i,
            )),
{
    let n: usize = ids.len();
    let ghost m = n as int;
    let ghost edge = together(active@, touching@, ids@, joints@);
    let ghost mut label: Seq<int> = Seq::new(n as nat, |i: int| i);
    let ghost mut height: Seq<int> = Seq::new(n as nat, |i: int| 0);
    let ghost mut top: int = 0;
    let mut group: Vec<usize> = Vec::new();
    for i in 0..n
        invariant
            group@.len() == i,
            forall|k: int| 0 <= k < i ==> #[trigger] group@[k] == k,
    {
        group.push(i);
    }
    proof {
        assert(forest(group@, label, height, top, m));
        assert forall|i: int, j: int|
            0 <= i < label.len() && 0 <= j < label.len() && #[trigger] label[i]
                == #[trigger] label[j] implies leads_to(edge, m, i, j) by {
            lemma_leads_self(edge, m, i);
        }
    }
    for i in 0..n
        invariant
            m == n == ids@.len() == active@.len(),
            is_table(touching@, m),
            edge == together(active@, touching@, ids@, joints@),
            group@.len() == n,
            forest(group@, label, height, top, m),
            labels_sound(edge, label),
            boxes_joined(active@, touching@, label, i as int, 0),
    {
        for j in i + 1..n
            invariant
                m == n == ids@.len() == active@.len(),
                i < n,
                is_table(touching@, m),
                edge == together(active@, touching@, ids@, joints@),
                group@.len() == n,
                forest(group@, label, height, top, m),
                labels_sound(edge, label),
                boxes_joined(active@, touching@, label, i as int, j as int),
        {
            if active[i] && active[j] && touching[i][j] {
                let a: usize = root(&mut group, i, Ghost(label), Ghost(height), Ghost(top));
                let b: usize = root(&mut group, j, Ghost(label), Ghost(height), Ghost(top));
                proof {
                    assert(edge(i as int, j as int));
                    lemma_label_of_label(group@, label, height, top, i as int);
                    lemma_label_of_label(group@, label, height, top, j as int);
                    lemma_merged(group@, label, height, top, a, b);
                    lemma_labels_merged(edge, label, i as int, j as int);
                    let l = merged_label(label, a as int, b as int);
                    assert forall|c: int, d: int|
                        0 <= c < d < n && label[c] == label[d] implies l[c] == l[d] by {}
                    height = merged_height(label, height, a as int, b as int);
                    label = l;
                    top = 2 * top + 1;
                }
                group.set(a, b);
            }
        }
    }
    for k in 0..joints.len()
        invariant
            m == n == ids@.len() == active@.len(),
            is_table(touching@, m),
            edge == together(active@, touching@, ids@, joints@),
            group@.len() == n,
            forest(group@, label, height, top, m),
            labels_sound(edge, label),
            boxes_joined(active@, touching@, label, m, 0),
            joints_joined(ids@, joints@, label, k as int),
    {
        let joint = joints[k];
        if let Some(other) = joint.b {
            let first = position_of(ids, joint.a);
            let second = position_of(ids, other);
            if let Some(i) = first {
                if let Some(j) = second {
                    proof {
                        assert(runs_between(ids@, joints@[k as int], i as int, j as int));
                        lemma_one_place(ids@, joint, i as int, j as int);
                        assert(joint_runs(ids@, joints@, i as int, j as int));
                    }
                    let a: usize = root(&mut group, i, Ghost(label), Ghost(height), Ghost(top));
                    let b: usize = root(&mut group, j, Ghost(label), Ghost(height), Ghost(top));
                    proof {
                        assert(edge(i as int, j as int));
                        lemma_label_of_label(group@, label, height, top, i as int);
                        lemma_label_of_label(group@, label, height, top, j as int);
                        lemma_merged(group@, label, height, top, a, b);
                        lemma_labels_merged(edge, label, i as int, j as int);
                        let l = merged_label(label, a as int, b as int);
                        assert forall|q: int, c: int, d: int|
                            0 <= q < k + 1 && #[trigger] runs_between(
                                ids@,
                                joints@[q],
                                c,
                                d,
                            ) implies l[c] == l[d] by {
                            if q < k {
                                assert(label[c] == label[d]);
                            }
                        }
                        height = merged_height(label, height, a as int, b as int);
                        label = l;
                        top = 2 * top + 1;
                    }
                    group.set(a, b);
                }
            }
        }
    }
    let mut ready: Vec<bool> = Vec::new();
    for i in 0..n
        invariant
            ready@.len() == i,
            forall|k: int| 0 <= k < i ==> #[trigger] ready@[k],
    {
        ready.push(true);
    }
    for i in 0..n
        invariant
            m == n == ids@.len() == active@.len() == rested@.len(),
            group@.len() == n,
            ready@.len() == n,
            forest(group@, label, height, top, m),
            forall|r: int|
                0 <= r < n ==> (#[trigger] ready@[r] <==> forall|k: int|
                    0 <= k < i && active@[k] && #[trigger] label[k] == r ==> rested@[k]),
    {
        if active[i] {
            let r: usize = root(&mut group, i, Ghost(label), Ghost(height), Ghost(top));
            let ghost was = ready@;
            let both = ready[r] && rested[i];
            ready.set(r, both);
            proof {
                assert forall|q: int| 0 <= q < n implies (#[trigger] ready@[q] <==> forall|k: int|
                    0 <= k < i + 1 && active@[k] && #[trigger] label[k] == q ==> rested@[k]) by {
                    if q == r {
                        assert(label[i as int] == r);
                        assert(was[q] <==> forall|k: int|
                            0 <= k < i && active@[k] && #[trigger] label[k] == q ==> rested@[k]);
                    } else {
                        assert(ready@[q] == was[q]);
                    }
                }
            }
        }
    }
    let mut falls_asleep: Vec<bool> = Vec::new();
    for i in 0..n
        invariant
            m == n == ids@.len() == active@.len() == rested@.len(),
            group@.len() == n,
            ready@.len() == n,
            forest(group@, label, height, top, m),
            falls_asleep@.len() == i,
            forall|k: int|
                0 <= k < i ==> (#[trigger] falls_asleep@[k] <==> active@[k] && ready@[label[k]]),
    {
        if active[i] {
            let r: usize = root(&mut group, i, Ghost(label), Ghost(height), Ghost(top));
            falls_asleep.push(ready[r]);
        } else {
            falls_asleep.push(false);
        }
    }
    proof {
        assert forall|i: int| 0 <= i < n implies (#[trigger] falls_asleep@[i] <==> active@[i]
            && forall|k: int|
            0 <= k < n && active@[k] && #[trigger] leads_to(edge, m, i, k) ==> rested@[k]) by {
            let r = label[i];
            assert(0 <= r < n);
            assert(ready@[r] <==> forall|k: int|
                0 <= k < n && active@[k] && #[trigger] label[k] == r ==> rested@[k]);
            if active@[i] && falls_asleep@[i] {
                assert forall|k: int|
                    0 <= k < n && active@[k] && #[trigger] leads_to(
                        edge,
                        m,
                        i,
                        k,
                    ) implies rested@[k] by {
                    lemma_labels_complete(active@, touching@, ids@, joints@, label, i, k);
                    assert(label[k] == r);
                }
            }
            if active@[i] && !falls_asleep@[i] {
                let k = choose|k: int|
                    0 <= k < n && active@[k] && #[trigger] label[k] == r && !rested@[k];
                assert(label[i] == label[k]);
                assert(leads_to(edge, m, i, k));
            }
        }
    }
    falls_asleep
}

/// A label is its own root's.
proof fn lemma_label_of_label(group: Seq<usize>, label: Seq<int>, height: Seq<int>, top: int, i: int)
    requires
        forest(group, label, height, top, group.len() as int),
        0 <= i < group.len(),
    ensures
        label[label[i]] == label[i],
{
    assert(group[label[i]] == label[i]);
    assert(0 <= label[i] < group.len());
}

/// Whether overlapping awake bodies share labels, as far as they have been looked
/// at.
spec fn boxes_joined(
    active: Seq<bool>,
    touching: Seq<Vec<bool>>,
    label: Seq<int>,
    i: int,
    j: int,
) -> bool {
    &&& forall|a: int, b: int|
        0 <= a < i && a < b < label.len() && active[a] && active[b] && #[trigger] touching[a]@[b]
            ==> label[a] == label[b]
    &&& forall|b: int|
        i < b < j && b < label.len() && active[i] && active[b] && #[trigger] touching[i]@[b]
            ==> label[i] == label[b]
}

/// Whether jointed bodies share labels, as far as they have been looked at.
spec fn joints_joined(ids: Seq<BodyId>, joints: Seq<JointEnds>, label: Seq<int>, k: int) -> bool {
    forall|l: int, a: int, b: int|
        0 <= l < k && #[trigger] runs_between(ids, joints[l], a, b) ==> label[a] == label[b]
}

/// Once everything has been joined, bodies of one group share a label.
proof fn lemma_labels_complete(
    active: Seq<bool>,
    touching: Seq<Vec<bool>>,
    ids: Seq<BodyId>,
    joints: Seq<JointEnds>,
    label: Seq<int>,
    i: int,
    k: int,
)
    requires
        label.len() == ids.len(),
        boxes_joined(active, touching, label, ids.len() as int, 0),
        joints_joined(ids, joints, label, joints.len() as int),
        0 <= i < ids.len(),
        leads_to(together(active, touching, ids, joints), ids.len() as int, i, k),
    ensures
        label[k] == label[i],
{
    let edge = together(active, touching, ids, joints);
    let n = ids.len() as int;
    let same = |j: int| label[j] == label[i];
    assert forall|a: int, b: int|
        0 <= a < n && 0 <= b < n && #[trigger] edge(a, b) && same(a) implies same(b) by {
        if joint_runs(ids, joints, a, b) {
            let q = choose|q: int| 0 <= q < joints.len() && #[trigger] runs_between(ids, joints[q], a, b);
            assert(label[a] == label[b]);
        } else if joint_runs(ids, joints, b, a) {
            let q = choose|q: int| 0 <= q < joints.len() && #[trigger] runs_between(ids, joints[q], b, a);
            assert(label[b] == label[a]);
        } else if a < b {
            assert(touching[a]@[b]);
        } else {
            assert(touching[b]@[a]);
        }
    }
    lemma_leads_closed(edge, n, same, i, k);
}

/// Bodies fall asleep together or not at all: of two awake bodies in one group,
/// either both have a group at rest or neither.
pub proof fn law_groups_fall_asleep_together(
    active: Seq<bool>,
    rested: Seq<bool>,
    touching: Seq<Vec<bool>>,
    ids: Seq<BodyId>,
    joints: Seq<JointEnds>,
    i: int,
    j: int,
)
    requires
        leads_to(together(active, touching, ids, joints), ids.len() as int, i, j),
    ensures
        group_rested(active, rested, touching, ids, joints, i) == group_rested(
            active,
            rested,
            touching,
            ids,
            joints,
            j,
        ),
{
    let edge = together(active, touching, ids, joints);
    let n = ids.len() as int;
    lemma_leads_back(edge, n, i, j);
    if group_rested(active, rested, touching, ids, joints, i) {
        assert forall|k: int|
            0 <= k < ids.len() && active[k] && #[trigger] leads_to(edge, n, j, k) implies rested[k] by {
            lemma_leads_through(edge, n, i, j, k);
        }
    }
    if group_rested(active, rested, touching, ids, joints, j) {
        assert forall|k: int|
            0 <= k < ids.len() && active[k] && #[trigger] leads_to(edge, n, i, k) implies rested[k] by {
            lemma_leads_through(edge, n, j, i, k);
        }
    }
}

/// Waking leaves nothing to wake: whatever a roused body stirs is roused too, so no
/// contact or joint is solved against a sleeper.
pub proof fn law_waking_leaves_nothing_to_wake(
    asleep: Seq<bool>,
    heavy: Seq<bool>,
    touching: Seq<Vec<bool>>,
    ids: Seq<BodyId>,
    joints: Seq<JointEnds>,
    grabbed: Option<BodyId>,
    i: int,
    j: int,
)
    requires
        roused(asleep, heavy, touching, ids, joints, grabbed, i),
        stirs(heavy, touching, ids, joints)(i, j),
        0 <= j < ids.len(),
    ensures
        roused(asleep, heavy, touching, ids, joints, grabbed, j),
{
    let edge = stirs(heavy, touching, ids, joints);
    let n = ids.len() as int;
    let s = choose|s: int|
        0 <= s < ids.len() && up(asleep, ids, grabbed, s) && #[trigger] leads_to(edge, n, s, i);
    lemma_leads_step(edge, n, s, i, j);
}

/// With every body named once, a joint runs between the bodies it names.
proof fn lemma_joint_runs(ids: Seq<BodyId>, joints: Seq<JointEnds>, i: int, j: int)
    requires
        ids.no_duplicates(),
        0 <= i < ids.len(),
        0 <= j < ids.len(),
    ensures
        joint_runs(ids, joints, i, j) <==> exists|k: int|
            0 <= k < joints.len() && (#[trigger] joints[k]).a == ids[i] && joints[k].b == Some(
                ids[j],
            ),
{
    if joint_runs(ids, joints, i, j) {
        let k = choose|k: int|
            0 <= k < joints.len() && #[trigger] runs_between(ids, joints[k], i, j);
        assert(joints[k].a == ids[i]);
    }
    if exists|k: int|
        0 <= k < joints.len() && (#[trigger] joints[k]).a == ids[i] && joints[k].b == Some(ids[j]) {
        let k = choose|k: int|
            0 <= k < joints.len() && (#[trigger] joints[k]).a == ids[i] && joints[k].b == Some(
                ids[j],
            );
        assert(stands_at(ids, joints[k].a, i));
        assert(stands_at(ids, joints[k].b->0, j));
        assert(runs_between(ids, joints[k], i, j));
    }
}

/// After waking, whoever was awake or is held by the mouse is awake. Nobody sleeps in
/// reach of an awake body that has mass, nor at the other end of a joint from an awake
/// body.
pub proof fn law_nobody_sleeps_beside_what_moves(
    asleep: Seq<bool>,
    heavy: Seq<bool>,
    touching: Seq<Vec<bool>>,
    ids: Seq<BodyId>,
    joints: Seq<JointEnds>,
    grabbed: Option<BodyId>,
    i: int,
    j: int,
)
    requires
        ids.no_duplicates(),
        0 <= i < ids.len(),
        0 <= j < ids.len(),
    ensures
        !asleep[j] ==> roused(asleep, heavy, touching, ids, joints, grabbed, j),
        grabbed == Some(ids[j]) ==> roused(asleep, heavy, touching, ids, joints, grabbed, j),
        roused(asleep, heavy, touching, ids, joints, grabbed, i) && heavy[i] && touching[i]@[j]
            ==> roused(asleep, heavy, touching, ids, joints, grabbed, j),
        (exists|k: int|
            0 <= k < joints.len() && (#[trigger] joints[k]).a == ids[i] && joints[k].b == Some(
                ids[j],
            )) ==> roused(asleep, heavy, touching, ids, joints, grabbed, i) == roused(
            asleep,
            heavy,
            touching,
            ids,
            joints,
            grabbed,
            j,
        ),
{
    let edge = stirs(heavy, touching, ids, joints);
    let n = ids.len() as int;
    if up(asleep, ids, grabbed, j) {
        lemma_leads_self(edge, n, j);
    }
    lemma_joint_runs(ids, joints, i, j);
    if roused(asleep, heavy, touching, ids, joints, grabbed, i) && edge(i, j) {
        law_waking_leaves_nothing_to_wake(asleep, heavy, touching, ids, joints, grabbed, i, j);
    }
    if roused(asleep, heavy, touching, ids, joints, grabbed, j) && edge(j, i) {
        law_waking_leaves_nothing_to_wake(asleep, heavy, touching, ids, joints, grabbed, j, i);
    }
    if joint_runs(ids, joints, i, j) {
        assert(edge(i, j) && edge(j, i));
    }
}

/// Waking wakes no more than it must: sleepers that the mouse does not hold sleep on,
/// where no body outside of them that has mass reaches one of them and every joint of
/// one of them runs to another of them.
pub proof fn law_waking_stops_where_nothing_reaches(
    asleep: Seq<bool>,
    heavy: Seq<bool>,
    touching: Seq<Vec<bool>>,
    ids: Seq<BodyId>,
    joints: Seq<JointEnds>,
    grabbed: Option<BodyId>,
    still: spec_fn(int) -> bool,
    j: int,
)
    requires
        ids.no_duplicates(),
        0 <= j < ids.len(),
        still(j),
        forall|a: int|
            0 <= a < ids.len() && #[trigger] still(a) ==> asleep[a] && grabbed != Some(ids[a]),
        forall|a: int, b: int|
            #![trigger still(a), still(b)]
            0 <= a < ids.len() && 0 <= b < ids.len() && !still(a) && still(b) ==> !(heavy[a]
                && touching[a]@[b]),
        forall|a: int, b: int, k: int|
            #![trigger still(a), still(b), joints[k]]
            0 <= a < ids.len() && 0 <= b < ids.len() && 0 <= k < joints.len() && joints[k].a
                == ids[a] && joints[k].b == Some(ids[b]) ==> still(a) == still(b),
    ensures
        !roused(asleep, heavy, touching, ids, joints, grabbed, j),
{
    let edge = stirs(heavy, touching, ids, joints);
    let n = ids.len() as int;
    if roused(asleep, heavy, touching, ids, joints, grabbed, j) {
        let s = choose|s: int|
            0 <= s < ids.len() && up(asleep, ids, grabbed, s) && #[trigger] leads_to(edge, n, s, j);
        let moving = |a: int| !still(a);
        assert forall|a: int, b: int|
            0 <= a < n && 0 <= b < n && #[trigger] edge(a, b) && moving(a) implies moving(b) by {
            lemma_joint_runs(ids, joints, a, b);
            lemma_joint_runs(ids, joints, b, a);
            assert(!still(a));
            if joint_runs(ids, joints, a, b) {
                let k = choose|k: int|
                    0 <= k < joints.len() && (#[trigger] joints[k]).a == ids[a] && joints[k].b
                        == Some(ids[b]);
                assert(still(a) == still(b));
            } else if joint_runs(ids, joints, b, a) {
                let k = choose|k: int|
                    0 <= k < joints.len() && (#[trigger] joints[k]).a == ids[b] && joints[k].b
                        == Some(ids[a]);
                assert(still(a) == still(b));
            }
        }
        assert(moving(s));
        lemma_leads_closed(edge, n, moving, s, j);
    }
}

/// A body whose count starts again though it was awake and is not held is at the other
/// end of a joint from one that woke.
pub proof fn law_counts_start_again_beside_what_woke(
    before: Seq<bool>,
    after: Seq<bool>,
    ids: Seq<BodyId>,
    joints: Seq<JointEnds>,
    j: int,
)
    requires
        ids.no_duplicates(),
        0 <= j < ids.len(),
        held_to_woken(before, after, ids, joints, j),
    ensures
        exists|i: int, k: int|
            #![trigger ids[i], joints[k]]
            0 <= i < ids.len() && 0 <= k < joints.len() && before[i] && !after[i] && {
                ||| joints[k].a == ids[i] && joints[k].b == Some(ids[j])
                ||| joints[k].a == ids[j] && joints[k].b == Some(ids[i])
            },
{
    let i = choose|i: int|
        0 <= i < ids.len() && before[i] && !after[i] && (#[trigger] joint_runs(ids, joints, i, j)
            || joint_runs(ids, joints, j, i));
    lemma_joint_runs(ids, joints, i, j);
    lemma_joint_runs(ids, joints, j, i);
    if joint_runs(ids, joints, i, j) {
        let k = choose|k: int|
            0 <= k < joints.len() && (#[trigger] joints[k]).a == ids[i] && joints[k].b == Some(
                ids[j],
            );
        assert(joints[k].a == ids[i]);
    } else {
        let k = choose|k: int|
            0 <= k < joints.len() && (#[trigger] joints[k]).a == ids[j] && joints[k].b == Some(
                ids[i],
            );
        assert(joints[k].a == ids[j]);
    }
}

/// Nobody falls asleep before they have rested, nor before what they touch and what
/// they are jointed to: of two awake bodies that overlap, or that a joint joins, both
/// groups are at rest or neither is.
pub proof fn law_nobody_falls_asleep_alone(
    active: Seq<bool>,
    rested: Seq<bool>,
    touching: Seq<Vec<bool>>,
    ids: Seq<BodyId>,
    joints: Seq<JointEnds>,
    i: int,
    j: int,
)
    requires
        ids.no_duplicates(),
        0 <= i < ids.len(),
        0 <= j < ids.len(),
    ensures
        active[i] && group_rested(active, rested, touching, ids, joints, i) ==> rested[i],
        active[i] && active[j] && i < j && touching[i]@[j] ==> group_rested(
            active,
            rested,
            touching,
            ids,
            joints,
            i,
        ) == group_rested(active, rested, touching, ids, joints, j),
        (exists|k: int|
            0 <= k < joints.len() && (#[trigger] joints[k]).a == ids[i] && joints[k].b == Some(
                ids[j],
            )) ==> group_rested(active, rested, touching, ids, joints, i) == group_rested(
            active,
            rested,
            touching,
            ids,
            joints,
            j,
        ),
{
    let edge = together(active, touching, ids, joints);
    let n = ids.len() as int;
    lemma_leads_self(edge, n, i);
    lemma_joint_runs(ids, joints, i, j);
    if edge(i, j) {
        lemma_leads_step(edge, n, i, i, j);
        law_groups_fall_asleep_together(active, rested, touching, ids, joints, i, j);
    }
}

/// A group that rests falls asleep: bodies that nothing awake outside of them overlaps,
/// and whose joints all run among them, have a group at rest once the awake ones among
/// them have rested.
pub proof fn law_a_rested_group_falls_asleep(
    active: Seq<bool>,
    rested: Seq<bool>,
    touching: Seq<Vec<bool>>,
    ids: Seq<BodyId>,
    joints: Seq<JointEnds>,
    group: spec_fn(int) -> bool,
    i: int,
)
    requires
        ids.no_duplicates(),
        0 <= i < ids.len(),
        group(i),
        forall|a: int| 0 <= a < ids.len() && active[a] && #[trigger] group(a) ==> rested[a],
        forall|a: int, b: int|
            #![trigger group(a), group(b)]
            0 <= a < b < ids.len() && active[a] && active[b] && touching[a]@[b] ==> group(a)
                == group(b),
        forall|a: int, b: int, k: int|
            #![trigger group(a), group(b), joints[k]]
            0 <= a < ids.len() && 0 <= b < ids.len() && 0 <= k < joints.len() && joints[k].a
                == ids[a] && joints[k].b == Some(ids[b]) ==> group(a) == group(b),
    ensures
        group_rested(active, rested, touching, ids, joints, i),
{
    let edge = together(active, touching, ids, joints);
    let n = ids.len() as int;
    assert forall|a: int, b: int|
        0 <= a < n && 0 <= b < n && #[trigger] edge(a, b) && group(a) implies group(b) by {
        lemma_joint_runs(ids, joints, a, b);
        lemma_joint_runs(ids, joints, b, a);
        if joint_runs(ids, joints, a, b) {
            let k = choose|k: int|
                0 <= k < joints.len() && (#[trigger] joints[k]).a == ids[a] && joints[k].b == Some(
                    ids[b],
                );
            assert(group(a) == group(b));
        } else if joint_runs(ids, joints, b, a) {
            let k = choose|k: int|
                0 <= k < joints.len() && (#[trigger] joints[k]).a == ids[b] && joints[k].b == Some(
                    ids[a],
                );
            assert(group(a) == group(b));
        } else {
            assert(group(a) == group(b));
        }
    }
    assert forall|k: int|
        0 <= k < ids.len() && active[k] && #[trigger] leads_to(edge, n, i, k) implies rested[k] by {
        lemma_leads_closed(edge, n, group, i, k);
    }
}

} // verus!
