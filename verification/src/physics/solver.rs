//! What a tick solves: which bodies each joint joins, and which pairs of bodies
//! are tested against each other.

use crate::body::BodyId;
use crate::physics::joint::JointEnds;
use vstd::prelude::*;

verus! {

/// Where a body last comes in a list.
pub open spec fn last_at(ids: Seq<BodyId>, id: BodyId, i: int) -> bool {
    &&& 0 <= i < ids.len()
    &&& ids[i] == id
    &&& forall|j: int| i < j < ids.len() ==> #[trigger] ids[j] != id
}

/// Where a body that has mass is in a list.
fn alive(ids: &[BodyId], heavy: &[bool], id: BodyId) -> (found: Option<usize>)
    requires
        heavy@.len() == ids@.len(),
    ensures
        match found {
            Some(i) => last_at(ids@, id, i as int) && heavy@[i as int],
            None => forall|i: int| #[trigger] last_at(ids@, id, i) ==> !heavy@[i],
        },
{
    let mut i: usize = ids.len();
    while i > 0
        invariant
            i <= ids@.len() == heavy@.len(),
            forall|j: int| i <= j < ids@.len() ==> #[trigger] ids@[j] != id,
        decreases i,
    {
        i = i - 1;
        if ids[i].0 == id.0 {
            proof {
                assert(last_at(ids@, id, i as int));
                assert forall|k: int| #[trigger] last_at(ids@, id, k) implies k == i by {
                    if k < i {
                        assert(ids@[i as int] != id);
                    }
                }
            }
            return if heavy[i] {
                Some(i)
            } else {
                None
            };
        }
    }
    None
}

/// Whether a body is in a list and has mass.
pub open spec fn is_alive(ids: Seq<BodyId>, heavy: Seq<bool>, id: BodyId) -> bool {
    exists|i: int| #[trigger] last_at(ids, id, i) && heavy[i]
}

/// What a joint joins this tick, by index.
pub open spec fn links(
    ids: Seq<BodyId>,
    heavy: Seq<bool>,
    joint: JointEnds,
    link: Option<(usize, Option<usize>)>,
) -> bool {
    match link {
        Some((i, j)) => {
            &&& last_at(ids, joint.a, i as int) && heavy[i as int]
            &&& match (joint.b, j) {
                (None, None) => true,
                (Some(b), Some(j)) => last_at(ids, b, j as int) && heavy[j as int],
                _ => false,
            }
        },
        None => {
            ||| !is_alive(ids, heavy, joint.a)
            ||| joint.b is Some && !is_alive(ids, heavy, joint.b->0)
        },
    }
}

/// Which bodies each joint joins, by index, this tick. A joint whose body is gone,
/// or has no mass, sits the tick out.
pub fn link_joints(ids: &[BodyId], heavy: &[bool], joints: &[JointEnds]) -> (out: Vec<
    Option<(usize, Option<usize>)>,
>)
    requires
        heavy@.len() == ids@.len(),
    ensures
        out@.len() == joints@.len(),
        forall|k: int|
            0 <= k < joints@.len() ==> links(ids@, heavy@, joints@[k], #[trigger] out@[k]),
{
    let mut out: Vec<Option<(usize, Option<usize>)>> = Vec::new();
    for k in 0..joints.len()
        invariant
            heavy@.len() == ids@.len(),
            out@.len() == k,
            forall|l: int| 0 <= l < k ==> links(ids@, heavy@, joints@[l], #[trigger] out@[l]),
    {
        let joint = joints[k];
        let link = match alive(ids, heavy, joint.a) {
            None => None,
            Some(i) => match joint.b {
                None => Some((i, None)),
                Some(b) => match alive(ids, heavy, b) {
                    None => None,
                    Some(j) => Some((i, Some(j))),
                },
            },
        };
        assert(links(ids@, heavy@, joint, link));
        out.push(link);
    }
    out
}

/// The same key for a pair whichever way round it is named.
pub fn pair_key(a: BodyId, b: BodyId) -> (key: (BodyId, BodyId))
    ensures
        key == spec_pair_key(a, b),
{
    if a.0 <= b.0 {
        (a, b)
    } else {
        (b, a)
    }
}

/// The lower number first.
pub open spec fn spec_pair_key(a: BodyId, b: BodyId) -> (BodyId, BodyId) {
    if a.0 <= b.0 {
        (a, b)
    } else {
        (b, a)
    }
}

/// A pair's key is the same either way round, and tells pairs apart.
pub proof fn law_a_pair_has_one_key(a: BodyId, b: BodyId, c: BodyId, d: BodyId)
    ensures
        spec_pair_key(a, b) == spec_pair_key(b, a),
        spec_pair_key(a, b) == spec_pair_key(c, d) <==> (a == c && b == d || a == d && b == c),
{
}

/// Whether a joint holds two bodies together. Jointed pairs do not collide: a
/// hinge where a door meets its frame would otherwise have the contact pushing out
/// while the joint pulls back.
pub open spec fn jointed(joints: Seq<JointEnds>, a: BodyId, b: BodyId) -> bool {
    exists|k: int|
        0 <= k < joints.len() && (#[trigger] joints[k]).b is Some && spec_pair_key(
            joints[k].a,
            joints[k].b->0,
        ) == spec_pair_key(a, b)
}

/// Whether a pair of bodies is tested for contacts.
pub open spec fn is_tested(
    ids: Seq<BodyId>,
    heavy: Seq<bool>,
    joints: Seq<JointEnds>,
    i: int,
    j: int,
) -> bool {
    &&& 0 <= i < j < ids.len()
    &&& heavy[i]
    &&& heavy[j]
    &&& !jointed(joints, ids[i], ids[j])
}

fn holds_together(joints: &[JointEnds], a: BodyId, b: BodyId) -> (held: bool)
    ensures
        held == jointed(joints@, a, b),
{
    let key = pair_key(a, b);
    for k in 0..joints.len()
        invariant
            key == spec_pair_key(a, b),
            forall|l: int|
                0 <= l < k && (#[trigger] joints@[l]).b is Some ==> spec_pair_key(
                    joints@[l].a,
                    joints@[l].b->0,
                ) != key,
    {
        let joint = joints[k];
        if let Some(other) = joint.b {
            let named = pair_key(joint.a, other);
            if named.0.0 == key.0.0 && named.1.0 == key.1.0 {
                assert(joints@[k as int].b is Some);
                return true;
            }
        }
    }
    false
}

/// One pair before another: by the first body, then the second.
pub open spec fn pair_before(a: (usize, usize), b: (usize, usize)) -> bool {
    a.0 < b.0 || (a.0 == b.0 && a.1 < b.1)
}

/// Every pair of bodies to test against each other, once each, with the lower
/// index first.
pub fn pairs_to_test(ids: &[BodyId], heavy: &[bool], joints: &[JointEnds]) -> (pairs: Vec<
    (usize, usize),
>)
    requires
        heavy@.len() == ids@.len(),
    ensures
        forall|k: int|
            0 <= k < pairs@.len() ==> is_tested(
                ids@,
                heavy@,
                joints@,
                (#[trigger] pairs@[k]).0 as int,
                pairs@[k].1 as int,
            ),
        forall|k: int, l: int|
            0 <= k < l < pairs@.len() ==> pair_before(#[trigger] pairs@[k], #[trigger] pairs@[l]),
        forall|i: usize, j: usize|
            is_tested(ids@, heavy@, joints@, i as int, j as int) ==> #[trigger] pairs@.contains(
                (i, j),
            ),
        forall|k: int|
            0 <= k < pairs@.len() ==> (#[trigger] pairs@[k]).0 < pairs@[k].1 < ids@.len()
                && heavy@[pairs@[k].0 as int] && heavy@[pairs@[k].1 as int],
        forall|k: int, l: int|
            0 <= k < l < pairs@.len() ==> {
                let (a, b) = (#[trigger] pairs@[k], #[trigger] pairs@[l]);
                a.0 < b.0 || a.0 == b.0 && a.1 < b.1
            },
{
    let mut pairs: Vec<(usize, usize)> = Vec::new();
    let n: usize = ids.len();
    for i in 0..n
        invariant
            n == ids@.len() == heavy@.len(),
            listed_upto(ids@, heavy@, joints@, pairs@, i as int, 0),
    {
        for j in i + 1..n
            invariant
                n == ids@.len() == heavy@.len(),
                i < n,
                listed_upto(ids@, heavy@, joints@, pairs@, i as int, j as int),
        {
            let ghost had = pairs@;
            if heavy[i] && heavy[j] && !holds_together(joints, ids[i], ids[j]) {
                pairs.push((i, j));
                proof {
                    assert forall|a: usize, b: usize|
                        is_tested(ids@, heavy@, joints@, a as int, b as int) && (a < i || (a == i
                            && b < j + 1)) implies #[trigger] pairs@.contains((a, b)) by {
                        if a == i && b == j {
                            assert(pairs@[had.len() as int] == (a, b));
                        } else {
                            assert(had.contains((a, b)));
                            let k = choose|k: int| 0 <= k < had.len() && had[k] == (a, b);
                            assert(pairs@[k] == (a, b));
                        }
                    }
                }
            }
        }
    }
    proof {
        assert forall|i: usize, j: usize|
            is_tested(ids@, heavy@, joints@, i as int, j as int) implies #[trigger] pairs@.contains(
            (i, j),
        ) by {
            assert(i < n);
        }
    }
    pairs
}

/// The pairs found before the pair at `(i, j)`.
spec fn listed_upto(
    ids: Seq<BodyId>,
    heavy: Seq<bool>,
    joints: Seq<JointEnds>,
    pairs: Seq<(usize, usize)>,
    i: int,
    j: int,
) -> bool {
    &&& forall|k: int|
        0 <= k < pairs.len() ==> is_tested(
            ids,
            heavy,
            joints,
            (#[trigger] pairs[k]).0 as int,
            pairs[k].1 as int,
        ) && (pairs[k].0 < i || (pairs[k].0 == i && pairs[k].1 < j))
    &&& forall|k: int, l: int|
        0 <= k < l < pairs.len() ==> pair_before(#[trigger] pairs[k], #[trigger] pairs[l])
    &&& forall|a: usize, b: usize|
        is_tested(ids, heavy, joints, a as int, b as int) && (a < i || (a == i && b < j))
            ==> #[trigger] pairs.contains((a, b))
}

/// A joint links the bodies it names, by where they stand, and only bodies that have
/// mass. It sits the tick out exactly where one it names is not there or has none.
pub proof fn law_a_joint_links_the_bodies_it_names(
    ids: Seq<BodyId>,
    heavy: Seq<bool>,
    joint: JointEnds,
    link: Option<(usize, Option<usize>)>,
)
    requires
        heavy.len() == ids.len(),
        ids.no_duplicates(),
        links(ids, heavy, joint, link),
    ensures
        link matches Some((i, j)) ==> {
            &&& i < ids.len() && ids[i as int] == joint.a && heavy[i as int]
            &&& j is Some <==> joint.b is Some
            &&& j matches Some(j) ==> j < ids.len() && ids[j as int] == joint.b->0 && heavy[j as int]
        },
        link is None <==> {
            ||| forall|i: int| 0 <= i < ids.len() && #[trigger] ids[i] == joint.a ==> !heavy[i]
            ||| joint.b matches Some(b) && forall|i: int|
                0 <= i < ids.len() && #[trigger] ids[i] == b ==> !heavy[i]
        },
{
    lemma_alive_where_it_stands(ids, heavy, joint.a);
    if joint.b is Some {
        lemma_alive_where_it_stands(ids, heavy, joint.b->0);
    }
}

proof fn lemma_alive_where_it_stands(ids: Seq<BodyId>, heavy: Seq<bool>, id: BodyId)
    requires
        ids.no_duplicates(),
    ensures
        is_alive(ids, heavy, id) <==> exists|i: int|
            0 <= i < ids.len() && #[trigger] ids[i] == id && heavy[i],
{
    if exists|i: int| 0 <= i < ids.len() && #[trigger] ids[i] == id && heavy[i] {
        let i = choose|i: int| 0 <= i < ids.len() && #[trigger] ids[i] == id && heavy[i];
        assert(last_at(ids, id, i));
    }
}

/// Two bodies are tested against each other where both have mass and no joint names
/// the two of them, whichever way round.
pub proof fn law_jointed_bodies_do_not_collide(
    ids: Seq<BodyId>,
    heavy: Seq<bool>,
    joints: Seq<JointEnds>,
    i: int,
    j: int,
)
    requires
        0 <= i < j < ids.len(),
    ensures
        is_tested(ids, heavy, joints, i, j) <==> {
            &&& heavy[i]
            &&& heavy[j]
            &&& forall|k: int|
                0 <= k < joints.len() ==> {
                    &&& !((#[trigger] joints[k]).a == ids[i] && joints[k].b == Some(ids[j]))
                    &&& !(joints[k].a == ids[j] && joints[k].b == Some(ids[i]))
                }
        },
{
    let (a, b) = (ids[i], ids[j]);
    if jointed(joints, a, b) {
        let k = choose|k: int|
            0 <= k < joints.len() && (#[trigger] joints[k]).b is Some && spec_pair_key(
                joints[k].a,
                joints[k].b->0,
            ) == spec_pair_key(a, b);
        law_a_pair_has_one_key(joints[k].a, joints[k].b->0, a, b);
    } else {
        assert forall|k: int| 0 <= k < joints.len() implies {
            &&& !((#[trigger] joints[k]).a == a && joints[k].b == Some(b))
            &&& !(joints[k].a == b && joints[k].b == Some(a))
        } by {
            law_a_pair_has_one_key(a, b, b, a);
        }
    }
}

/// A pair's key names the pair, the lower number first.
pub proof fn law_a_pairs_key_is_the_pair_in_order(a: BodyId, b: BodyId)
    ensures
        spec_pair_key(a, b).0.0 <= spec_pair_key(a, b).1.0,
        spec_pair_key(a, b) == (a, b) || spec_pair_key(a, b) == (b, a),
{
}

/// Where a list names a body twice, a joint links the one that comes last.
pub proof fn law_a_joint_links_the_last_of_a_name(
    ids: Seq<BodyId>,
    heavy: Seq<bool>,
    joint: JointEnds,
    i: usize,
    other: Option<usize>,
)
    requires
        links(ids, heavy, joint, Some((i, other))),
    ensures
        i < ids.len() && ids[i as int] == joint.a && heavy[i as int],
        forall|k: int| i < k < ids.len() ==> #[trigger] ids[k] != joint.a,
        other matches Some(j) ==> {
            &&& joint.b matches Some(b) && j < ids.len() && ids[j as int] == b && heavy[j as int]
            &&& forall|k: int| j < k < ids.len() ==> #[trigger] ids[k] != joint.b->0
        },
{
}

} // verus!
