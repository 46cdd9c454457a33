//! What it means for voxels to hold together: a chain of solid voxels, each
//! sharing a face with the next.

use crate::address::UVec3;
use crate::contree::Contree;
use crate::edit::{code, code_of, lemma_code_injective};
use crate::material::MaterialId;
use crate::sort::{holds, is_order, sorted_order, stands_before};
use vstd::prelude::*;

verus! {

/// The solid voxels of a tree.
pub open spec fn solid_in_tree(tree: Contree) -> spec_fn(UVec3) -> bool {
    |p: UVec3| p.within(tree.side()) && tree.at(p) != MaterialId(0)
}

/// Whether two voxels share a face. Diagonals do not hold anything up.
pub open spec fn adjacent(a: UVec3, b: UVec3) -> bool {
    ||| a.y == b.y && a.z == b.z && (a.x + 1 == b.x || b.x + 1 == a.x)
    ||| a.x == b.x && a.z == b.z && (a.y + 1 == b.y || b.y + 1 == a.y)
    ||| a.x == b.x && a.y == b.y && (a.z + 1 == b.z || b.z + 1 == a.z)
}

/// A chain of solid voxels, each sharing a face with the next.
pub open spec fn is_chain(solid: spec_fn(UVec3) -> bool, chain: Seq<UVec3>) -> bool {
    &&& chain.len() >= 1
    &&& forall|i: int| 0 <= i < chain.len() ==> solid(#[trigger] chain[i])
    &&& forall|i: int|
        0 <= i < chain.len() - 1 ==> adjacent(#[trigger] chain[i], chain[i + 1])
}

/// Whether a chain of solid voxels leads from one voxel to another.
pub open spec fn joined(solid: spec_fn(UVec3) -> bool, a: UVec3, b: UVec3) -> bool {
    exists|chain: Seq<UVec3>| #[trigger]
        is_chain(solid, chain) && chain[0] == a && chain.last() == b
}

/// A solid voxel is joined to itself.
pub proof fn lemma_joined_self(solid: spec_fn(UVec3) -> bool, a: UVec3)
    requires
        solid(a),
    ensures
        joined(solid, a, a),
{
    let chain = seq![a];
    assert(is_chain(solid, chain));
}

/// A chain can be made one longer.
pub proof fn lemma_joined_step(solid: spec_fn(UVec3) -> bool, a: UVec3, b: UVec3, c: UVec3)
    requires
        joined(solid, a, b),
        adjacent(b, c),
        solid(c),
    ensures
        joined(solid, a, c),
{
    let chain = choose|chain: Seq<UVec3>| #[trigger]
        is_chain(solid, chain) && chain[0] == a && chain.last() == b;
    let longer = chain.push(c);
    assert forall|i: int| 0 <= i < longer.len() - 1 implies adjacent(
        #[trigger] longer[i],
        longer[i + 1],
    ) by {
        if i < chain.len() - 1 {
            assert(adjacent(chain[i], chain[i + 1]));
        }
    }
    assert(is_chain(solid, longer));
}

/// Joined voxels are solid.
pub proof fn lemma_joined_solid(solid: spec_fn(UVec3) -> bool, a: UVec3, b: UVec3)
    requires
        joined(solid, a, b),
    ensures
        solid(a),
        solid(b),
{
    let chain = choose|chain: Seq<UVec3>| #[trigger]
        is_chain(solid, chain) && chain[0] == a && chain.last() == b;
    assert(solid(chain[0]));
    assert(solid(chain[chain.len() - 1]));
}

/// A chain can be walked back.
pub proof fn lemma_joined_back(solid: spec_fn(UVec3) -> bool, a: UVec3, b: UVec3)
    requires
        joined(solid, a, b),
    ensures
        joined(solid, b, a),
{
    let chain = choose|chain: Seq<UVec3>| #[trigger]
        is_chain(solid, chain) && chain[0] == a && chain.last() == b;
    let back = Seq::new(chain.len(), |i: int| chain[chain.len() - 1 - i]);
    assert forall|i: int| 0 <= i < back.len() - 1 implies adjacent(
        #[trigger] back[i],
        back[i + 1],
    ) by {
        let j = chain.len() - 2 - i;
        assert(adjacent(chain[j], chain[j + 1]));
    }
    assert(is_chain(solid, back));
}

/// Chains can be put end to end.
pub proof fn lemma_joined_through(solid: spec_fn(UVec3) -> bool, a: UVec3, b: UVec3, c: UVec3)
    requires
        joined(solid, a, b),
        joined(solid, b, c),
    ensures
        joined(solid, a, c),
{
    let chain = choose|chain: Seq<UVec3>| #[trigger]
        is_chain(solid, chain) && chain[0] == b && chain.last() == c;
    lemma_joined_along(solid, a, chain, chain.len() - 1);
}

proof fn lemma_joined_along(
    solid: spec_fn(UVec3) -> bool,
    a: UVec3,
    chain: Seq<UVec3>,
    n: int,
)
    requires
        is_chain(solid, chain),
        joined(solid, a, chain[0]),
        0 <= n < chain.len(),
    ensures
        joined(solid, a, chain[n]),
    decreases n,
{
    if n > 0 {
        lemma_joined_along(solid, a, chain, n - 1);
        assert(adjacent(chain[n - 1], chain[n - 1 + 1]));
        lemma_joined_step(solid, a, chain[n - 1], chain[n]);
    }
}

/// Whether a choice of voxels holds every solid neighbour of every voxel in it.
pub open spec fn closed_under(
    solid: spec_fn(UVec3) -> bool,
    chosen: spec_fn(UVec3) -> bool,
) -> bool {
    forall|p: UVec3, q: UVec3| #[trigger]
        chosen(p) && #[trigger] adjacent(p, q) && solid(q) ==> chosen(q)
}

/// A choice that holds every neighbour holds everything joined to it.
pub proof fn lemma_closed_joined(
    solid: spec_fn(UVec3) -> bool,
    chosen: spec_fn(UVec3) -> bool,
    a: UVec3,
    b: UVec3,
)
    requires
        closed_under(solid, chosen),
        chosen(a),
        joined(solid, a, b),
    ensures
        chosen(b),
{
    let chain = choose|chain: Seq<UVec3>| #[trigger]
        is_chain(solid, chain) && chain[0] == a && chain.last() == b;
    lemma_closed_along(solid, chosen, chain, chain.len() - 1);
}

proof fn lemma_closed_along(
    solid: spec_fn(UVec3) -> bool,
    chosen: spec_fn(UVec3) -> bool,
    chain: Seq<UVec3>,
    n: int,
)
    requires
        closed_under(solid, chosen),
        is_chain(solid, chain),
        chosen(chain[0]),
        0 <= n < chain.len(),
    ensures
        chosen(chain[n]),
    decreases n,
{
    if n > 0 {
        lemma_closed_along(solid, chosen, chain, n - 1);
        assert(adjacent(chain[n - 1], chain[n - 1 + 1]));
        assert(solid(chain[n]));
    }
}

/// Whether a sequence is in strictly increasing order of z, then y, then x.
pub open spec fn in_order(piece: Seq<UVec3>) -> bool {
    forall|i: int, j: int| 0 <= i < j < piece.len() ==> before(#[trigger] piece[i], #[trigger] piece[j])
}

/// By z, then y, then x.
pub open spec fn before(a: UVec3, b: UVec3) -> bool {
    a.z < b.z || (a.z == b.z && (a.y < b.y || (a.y == b.y && a.x < b.x)))
}

/// A whole piece: the voxels joined to one voxel, and no others, sorted.
pub open spec fn is_piece(solid: spec_fn(UVec3) -> bool, a: UVec3, piece: Seq<UVec3>) -> bool {
    &&& in_order(piece)
    &&& forall|q: UVec3| #[trigger] piece.contains(q) <==> joined(solid, a, q)
}

/// A piece is the same whichever of its voxels it is named by.
pub proof fn lemma_piece_renamed(
    solid: spec_fn(UVec3) -> bool,
    a: UVec3,
    b: UVec3,
    piece: Seq<UVec3>,
)
    requires
        is_piece(solid, a, piece),
        joined(solid, a, b),
    ensures
        is_piece(solid, b, piece),
{
    assert forall|q: UVec3| #[trigger] piece.contains(q) <==> joined(solid, b, q) by {
        if piece.contains(q) {
            lemma_joined_back(solid, a, b);
            lemma_joined_through(solid, b, a, q);
        }
        if joined(solid, b, q) {
            lemma_joined_through(solid, a, b, q);
        }
    }
}

/// Two sorted sequences of the same voxels are the same.
pub proof fn law_one_order_for_the_same_voxels(a: Seq<UVec3>, b: Seq<UVec3>)
    requires
        in_order(a),
        in_order(b),
        forall|q: UVec3| #[trigger] a.contains(q) <==> b.contains(q),
    ensures
        a == b,
    decreases a.len(),
{
    if a.len() == 0 {
        if b.len() > 0 {
            assert(b.contains(b[0]));
            assert(a.contains(b[0]));
        }
        assert(a =~= b);
    } else {
        assert(a.contains(a[0]));
        assert(b.contains(a[0]));
        assert(b.contains(b[0]));
        assert(a.contains(b[0]));
        let (x, y) = (a[0], b[0]);
        let i = choose|i: int| 0 <= i < b.len() && b[i] == x;
        let j = choose|j: int| 0 <= j < a.len() && a[j] == y;
        if x != y {
            assert(before(b[0], b[i]));
            assert(before(a[0], a[j]));
        }
        let a2 = a.drop_first();
        let b2 = b.drop_first();
        assert forall|q: UVec3| #[trigger] a2.contains(q) <==> b2.contains(q) by {
            if a2.contains(q) {
                let k = choose|k: int| 0 <= k < a2.len() && a2[k] == q;
                assert(a[k + 1] == q);
                assert(before(a[0], a[k + 1]));
                assert(a.contains(q));
                assert(b.contains(q));
                let l = choose|l: int| 0 <= l < b.len() && b[l] == q;
                assert(l > 0);
                assert(b2[l - 1] == q);
            }
            if b2.contains(q) {
                let k = choose|k: int| 0 <= k < b2.len() && b2[k] == q;
                assert(b[k + 1] == q);
                assert(before(b[0], b[k + 1]));
                assert(a.contains(q));
                let l = choose|l: int| 0 <= l < a.len() && a[l] == q;
                assert(l > 0);
                assert(a2[l - 1] == q);
            }
        }
        assert forall|i: int, j: int| 0 <= i < j < a2.len() implies before(
            #[trigger] a2[i],
            #[trigger] a2[j],
        ) by {
            assert(before(a[i + 1], a[j + 1]));
        }
        assert forall|i: int, j: int| 0 <= i < j < b2.len() implies before(
            #[trigger] b2[i],
            #[trigger] b2[j],
        ) by {
            assert(before(b[i + 1], b[j + 1]));
        }
        law_one_order_for_the_same_voxels(a2, b2);
        assert(a =~= seq![x] + a2);
        assert(b =~= seq![y] + b2);
    }
}

/// Voxels in order of z, then y, then x.
pub fn sort_voxels(voxels: &Vec<UVec3>) -> (sorted: Vec<UVec3>)
    requires
        voxels@.no_duplicates(),
    ensures
        in_order(sorted@),
        sorted@.len() == voxels@.len(),
        forall|q: UVec3| #[trigger] sorted@.contains(q) <==> voxels@.contains(q),
{
    let mut keys: Vec<u128> = Vec::new();
    for i in 0..voxels.len()
        invariant
            keys@.len() == i,
            forall|k: int|
                0 <= k < i ==> #[trigger] keys@[k] == code(
                    voxels@[k].x as int,
                    voxels@[k].y as int,
                    voxels@[k].z as int,
                ),
    {
        keys.push(code_of(voxels[i]));
    }
    let order = sorted_order(&keys);
    let mut sorted: Vec<UVec3> = Vec::new();
    for n in 0..order.len()
        invariant
            keys@.len() == voxels@.len() == order@.len(),
            is_order(keys@, order@),
            sorted@.len() == n,
            forall|k: int| 0 <= k < n ==> #[trigger] sorted@[k] == voxels@[order@[k] as int],
    {
        sorted.push(voxels[order[n]]);
    }
    proof {
        assert forall|i: int, j: int| 0 <= i < j < sorted@.len() implies before(
            #[trigger] sorted@[i],
            #[trigger] sorted@[j],
        ) by {
            let (a, b) = (order@[i] as int, order@[j] as int);
            assert(stands_before(keys@, a, b));
            let (p, q) = (voxels@[a], voxels@[b]);
            if keys@[a] == keys@[b] {
                lemma_code_injective(
                    p.x as int,
                    p.y as int,
                    p.z as int,
                    q.x as int,
                    q.y as int,
                    q.z as int,
                );
            }
        }
        assert forall|q: UVec3| #[trigger] sorted@.contains(q) <==> voxels@.contains(q) by {
            if sorted@.contains(q) {
                let k = choose|k: int| 0 <= k < sorted@.len() && sorted@[k] == q;
                assert(voxels@[order@[k] as int] == q);
            }
            if voxels@.contains(q) {
                let i = choose|i: int| 0 <= i < voxels@.len() && voxels@[i] == q;
                assert(holds(order@, i));
                let k = choose|k: int| 0 <= k < order@.len() && #[trigger] order@[k] == i;
                assert(sorted@[k] == q);
            }
        }
    }
    sorted
}

/// Voxels share a face where they differ by one step along one axis.
pub proof fn law_neighbours_are_one_step_apart(a: UVec3, b: UVec3)
    ensures
        adjacent(a, b) <==> {
            let (dx, dy, dz) = (a.x - b.x, a.y - b.y, a.z - b.z);
            dx * dx + dy * dy + dz * dz == 1
        },
        adjacent(a, b) == adjacent(b, a),
{
    let (dx, dy, dz) = (a.x - b.x, a.y - b.y, a.z - b.z);
    lemma_one_step(dx);
    lemma_one_step(dy);
    lemma_one_step(dz);
}

proof fn lemma_one_step(d: int)
    ensures
        d == 0 ==> d * d == 0,
        d == 1 || d == -1 ==> d * d == 1,
        d > 1 || d < -1 ==> d * d > 1,
{
    assert(d > 1 || d < -1 ==> d * d > 1) by (nonlinear_arith);
    assert(d == -1 ==> d * d == 1) by (nonlinear_arith);
}

/// What holds together: a solid voxel holds to itself, and to every solid voxel that
/// shares a face with one it holds to, and to nothing else.
pub proof fn law_voxels_hold_together_face_by_face(
    solid: spec_fn(UVec3) -> bool,
    a: UVec3,
    chosen: spec_fn(UVec3) -> bool,
)
    ensures
        joined(solid, a, a) <==> solid(a),
        forall|b: UVec3, c: UVec3|
            joined(solid, a, b) && solid(c) && {
                let (dx, dy, dz) = (b.x - c.x, b.y - c.y, b.z - c.z);
                dx * dx + dy * dy + dz * dz == 1
            } ==> #[trigger] joined(solid, a, c) || !#[trigger] joined(solid, a, b),
        (forall|b: UVec3, c: UVec3|
            #![trigger chosen(b), chosen(c)]
            chosen(b) && solid(c) && {
                let (dx, dy, dz) = (b.x - c.x, b.y - c.y, b.z - c.z);
                dx * dx + dy * dy + dz * dz == 1
            } ==> chosen(c)) && chosen(a) ==> forall|b: UVec3| #[trigger]
            joined(solid, a, b) ==> chosen(b) && solid(b),
{
    if solid(a) {
        lemma_joined_self(solid, a);
    }
    if joined(solid, a, a) {
        lemma_joined_solid(solid, a, a);
    }
    assert forall|b: UVec3, c: UVec3|
        joined(solid, a, b) && solid(c) && {
            let (dx, dy, dz) = (b.x - c.x, b.y - c.y, b.z - c.z);
            dx * dx + dy * dy + dz * dz == 1
        } implies #[trigger] joined(solid, a, c) || !#[trigger] joined(solid, a, b) by {
        law_neighbours_are_one_step_apart(b, c);
        lemma_joined_step(solid, a, b, c);
    }
    if (forall|b: UVec3, c: UVec3|
        #![trigger chosen(b), chosen(c)]
        chosen(b) && solid(c) && {
            let (dx, dy, dz) = (b.x - c.x, b.y - c.y, b.z - c.z);
            dx * dx + dy * dy + dz * dz == 1
        } ==> chosen(c)) && chosen(a) {
        assert(closed_under(solid, chosen)) by {
            assert forall|p: UVec3, q: UVec3| #[trigger] chosen(p) && #[trigger] adjacent(p, q)
                && solid(q) implies chosen(q) by {
                law_neighbours_are_one_step_apart(p, q);
            }
        }
        assert forall|b: UVec3| #[trigger] joined(solid, a, b) implies chosen(b) && solid(b) by {
            lemma_closed_joined(solid, chosen, a, b);
            lemma_joined_solid(solid, a, b);
        }
    }
}

/// A piece is listed by z, then y, then x, each voxel once.
pub proof fn law_a_piece_is_listed_in_scan_order(piece: Seq<UVec3>, i: int, j: int)
    requires
        in_order(piece),
        0 <= i < j < piece.len(),
    ensures
        piece[i].z <= piece[j].z,
        piece[i].z == piece[j].z ==> piece[i].y <= piece[j].y,
        piece[i].z == piece[j].z && piece[i].y == piece[j].y ==> piece[i].x < piece[j].x,
{
}

} // verus!
