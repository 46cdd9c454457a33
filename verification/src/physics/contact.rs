//! Contacts between a body and what it touches: which voxels are worth testing
//! against each other, and which of the touches found are kept.
//!
//! Body corners are tested against world voxels, world corners against body
//! voxels, and edges against edges, all as cubes rounded at their corners and
//! edges.

use crate::address::{IVec3, UVec3};
use crate::body::BodyId;
use crate::contree::Contree;
use crate::dense::{lemma_extent_levels, lemma_extent_strict};
use crate::distance_field::{
    cell_stored, conservative, law_nearer_cells_are_empty, lemma_stored, solid_cell, solid_in,
    solid_voxel, value, voxel_cell, DistanceField, CELL_VOXELS,
};
use crate::grid::cell_count;
use crate::physics::classify::{
    answers, classify, is_solid, shape_of, solid_at, solid_in_volume, voxel_shape, Shape,
};
use crate::physics::connect::{before, in_order, solid_in_tree};
use crate::sort::{holds, is_order, sorted_order, stands_before};
use vstd::prelude::*;

verus! {

/// Which voxel of which body touched which voxel of what.
///
/// Stable from tick to tick while the touch persists, which is what warm starting
/// keys on. `other` names the world or the body on the far side, so an impulse
/// cannot be carried over to a different neighbour.
#[derive(Clone, Copy, PartialEq, Eq, PartialOrd, Ord, Hash, Debug)]
pub struct ContactKey {
    /// The world, or the other body.
    pub other: BodyId,
    /// The voxel of the body this contact belongs to.
    pub mine: [u32; 3],
    /// The voxel of `other`. Against the world, its world-space coordinate, which
    /// is never negative where a contact can be.
    pub theirs: [u32; 3],
}

/// A key as seven numbers, the first of which counts most.
pub open spec fn digits(key: ContactKey) -> Seq<int> {
    seq![
        key.other.0 as int,
        key.mine@[0] as int,
        key.mine@[1] as int,
        key.mine@[2] as int,
        key.theirs@[0] as int,
        key.theirs@[1] as int,
        key.theirs@[2] as int,
    ]
}

/// Whether numbers come before others of the same count: the first that differ
/// decide.
pub open spec fn comes_before(a: Seq<int>, b: Seq<int>) -> bool {
    exists|k: int|
        0 <= k < a.len() && #[trigger] a[k] < b[k] && forall|l: int|
            0 <= l < k ==> #[trigger] a[l] == b[l]
}

/// The digits that count most, as one number.
spec fn upper(key: ContactKey) -> int {
    key.other.0 * 0x1_0000_0000_0000_0000 + key.mine@[0] * 0x1_0000_0000 + key.mine@[1]
}

/// The rest, as another.
spec fn lower(key: ContactKey) -> int {
    key.mine@[2] * 0x1_0000_0000_0000_0000_0000_0000 + key.theirs@[0] * 0x1_0000_0000_0000_0000
        + key.theirs@[1] * 0x1_0000_0000 + key.theirs@[2]
}

fn upper_of(key: &ContactKey) -> (v: u128)
    ensures
        v == upper(*key),
{
    key.other.0 as u128 * 0x1_0000_0000_0000_0000 + key.mine[0] as u128 * 0x1_0000_0000
        + key.mine[1] as u128
}

fn lower_of(key: &ContactKey) -> (v: u128)
    ensures
        v == lower(*key),
{
    key.mine[2] as u128 * 0x1_0000_0000_0000_0000_0000_0000 + key.theirs[0] as u128
        * 0x1_0000_0000_0000_0000 + key.theirs[1] as u128 * 0x1_0000_0000 + key.theirs[2] as u128
}

/// All digits, as one number.
#[verifier::opaque]
spec fn number(key: ContactKey) -> int {
    upper(key) * 0x1_0000_0000_0000_0000_0000_0000_0000_0000 + lower(key)
}

/// The numbers of keys.
spec fn numbers(keys: Seq<ContactKey>) -> Seq<int> {
    Seq::new(keys.len(), |i: int| number(keys[i]))
}

/// A key's number orders it as its digits do.
proof fn lemma_number(a: ContactKey, b: ContactKey)
    ensures
        number(a) == number(b) <==> digits(a) == digits(b),
        number(a) < number(b) ==> comes_before(digits(a), digits(b)),
        number(a) == number(b) <==> upper(a) == upper(b) && lower(a) == lower(b),
        number(a) < number(b) <==> upper(a) < upper(b) || (upper(a) == upper(b) && lower(a) < lower(
            b,
        )),
{
    reveal(number);
    let (x, y) = (digits(a), digits(b));
    if number(a) == number(b) {
        assert(x =~= y);
    }
    if x == y {
        assert(x[0] == y[0] && x[1] == y[1] && x[2] == y[2] && x[3] == y[3] && x[4] == y[4] && x[5]
            == y[5] && x[6] == y[6]);
    }
    if upper(a) < upper(b) {
        if x[0] < y[0] {
        } else if x[1] < y[1] {
            assert(x[0] == y[0]);
        } else {
            assert(x[0] == y[0] && x[1] == y[1]);
            assert(x[2] < y[2]);
        }
    } else if upper(a) == upper(b) && lower(a) < lower(b) {
        assert(x[0] == y[0] && x[1] == y[1] && x[2] == y[2]);
        if x[3] < y[3] {
        } else if x[4] < y[4] {
            assert(x[3] == y[3]);
        } else if x[5] < y[5] {
            assert(x[3] == y[3] && x[4] == y[4]);
        } else {
            assert(x[3] == y[3] && x[4] == y[4] && x[5] == y[5]);
            assert(x[6] < y[6]);
        }
    }
}

/// Which of the touches found are kept: of each key the first, in key order, so
/// the solver is deterministic. When two searches find the same voxel pair, the
/// first stands.
pub fn first_of_each(keys: &[ContactKey]) -> (kept: Vec<usize>)
    ensures
        keeps_firsts(keys@, kept@),
{
    let n: usize = keys.len();
    // By the digits that count least first, and then, stably, by the rest.
    let mut low: Vec<u128> = Vec::new();
    for i in 0..n
        invariant
            n == keys@.len(),
            low@.len() == i,
            forall|k: int| 0 <= k < i ==> #[trigger] low@[k] == lower(keys@[k]),
    {
        low.push(lower_of(&keys[i]));
    }
    let by_low = sorted_order(&low);
    let mut high: Vec<u128> = Vec::new();
    for i in 0..n
        invariant
            n == keys@.len() == by_low@.len() == low@.len(),
            is_order(low@, by_low@),
            high@.len() == i,
            forall|k: int| 0 <= k < i ==> #[trigger] high@[k] == upper(keys@[by_low@[k] as int]),
    {
        high.push(upper_of(&keys[by_low[i]]));
    }
    let by_high = sorted_order(&high);
    let ghost nums = numbers(keys@);
    let mut order: Vec<usize> = Vec::new();
    for i in 0..n
        invariant
            n == keys@.len() == by_low@.len() == by_high@.len() == low@.len() == high@.len(),
            is_order(low@, by_low@),
            is_order(high@, by_high@),
            order@.len() == i,
            forall|k: int|
                0 <= k < i ==> #[trigger] order@[k] == by_low@[by_high@[k] as int] && order@[k] < n,
    {
        proof {
            assert(by_high@[i as int] < high@.len());
            assert(by_low@[by_high@[i as int] as int] < n);
        }
        order.push(by_low[by_high[i]]);
    }
    proof {
        assert forall|k: int, l: int| 0 <= k < l < n implies in_turn(
            nums,
            #[trigger] order@[k] as int,
            #[trigger] order@[l] as int,
        ) by {
            let (p, q) = (by_high@[k] as int, by_high@[l] as int);
            assert(stands_before(high@, p, q));
            assert(high@[p] == upper(keys@[by_low@[p] as int]));
            assert(high@[q] == upper(keys@[by_low@[q] as int]));
            if high@[p] == high@[q] {
                assert(stands_before(low@, by_low@[p] as int, by_low@[q] as int));
            }
            lemma_number(keys@[order@[k] as int], keys@[order@[l] as int]);
        }
        assert forall|i: int| 0 <= i < n implies #[trigger] holds(order@, i) by {
            assert(holds(by_low@, i));
            let p = choose|p: int| 0 <= p < by_low@.len() && #[trigger] by_low@[p] == i;
            assert(holds(by_high@, p));
            let k = choose|k: int| 0 <= k < by_high@.len() && #[trigger] by_high@[k] == p;
            assert(order@[k] == i);
        }
        assert(in_turns(nums, order@));
    }
    let mut kept: Vec<usize> = Vec::new();
    for i in 0..n
        invariant
            n == keys@.len() == order@.len(),
            nums == numbers(keys@),
            in_turns(nums, order@),
            keeping(nums, order@, kept@, i as int),
    {
        let at: usize = order[i];
        let ghost had = kept@;
        proof {
            assert(order@[i as int] < n);
        }
        let fresh = if i == 0 {
            true
        } else {
            let prior: usize = order[i - 1];
            proof {
                assert(order@[i - 1] < n);
                lemma_number(keys@[prior as int], keys@[at as int]);
            }
            upper_of(&keys[prior]) != upper_of(&keys[at]) || lower_of(&keys[prior]) != lower_of(
                &keys[at],
            )
        };
        if fresh {
            kept.push(at);
        }
        proof {
            lemma_keep(nums, order@, had, i as int, fresh);
        }
    }
    proof {
        lemma_kept(keys@, order@, kept@);
    }
    kept
}

/// Smaller numbers first, and of the same number the one that came first.
spec fn in_turn(nums: Seq<int>, a: int, b: int) -> bool {
    nums[a] < nums[b] || (nums[a] == nums[b] && a < b)
}

/// Every place once, in turn.
spec fn in_turns(nums: Seq<int>, order: Seq<usize>) -> bool {
    &&& order.len() == nums.len()
    &&& forall|k: int| 0 <= k < order.len() ==> #[trigger] order[k] < order.len()
    &&& forall|k: int, l: int|
        0 <= k < l < order.len() ==> in_turn(
            nums,
            #[trigger] order[k] as int,
            #[trigger] order[l] as int,
        )
    &&& forall|i: int| 0 <= i < nums.len() ==> #[trigger] holds(order, i)
}

/// Whether a number is kept from before a place: the first that holds it.
spec fn first_place(nums: Seq<int>, order: Seq<usize>, q: int) -> bool {
    forall|p: int| 0 <= p < q ==> nums[#[trigger] order[p] as int] != nums[order[q] as int]
}

/// Whether what was kept comes from a first place before `i`.
spec fn kept_from(nums: Seq<int>, order: Seq<usize>, i: int, at: usize) -> bool {
    exists|q: int| 0 <= q < i && #[trigger] first_place(nums, order, q) && order[q] == at
}

/// Whether a number has been kept.
spec fn has_number(nums: Seq<int>, kept: Seq<usize>, num: int) -> bool {
    exists|k: int| 0 <= k < kept.len() && nums[#[trigger] kept[k] as int] == num
}

/// What has been kept of the first `i` places.
spec fn keeping(nums: Seq<int>, order: Seq<usize>, kept: Seq<usize>, i: int) -> bool {
    &&& forall|k: int| 0 <= k < kept.len() ==> kept_from(nums, order, i, #[trigger] kept[k])
    &&& forall|k: int, l: int|
        0 <= k < l < kept.len() ==> nums[#[trigger] kept[k] as int] < nums[#[trigger] kept[l] as int]
    &&& forall|p: int| 0 <= p < i ==> has_number(nums, kept, nums[#[trigger] order[p] as int])
}

proof fn lemma_keep(nums: Seq<int>, order: Seq<usize>, kept: Seq<usize>, i: int, fresh: bool)
    requires
        in_turns(nums, order),
        0 <= i < order.len(),
        keeping(nums, order, kept, i),
        fresh <==> i == 0 || nums[order[i - 1] as int] != nums[order[i] as int],
    ensures
        fresh ==> keeping(nums, order, kept.push(order[i]), i + 1),
        !fresh ==> keeping(nums, order, kept, i + 1),
{
    let then = if fresh {
        kept.push(order[i])
    } else {
        kept
    };
    if fresh {
        assert(first_place(nums, order, i)) by {
            assert forall|p: int| 0 <= p < i implies nums[#[trigger] order[p] as int]
                != nums[order[i] as int] by {
                assert(in_turn(nums, order[i - 1] as int, order[i] as int));
                if p < i - 1 {
                    assert(in_turn(nums, order[p] as int, order[i - 1] as int));
                }
            }
        }
    }
    assert forall|k: int| 0 <= k < then.len() implies kept_from(
        nums,
        order,
        i + 1,
        #[trigger] then[k],
    ) by {
        if k < kept.len() {
            assert(kept_from(nums, order, i, kept[k]));
            let q = choose|q: int|
                0 <= q < i && #[trigger] first_place(nums, order, q) && order[q] == kept[k];
            assert(first_place(nums, order, q));
        } else {
            assert(first_place(nums, order, i));
        }
    }
    assert forall|k: int, l: int| 0 <= k < l < then.len() implies nums[#[trigger] then[k] as int]
        < nums[#[trigger] then[l] as int] by {
        assert(then[k] == kept[k]);
        if l < kept.len() {
            assert(then[l] == kept[l]);
        } else {
            assert(kept_from(nums, order, i, kept[k]));
            let q = choose|q: int|
                0 <= q < i && #[trigger] first_place(nums, order, q) && order[q] == kept[k];
            assert(in_turn(nums, order[q] as int, order[i] as int));
            assert(nums[order[q] as int] != nums[order[i] as int]);
        }
    }
    assert forall|p: int| 0 <= p < i + 1 implies has_number(
        nums,
        then,
        nums[#[trigger] order[p] as int],
    ) by {
        if p == i && fresh {
            assert(then[kept.len() as int] == order[i]);
        } else {
            let at = if p < i {
                p
            } else {
                i - 1
            };
            assert(has_number(nums, kept, nums[order[at] as int]));
            let k = choose|k: int|
                0 <= k < kept.len() && nums[#[trigger] kept[k] as int] == nums[order[at] as int];
            assert(then[k] == kept[k]);
        }
    }
}

/// What has been kept in the end.
proof fn lemma_kept(keys: Seq<ContactKey>, order: Seq<usize>, kept: Seq<usize>)
    requires
        in_turns(numbers(keys), order),
        keeping(numbers(keys), order, kept, order.len() as int),
    ensures
        keeps_firsts(keys, kept),
{
    let nums = numbers(keys);
    assert forall|k: int| 0 <= k < kept.len() implies #[trigger] kept[k] < keys.len() by {
        assert(kept_from(nums, order, order.len() as int, kept[k]));
    }
    assert forall|k: int, i: int| 0 <= k < kept.len() && 0 <= i < kept[k] implies digits(
        #[trigger] keys[i],
    ) != digits(keys[#[trigger] kept[k] as int]) by {
        assert(kept[k] < keys.len());
        assert(kept_from(nums, order, order.len() as int, kept[k]));
        let q = choose|q: int|
            0 <= q < order.len() && #[trigger] first_place(nums, order, q) && order[q] == kept[k];
        assert(holds(order, i));
        let p = choose|p: int| 0 <= p < order.len() && #[trigger] order[p] == i;
        lemma_number(keys[i], keys[kept[k] as int]);
        if number(keys[i]) == number(keys[kept[k] as int]) {
            assert(nums[i] == nums[kept[k] as int]);
            if p < q {
                assert(nums[order[p] as int] != nums[order[q] as int]);
            } else if q < p {
                assert(in_turn(nums, order[q] as int, order[p] as int));
            }
        }
    }
    assert forall|k: int, l: int| 0 <= k < l < kept.len() implies comes_before(
        digits(keys[#[trigger] kept[k] as int]),
        digits(keys[#[trigger] kept[l] as int]),
    ) by {
        assert(kept[k] < keys.len() && kept[l] < keys.len());
        assert(nums[kept[k] as int] < nums[kept[l] as int]);
        lemma_number(keys[kept[k] as int], keys[kept[l] as int]);
    }
    assert forall|i: int| 0 <= i < keys.len() implies #[trigger] keeps_key(keys, kept, i) by {
        assert(holds(order, i));
        let p = choose|p: int| 0 <= p < order.len() && #[trigger] order[p] == i;
        assert(has_number(nums, kept, nums[order[p] as int]));
        let k = choose|k: int| 0 <= k < kept.len() && nums[#[trigger] kept[k] as int] == nums[i];
        assert(kept[k] < keys.len());
        lemma_number(keys[kept[k] as int], keys[i]);
        assert(digits(keys[kept[k] as int]) == digits(keys[i]));
    }
}

/// Whether what was kept holds a touch with the same key.
pub open spec fn keeps_key(keys: Seq<ContactKey>, kept: Seq<usize>, i: int) -> bool {
    exists|k: int|
        0 <= k < kept.len() && digits(keys[#[trigger] kept[k] as int]) == digits(keys[i])
}

/// Whether what was kept is the first touch of every key, in key order.
pub open spec fn keeps_firsts(keys: Seq<ContactKey>, kept: Seq<usize>) -> bool {
    &&& forall|k: int| 0 <= k < kept.len() ==> #[trigger] kept[k] < keys.len()
    &&& forall|k: int, i: int|
        0 <= k < kept.len() && 0 <= i < kept[k] ==> digits(#[trigger] keys[i]) != digits(
            keys[#[trigger] kept[k] as int],
        )
    &&& forall|k: int, l: int|
        0 <= k < l < kept.len() ==> comes_before(
            digits(keys[#[trigger] kept[k] as int]),
            digits(keys[#[trigger] kept[l] as int]),
        )
    &&& forall|i: int| 0 <= i < keys.len() ==> #[trigger] keeps_key(keys, kept, i)
}

/// The places around one, within `reach` of it along each axis: x varies fastest,
/// then y, then z.
pub open spec fn around(centre: IVec3, reach: int, i: int) -> IVec3 {
    let d = cell_stored(2 * reach + 1, i);
    IVec3 {
        x: (centre.x - reach + d.x) as i32,
        y: (centre.y - reach + d.y) as i32,
        z: (centre.z - reach + d.z) as i32,
    }
}

/// A solid voxel and its shape.
pub open spec fn shaped(tree: Contree, p: IVec3) -> (UVec3, Shape) {
    (
        UVec3 { x: p.x as u32, y: p.y as u32, z: p.z as u32 },
        shape_of(solid_in_volume(tree), p),
    )
}

/// The solid voxels among the first `n` places around one, with their shapes.
pub open spec fn solids_around(tree: Contree, centre: IVec3, reach: int, n: int) -> Seq<
    (UVec3, Shape),
>
    decreases n,
{
    if n <= 0 {
        Seq::empty()
    } else {
        let before = solids_around(tree, centre, reach, n - 1);
        let p = around(centre, reach, n - 1);
        if is_solid(tree, p) {
            before.push(shaped(tree, p))
        } else {
            before
        }
    }
}

/// Whether every place within `reach` of one has coordinates.
pub open spec fn in_reach(centre: IVec3, reach: int) -> bool {
    &&& i32::MIN <= centre.x - reach && centre.x + reach <= i32::MAX
    &&& i32::MIN <= centre.y - reach && centre.y + reach <= i32::MAX
    &&& i32::MIN <= centre.z - reach && centre.z + reach <= i32::MAX
}

/// The cells of a cube can be counted.
pub(crate) proof fn lemma_cube_cells(n: int)
    requires
        1 <= n <= u32::MAX,
    ensures
        0 < n * n <= u64::MAX,
        0 < n * n * n <= u128::MAX,
        n * n * n == cell_count(n),
{
    assert(0 < n * n <= u32::MAX * u32::MAX) by (nonlinear_arith)
        requires
            1 <= n <= u32::MAX,
    ;
    assert(0 < n * n * n <= u32::MAX * u32::MAX * u32::MAX) by (nonlinear_arith)
        requires
            1 <= n <= u32::MAX,
    ;
}

/// Every solid voxel within `reach` of a place, with its shape: what a corner
/// there is tested against.
pub fn near_solids(tree: &Contree, centre: IVec3, reach: u32) -> (out: Vec<(UVec3, Shape)>)
    requires
        tree.readable(),
        in_reach(centre, reach as int),
    ensures
        out@ == solids_around(*tree, centre, reach as int, cell_count(2 * reach + 1)),
{
    let ghost t = *tree;
    let mut out: Vec<(UVec3, Shape)> = Vec::new();
    let n: u128 = 2 * (reach as u128) + 1;
    proof {
        lemma_cube_cells(n as int);
    }
    let count: u128 = n * n * n;
    for i in 0..count
        invariant
            t == *tree,
            tree.readable(),
            n == 2 * reach + 1,
            in_reach(centre, reach as int),
            count == cell_count(n as int),
            out@ == solids_around(t, centre, reach as int, i as int),
    {
        proof {
            reveal(cell_stored);
            lemma_stored(n as int, i as int);
        }
        let dx: u32 = (i % n) as u32;
        let dy: u32 = ((i / n) % n) as u32;
        let dz: u32 = ((i / n) / n) as u32;
        let r: i64 = reach as i64;
        let p = IVec3::new(
            (centre.x as i64 - r + dx as i64) as i32,
            (centre.y as i64 - r + dy as i64) as i32,
            (centre.z as i64 - r + dz as i64) as i32,
        );
        assert(p == around(centre, reach as int, i as int));
        if solid_at(tree, p) {
            proof {
                lemma_extent_levels(tree.height());
                if tree.height() < 14 {
                    lemma_extent_strict(tree.height(), 14);
                }
            }
            let shape = shape_in(tree, p);
            out.push((UVec3::new(p.x as u32, p.y as u32, p.z as u32), shape));
        }
    }
    out
}

/// The shape of a solid voxel of a tree.
fn shape_in(tree: &Contree, p: IVec3) -> (shape: Shape)
    requires
        tree.readable(),
        i32::MIN < p.x < i32::MAX,
        i32::MIN < p.y < i32::MAX,
        i32::MIN < p.z < i32::MAX,
    ensures
        shape == shape_of(solid_in_volume(*tree), p),
{
    let solid = |q: IVec3| -> (b: bool)
        requires
            tree.readable(),
        ensures
            b == is_solid(*tree, q),
        { solid_at(tree, q) };
    let ghost says = solid_in_volume(*tree);
    let shape = classify(solid, p);
    assert(answers(solid, says));
    shape
}

/// Those of some voxels that are edges, with the axis each runs along.
pub open spec fn edges_among(solids: Seq<(UVec3, Shape)>) -> Seq<(UVec3, usize)>
    decreases solids.len(),
{
    if solids.len() == 0 {
        Seq::empty()
    } else {
        let before = edges_among(solids.drop_last());
        match solids.last().1 {
            Shape::Edge(axis) => before.push((solids.last().0, axis)),
            _ => before,
        }
    }
}

/// Every edge voxel within `reach` of a place: what an edge there is tested
/// against.
pub fn near_edges(tree: &Contree, centre: IVec3, reach: u32) -> (out: Vec<(UVec3, usize)>)
    requires
        tree.readable(),
        in_reach(centre, reach as int),
    ensures
        out@ == edges_among(solids_around(*tree, centre, reach as int, cell_count(2 * reach + 1))),
{
    let solids = near_solids(tree, centre, reach);
    let mut out: Vec<(UVec3, usize)> = Vec::new();
    proof {
        assert(solids@.take(0) =~= Seq::empty());
    }
    for i in 0..solids.len()
        invariant
            out@ == edges_among(solids@.take(i as int)),
    {
        let (p, shape) = solids[i];
        proof {
            assert(solids@.take(i + 1).drop_last() =~= solids@.take(i as int));
            assert(solids@.take(i + 1).last() == solids@[i as int]);
        }
        if let Shape::Edge(axis) = shape {
            out.push((p, axis));
        }
    }
    assert(solids@.take(solids@.len() as int) =~= solids@);
    out
}

/// Whether a voxel is a solid corner inside a box, minimum inclusive and maximum
/// exclusive.
pub open spec fn corner_in_box(tree: Contree, lo: IVec3, hi: IVec3, p: UVec3) -> bool {
    &&& lo.x <= p.x < hi.x
    &&& lo.y <= p.y < hi.y
    &&& lo.z <= p.z < hi.z
    &&& solid_in_tree(tree)(p)
    &&& voxel_shape(tree, p) == Shape::Corner
}

/// Every corner voxel of a tree in a box, clipped to the tree: by z, then y, then
/// x. What a body's voxels are tested against.
pub fn corners_in_box(tree: &Contree, lo: IVec3, hi: IVec3) -> (out: Vec<UVec3>)
    requires
        tree.readable(),
    ensures
        forall|p: UVec3| #[trigger] out@.contains(p) <==> corner_in_box(*tree, lo, hi, p),
        in_order(out@),
{
    let ghost t = *tree;
    proof {
        lemma_extent_levels(tree.height());
        if tree.height() < 14 {
            lemma_extent_strict(tree.height(), 14);
        }
    }
    let extent: i32 = tree.extent() as i32;
    let (x0, x1) = clip(lo.x, hi.x, extent);
    let (y0, y1) = clip(lo.y, hi.y, extent);
    let (z0, z1) = clip(lo.z, hi.z, extent);
    let mut out: Vec<UVec3> = Vec::new();
    let mut z: i32 = z0;
    while z < z1
        invariant
            t == *tree,
            tree.readable(),
            0 <= x0 && x1 <= t.side() <= 0x4000_0000,
            0 <= y0 && y1 <= t.side(),
            0 <= z0 && z1 <= t.side(),
            z0 <= z,
            z <= z1 || z == z0,
            clipped(lo, hi, t.side(), x0, x1, y0, y1, z0, z1),
            corners_before(t, lo, hi, out@, x0 as int, y0 as int, z as int),
        decreases
                if z < z1 {
                    z1 - z
                } else {
                    0
                },
    {
        let mut y: i32 = y0;
        while y < y1
            invariant
                t == *tree,
                tree.readable(),
                0 <= x0 && x1 <= t.side() <= 0x4000_0000,
                0 <= y0 && y1 <= t.side(),
                0 <= z0 && z1 <= t.side(),
                z0 <= z < z1,
                y0 <= y,
                y <= y1 || y == y0,
                clipped(lo, hi, t.side(), x0, x1, y0, y1, z0, z1),
                corners_before(t, lo, hi, out@, x0 as int, y as int, z as int),
            decreases
                    if y < y1 {
                        y1 - y
                    } else {
                        0
                    },
        {
            let mut x: i32 = x0;
            while x < x1
                invariant
                    t == *tree,
                    tree.readable(),
                    0 <= x0 && x1 <= t.side() <= 0x4000_0000,
                    0 <= y0 && y1 <= t.side(),
                    0 <= z0 && z1 <= t.side(),
                    z0 <= z < z1,
                    y0 <= y < y1,
                    x0 <= x,
                    x <= x1 || x == x0,
                    clipped(lo, hi, t.side(), x0, x1, y0, y1, z0, z1),
                    corners_before(t, lo, hi, out@, x as int, y as int, z as int),
                decreases
                        if x < x1 {
                            x1 - x
                        } else {
                            0
                        },
            {
                let at = IVec3::new(x, y, z);
                let p = UVec3::new(x as u32, y as u32, z as u32);
                let ghost had = out@;
                let mut found = false;
                if solid_at(tree, at) {
                    let shape = shape_in(tree, at);
                    match shape {
                        Shape::Corner => {
                            found = true;
                        },
                        _ => {},
                    }
                }
                proof {
                    assert(p.within(t.side()));
                    assert(found <==> corner_in_box(t, lo, hi, p));
                }
                if found {
                    out.push(p);
                }
                proof {
                    lemma_corner_step(t, lo, hi, had, p, found);
                }
                x = x + 1;
            }
            y = y + 1;
        }
        z = z + 1;
    }
    out
}

/// The part of a range inside a volume.
fn clip(lo: i32, hi: i32, extent: i32) -> (r: (i32, i32))
    ensures
        r.0 == if lo < 0 {
            0
        } else {
            lo
        },
        r.1 == if hi > extent {
            extent
        } else {
            hi
        },
{
    let a: i32 = if lo < 0 {
        0
    } else {
        lo
    };
    let b: i32 = if hi > extent {
        extent
    } else {
        hi
    };
    (a, b)
}

/// Whether a box was clipped to a volume.
spec fn clipped(
    lo: IVec3,
    hi: IVec3,
    side: int,
    x0: i32,
    x1: i32,
    y0: i32,
    y1: i32,
    z0: i32,
    z1: i32,
) -> bool {
    forall|p: UVec3| #[trigger]
        p.within(side) && lo.x <= p.x < hi.x && lo.y <= p.y < hi.y && lo.z <= p.z < hi.z <==> x0
            <= p.x < x1 && y0 <= p.y < y1 && z0 <= p.z < z1
}

/// The corners found before a place, in order.
spec fn corners_before(
    tree: Contree,
    lo: IVec3,
    hi: IVec3,
    out: Seq<UVec3>,
    x: int,
    y: int,
    z: int,
) -> bool {
    &&& in_order(out)
    &&& forall|p: UVec3| #[trigger]
        out.contains(p) <==> corner_in_box(tree, lo, hi, p) && passed(p, x, y, z)
}

/// Whether a scan by z, then y, then x has passed a voxel.
spec fn passed(p: UVec3, x: int, y: int, z: int) -> bool {
    p.z < z || (p.z == z && (p.y < y || (p.y == y && p.x < x)))
}

proof fn lemma_corner_step(
    tree: Contree,
    lo: IVec3,
    hi: IVec3,
    out: Seq<UVec3>,
    p: UVec3,
    found: bool,
)
    requires
        corners_before(tree, lo, hi, out, p.x as int, p.y as int, p.z as int),
        found <==> corner_in_box(tree, lo, hi, p),
    ensures
        found ==> corners_before(tree, lo, hi, out.push(p), p.x + 1, p.y as int, p.z as int),
        !found ==> corners_before(tree, lo, hi, out, p.x + 1, p.y as int, p.z as int),
{
    let then = if found {
        out.push(p)
    } else {
        out
    };
    assert forall|q: UVec3| #[trigger] then.contains(q) <==> corner_in_box(tree, lo, hi, q)
        && passed(q, p.x + 1, p.y as int, p.z as int) by {
        if then.contains(q) {
            let k = choose|k: int| 0 <= k < then.len() && then[k] == q;
            if k < out.len() {
                assert(out[k] == q);
                assert(out.contains(q));
            }
        }
        if corner_in_box(tree, lo, hi, q) && passed(q, p.x + 1, p.y as int, p.z as int) {
            if q == p {
                assert(then[out.len() as int] == p);
            } else {
                assert(passed(q, p.x as int, p.y as int, p.z as int));
                assert(out.contains(q));
                let k = choose|k: int| 0 <= k < out.len() && out[k] == q;
                assert(then[k] == q);
            }
        }
    }
    assert forall|i: int, j: int| 0 <= i < j < then.len() implies before(
        #[trigger] then[i],
        #[trigger] then[j],
    ) by {
        if j == out.len() {
            assert(out.contains(out[i]));
        } else {
            assert(before(out[i], out[j]));
        }
    }
}

/// Which side of a face voxel owns a touch, if one does: the open one, or the one
/// the touch is on where both are. `true` is the positive side, and `above` tells
/// that the touch is not below the voxel's middle.
pub fn facing(open_plus: bool, open_minus: bool, above: bool) -> (side: Option<bool>)
    ensures
        side == match (open_plus, open_minus) {
            (true, true) => Some(above),
            (true, false) => Some(true),
            (false, true) => Some(false),
            (false, false) => None,
        },
        side == Some(true) ==> open_plus,
        side == Some(false) ==> open_minus,
        side is None <==> !open_plus && !open_minus,
        open_plus && open_minus ==> side == Some(above),
{
    if open_plus && (!open_minus || above) {
        Some(true)
    } else if open_minus {
        Some(false)
    } else {
        None
    }
}

/// A grid whose cells a `u32` can count is not long.
proof fn lemma_few_cells(edge: int)
    requires
        1 <= edge,
        cell_count(edge) <= u32::MAX,
    ensures
        edge < 0x800,
{
    if edge >= 0x800 {
        assert(edge * edge >= 0x800 * 0x800) by (nonlinear_arith)
            requires
                edge >= 0x800,
        ;
        assert(edge * edge * edge >= 0x800 * 0x800 * 0x800) by (nonlinear_arith)
            requires
                edge >= 0x800,
                edge * edge >= 0x800 * 0x800,
        ;
    }
}

/// The box around a cell that the distance field promises is empty, in voxels,
/// minimum inclusive and maximum exclusive. `None` where it promises nothing.
///
/// A cell `d` cells from the nearest solid cell promises that every cell within
/// `d - 1` of it is empty.
pub fn free_box(field: &DistanceField, cell: IVec3) -> (free: Option<(IVec3, IVec3)>)
    requires
        field.wf(),
    ensures
        free == promised(*field, cell),
{
    if cell.x < 0 || cell.y < 0 || cell.z < 0 {
        return None;
    }
    let at = UVec3::new(cell.x as u32, cell.y as u32, cell.z as u32);
    let d: i32 = field.get(at) as i32;
    if d == 0 {
        return None;
    }
    proof {
        assert(at.within(field.span() as int));
        lemma_few_cells(field.span() as int);
    }
    let size: i32 = CELL_VOXELS as i32;
    let lo = IVec3::new(
        (cell.x - (d - 1)) * size,
        (cell.y - (d - 1)) * size,
        (cell.z - (d - 1)) * size,
    );
    let hi = IVec3::new((cell.x + d) * size, (cell.y + d) * size, (cell.z + d) * size);
    Some((lo, hi))
}

/// What the field promises around a cell.
pub open spec fn promised(field: DistanceField, cell: IVec3) -> Option<(IVec3, IVec3)> {
    let at = UVec3 { x: cell.x as u32, y: cell.y as u32, z: cell.z as u32 };
    let d = value(field.grid(), field.span() as int, at);
    if cell.x < 0 || cell.y < 0 || cell.z < 0 || !at.within(field.span() as int) || d == 0 {
        None
    } else {
        Some(
            (
                IVec3 {
                    x: (16 * (cell.x - (d - 1))) as i32,
                    y: (16 * (cell.y - (d - 1))) as i32,
                    z: (16 * (cell.z - (d - 1))) as i32,
                },
                IVec3 {
                    x: (16 * (cell.x + d)) as i32,
                    y: (16 * (cell.y + d)) as i32,
                    z: (16 * (cell.z + d)) as i32,
                },
            ),
        )
    }
}

/// What the field promises holds: no voxel of the tree in the box is solid.
pub proof fn law_a_promised_box_is_empty(
    field: DistanceField,
    tree: Contree,
    cell: IVec3,
    p: UVec3,
)
    requires
        conservative(field.grid(), field.span() as int, solid_cell(tree)),
        tree.side() <= 16 * field.span(),
        field.span() <= 0x400_0000,
        promised(field, cell) matches Some((lo, hi)) && lo.x <= p.x < hi.x && lo.y <= p.y < hi.y
            && lo.z <= p.z < hi.z,
    ensures
        !solid_in_tree(tree)(p),
{
    if solid_in_tree(tree)(p) {
        let at = UVec3 { x: cell.x as u32, y: cell.y as u32, z: cell.z as u32 };
        let n = voxel_cell(p);
        assert(solid_voxel(tree.field(), p));
        assert(solid_in(tree.field(), n, 0, 0, 0, tree.side()));
        assert(solid_cell(tree)(n));
        law_nearer_cells_are_empty(field, solid_cell(tree), at, n);
    }
}

/// Among the first `n` places around one stands a voxel that was found.
proof fn lemma_found_around(
    tree: Contree,
    centre: IVec3,
    reach: int,
    n: int,
    k: int,
) -> (i: int)
    requires
        0 <= k < solids_around(tree, centre, reach, n).len(),
    ensures
        0 <= i < n,
        is_solid(tree, around(centre, reach, i)),
        solids_around(tree, centre, reach, n)[k] == shaped(tree, around(centre, reach, i)),
        k < solids_around(tree, centre, reach, i + 1).len(),
        k >= solids_around(tree, centre, reach, i).len(),
    decreases n,
{
    let before = solids_around(tree, centre, reach, n - 1);
    if k < before.len() {
        lemma_found_around(tree, centre, reach, n - 1, k)
    } else {
        n - 1
    }
}

/// A solid voxel among the first `n` places is found.
proof fn lemma_around_found(tree: Contree, centre: IVec3, reach: int, n: int, i: int)
    requires
        0 <= i < n,
        is_solid(tree, around(centre, reach, i)),
    ensures
        solids_around(tree, centre, reach, n).contains(shaped(tree, around(centre, reach, i))),
    decreases n,
{
    let now = solids_around(tree, centre, reach, n);
    let before = solids_around(tree, centre, reach, n - 1);
    if i < n - 1 {
        lemma_around_found(tree, centre, reach, n - 1, i);
        let k = choose|k: int|
            0 <= k < before.len() && before[k] == shaped(tree, around(centre, reach, i));
        assert(now[k] == before[k]);
    } else {
        assert(now[before.len() as int] == shaped(tree, around(centre, reach, i)));
    }
}

/// The place with a number, told by its offsets.
pub proof fn lemma_around(centre: IVec3, reach: int, i: int)
    requires
        0 <= reach,
        in_reach(centre, reach),
        0 <= i < cell_count(2 * reach + 1),
    ensures
        ({
            let p = around(centre, reach, i);
            let e = 2 * reach + 1;
            &&& centre.x - reach <= p.x <= centre.x + reach
            &&& centre.y - reach <= p.y <= centre.y + reach
            &&& centre.z - reach <= p.z <= centre.z + reach
            &&& i == crate::grid::cell_index(
                e,
                p.x - centre.x + reach,
                p.y - centre.y + reach,
                p.z - centre.z + reach,
            )
        }),
{
    lemma_stored(2 * reach + 1, i);
}

/// Everything solid within reach is found with its shape, and nothing else is.
pub proof fn law_a_search_finds_the_solids_in_reach(
    tree: Contree,
    centre: IVec3,
    reach: int,
    p: UVec3,
    shape: Shape,
)
    requires
        tree.readable(),
        0 <= reach,
        in_reach(centre, reach),
    ensures
        solids_around(tree, centre, reach, cell_count(2 * reach + 1)).contains((p, shape)) <==> {
            &&& centre.x - reach <= p.x <= centre.x + reach
            &&& centre.y - reach <= p.y <= centre.y + reach
            &&& centre.z - reach <= p.z <= centre.z + reach
            &&& p.x < tree.side() && p.y < tree.side() && p.z < tree.side()
            &&& tree.at(p).0 != 0
            &&& shape == shape_of(
                solid_in_volume(tree),
                IVec3 { x: p.x as i32, y: p.y as i32, z: p.z as i32 },
            )
        },
{
    let e = 2 * reach + 1;
    let n = cell_count(e);
    let all = solids_around(tree, centre, reach, n);
    lemma_extent_levels(tree.height());
    if tree.height() < 14 {
        lemma_extent_strict(tree.height(), 14);
    }
    if all.contains((p, shape)) {
        let k = choose|k: int| 0 <= k < all.len() && all[k] == (p, shape);
        let i = lemma_found_around(tree, centre, reach, n, k);
        lemma_around(centre, reach, i);
    }
    if centre.x - reach <= p.x <= centre.x + reach && centre.y - reach <= p.y <= centre.y + reach
        && centre.z - reach <= p.z <= centre.z + reach && p.x < tree.side() && p.y < tree.side()
        && p.z < tree.side() && tree.at(p).0 != 0 && shape == shape_of(
        solid_in_volume(tree),
        IVec3 { x: p.x as i32, y: p.y as i32, z: p.z as i32 },
    ) {
        let c = UVec3 {
            x: (p.x - centre.x + reach) as u32,
            y: (p.y - centre.y + reach) as u32,
            z: (p.z - centre.z + reach) as u32,
        };
        let i = crate::grid::cell_index(e, c.x as int, c.y as int, c.z as int);
        crate::distance_field::lemma_stored_at(e, c);
        let q = IVec3 { x: p.x as i32, y: p.y as i32, z: p.z as i32 };
        assert(around(centre, reach, i) == q);
        lemma_around_found(tree, centre, reach, n, i);
    }
}

/// What a search finds comes by z, then y, then x, each voxel once.
pub proof fn law_a_search_finds_in_scan_order(
    tree: Contree,
    centre: IVec3,
    reach: int,
    k: int,
    l: int,
)
    requires
        tree.readable(),
        0 <= reach,
        in_reach(centre, reach),
        0 <= k < l < solids_around(tree, centre, reach, cell_count(2 * reach + 1)).len(),
    ensures
        ({
            let all = solids_around(tree, centre, reach, cell_count(2 * reach + 1));
            let (a, b) = (all[k].0, all[l].0);
            ||| a.z < b.z
            ||| a.z == b.z && a.y < b.y
            ||| a.z == b.z && a.y == b.y && a.x < b.x
        }),
{
    let e = 2 * reach + 1;
    let n = cell_count(e);
    let all = solids_around(tree, centre, reach, n);
    let i = lemma_found_around(tree, centre, reach, n, k);
    let j = lemma_found_around(tree, centre, reach, n, l);
    lemma_around(centre, reach, i);
    lemma_around(centre, reach, j);
    if j < i {
        lemma_more_around(tree, centre, reach, j + 1, i);
    } else if i == j {
        assert(solids_around(tree, centre, reach, i + 1).len() <= solids_around(
            tree,
            centre,
            reach,
            i,
        ).len() + 1);
    }
    let (p, q) = (around(centre, reach, i), around(centre, reach, j));
    crate::grid::law_cells_are_stored_by_layer_row_and_place(
        e,
        (p.x - centre.x + reach, p.y - centre.y + reach, p.z - centre.z + reach),
        (q.x - centre.x + reach, q.y - centre.y + reach, q.z - centre.z + reach),
    );
    lemma_extent_levels(tree.height());
    if tree.height() < 14 {
        lemma_extent_strict(tree.height(), 14);
    }
}

proof fn lemma_more_around(tree: Contree, centre: IVec3, reach: int, i: int, n: int)
    requires
        i <= n,
    ensures
        solids_around(tree, centre, reach, i).len() <= solids_around(
            tree,
            centre,
            reach,
            n,
        ).len(),
    decreases n - i,
{
    if i < n {
        lemma_more_around(tree, centre, reach, i, n - 1);
    }
}

/// The edges among voxels are those labelled as edges, in their order, each with the
/// axis of its label.
pub proof fn law_edges_are_those_labelled_so(solids: Seq<(UVec3, Shape)>)
    ensures
        edges_among(solids) == solids.filter(|s: (UVec3, Shape)| s.1 is Edge).map_values(
            |s: (UVec3, Shape)| (s.0, s.1->Edge_0),
        ),
    decreases solids.len(),
{
    let edge = |s: (UVec3, Shape)| s.1 is Edge;
    let run = |s: (UVec3, Shape)| (s.0, s.1->Edge_0);
    reveal(Seq::filter);
    if solids.len() == 0 {
        assert(solids.filter(edge).map_values(run) =~= Seq::empty());
    } else {
        let rest = solids.drop_last();
        law_edges_are_those_labelled_so(rest);
        assert(rest.filter(edge).push(solids.last()).map_values(run) =~= rest.filter(
            edge,
        ).map_values(run).push(run(solids.last())));
    }
}

/// A corner in a box is a solid voxel inside it with an open side along every axis.
pub proof fn law_a_corner_is_open_along_every_axis(
    tree: Contree,
    lo: IVec3,
    hi: IVec3,
    p: UVec3,
)
    ensures
        corner_in_box(tree, lo, hi, p) <==> {
            let q = IVec3 { x: p.x as i32, y: p.y as i32, z: p.z as i32 };
            &&& lo.x <= p.x && p.x < hi.x
            &&& lo.y <= p.y && p.y < hi.y
            &&& lo.z <= p.z && p.z < hi.z
            &&& p.x < tree.side() && p.y < tree.side() && p.z < tree.side()
            &&& tree.at(p).0 != 0
            &&& !is_solid(tree, IVec3 { x: (q.x + 1) as i32, ..q }) || !is_solid(
                tree,
                IVec3 { x: (q.x - 1) as i32, ..q },
            )
            &&& !is_solid(tree, IVec3 { y: (q.y + 1) as i32, ..q }) || !is_solid(
                tree,
                IVec3 { y: (q.y - 1) as i32, ..q },
            )
            &&& !is_solid(tree, IVec3 { z: (q.z + 1) as i32, ..q }) || !is_solid(
                tree,
                IVec3 { z: (q.z - 1) as i32, ..q },
            )
        },
{
    let q = IVec3 { x: p.x as i32, y: p.y as i32, z: p.z as i32 };
    crate::physics::classify::law_a_label_follows_from_the_neighbours(solid_in_volume(tree), q);
}

/// A touch that is kept is the first of its pair of voxels.
pub proof fn law_no_earlier_touch_of_the_pair_was_dropped(
    keys: Seq<ContactKey>,
    kept: Seq<usize>,
    k: int,
    i: int,
)
    requires
        keeps_firsts(keys, kept),
        0 <= k < kept.len(),
        0 <= i < kept[k],
    ensures
        kept[k] < keys.len(),
        keys[i].other != keys[kept[k] as int].other || keys[i].mine@ != keys[kept[k] as int].mine@
            || keys[i].theirs@ != keys[kept[k] as int].theirs@,
{
    assert(kept[k] < keys.len());
    assert(digits(keys[i]) != digits(keys[kept[k] as int]));
    lemma_same_digits(keys[i], keys[kept[k] as int]);
}

/// Every pair of voxels that touched is kept, by one of its touches.
pub proof fn law_every_pair_that_touched_is_kept(
    keys: Seq<ContactKey>,
    kept: Seq<usize>,
    i: int,
) -> (k: int)
    requires
        keeps_firsts(keys, kept),
        0 <= i < keys.len(),
    ensures
        0 <= k < kept.len(),
        kept[k] < keys.len(),
        keys[i].other == keys[kept[k] as int].other,
        keys[i].mine@ == keys[kept[k] as int].mine@,
        keys[i].theirs@ == keys[kept[k] as int].theirs@,
{
    assert(keeps_key(keys, kept, i));
    let k = choose|k: int|
        0 <= k < kept.len() && digits(keys[#[trigger] kept[k] as int]) == digits(keys[i]);
    lemma_same_digits(keys[i], keys[kept[k] as int]);
    assert(kept[k] < keys.len());
    k
}

proof fn lemma_same_digits(a: ContactKey, b: ContactKey)
    ensures
        digits(a) == digits(b) <==> a.other == b.other && a.mine@ == b.mine@ && a.theirs@
            == b.theirs@,
{
    let (x, y) = (digits(a), digits(b));
    if x == y {
        assert(x[0] == y[0] && x[1] == y[1] && x[2] == y[2] && x[3] == y[3] && x[4] == y[4] && x[5]
            == y[5] && x[6] == y[6]);
        assert(a.mine@ =~= b.mine@);
        assert(a.theirs@ =~= b.theirs@);
    }
}

/// What is kept comes by what was touched first, then by the body's own voxel, then by
/// the other's: a key is never followed by a smaller one.
pub proof fn law_touches_come_in_key_order(
    keys: Seq<ContactKey>,
    kept: Seq<usize>,
    k: int,
    l: int,
)
    requires
        keeps_firsts(keys, kept),
        0 <= k < l < kept.len(),
    ensures
        ({
            let (a, b) = (keys[kept[k] as int], keys[kept[l] as int]);
            let same_other = a.other.0 == b.other.0;
            let upto = |n: int| forall|i: int| 0 <= i < n ==> a.mine@[i] == #[trigger] b.mine@[i];
            ||| a.other.0 < b.other.0
            ||| same_other && a.mine@[0] < b.mine@[0]
            ||| same_other && upto(1) && a.mine@[1] < b.mine@[1]
            ||| same_other && upto(2) && a.mine@[2] < b.mine@[2]
            ||| same_other && upto(3) && a.theirs@[0] < b.theirs@[0]
            ||| same_other && upto(3) && a.theirs@[0] == b.theirs@[0] && a.theirs@[1] < b.theirs@[1]
            ||| same_other && upto(3) && a.theirs@[0] == b.theirs@[0] && a.theirs@[1]
                == b.theirs@[1] && a.theirs@[2] < b.theirs@[2]
        }),
{
    let (a, b) = (keys[kept[k] as int], keys[kept[l] as int]);
    let (x, y) = (digits(a), digits(b));
    assert(comes_before(x, y));
    let d = choose|d: int|
        0 <= d < x.len() && #[trigger] x[d] < y[d] && forall|e: int|
            0 <= e < d ==> #[trigger] x[e] == y[e];
    assert(d > 0 ==> x[0] == y[0]);
    assert(d > 1 ==> x[1] == y[1]);
    assert(d > 2 ==> x[2] == y[2]);
    assert(d > 3 ==> x[3] == y[3]);
    assert(d > 4 ==> x[4] == y[4]);
    assert(d > 5 ==> x[5] == y[5]);
}

/// A cell the field says is `d` cells from anything promises a box around it that
/// reaches `d - 1` whole cells to each side, and no cell promises more or less.
pub proof fn law_a_promise_reaches_as_far_as_the_distance_allows(
    field: DistanceField,
    cell: IVec3,
)
    requires
        field.wf(),
    ensures
        promised(field, cell) is Some <==> {
            &&& 0 <= cell.x < field.span()
            &&& 0 <= cell.y < field.span()
            &&& 0 <= cell.z < field.span()
            &&& value(
                field.grid(),
                field.span() as int,
                UVec3 { x: cell.x as u32, y: cell.y as u32, z: cell.z as u32 },
            ) > 0
        },
        promised(field, cell) matches Some((lo, hi)) ==> {
            let d = value(
                field.grid(),
                field.span() as int,
                UVec3 { x: cell.x as u32, y: cell.y as u32, z: cell.z as u32 },
            );
            &&& 16 * cell.x - lo.x == 16 * d - 16 && hi.x - 16 * cell.x == 16 * d
            &&& 16 * cell.y - lo.y == 16 * d - 16 && hi.y - 16 * cell.y == 16 * d
            &&& 16 * cell.z - lo.z == 16 * d - 16 && hi.z - 16 * cell.z == 16 * d
        },
{
    lemma_few_cells(field.span() as int);
}

} // verus!
