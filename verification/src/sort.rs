//! A stable order of indices by key.

use vstd::prelude::*;

verus! {

/// Index `a` stands before index `b`: a smaller key, or the same key and the
/// smaller index.
pub open spec fn stands_before(keys: Seq<u128>, a: int, b: int) -> bool {
    keys[a] < keys[b] || (keys[a] == keys[b] && a < b)
}

/// Every index of `keys`, once, in stable key order.
pub open spec fn is_order(keys: Seq<u128>, order: Seq<usize>) -> bool {
    is_run(keys, order, 0, keys.len() as int)
}

/// Whether an index occurs.
pub open spec fn holds(run: Seq<usize>, i: int) -> bool {
    exists|k: int| 0 <= k < run.len() && #[trigger] run[k] == i
}

/// Every index from `lo` to `hi`, once, in stable key order.
pub open spec fn is_run(keys: Seq<u128>, run: Seq<usize>, lo: int, hi: int) -> bool {
    &&& run.len() == hi - lo
    &&& forall|k: int| 0 <= k < run.len() ==> lo <= #[trigger] run[k] < hi
    &&& forall|i: int| lo <= i < hi ==> #[trigger] holds(run, i)
    &&& sorted_run(keys, run)
}

/// In strictly increasing order of key and index.
pub open spec fn sorted_run(keys: Seq<u128>, run: Seq<usize>) -> bool {
    forall|k: int, l: int|
        0 <= k < l < run.len() ==> stands_before(
            keys,
            #[trigger] run[k] as int,
            #[trigger] run[l] as int,
        )
}

/// The indices of `keys` in stable key order.
pub fn sorted_order(keys: &Vec<u128>) -> (order: Vec<usize>)
    ensures
        order@.len() == keys@.len(),
        is_order(keys@, order@),
{
    sort_between(keys, 0, keys.len())
}

fn sort_between(keys: &Vec<u128>, lo: usize, hi: usize) -> (run: Vec<usize>)
    requires
        lo <= hi <= keys@.len(),
    ensures
        is_run(keys@, run@, lo as int, hi as int),
    decreases hi - lo,
{
    let mut run: Vec<usize> = Vec::new();
    if hi - lo == 0 {
        return run;
    }
    if hi - lo == 1 {
        run.push(lo);
        assert(run@[0] == lo);
        return run;
    }
    let mid: usize = lo + (hi - lo) / 2;
    let left = sort_between(keys, lo, mid);
    let right = sort_between(keys, mid, hi);
    merge(keys, &left, &right, Ghost(lo as int), Ghost(mid as int), Ghost(hi as int))
}

/// Merges two runs, taking from the left one where the keys are equal.
fn merge(
    keys: &Vec<u128>,
    left: &Vec<usize>,
    right: &Vec<usize>,
    Ghost(lo): Ghost<int>,
    Ghost(mid): Ghost<int>,
    Ghost(hi): Ghost<int>,
) -> (run: Vec<usize>)
    requires
        0 <= lo <= mid <= hi <= keys@.len(),
        is_run(keys@, left@, lo, mid),
        is_run(keys@, right@, mid, hi),
    ensures
        is_run(keys@, run@, lo, hi),
{
    let mut run: Vec<usize> = Vec::new();
    let mut i: usize = 0;
    let mut j: usize = 0;
    let ghost mut from_left: Seq<int> = Seq::empty();
    let ghost mut from_right: Seq<int> = Seq::empty();
    while i < left.len() || j < right.len()
        invariant
            0 <= lo <= mid <= hi <= keys@.len(),
            is_run(keys@, left@, lo, mid),
            is_run(keys@, right@, mid, hi),
            i <= left@.len(),
            j <= right@.len(),
            run@.len() == i + j,
            sorted_run(keys@, run@),
            forall|k: int| 0 <= k < run@.len() ==> lo <= #[trigger] run@[k] < hi,
            forall|k: int, l: int|
                0 <= k < run@.len() && i <= l < left@.len() ==> stands_before(
                    keys@,
                    #[trigger] run@[k] as int,
                    #[trigger] left@[l] as int,
                ),
            forall|k: int, l: int|
                0 <= k < run@.len() && j <= l < right@.len() ==> stands_before(
                    keys@,
                    #[trigger] run@[k] as int,
                    #[trigger] right@[l] as int,
                ),
            from_left.len() == i,
            from_right.len() == j,
            forall|k: int|
                0 <= k < i ==> 0 <= #[trigger] from_left[k] < run@.len() && run@[from_left[k]]
                    == left@[k],
            forall|k: int|
                0 <= k < j ==> 0 <= #[trigger] from_right[k] < run@.len() && run@[from_right[k]]
                    == right@[k],
        decreases left@.len() - i + right@.len() - j,
    {
        let ghost before = run@;
        if j == right.len() || (i < left.len() && keys[left[i]] <= keys[right[j]]) {
            let next = left[i];
            run.push(next);
            proof {
                from_left = from_left.push(run@.len() - 1);
                assert forall|l: int| j <= l < right@.len() implies stands_before(
                    keys@,
                    next as int,
                    #[trigger] right@[l] as int,
                ) by {
                    assert(right@[l] >= mid && next < mid);
                    if l > j {
                        assert(stands_before(keys@, right@[j as int] as int, right@[l] as int));
                    }
                }
            }
            i = i + 1;
        } else {
            let next = right[j];
            run.push(next);
            proof {
                from_right = from_right.push(run@.len() - 1);
                assert forall|l: int| i <= l < left@.len() implies stands_before(
                    keys@,
                    next as int,
                    #[trigger] left@[l] as int,
                ) by {
                    if l > i {
                        assert(stands_before(keys@, left@[i as int] as int, left@[l] as int));
                    }
                }
            }
            j = j + 1;
        }
        assert(forall|k: int| 0 <= k < before.len() ==> #[trigger] run@[k] == before[k]);
    }
    proof {
        assert forall|v: int| lo <= v < hi implies #[trigger] holds(run@, v) by {
            if v < mid {
                assert(holds(left@, v));
                let k = choose|k: int| 0 <= k < left@.len() && #[trigger] left@[k] == v;
                assert(run@[from_left[k]] == v);
            } else {
                assert(holds(right@, v));
                let k = choose|k: int| 0 <= k < right@.len() && #[trigger] right@[k] == v;
                assert(run@[from_right[k]] == v);
            }
        }
    }
    run
}

/// An order lists every index once; keys never fall along it, and indices with the
/// same key keep their order.
pub proof fn law_an_order_is_sorted_and_stable(keys: Seq<u128>, order: Seq<usize>)
    requires
        is_order(keys, order),
    ensures
        order.len() == keys.len(),
        order.no_duplicates(),
        forall|i: usize| i < keys.len() ==> #[trigger] order.contains(i),
        forall|k: int, l: int|
            0 <= k < l < order.len() ==> keys[#[trigger] order[k] as int]
                <= keys[#[trigger] order[l] as int] && (keys[order[k] as int]
                == keys[order[l] as int] ==> order[k] < order[l]),
{
    assert forall|i: usize| i < keys.len() implies #[trigger] order.contains(i) by {
        assert(holds(order, i as int));
        let k = choose|k: int| 0 <= k < order.len() && #[trigger] order[k] == i;
        assert(order[k] == i);
    }
    assert forall|i: int, j: int| 0 <= i < order.len() && 0 <= j < order.len() && i
        != j implies order[i] != order[j] by {
        if i < j {
            assert(stands_before(keys, order[i] as int, order[j] as int));
        } else {
            assert(stands_before(keys, order[j] as int, order[i] as int));
        }
    }
    assert forall|k: int, l: int| 0 <= k < l < order.len() implies keys[#[trigger] order[k] as int]
        <= keys[#[trigger] order[l] as int] && (keys[order[k] as int] == keys[order[l] as int]
        ==> order[k] < order[l]) by {
        assert(stands_before(keys, order[k] as int, order[l] as int));
    }
}

} // verus!
