//! Which of some numbered things lead to which.

use vstd::prelude::*;

verus! {

/// Steps from each thing to the next, among the first `n`.
pub open spec fn is_path(edge: spec_fn(int, int) -> bool, n: int, path: Seq<int>) -> bool {
    &&& path.len() >= 1
    &&& forall|k: int| 0 <= k < path.len() ==> 0 <= #[trigger] path[k] < n
    &&& forall|k: int| 0 <= k < path.len() - 1 ==> edge(#[trigger] path[k], path[k + 1])
}

/// Whether steps lead from one thing to another.
pub open spec fn leads_to(edge: spec_fn(int, int) -> bool, n: int, a: int, b: int) -> bool {
    exists|path: Seq<int>| #[trigger] is_path(edge, n, path) && path[0] == a && path.last() == b
}

/// Everything leads to itself.
pub proof fn lemma_leads_self(edge: spec_fn(int, int) -> bool, n: int, a: int)
    requires
        0 <= a < n,
    ensures
        leads_to(edge, n, a, a),
{
    let path = seq![a];
    assert(is_path(edge, n, path));
}

/// One more step.
pub proof fn lemma_leads_step(edge: spec_fn(int, int) -> bool, n: int, a: int, b: int, c: int)
    requires
        leads_to(edge, n, a, b),
        edge(b, c),
        0 <= c < n,
    ensures
        leads_to(edge, n, a, c),
{
    let path = choose|path: Seq<int>| #[trigger]
        is_path(edge, n, path) && path[0] == a && path.last() == b;
    let more = path.push(c);
    assert forall|k: int| 0 <= k < more.len() - 1 implies edge(#[trigger] more[k], more[k + 1]) by {
        if k < path.len() - 1 {
            assert(more[k] == path[k] && more[k + 1] == path[k + 1]);
        }
    }
    assert(is_path(edge, n, more));
    assert(more.last() == c);
}

/// One way and then another.
pub proof fn lemma_leads_through(edge: spec_fn(int, int) -> bool, n: int, a: int, b: int, c: int)
    requires
        leads_to(edge, n, a, b),
        leads_to(edge, n, b, c),
    ensures
        leads_to(edge, n, a, c),
{
    let one = choose|path: Seq<int>| #[trigger]
        is_path(edge, n, path) && path[0] == a && path.last() == b;
    let two = choose|path: Seq<int>| #[trigger]
        is_path(edge, n, path) && path[0] == b && path.last() == c;
    let both = one + two.skip(1);
    assert forall|k: int| 0 <= k < both.len() implies 0 <= #[trigger] both[k] < n by {
        if k >= one.len() {
            assert(both[k] == two[k - one.len() + 1]);
        } else {
            assert(both[k] == one[k]);
        }
    }
    assert forall|k: int| 0 <= k < both.len() - 1 implies edge(#[trigger] both[k], both[k + 1]) by {
        if k < one.len() - 1 {
            assert(both[k] == one[k] && both[k + 1] == one[k + 1]);
        } else {
            let l = k - one.len() + 1;
            assert(both[k] == two[l]);
            assert(both[k + 1] == two[l + 1]);
        }
    }
    assert(is_path(edge, n, both));
    assert(both.last() == c);
}

/// Where every step can be taken back, so can a whole way.
pub proof fn lemma_leads_back(edge: spec_fn(int, int) -> bool, n: int, a: int, b: int)
    requires
        forall|i: int, j: int| #[trigger] edge(i, j) ==> edge(j, i),
        leads_to(edge, n, a, b),
    ensures
        leads_to(edge, n, b, a),
{
    let path = choose|path: Seq<int>| #[trigger]
        is_path(edge, n, path) && path[0] == a && path.last() == b;
    let back = path.reverse();
    assert forall|k: int| 0 <= k < back.len() - 1 implies edge(#[trigger] back[k], back[k + 1]) by {
        let l = path.len() - 2 - k;
        assert(edge(path[l], path[l + 1]));
    }
    assert(is_path(edge, n, back));
}

/// A choice that every step out of it stays in holds whatever it leads to.
pub proof fn lemma_leads_closed(
    edge: spec_fn(int, int) -> bool,
    n: int,
    chosen: spec_fn(int) -> bool,
    a: int,
    b: int,
)
    requires
        forall|i: int, j: int|
            0 <= i < n && 0 <= j < n && #[trigger] edge(i, j) && chosen(i) ==> chosen(j),
        chosen(a),
        leads_to(edge, n, a, b),
    ensures
        chosen(b),
{
    let path = choose|path: Seq<int>| #[trigger]
        is_path(edge, n, path) && path[0] == a && path.last() == b;
    lemma_path_closed(edge, n, chosen, path, path.len() - 1);
}

proof fn lemma_path_closed(
    edge: spec_fn(int, int) -> bool,
    n: int,
    chosen: spec_fn(int) -> bool,
    path: Seq<int>,
    k: int,
)
    requires
        forall|i: int, j: int|
            0 <= i < n && 0 <= j < n && #[trigger] edge(i, j) && chosen(i) ==> chosen(j),
        is_path(edge, n, path),
        chosen(path[0]),
        0 <= k < path.len(),
    ensures
        chosen(path[k]),
    decreases k,
{
    if k > 0 {
        lemma_path_closed(edge, n, chosen, path, k - 1);
        assert(edge(path[k - 1], path[k - 1 + 1]));
    }
}

} // verus!
