//! Terrain that an edit cuts free becomes a body.
//!
//! A piece that cannot reach the ground is no longer part of the world. It is
//! found by walking outward from the edit, lifted out of the tree, and given a
//! volume of its own.

use crate::address::{lemma_no_more_than, IVec3, UVec3};
use crate::contree::Contree;
use crate::dense::{is_extent, lemma_extent_levels, lemma_extent_strict};
use crate::edit::{
    code, code_of, edited, has_room, high_corner, lemma_corners, listed, low_corner, places,
};
use crate::material::MaterialId;
use crate::physics::cells::{
    cell_at, cell_of_voxel, is_cell, lemma_cell_joined, lemma_cells, lemma_is_cell,
    lemma_voxel_cell, Cell,
};
use crate::physics::connect::{
    is_piece, lemma_joined_back, lemma_joined_self, lemma_joined_solid, lemma_joined_through,
    lemma_piece_renamed, solid_in_tree,
};
use crate::physics::flood::{
    all_done, claims, distinct_in_piece, done_with, key_of, lemma_loose_same, loose, walk,
};
use crate::sort::{holds, is_order, sorted_order, stands_before};
use crate::physics::BUDGET;
use crate::sparse::{lemma_solids, list_voxels};
use crate::tree::{extent_of, lemma_extent};
use crate::vox::fits_size;
use std::collections::HashMap;
use vstd::prelude::*;

verus! {

/// Which voxels a search starts from.
pub open spec fn span(lo: IVec3, hi: IVec3) -> spec_fn(UVec3) -> bool {
    |p: UVec3| lo.x <= p.x <= hi.x && lo.y <= p.y <= hi.y && lo.z <= p.z <= hi.z
}

/// The order a box is scanned in: x fastest, then y, then z.
pub open spec fn scan_rank() -> spec_fn(UVec3) -> int {
    |p: UVec3| code(p.x as int, p.y as int, p.z as int)
}

/// The lists in a vector of lists.
pub open spec fn lists(pieces: Seq<Vec<UVec3>>) -> Seq<Seq<UVec3>> {
    Seq::new(pieces.len(), |k: int| pieces[k]@)
}

/// Whether one of the pieces holds a voxel.
pub open spec fn in_some_piece(pieces: Seq<Seq<UVec3>>, p: UVec3) -> bool {
    exists|k: int| 0 <= k < pieces.len() && (#[trigger] pieces[k]).contains(p)
}

/// A piece found from a solid seed: the whole piece, loose, and no voxel of it that a
/// search starts from is ranked before the seed.
#[verifier::opaque]
pub open spec fn piece_from(
    tree: Contree,
    floor: bool,
    budget: int,
    starts: spec_fn(UVec3) -> bool,
    rank: spec_fn(UVec3) -> int,
    piece: Seq<UVec3>,
    seed: UVec3,
) -> bool {
    &&& starts(seed)
    &&& solid_in_tree(tree)(seed)
    &&& loose(tree, seed, floor, budget)
    &&& is_piece(solid_in_tree(tree), seed, piece)
    &&& forall|q: UVec3| #[trigger] piece.contains(q) && starts(q) ==> rank(seed) <= rank(q)
}

/// The loose pieces a search from some voxels finds: every one that holds such a
/// voxel, each once, in the order their first such voxels rank.
pub open spec fn finds(
    tree: Contree,
    floor: bool,
    budget: int,
    starts: spec_fn(UVec3) -> bool,
    rank: spec_fn(UVec3) -> int,
    pieces: Seq<Seq<UVec3>>,
    seeds: Seq<UVec3>,
) -> bool {
    &&& pieces.len() == seeds.len()
    &&& forall|k: int|
        0 <= k < pieces.len() ==> piece_from(
            tree,
            floor,
            budget,
            starts,
            rank,
            #[trigger] pieces[k],
            seeds[k],
        )
    &&& forall|k: int, l: int|
        0 <= k < l < seeds.len() ==> rank(#[trigger] seeds[k]) < rank(#[trigger] seeds[l])
    &&& forall|p: UVec3|
        solid_in_tree(tree)(p) && starts(p) && #[trigger] loose(tree, p, floor, budget)
            ==> in_some_piece(pieces, p)
}

/// Whether the box a voxel lies in has been claimed.
pub open spec fn claimed(tree: Contree, seen: Map<u128, u128>, p: UVec3) -> bool {
    seen.contains_key(key_of(cell_of_voxel(tree, p)->0))
}

/// Midway through a search, past every start ranked below `now`.
#[verifier::opaque]
spec fn gathering(
    tree: Contree,
    floor: bool,
    budget: int,
    starts: spec_fn(UVec3) -> bool,
    rank: spec_fn(UVec3) -> int,
    now: int,
    seen: Map<u128, u128>,
    pieces: Seq<Seq<UVec3>>,
    seeds: Seq<UVec3>,
) -> bool {
    &&& all_done(tree, seen, floor, budget)
    &&& forall|k: u128| #[trigger] seen.contains_key(k) ==> seen[k] < now
    &&& forall|p: UVec3|
        solid_in_tree(tree)(p) && starts(p) && rank(p) < now ==> #[trigger] claimed(tree, seen, p)
    &&& forall|cell: Cell| #[trigger]
        is_cell(tree, cell) && seen.contains_key(key_of(cell)) && loose(
            tree,
            cell.origin,
            floor,
            budget,
        ) ==> in_some_piece(pieces, cell.origin)
    &&& pieces.len() == seeds.len()
    &&& forall|k: int|
        0 <= k < pieces.len() ==> piece_from(
            tree,
            floor,
            budget,
            starts,
            rank,
            #[trigger] pieces[k],
            seeds[k],
        )
    &&& forall|k: int, l: int|
        0 <= k < l < seeds.len() ==> rank(#[trigger] seeds[k]) < rank(#[trigger] seeds[l])
    &&& forall|k: int| 0 <= k < seeds.len() ==> rank(#[trigger] seeds[k]) < now
}

/// Before the first start.
proof fn lemma_nothing_gathered(
    tree: Contree,
    floor: bool,
    budget: int,
    starts: spec_fn(UVec3) -> bool,
    rank: spec_fn(UVec3) -> int,
    now: int,
    seen: Map<u128, u128>,
)
    requires
        seen == Map::<u128, u128>::empty(),
        forall|p: UVec3| #[trigger] starts(p) && solid_in_tree(tree)(p) ==> now <= rank(p),
    ensures
        gathering(tree, floor, budget, starts, rank, now, seen, Seq::empty(), Seq::empty()),
{
    reveal(gathering);
}

/// What a walk from the next start relies on.
proof fn lemma_ready(
    tree: Contree,
    floor: bool,
    budget: int,
    starts: spec_fn(UVec3) -> bool,
    rank: spec_fn(UVec3) -> int,
    now: int,
    seen: Map<u128, u128>,
    pieces: Seq<Seq<UVec3>>,
    seeds: Seq<UVec3>,
)
    requires
        gathering(tree, floor, budget, starts, rank, now, seen, pieces, seeds),
    ensures
        all_done(tree, seen, floor, budget),
        forall|k: u128| #[trigger] seen.contains_key(k) ==> seen[k] < now,
{
    reveal(gathering);
}

/// Moving past starts that are all claimed.
proof fn lemma_move_past(
    tree: Contree,
    floor: bool,
    budget: int,
    starts: spec_fn(UVec3) -> bool,
    rank: spec_fn(UVec3) -> int,
    now: int,
    next: int,
    seen: Map<u128, u128>,
    pieces: Seq<Seq<UVec3>>,
    seeds: Seq<UVec3>,
)
    requires
        gathering(tree, floor, budget, starts, rank, now, seen, pieces, seeds),
        now <= next,
        forall|p: UVec3| #[trigger]
            solid_in_tree(tree)(p) && starts(p) && now <= rank(p) < next ==> claimed(
                tree,
                seen,
                p,
            ),
    ensures
        gathering(tree, floor, budget, starts, rank, next, seen, pieces, seeds),
{
    reveal(gathering);
}

/// After a walk from an unclaimed start.
proof fn lemma_walked_from(
    tree: Contree,
    floor: bool,
    budget: int,
    starts: spec_fn(UVec3) -> bool,
    rank: spec_fn(UVec3) -> int,
    seed: UVec3,
    start: Cell,
    before: Map<u128, u128>,
    seen: Map<u128, u128>,
    pieces: Seq<Seq<UVec3>>,
    seeds: Seq<UVec3>,
    found: Option<Seq<UVec3>>,
)
    requires
        tree.readable(),
        tree.tidied(),
        0 <= rank(seed) <= u128::MAX,
        gathering(tree, floor, budget, starts, rank, rank(seed), before, pieces, seeds),
        starts(seed),
        solid_in_tree(tree)(seed),
        cell_of_voxel(tree, seed) == Some(start),
        !before.contains_key(key_of(start)),
        forall|p: UVec3| #[trigger] starts(p) && rank(p) == rank(seed) ==> p == seed,
        claims(tree, before, seen, start, rank(seed) as u128),
        seen.contains_key(key_of(start)),
        all_done(tree, seen, floor, budget),
        found is Some <==> loose(tree, start.origin, floor, budget),
        found matches Some(piece) ==> is_piece(solid_in_tree(tree), start.origin, piece),
    ensures
        found matches Some(piece) ==> gathering(
            tree,
            floor,
            budget,
            starts,
            rank,
            rank(seed) + 1,
            seen,
            pieces.push(piece),
            seeds.push(seed),
        ),
        found is None ==> gathering(
            tree,
            floor,
            budget,
            starts,
            rank,
            rank(seed) + 1,
            seen,
            pieces,
            seeds,
        ),
{
    reveal(gathering);
    let solid = solid_in_tree(tree);
    let now = rank(seed);
    lemma_voxel_cell(tree, seed);
    lemma_cell_joined(tree, start, seed);
    lemma_loose_same(tree, start.origin, seed, floor, budget);
    lemma_joined_back(solid, start.origin, seed);
    let more = match found {
        Some(piece) => pieces.push(piece),
        None => pieces,
    };
    let from = match found {
        Some(piece) => seeds.push(seed),
        None => seeds,
    };
    assert forall|p: UVec3|
        solid(p) && starts(p) && rank(p) < now + 1 implies #[trigger] claimed(tree, seen, p) by {
        if rank(p) < now {
            assert(claimed(tree, before, p));
        }
    }
    assert forall|cell: Cell| #[trigger]
        is_cell(tree, cell) && seen.contains_key(key_of(cell)) && loose(
            tree,
            cell.origin,
            floor,
            budget,
        ) implies in_some_piece(more, cell.origin) by {
        if before.contains_key(key_of(cell)) {
            assert(in_some_piece(pieces, cell.origin));
            let k = choose|k: int|
                0 <= k < pieces.len() && (#[trigger] pieces[k]).contains(cell.origin);
            assert(more[k] == pieces[k]);
        } else {
            lemma_loose_same(tree, start.origin, cell.origin, floor, budget);
            assert(more[pieces.len() as int] == found->0);
            assert(found->0.contains(cell.origin));
        }
    }
    if found is Some {
        let piece = found->0;
        lemma_piece_renamed(solid, start.origin, seed, piece);
        assert forall|q: UVec3| #[trigger] piece.contains(q) && starts(q) implies now <= rank(q) by {
            if rank(q) < now {
                // Its box was claimed, so the seed's piece was done with: loose
                // and claimed whole, which the seed's own box was not.
                lemma_joined_solid(solid, start.origin, q);
                assert(claimed(tree, before, q));
                lemma_voxel_cell(tree, q);
                let c = cell_of_voxel(tree, q)->0;
                lemma_cell_joined(tree, c, q);
                lemma_joined_back(solid, c.origin, q);
                lemma_joined_through(solid, start.origin, q, c.origin);
                lemma_joined_back(solid, start.origin, c.origin);
                lemma_loose_same(tree, start.origin, c.origin, floor, budget);
                assert(done_with(tree, before, c, floor, budget));
                assert(is_cell(tree, start));
            }
        }
        assert forall|k: int| 0 <= k < more.len() implies piece_from(
            tree,
            floor,
            budget,
            starts,
            rank,
            #[trigger] more[k],
            from[k],
        ) by {
            reveal(piece_from);
            if k < pieces.len() {
                assert(more[k] == pieces[k] && from[k] == seeds[k]);
            }
        }
        assert forall|k: int, l: int| 0 <= k < l < from.len() implies rank(#[trigger] from[k]) < rank(
            #[trigger] from[l],
        ) by {
            assert(from[k] == seeds[k]);
            if l < seeds.len() {
                assert(from[l] == seeds[l]);
            }
        }
        assert forall|k: int| 0 <= k < from.len() implies rank(#[trigger] from[k]) < now + 1 by {
            if k < seeds.len() {
                assert(from[k] == seeds[k]);
            }
        }
    }
}

/// Past every start, the search is over.
proof fn lemma_gathered(
    tree: Contree,
    floor: bool,
    budget: int,
    starts: spec_fn(UVec3) -> bool,
    rank: spec_fn(UVec3) -> int,
    now: int,
    seen: Map<u128, u128>,
    pieces: Seq<Seq<UVec3>>,
    seeds: Seq<UVec3>,
)
    requires
        tree.readable(),
        tree.tidied(),
        gathering(tree, floor, budget, starts, rank, now, seen, pieces, seeds),
        forall|p: UVec3| #[trigger] starts(p) && solid_in_tree(tree)(p) ==> rank(p) < now,
    ensures
        finds(tree, floor, budget, starts, rank, pieces, seeds),
{
    reveal(gathering);
    let solid = solid_in_tree(tree);
    assert forall|p: UVec3|
        solid(p) && starts(p) && #[trigger] loose(tree, p, floor, budget) implies in_some_piece(
        pieces,
        p,
    ) by {
        assert(claimed(tree, seen, p));
        lemma_voxel_cell(tree, p);
        let c = cell_of_voxel(tree, p)->0;
        lemma_cell_joined(tree, c, p);
        lemma_loose_same(tree, c.origin, p, floor, budget);
        assert(in_some_piece(pieces, c.origin));
        let k = choose|k: int| 0 <= k < pieces.len() && (#[trigger] pieces[k]).contains(c.origin);
        assert(piece_from(tree, floor, budget, starts, rank, pieces[k], seeds[k]));
        reveal(piece_from);
        lemma_joined_through(solid, seeds[k], c.origin, p);
        assert(pieces[k].contains(p));
    }
}

/// The pieces of `tree` around the box `lo..=hi` that no longer reach the ground,
/// each sorted.
///
/// A piece is grounded when it holds a voxel at `y == 0`, or when it is larger
/// than `budget`, at which point the search gives up rather than walking a
/// mountain. Both leave the piece in the world, which is the safe direction.
pub fn loose_pieces(tree: &Contree, lo: IVec3, hi: IVec3, budget: usize) -> (pieces: Vec<
    Vec<UVec3>,
>)
    requires
        tree.readable(),
        tree.tidied(),
    ensures
        exists|seeds: Seq<UVec3>| #[trigger]
            finds(
                *tree,
                true,
                budget as int,
                span(lo, hi),
                scan_rank(),
                lists(pieces@),
                seeds,
            ),
{
    broadcast use vstd::std_specs::hash::group_hash_axioms;

    // Which walk reached each box first. A later walk that runs into one of an
    // earlier walk's boxes is on that walk's piece, which was not loose, or it
    // would have been walked to the end and every box of it claimed.
    let mut seen: HashMap<u128, u128> = HashMap::new();
    let mut pieces: Vec<Vec<UVec3>> = Vec::new();
    let ghost mut seeds: Seq<UVec3> = Seq::empty();
    let ghost starts = span(lo, hi);
    let ghost rank = scan_rank();
    let ghost t = *tree;
    let ghost b = budget as int;
    let mut z: i64 = lo.z as i64;
    proof {
        assert(lists(pieces@) =~= Seq::empty());
        lemma_nothing_gathered(
            t,
            true,
            b,
            starts,
            rank,
            at_least_zero(code(lo.x as int, lo.y as int, z as int)),
            seen@,
        );
    }
    while z <= hi.z as i64
        invariant
            t == *tree,
            b == budget,
            tree.readable(),
            tree.tidied(),
            starts == span(lo, hi),
            rank == scan_rank(),
            lo.z <= z,
            gathering(
                t,
                true,
                b,
                starts,
                rank,
                at_least_zero(code(lo.x as int, lo.y as int, z as int)),
                seen@,
                lists(pieces@),
                seeds,
            ),
        decreases
                if z <= hi.z {
                    hi.z - z + 1
                } else {
                    0
                },
    {
        let mut y: i64 = lo.y as i64;
        while y <= hi.y as i64
            invariant
                t == *tree,
                b == budget,
                tree.readable(),
                tree.tidied(),
                starts == span(lo, hi),
                rank == scan_rank(),
                lo.z <= z <= hi.z,
                lo.y <= y,
                y == lo.y || y <= hi.y + 1,
                gathering(
                    t,
                    true,
                    b,
                    starts,
                    rank,
                    at_least_zero(code(lo.x as int, y as int, z as int)),
                    seen@,
                    lists(pieces@),
                    seeds,
                ),
            decreases
                    if y <= hi.y {
                        hi.y - y + 1
                    } else {
                        0
                    },
        {
            let mut x: i64 = lo.x as i64;
            while x <= hi.x as i64
                invariant
                    t == *tree,
                    b == budget,
                    tree.readable(),
                    tree.tidied(),
                    starts == span(lo, hi),
                    rank == scan_rank(),
                    lo.z <= z <= hi.z,
                    lo.y <= y <= hi.y,
                    lo.x <= x,
                    x == lo.x || x <= hi.x + 1,
                    gathering(
                        t,
                        true,
                        b,
                        starts,
                        rank,
                        at_least_zero(code(x as int, y as int, z as int)),
                        seen@,
                        lists(pieces@),
                        seeds,
                    ),
                decreases
                        if x <= hi.x {
                            hi.x - x + 1
                        } else {
                            0
                        },
            {
                let ghost now = at_least_zero(code(x as int, y as int, z as int));
                let ghost next = at_least_zero(code(x + 1, y as int, z as int));
                let ghost had = lists(pieces@);
                let seed = IVec3::new(x as i32, y as i32, z as i32);
                match cell_at(tree, seed) {
                    Some(cell) => {
                        let at = UVec3::new(x as u32, y as u32, z as u32);
                        proof {
                            lemma_cells(t, at);
                            lemma_voxel_cell(t, at);
                            assert forall|p: UVec3| #[trigger]
                                starts(p) && rank(p) == rank(at) implies p == at by {
                                lemma_scan_rank(p, x as int, y as int, z as int);
                            }
                        }
                        if seen.contains_key(&code_of(cell.origin)) {
                            proof {
                                assert forall|p: UVec3|
                                    solid_in_tree(t)(p) && starts(p) && now <= rank(p)
                                        < next implies #[trigger] claimed(t, seen@, p) by {
                                    assert(rank(p) == rank(at));
                                }
                                lemma_move_past(
                                    t,
                                    true,
                                    b,
                                    starts,
                                    rank,
                                    now,
                                    next,
                                    seen@,
                                    had,
                                    seeds,
                                );
                            }
                        } else {
                            let ghost before = seen@;
                            let id: u128 = code_of(at);
                            proof {
                                lemma_ready(t, true, b, starts, rank, now, seen@, had, seeds);
                            }
                            let found = walk(tree, cell, true, budget, id, &mut seen);
                            proof {
                                lemma_walked_from(
                                    t,
                                    true,
                                    b,
                                    starts,
                                    rank,
                                    at,
                                    cell,
                                    before,
                                    seen@,
                                    had,
                                    seeds,
                                    as_list(found),
                                );
                            }
                            if let Some(piece) = found {
                                pieces.push(piece);
                                proof {
                                    seeds = seeds.push(at);
                                    assert(lists(pieces@) =~= had.push(piece@));
                                }
                            }
                        }
                    },
                    None => {
                        proof {
                            assert forall|p: UVec3|
                                solid_in_tree(t)(p) && starts(p) && now <= rank(p)
                                    < next implies #[trigger] claimed(t, seen@, p) by {
                                lemma_scan_rank(p, x as int, y as int, z as int);
                                lemma_cells(t, p);
                            }
                            lemma_move_past(
                                t,
                                true,
                                b,
                                starts,
                                rank,
                                now,
                                next,
                                seen@,
                                had,
                                seeds,
                            );
                        }
                    },
                }
                x = x + 1;
            }
            proof {
                lemma_row_end(t, lo, hi, x as int, y as int, z as int);
                lemma_move_past(
                    t,
                    true,
                    b,
                    starts,
                    rank,
                    at_least_zero(code(x as int, y as int, z as int)),
                    at_least_zero(code(lo.x as int, y + 1, z as int)),
                    seen@,
                    lists(pieces@),
                    seeds,
                );
            }
            y = y + 1;
        }
        proof {
            lemma_layer_end(t, lo, hi, y as int, z as int);
            lemma_move_past(
                t,
                true,
                b,
                starts,
                rank,
                at_least_zero(code(lo.x as int, y as int, z as int)),
                at_least_zero(code(lo.x as int, lo.y as int, z + 1)),
                seen@,
                lists(pieces@),
                seeds,
            );
        }
        z = z + 1;
    }
    proof {
        lemma_gathered(
            t,
            true,
            b,
            starts,
            rank,
            at_least_zero(code(lo.x as int, lo.y as int, z as int)),
            seen@,
            lists(pieces@),
            seeds,
        );
    }
    pieces
}

/// The list a walk found, if it found one.
spec fn as_list(found: Option<Vec<UVec3>>) -> Option<Seq<UVec3>> {
    match found {
        Some(piece) => Some(piece@),
        None => None,
    }
}

/// No rank is below zero.
spec fn at_least_zero(now: int) -> int {
    if now < 0 {
        0
    } else {
        now
    }
}

/// Whether no start of a scan ranks between two places.
spec fn none_between(tree: Contree, lo: IVec3, hi: IVec3, now: int, next: int) -> bool {
    forall|p: UVec3|
        #![trigger solid_in_tree(tree)(p)]
        span(lo, hi)(p) ==> !(now <= scan_rank()(p) < next)
}

/// Nothing lies between the end of a row and the start of the next.
proof fn lemma_row_end(tree: Contree, lo: IVec3, hi: IVec3, x: int, y: int, z: int)
    requires
        x > hi.x,
        x == lo.x || x <= hi.x + 1,
        lo.x <= x,
        lo.y <= y <= hi.y,
        lo.z <= z <= hi.z,
    ensures
        at_least_zero(code(x, y, z)) <= at_least_zero(code(lo.x as int, y + 1, z)),
        none_between(
            tree,
            lo,
            hi,
            at_least_zero(code(x, y, z)),
            at_least_zero(code(lo.x as int, y + 1, z)),
        ),
{
    assert forall|p: UVec3|
        #![trigger solid_in_tree(tree)(p)]
        span(lo, hi)(p) implies !(at_least_zero(code(x, y, z)) <= scan_rank()(p) < at_least_zero(
        code(lo.x as int, y + 1, z),
    )) by {
        if p.z > z {
        } else if p.z < z {
        } else if p.y > y {
        } else if p.y < y {
        }
    }
}

/// Nor between the end of a layer and the start of the next.
proof fn lemma_layer_end(tree: Contree, lo: IVec3, hi: IVec3, y: int, z: int)
    requires
        y > hi.y,
        y == lo.y || y <= hi.y + 1,
        lo.y <= y,
        lo.z <= z <= hi.z,
    ensures
        at_least_zero(code(lo.x as int, y, z)) <= at_least_zero(
            code(lo.x as int, lo.y as int, z + 1),
        ),
        none_between(
            tree,
            lo,
            hi,
            at_least_zero(code(lo.x as int, y, z)),
            at_least_zero(code(lo.x as int, lo.y as int, z + 1)),
        ),
{
    assert forall|p: UVec3|
        #![trigger solid_in_tree(tree)(p)]
        span(lo, hi)(p) implies !(at_least_zero(code(lo.x as int, y, z)) <= scan_rank()(p)
        < at_least_zero(code(lo.x as int, lo.y as int, z + 1))) by {
        if p.z > z {
        } else if p.z < z {
        }
    }
}

/// The only start ranked where the scan stands is the one it stands at.
proof fn lemma_scan_rank(p: UVec3, x: int, y: int, z: int)
    requires
        code(p.x as int, p.y as int, p.z as int) == at_least_zero(code(x, y, z)),
        p.x <= i32::MAX,
        p.y <= i32::MAX,
        p.z <= i32::MAX,
        i32::MIN <= x <= i32::MAX,
        i32::MIN <= y <= i32::MAX,
        i32::MIN <= z <= i32::MAX,
        code(x, y, z) >= 0,
    ensures
        p.x == x && p.y == y && p.z == z,
{
}

/// Where a voxel comes in a list of voxels.
pub open spec fn walk_rank(order: Seq<(UVec3, MaterialId)>) -> spec_fn(UVec3) -> int {
    |p: UVec3| choose|i: int| 0 <= i < order.len() && (#[trigger] order[i]).0 == p
}

/// A stable order of pieces by size: larger ones first, and of the same size the
/// one found first.
pub open spec fn by_size(found: Seq<Seq<UVec3>>, order: Seq<usize>) -> bool {
    &&& order.len() == found.len()
    &&& forall|k: int| 0 <= k < order.len() ==> 0 <= #[trigger] order[k] < found.len()
    &&& forall|i: int| 0 <= i < found.len() ==> #[trigger] holds(order, i)
    &&& forall|k: int, l: int|
        0 <= k < l < order.len() ==> {
            let (a, b) = (#[trigger] order[k] as int, #[trigger] order[l] as int);
            found[a].len() > found[b].len() || (found[a].len() == found[b].len() && a < b)
        }
}

/// The pieces in a given order.
pub open spec fn reordered(found: Seq<Seq<UVec3>>, order: Seq<usize>) -> Seq<Seq<UVec3>> {
    Seq::new(order.len(), |k: int| found[order[k] as int])
}

/// Sorts pieces, largest first.
fn largest_first(pieces: Vec<Vec<UVec3>>) -> (sorted: Vec<Vec<UVec3>>)
    ensures
        exists|order: Seq<usize>| #[trigger]
            by_size(lists(pieces@), order) && lists(sorted@) == reordered(lists(pieces@), order),
{
    let ghost found = lists(pieces@);
    let mut keys: Vec<u128> = Vec::new();
    for i in 0..pieces.len()
        invariant
            keys@.len() == i,
            forall|k: int|
                0 <= k < i ==> #[trigger] keys@[k] == usize::MAX - pieces@[k]@.len(),
    {
        let size: usize = pieces[i].len();
        keys.push((usize::MAX - size) as u128);
    }
    let order = sorted_order(&keys);
    let mut left = pieces;
    let mut sorted: Vec<Vec<UVec3>> = Vec::new();
    for n in 0..order.len()
        invariant
            keys@.len() == order@.len() == found.len() == left@.len(),
            is_order(keys@, order@),
            sorted@.len() == n,
            forall|k: int|
                0 <= k < n ==> #[trigger] lists(sorted@)[k] == found[order@[k] as int],
            forall|k: int|
                n <= k < order@.len() ==> left@[#[trigger] order@[k] as int]@
                    == found[order@[k] as int],
    {
        let i: usize = order[n];
        let mut piece: Vec<UVec3> = Vec::new();
        let ghost had = lists(sorted@);
        proof {
            assert(order@[n as int] < keys@.len());
        }
        let ghost stood = left@;
        std::mem::swap(&mut left[i], &mut piece);
        proof {
            assert forall|k: int| n < k < order@.len() implies left@[#[trigger] order@[k] as int]@
                == found[order@[k] as int] by {
                assert(stands_before(
                    keys@,
                    order@[n as int] as int,
                    order@[k] as int,
                ));
                assert(left@[order@[k] as int] == stood[order@[k] as int]);
            }
        }
        sorted.push(piece);
        assert(lists(sorted@) =~= had.push(piece@));
    }
    proof {
        assert(lists(sorted@) =~= reordered(found, order@));
        assert forall|k: int, l: int| 0 <= k < l < order@.len() implies {
            let (a, b) = (#[trigger] order@[k] as int, #[trigger] order@[l] as int);
            found[a].len() > found[b].len() || (found[a].len() == found[b].len() && a < b)
        } by {
            assert(stands_before(keys@, order@[k] as int, order@[l] as int));
        }
        assert(by_size(found, order@));
    }
    sorted
}

/// Where nothing stands on a floor and the budget is every voxel, all pieces are
/// loose.
proof fn lemma_all_loose(tree: Contree, a: UVec3, order: Seq<(UVec3, MaterialId)>)
    requires
        forall|p: UVec3| #[trigger]
            solid_in_tree(tree)(p) ==> exists|k: int|
                0 <= k < order.len() && (#[trigger] order[k]).0 == p,
    ensures
        loose(tree, a, false, order.len() as int),
{
    let all = places(order);
    assert forall|some: Seq<UVec3>| #[trigger] distinct_in_piece(tree, a, some) implies some.len()
        <= order.len() by {
        assert forall|i: int| 0 <= i < some.len() implies all.contains(#[trigger] some[i]) by {
            lemma_joined_solid(solid_in_tree(tree), a, some[i]);
            assert(solid_in_tree(tree)(some[i]));
            let k = choose|k: int| 0 <= k < order.len() && (#[trigger] order[k]).0 == some[i];
            assert(all[k] == some[i]);
        }
        lemma_no_more_than(some, all);
    }
}

/// Every face-connected piece of `tree`, each sorted, largest first.
///
/// No floor and no budget: inside a body every piece is loose, and a body is
/// small enough to label in full. This is what decides whether an erase cut a body
/// in two.
pub fn components(tree: &Contree) -> (pieces: Vec<Vec<UVec3>>)
    requires
        tree.readable(),
        tree.tidied(),
    ensures
        is_components(*tree, lists(pieces@)),
        forall|k: int|
            0 <= k < pieces@.len() ==> whole_piece(*tree, #[trigger] lists(pieces@)[k]),
        forall|p: UVec3| #[trigger]
            solid_in_tree(*tree)(p) ==> in_some_piece(lists(pieces@), p),
{
    broadcast use vstd::std_specs::hash::group_hash_axioms;

    let mut seen: HashMap<u128, u128> = HashMap::new();
    let mut pieces: Vec<Vec<UVec3>> = Vec::new();
    let ghost mut seeds: Seq<UVec3> = Seq::empty();
    let order = tree.voxels();
    let budget: usize = order.len();
    let ghost t = *tree;
    let ghost b = budget as int;
    let ghost solid = solid_in_tree(t);
    let ghost rank = walk_rank(order@);
    proof {
        assert forall|p: UVec3| #[trigger] solid(p) implies exists|k: int|
            0 <= k < order@.len() && (#[trigger] order@[k]).0 == p by {
            assert(order@.contains((p, t.at(p))));
            let k = choose|k: int| 0 <= k < order@.len() && order@[k] == (p, t.at(p));
            assert(order@[k].0 == p);
        }
    }
    proof {
        assert(lists(pieces@) =~= Seq::empty());
        assert forall|p: UVec3| #[trigger] solid(p) implies 0 <= rank(p) by {
            assert(exists|k: int| 0 <= k < order@.len() && (#[trigger] order@[k]).0 == p);
        }
        lemma_nothing_gathered(t, false, b, solid, rank, 0, seen@);
    }
    for i in 0..order.len()
        invariant
            t == *tree,
            b == budget,
            budget == order@.len(),
            tree.readable(),
            tree.tidied(),
            solid == solid_in_tree(t),
            rank == walk_rank(order@),
            forall|k: int|
                0 <= k < order@.len() ==> {
                    let (p, m) = #[trigger] order@[k];
                    p.within(t.side()) && m == t.at(p) && m != MaterialId(0)
                },
            forall|k: int, l: int|
                0 <= k < l < order@.len() ==> (#[trigger] order@[k]).0 != (#[trigger] order@[l]).0,
            forall|p: UVec3| #[trigger]
                solid(p) ==> exists|k: int| 0 <= k < order@.len() && (#[trigger] order@[k]).0 == p,
            gathering(t, false, b, solid, rank, i as int, seen@, lists(pieces@), seeds),
    {
        broadcast use vstd::std_specs::hash::group_hash_axioms;

        let (at, _m) = order[i];
        let ghost had = lists(pieces@);
        proof {
            assert(order@[i as int].0 == at);
            assert(solid(at));
            assert forall|p: UVec3| #[trigger] solid(p) implies order@[rank(p)].0 == p && 0 <= rank(
                p,
            ) < order@.len() by {
                assert(exists|k: int| 0 <= k < order@.len() && (#[trigger] order@[k]).0 == p);
            }
            assert(rank(at) == i) by {
                let r = rank(at);
                assert(order@[r].0 == at);
            }
            assert forall|p: UVec3| #[trigger] solid(p) && rank(p) == rank(at) implies p == at by {
                assert(order@[rank(p)].0 == p);
            }
            lemma_cells(t, at);
            lemma_voxel_cell(t, at);
            lemma_is_cell(t, cell_of_voxel(t, at)->0);
        }
        let cell = cell_at(tree, IVec3::new(at.x as i32, at.y as i32, at.z as i32)).unwrap();
        if seen.contains_key(&code_of(cell.origin)) {
            proof {
                lemma_move_past(t, false, b, solid, rank, i as int, i + 1, seen@, had, seeds);
            }
        } else {
            let ghost before = seen@;
            proof {
                lemma_ready(t, false, b, solid, rank, i as int, seen@, had, seeds);
            }
            let found = walk(tree, cell, false, budget, i as u128, &mut seen);
            proof {
                lemma_walked_from(
                    t,
                    false,
                    b,
                    solid,
                    rank,
                    at,
                    cell,
                    before,
                    seen@,
                    had,
                    seeds,
                    as_list(found),
                );
            }
            if let Some(piece) = found {
                pieces.push(piece);
                proof {
                    seeds = seeds.push(at);
                    assert(lists(pieces@) =~= had.push(piece@));
                }
            }
        }
    }
    let ghost found = lists(pieces@);
    proof {
        assert forall|p: UVec3| #[trigger] solid(p) implies rank(p) < b by {
            assert(exists|k: int| 0 <= k < order@.len() && (#[trigger] order@[k]).0 == p);
        }
        lemma_gathered(t, false, b, solid, rank, b, seen@, found, seeds);
        assert(finds(t, false, b, solid, rank, found, seeds));
    }
    let sorted = largest_first(pieces);
    proof {
        let by = choose|by: Seq<usize>| #[trigger]
            by_size(found, by) && lists(sorted@) == reordered(found, by);
        assert(by_size(found, by));
        reveal(is_components);
        assert(lists(sorted@).len() == by.len());
        assert(order@ == t.solids());
        assert forall|k: int| 0 <= k < sorted@.len() implies whole_piece(
            t,
            #[trigger] lists(sorted@)[k],
        ) by {
            let l = by[k] as int;
            assert(piece_from(t, false, b, solid, rank, found[l], seeds[l]));
            reveal(piece_from);
            assert(lists(sorted@)[k] == found[l]);
        }
        assert forall|p: UVec3| #[trigger] solid(p) implies in_some_piece(lists(sorted@), p) by {
            lemma_all_loose(t, p, order@);
            assert(in_some_piece(found, p));
            let l = choose|l: int| 0 <= l < found.len() && (#[trigger] found[l]).contains(p);
            assert(holds(by, l));
            let k = choose|k: int| 0 <= k < by.len() && #[trigger] by[k] == l;
            assert(lists(sorted@)[k] == found[l]);
        }
    }
    sorted
}

/// Every connected piece of a tree, each sorted, largest first; of two as large,
/// the one the tree holds a voxel of first.
#[verifier::opaque]
pub open spec fn is_components(tree: Contree, pieces: Seq<Seq<UVec3>>) -> bool {
    exists|found: Seq<Seq<UVec3>>, seeds: Seq<UVec3>, order: Seq<usize>|
        #![trigger finds(tree, false, tree.solids().len() as int, solid_in_tree(tree), walk_rank(tree.solids()), found, seeds), by_size(found, order)]
        {
            &&& finds(
                tree,
                false,
                tree.solids().len() as int,
                solid_in_tree(tree),
                walk_rank(tree.solids()),
                found,
                seeds,
            )
            &&& by_size(found, order)
            &&& pieces == reordered(found, order)
        }
}

/// Sorted voxels that are a whole connected piece.
pub open spec fn whole_piece(tree: Contree, piece: Seq<UVec3>) -> bool {
    exists|a: UVec3| solid_in_tree(tree)(a) && #[trigger] is_piece(solid_in_tree(tree), a, piece)
}

/// A piece with the materials a tree holds for it.
pub open spec fn with_materials(tree: Contree, piece: Seq<UVec3>) -> Seq<(UVec3, MaterialId)> {
    Seq::new(piece.len(), |i: int| (piece[i], tree.at(piece[i])))
}

/// Whether one of the freed pieces holds a voxel.
pub open spec fn freed_with(freed: Seq<Vec<(UVec3, MaterialId)>>, p: UVec3) -> bool {
    exists|k: int| 0 <= k < freed.len() && #[trigger] places(freed[k]@).contains(p)
}

/// Voxels of the tree that may come loose: of pieces that no longer reach the
/// ground.
pub open spec fn comes_loose(tree: Contree, cut: Seq<UVec3>) -> bool {
    forall|i: int|
        0 <= i < cut.len() ==> solid_in_tree(tree)(#[trigger] cut[i]) && loose(
            tree,
            cut[i],
            true,
            BUDGET as int,
        )
}

/// Which pieces are taken: the largest, no more than there is room for.
pub open spec fn takes_largest(
    tree: Contree,
    found: Seq<Seq<UVec3>>,
    order: Seq<usize>,
    room: int,
    freed: Seq<Vec<(UVec3, MaterialId)>>,
) -> bool {
    &&& by_size(found, order)
    &&& freed.len() == if room < found.len() {
        room
    } else {
        found.len() as int
    }
    &&& forall|k: int|
        0 <= k < freed.len() ==> (#[trigger] freed[k])@ == with_materials(
            tree,
            found[order[k] as int],
        )
}

/// One more piece is freed.
proof fn lemma_freed_more(
    gone: Seq<Vec<(UVec3, MaterialId)>>,
    freed: Seq<Vec<(UVec3, MaterialId)>>,
    had: Seq<UVec3>,
    piece: Seq<UVec3>,
)
    requires
        freed.len() == gone.len() + 1,
        forall|j: int| 0 <= j < gone.len() ==> #[trigger] freed[j] == gone[j],
        places(freed.last()@) == piece,
        forall|p: UVec3| #[trigger] had.contains(p) <==> freed_with(gone, p),
    ensures
        forall|p: UVec3| #[trigger] (had + piece).contains(p) <==> freed_with(freed, p),
{
    let cut = had + piece;
    let last = freed.len() - 1;
    assert forall|p: UVec3| #[trigger] cut.contains(p) <==> freed_with(freed, p) by {
        if cut.contains(p) {
            let i = choose|i: int| 0 <= i < cut.len() && cut[i] == p;
            if i < had.len() {
                assert(had[i] == p);
                assert(had.contains(p));
                let j = choose|j: int|
                    0 <= j < gone.len() && #[trigger] places(gone[j]@).contains(p);
                assert(freed[j] == gone[j]);
                assert(places(freed[j]@).contains(p));
            } else {
                assert(piece[i - had.len()] == p);
                assert(places(freed[last]@).contains(p));
            }
        }
        if freed_with(freed, p) {
            let j = choose|j: int| 0 <= j < freed.len() && #[trigger] places(freed[j]@).contains(p);
            if j < gone.len() {
                assert(freed[j] == gone[j]);
                assert(places(gone[j]@).contains(p));
                assert(had.contains(p));
                let i = choose|i: int| 0 <= i < had.len() && had[i] == p;
                assert(cut[i] == p);
            } else {
                let i = choose|i: int| 0 <= i < piece.len() && piece[i] == p;
                assert(cut[had.len() + i] == p);
            }
        }
    }
}

/// Lifts the pieces an edit cut free out of the world: each with its materials,
/// where it stood.
///
/// `room` is how many more bodies the scene can draw. Past it, the largest pieces
/// are taken and the rest stay in the world: a piece that vanished because the cap
/// was full would look like a bug, not a budget.
pub fn detach(tree: &mut Contree, lo: IVec3, hi: IVec3, room: usize) -> (freed: Vec<
    Vec<(UVec3, MaterialId)>,
>)
    requires
        old(tree).sound(),
        old(tree).tidied(),
        forall|cut: Seq<UVec3>| #[trigger]
            comes_loose(*old(tree), cut) ==> has_room(*old(tree), cut),
    ensures
        edited(*old(tree), *final(tree)),
        exists|found: Seq<Seq<UVec3>>, seeds: Seq<UVec3>, order: Seq<usize>|
            #![trigger finds(*old(tree), true, BUDGET as int, span(lo, hi), scan_rank(), found, seeds), by_size(found, order)]
            finds(*old(tree), true, BUDGET as int, span(lo, hi), scan_rank(), found, seeds)
                && takes_largest(*old(tree), found, order, room as int, freed@),
        forall|p: UVec3|
            p.within(old(tree).side()) ==> #[trigger] final(tree).at(p) == if freed_with(freed@, p) {
                MaterialId(0)
            } else {
                old(tree).at(p)
            },
{
    let ghost t = *tree;
    let pieces = loose_pieces(tree, lo, hi, BUDGET);
    let ghost found = lists(pieces@);
    let ghost seeds = choose|seeds: Seq<UVec3>| #[trigger]
        finds(t, true, BUDGET as int, span(lo, hi), scan_rank(), found, seeds);
    let mut taken = largest_first(pieces);
    let ghost order = choose|order: Seq<usize>| #[trigger]
        by_size(found, order) && lists(taken@) == reordered(found, order);
    proof {
        assert(by_size(found, order));
        assert(lists(taken@).len() == order.len());
        assert forall|k: int| 0 <= k < taken@.len() implies #[trigger] taken@[k]@
            == found[order[k] as int] by {
            assert(lists(taken@)[k] == taken@[k]@);
        }
    }
    taken.truncate(room);
    let mut freed: Vec<Vec<(UVec3, MaterialId)>> = Vec::new();
    let mut cut: Vec<UVec3> = Vec::new();
    for k in 0..taken.len()
        invariant
            t == *tree,
            tree.sound(),
            by_size(found, order),
            finds(t, true, BUDGET as int, span(lo, hi), scan_rank(), found, seeds),
            taken@.len() <= order.len(),
            forall|k: int|
                0 <= k < taken@.len() ==> #[trigger] taken@[k]@ == found[order[k] as int],
            freed@.len() == k,
            forall|j: int|
                0 <= j < k ==> (#[trigger] freed@[j])@ == with_materials(
                    t,
                    found[order[j] as int],
                ),
            comes_loose(t, cut@),
            forall|p: UVec3| #[trigger] cut@.contains(p) <==> freed_with(freed@, p),
    {
        let mut voxels: Vec<(UVec3, MaterialId)> = Vec::new();
        let ghost piece = found[order[k as int] as int];
        let ghost seed = seeds[order[k as int] as int];
        let ghost had = cut@;
        let ghost gone = freed@;
        proof {
            assert(taken@[k as int]@ == piece);
            assert(piece_from(
                t,
                true,
                BUDGET as int,
                span(lo, hi),
                scan_rank(),
                found[order[k as int] as int],
                seed,
            ));
            reveal(piece_from);
            assert(had + piece.take(0) =~= had);
        }
        let size: usize = taken[k].len();
        for i in 0..size
            invariant
                t == *tree,
                tree.sound(),
                k < taken@.len(),
                size == piece.len(),
                taken@[k as int]@ == piece,
                is_piece(solid_in_tree(t), seed, piece),
                loose(t, seed, true, BUDGET as int),
                voxels@ == with_materials(t, piece).take(i as int),
                cut@ == had + piece.take(i as int),
                comes_loose(t, cut@),
        {
            let p = taken[k][i];
            proof {
                assert(piece[i as int] == p);
                assert(piece.contains(p));
                lemma_joined_solid(solid_in_tree(t), seed, p);
                lemma_loose_same(t, seed, p, true, BUDGET as int);
                assert(with_materials(t, piece).take(i + 1) =~= with_materials(t, piece).take(
                    i as int,
                ).push((p, t.at(p))));
                assert(had + piece.take(i + 1) =~= (had + piece.take(i as int)).push(p));
            }
            let material = tree.get(p);
            voxels.push((p, material));
            cut.push(p);
        }
        freed.push(voxels);
        proof {
            assert(with_materials(t, piece).take(piece.len() as int) =~= with_materials(t, piece));
            assert(piece.take(piece.len() as int) =~= piece);
            assert(places(voxels@) =~= piece);
            assert(cut@ =~= had + piece);
            lemma_freed_more(gone, freed@, had, piece);
        }
    }
    tree.clear_voxels(&cut);
    proof {
        assert(takes_largest(t, found, order, room as int, freed@));
    }
    freed
}

/// Voxels moved so that a corner comes to the origin.
pub open spec fn moved(voxels: Seq<(UVec3, MaterialId)>, corner: UVec3) -> Seq<
    (UVec3, MaterialId),
> {
    Seq::new(
        voxels.len(),
        |i: int|
            (
                UVec3 {
                    x: (voxels[i].0.x - corner.x) as u32,
                    y: (voxels[i].0.y - corner.y) as u32,
                    z: (voxels[i].0.z - corner.z) as u32,
                },
                voxels[i].1,
            ),
    )
}

/// How long a box is along its longest side.
pub open spec fn longest(lo: UVec3, hi: UVec3) -> int {
    let (x, y, z) = (hi.x - lo.x + 1, hi.y - lo.y + 1, hi.z - lo.z + 1);
    if x >= y && x >= z {
        x
    } else if y >= z {
        y
    } else {
        z
    }
}

/// The position a corner moved to the origin takes another to.
pub open spec fn back(p: UVec3, corner: UVec3) -> UVec3 {
    UVec3 {
        x: (p.x + corner.x) as u32,
        y: (p.y + corner.y) as u32,
        z: (p.z + corner.z) as u32,
    }
}

/// A moved list says of a position what the list says of where it was.
proof fn lemma_moved(voxels: Seq<(UVec3, MaterialId)>, corner: UVec3, p: UVec3)
    requires
        forall|i: int|
            0 <= i < voxels.len() ==> corner.x <= (#[trigger] voxels[i]).0.x && corner.y
                <= voxels[i].0.y && corner.z <= voxels[i].0.z,
        p.x + corner.x <= u32::MAX,
        p.y + corner.y <= u32::MAX,
        p.z + corner.z <= u32::MAX,
    ensures
        listed(moved(voxels, corner), p) == listed(voxels, back(p, corner)),
    decreases voxels.len(),
{
    if voxels.len() > 0 {
        let rest = voxels.drop_last();
        assert(moved(voxels, corner).drop_last() =~= moved(rest, corner));
        assert(voxels[voxels.len() - 1] == voxels.last());
        lemma_moved(rest, corner, p);
    }
}

/// Builds a volume holding `voxels` with their low corner at its origin, and
/// tells where that corner was. `None` where there are none.
///
/// The volume is the smallest power of four that fits the piece, because that is
/// what a tree's extent must be.
pub fn piece_volume(voxels: &[(UVec3, MaterialId)]) -> (built: Option<(Contree, UVec3)>)
    requires
        voxels@.len() * 14 <= u32::MAX,
        forall|i: int|
            0 <= i < voxels@.len() ==> (#[trigger] voxels@[i]).0.within(0x4000_0000),
    ensures
        built is None <==> voxels@.len() == 0,
        built matches Some((tree, corner)) ==> {
            &&& corner == low_corner(places(voxels@))
            &&& fits_size(tree.side(), longest(corner, high_corner(places(voxels@))))
            &&& tree.sound()
            &&& tree.canonical()
            &&& tree.orderly()
            &&& tree.accounted()
            &&& tree.built_from(list_voxels(moved(voxels@, corner)))
            &&& forall|p: UVec3|
                p.within(tree.side()) ==> #[trigger] tree.at(p) == match listed(
                    voxels@,
                    back(p, corner),
                ) {
                    Some(m) => MaterialId(m),
                    None => MaterialId(0),
                }
        },
{
    if voxels.len() == 0 {
        return None;
    }
    let ghost all = places(voxels@);
    let mut lo = voxels[0].0;
    let mut hi = voxels[0].0;
    for i in 0..voxels.len()
        invariant
            voxels@.len() > 0,
            all == places(voxels@),
            i == 0 ==> lo == voxels@[0].0 && hi == voxels@[0].0,
            i > 0 ==> lo == low_corner(all.take(i as int)) && hi == high_corner(
                all.take(i as int),
            ),
    {
        let p = voxels[i].0;
        proof {
            assert(all.take(i + 1).drop_last() =~= all.take(i as int));
            assert(all.take(i + 1).last() == p);
            if i == 0 {
                assert(all.take(1)[0] == p);
            }
        }
        lo = lo.min(p);
        hi = hi.max(p);
    }
    proof {
        assert(all.take(all.len() as int) =~= all);
        assert forall|i: int| 0 <= i < voxels@.len() implies lo.x <= (#[trigger] voxels@[i]).0.x
            <= hi.x && lo.y <= voxels@[i].0.y <= hi.y && lo.z <= voxels@[i].0.z <= hi.z by {
            lemma_corners(all, i);
            assert(all[i] == voxels@[i].0);
        }
        lemma_high_corner(all);
    }
    let mut size: u32 = hi.x - lo.x + 1;
    if hi.y - lo.y + 1 > size {
        size = hi.y - lo.y + 1;
    }
    if hi.z - lo.z + 1 > size {
        size = hi.z - lo.z + 1;
    }
    assert(size == longest(lo, hi));
    let mut extent: u32 = 4;
    let ghost mut level: int = 0;
    proof {
        reveal_with_fuel(extent_of, 2);
        lemma_extent_levels(0);
    }
    while extent < size
        invariant
            0 <= level <= 14,
            extent == extent_of(level),
            extent == 4 || extent < 4 * size,
            1 <= size <= 0x4000_0000,
            extent_of(14) == 0x4000_0000,
        decreases 0x1_0000_0000 - extent,
    {
        proof {
            if level == 14 {
                assert(false);
            }
            lemma_extent_levels(level + 1);
            lemma_extent(level + 1);
            lemma_extent(level);
            level = level + 1;
        }
        extent = extent * 4;
    }
    let mut local: Vec<(UVec3, MaterialId)> = Vec::new();
    for i in 0..voxels.len()
        invariant
            forall|i: int|
                0 <= i < voxels@.len() ==> lo.x <= (#[trigger] voxels@[i]).0.x && lo.y
                    <= voxels@[i].0.y && lo.z <= voxels@[i].0.z,
            local@ == moved(voxels@, lo).take(i as int),
    {
        let (p, m) = voxels[i];
        proof {
            assert(voxels@[i as int] == (p, m));
            assert(moved(voxels@, lo).take(i + 1) =~= moved(voxels@, lo).take(i as int).push(
                moved(voxels@, lo)[i as int],
            ));
        }
        local.push((UVec3::new(p.x - lo.x, p.y - lo.y, p.z - lo.z), m));
    }
    proof {
        assert(local@ =~= moved(voxels@, lo));
        assert(is_extent(extent as int));
        assert forall|k: int| 0 <= k < local@.len() implies {
            let p = (#[trigger] local@[k]).0;
            0 <= p.x < 0 + extent && 0 <= p.y < 0 + extent && 0 <= p.z < 0 + extent
        } by {
            assert(voxels@[k].0.x >= lo.x);
        }
    }
    let tree = Contree::from_voxels(extent, &local);
    proof {
        if level < 14 {
            lemma_extent_strict(level, 14);
        }
        assert forall|p: UVec3| p.within(tree.side()) implies #[trigger] tree.at(p) == match listed(
            voxels@,
            back(p, lo),
        ) {
            Some(m) => MaterialId(m),
            None => MaterialId(0),
        } by {
            lemma_moved(voxels@, lo, p);
        }
    }
    Some((tree, lo))
}

/// The high corner of voxels below a bound is below it.
proof fn lemma_high_corner(voxels: Seq<UVec3>)
    requires
        voxels.len() > 0,
        forall|i: int| 0 <= i < voxels.len() ==> (#[trigger] voxels[i]).within(0x4000_0000),
    ensures
        high_corner(voxels).within(0x4000_0000),
        low_corner(voxels).within(0x4000_0000),
    decreases voxels.len(),
{
    assert(voxels[voxels.len() - 1].within(0x4000_0000));
    if voxels.len() > 1 {
        assert forall|i: int| 0 <= i < voxels.drop_last().len() implies (
        #[trigger] voxels.drop_last()[i]).within(0x4000_0000) by {
            assert(voxels[i].within(0x4000_0000));
        }
        lemma_high_corner(voxels.drop_last());
    }
}

/// Every piece a search lists is a whole loose piece of the tree, and holds a voxel
/// the search starts from: no list is empty.
pub proof fn law_found_pieces_are_loose_pieces(
    tree: Contree,
    floor: bool,
    budget: int,
    starts: spec_fn(UVec3) -> bool,
    rank: spec_fn(UVec3) -> int,
    found: Seq<Seq<UVec3>>,
    seeds: Seq<UVec3>,
    k: int,
)
    requires
        finds(tree, floor, budget, starts, rank, found, seeds),
        0 <= k < found.len(),
    ensures
        found[k].len() > 0,
        found[k].contains(seeds[k]),
        starts(seeds[k]),
        solid_in_tree(tree)(seeds[k]),
        loose(tree, seeds[k], floor, budget),
        is_piece(solid_in_tree(tree), seeds[k], found[k]),
{
    assert(piece_from(tree, floor, budget, starts, rank, found[k], seeds[k]));
    reveal(piece_from);
    lemma_joined_self(solid_in_tree(tree), seeds[k]);
    assert(found[k].contains(seeds[k]));
    let i = choose|i: int| 0 <= i < found[k].len() && found[k][i] == seeds[k];
    assert(0 <= i < found[k].len());
}

/// No piece is listed twice.
pub proof fn law_found_pieces_differ(
    tree: Contree,
    floor: bool,
    budget: int,
    starts: spec_fn(UVec3) -> bool,
    rank: spec_fn(UVec3) -> int,
    found: Seq<Seq<UVec3>>,
    seeds: Seq<UVec3>,
    a: int,
    b: int,
)
    requires
        finds(tree, floor, budget, starts, rank, found, seeds),
        0 <= a < b < found.len(),
    ensures
        found[a] != found[b],
{
    law_found_pieces_are_loose_pieces(tree, floor, budget, starts, rank, found, seeds, a);
    law_found_pieces_share_no_voxel(
        tree,
        floor,
        budget,
        starts,
        rank,
        found,
        seeds,
        a,
        b,
        seeds[a],
    );
}

/// Of the voxels a search starts from, exactly those of loose pieces are in what it
/// finds.
pub proof fn law_a_search_finds_every_loose_piece(
    tree: Contree,
    floor: bool,
    budget: int,
    starts: spec_fn(UVec3) -> bool,
    rank: spec_fn(UVec3) -> int,
    found: Seq<Seq<UVec3>>,
    seeds: Seq<UVec3>,
    p: UVec3,
)
    requires
        finds(tree, floor, budget, starts, rank, found, seeds),
        starts(p),
    ensures
        in_some_piece(found, p) <==> solid_in_tree(tree)(p) && loose(tree, p, floor, budget),
{
    let solid = solid_in_tree(tree);
    if in_some_piece(found, p) {
        let k = choose|k: int| 0 <= k < found.len() && (#[trigger] found[k]).contains(p);
        law_found_pieces_are_loose_pieces(tree, floor, budget, starts, rank, found, seeds, k);
        lemma_joined_solid(solid, seeds[k], p);
        lemma_loose_same(tree, seeds[k], p, floor, budget);
    }
}

/// A search finds nothing exactly where no voxel it starts from is loose.
pub proof fn law_nothing_loose_is_nothing_found(
    tree: Contree,
    floor: bool,
    budget: int,
    starts: spec_fn(UVec3) -> bool,
    rank: spec_fn(UVec3) -> int,
    found: Seq<Seq<UVec3>>,
    seeds: Seq<UVec3>,
)
    requires
        finds(tree, floor, budget, starts, rank, found, seeds),
    ensures
        found.len() == 0 <==> forall|p: UVec3| #[trigger]
            starts(p) && solid_in_tree(tree)(p) ==> !loose(tree, p, floor, budget),
{
    if found.len() > 0 {
        law_found_pieces_are_loose_pieces(tree, floor, budget, starts, rank, found, seeds, 0);
    } else {
        assert forall|p: UVec3| #[trigger] starts(p) && solid_in_tree(tree)(p) implies !loose(
            tree,
            p,
            floor,
            budget,
        ) by {
            assert(!in_some_piece(found, p));
        }
    }
}

/// No voxel is in two of the pieces a search finds.
pub proof fn law_found_pieces_share_no_voxel(
    tree: Contree,
    floor: bool,
    budget: int,
    starts: spec_fn(UVec3) -> bool,
    rank: spec_fn(UVec3) -> int,
    found: Seq<Seq<UVec3>>,
    seeds: Seq<UVec3>,
    a: int,
    b: int,
    p: UVec3,
)
    requires
        finds(tree, floor, budget, starts, rank, found, seeds),
        0 <= a < b < found.len(),
    ensures
        !(found[a].contains(p) && found[b].contains(p)),
{
    if found[a].contains(p) && found[b].contains(p) {
        let solid = solid_in_tree(tree);
        assert(piece_from(tree, floor, budget, starts, rank, found[a], seeds[a]));
        assert(piece_from(tree, floor, budget, starts, rank, found[b], seeds[b]));
        reveal(piece_from);
        lemma_joined_back(solid, seeds[a], p);
        lemma_joined_through(solid, seeds[b], p, seeds[a]);
        assert(found[b].contains(seeds[a]));
        assert(rank(seeds[b]) <= rank(seeds[a]));
    }
}

/// No voxel is in two of the pieces of a tree.
pub proof fn law_components_share_no_voxel(
    tree: Contree,
    pieces: Seq<Seq<UVec3>>,
    k: int,
    l: int,
    p: UVec3,
)
    requires
        is_components(tree, pieces),
        0 <= k < l < pieces.len(),
    ensures
        !(pieces[k].contains(p) && pieces[l].contains(p)),
{
    reveal(is_components);
    let budget = tree.solids().len() as int;
    let solid = solid_in_tree(tree);
    let rank = walk_rank(tree.solids());
    let (found, seeds, order) = choose|
        found: Seq<Seq<UVec3>>,
        seeds: Seq<UVec3>,
        order: Seq<usize>,
    |
        #![trigger finds(tree, false, budget, solid, rank, found, seeds), by_size(found, order)]
        finds(tree, false, budget, solid, rank, found, seeds) && by_size(found, order) && pieces
            == reordered(found, order);
    let (a, b) = (order[k] as int, order[l] as int);
    assert(a != b);
    if a < b {
        law_found_pieces_share_no_voxel(tree, false, budget, solid, rank, found, seeds, a, b, p);
    } else {
        law_found_pieces_share_no_voxel(tree, false, budget, solid, rank, found, seeds, b, a, p);
    }
}

/// Every solid voxel of a tree is in one of its pieces.
pub proof fn law_components_cover_the_tree(tree: Contree, pieces: Seq<Seq<UVec3>>, p: UVec3)
    requires
        tree.readable(),
        is_components(tree, pieces),
        solid_in_tree(tree)(p),
    ensures
        in_some_piece(pieces, p),
{
    reveal(is_components);
    let budget = tree.solids().len() as int;
    let solid = solid_in_tree(tree);
    let rank = walk_rank(tree.solids());
    let (found, seeds, order) = choose|
        found: Seq<Seq<UVec3>>,
        seeds: Seq<UVec3>,
        order: Seq<usize>,
    |
        #![trigger finds(tree, false, budget, solid, rank, found, seeds), by_size(found, order)]
        finds(tree, false, budget, solid, rank, found, seeds) && by_size(found, order) && pieces
            == reordered(found, order);
    lemma_solids(tree);
    lemma_all_loose(tree, p, tree.solids());
    assert(loose(tree, p, false, budget));
    assert(in_some_piece(found, p));
    let l = choose|l: int| 0 <= l < found.len() && (#[trigger] found[l]).contains(p);
    assert(holds(order, l));
    let k = choose|k: int| 0 <= k < order.len() && #[trigger] order[k] == l;
    assert(pieces[k] == found[l]);
}

/// Whether a voxel lies in a box, both corners inclusive.
pub open spec fn boxed_in(lo: IVec3, hi: IVec3, p: UVec3) -> bool {
    &&& lo.x <= p.x && p.x <= hi.x
    &&& lo.y <= p.y && p.y <= hi.y
    &&& lo.z <= p.z && p.z <= hi.z
}

/// What a search around a box finds: each piece reaches into the box, hangs clear of the
/// ground, has no more voxels than the budget, and leaves no solid voxel behind that
/// shares a face with it.
pub proof fn law_a_found_piece_hangs_free(
    tree: Contree,
    budget: int,
    lo: IVec3,
    hi: IVec3,
    pieces: Seq<Seq<UVec3>>,
    seeds: Seq<UVec3>,
    k: int,
)
    requires
        finds(tree, true, budget, span(lo, hi), scan_rank(), pieces, seeds),
        0 <= k < pieces.len(),
    ensures
        1 <= pieces[k].len() <= budget,
        exists|i: int| 0 <= i < pieces[k].len() && boxed_in(lo, hi, #[trigger] pieces[k][i]),
        forall|i: int|
            0 <= i < pieces[k].len() ==> {
                let p = #[trigger] pieces[k][i];
                &&& p.y > 0
                &&& p.x < tree.side() && p.y < tree.side() && p.z < tree.side()
                &&& tree.at(p).0 != 0
            },
        forall|i: int, q: UVec3|
            #![trigger pieces[k][i], tree.at(q)]
            0 <= i < pieces[k].len() && q.x < tree.side() && q.y < tree.side() && q.z < tree.side()
                && tree.at(q).0 != 0 && {
                let (dx, dy, dz) = (
                    pieces[k][i].x - q.x,
                    pieces[k][i].y - q.y,
                    pieces[k][i].z - q.z,
                );
                dx * dx + dy * dy + dz * dz == 1
            } ==> pieces[k].contains(q),
{
    let solid = solid_in_tree(tree);
    let (piece, seed) = (pieces[k], seeds[k]);
    assert(piece_from(tree, true, budget, span(lo, hi), scan_rank(), piece, seed));
    reveal(piece_from);
    crate::physics::flood::law_a_piece_is_loose_where_it_is_small_and_off_the_floor(
        tree,
        seed,
        piece,
        true,
        budget,
    );
    crate::physics::connect::lemma_joined_self(solid, seed);
    assert(piece.contains(seed));
    let s = choose|s: int| 0 <= s < piece.len() && piece[s] == seed;
    assert(boxed_in(lo, hi, piece[s]));
    assert forall|i: int| 0 <= i < piece.len() implies {
        let p = #[trigger] piece[i];
        &&& p.y > 0
        &&& p.x < tree.side() && p.y < tree.side() && p.z < tree.side()
        &&& tree.at(p).0 != 0
    } by {
        assert(piece.contains(piece[i]));
        lemma_joined_solid(solid, seed, piece[i]);
    }
    assert forall|i: int, q: UVec3|
        #![trigger pieces[k][i], tree.at(q)]
        0 <= i < pieces[k].len() && q.x < tree.side() && q.y < tree.side() && q.z < tree.side()
            && tree.at(q).0 != 0 && {
            let (dx, dy, dz) = (
                pieces[k][i].x - q.x,
                pieces[k][i].y - q.y,
                pieces[k][i].z - q.z,
            );
            dx * dx + dy * dy + dz * dz == 1
        } implies pieces[k].contains(q) by {
        crate::physics::connect::law_neighbours_are_one_step_apart(piece[i], q);
        assert(piece.contains(piece[i]));
        assert(solid(q));
        crate::physics::connect::lemma_joined_step(solid, seed, piece[i], q);
    }
}

/// A search around a box overlooks nothing: a piece that holds a solid voxel of the box,
/// hangs clear of the ground and is within the budget is among those found.
pub proof fn law_a_free_piece_is_found(
    tree: Contree,
    budget: int,
    lo: IVec3,
    hi: IVec3,
    pieces: Seq<Seq<UVec3>>,
    seeds: Seq<UVec3>,
    p: UVec3,
    whole: Seq<UVec3>,
)
    requires
        finds(tree, true, budget, span(lo, hi), scan_rank(), pieces, seeds),
        boxed_in(lo, hi, p),
        p.x < tree.side() && p.y < tree.side() && p.z < tree.side(),
        tree.at(p).0 != 0,
        is_piece(solid_in_tree(tree), p, whole),
        whole.len() <= budget,
        forall|i: int| 0 <= i < whole.len() ==> (#[trigger] whole[i]).y > 0,
    ensures
        pieces.contains(whole),
{
    let solid = solid_in_tree(tree);
    crate::physics::flood::law_a_piece_is_loose_where_it_is_small_and_off_the_floor(
        tree,
        p,
        whole,
        true,
        budget,
    );
    assert(solid(p) && span(lo, hi)(p));
    assert(loose(tree, p, true, budget));
    let k = choose|k: int| 0 <= k < pieces.len() && (#[trigger] pieces[k]).contains(p);
    assert(piece_from(tree, true, budget, span(lo, hi), scan_rank(), pieces[k], seeds[k]));
    reveal(piece_from);
    lemma_piece_renamed(solid, seeds[k], p, pieces[k]);
    assert forall|q: UVec3| #[trigger] pieces[k].contains(q) <==> whole.contains(q) by {
        assert(pieces[k].contains(q) <==> crate::physics::connect::joined(solid, p, q));
    }
    crate::physics::connect::law_one_order_for_the_same_voxels(pieces[k], whole);
}

/// Pieces are found in the order in which a scan of the box, by z, then y, then x, first
/// meets them.
pub proof fn law_pieces_are_found_in_scan_order(
    tree: Contree,
    budget: int,
    lo: IVec3,
    hi: IVec3,
    pieces: Seq<Seq<UVec3>>,
    seeds: Seq<UVec3>,
    k: int,
    l: int,
)
    requires
        finds(tree, true, budget, span(lo, hi), scan_rank(), pieces, seeds),
        0 <= k < l < pieces.len(),
    ensures
        exists|i: int|
            0 <= i < pieces[k].len() && boxed_in(lo, hi, #[trigger] pieces[k][i]) && forall|j: int|
                0 <= j < pieces[l].len() && boxed_in(lo, hi, #[trigger] pieces[l][j]) ==> {
                    let (a, b) = (pieces[k][i], pieces[l][j]);
                    ||| a.z < b.z
                    ||| a.z == b.z && a.y < b.y
                    ||| a.z == b.z && a.y == b.y && a.x < b.x
                },
{
    let solid = solid_in_tree(tree);
    let rank = scan_rank();
    assert(piece_from(tree, true, budget, span(lo, hi), rank, pieces[k], seeds[k]));
    assert(piece_from(tree, true, budget, span(lo, hi), rank, pieces[l], seeds[l]));
    reveal(piece_from);
    crate::physics::connect::lemma_joined_self(solid, seeds[k]);
    assert(pieces[k].contains(seeds[k]));
    let i = choose|i: int| 0 <= i < pieces[k].len() && pieces[k][i] == seeds[k];
    assert(rank(seeds[k]) < rank(seeds[l]));
    assert forall|j: int|
        0 <= j < pieces[l].len() && boxed_in(lo, hi, #[trigger] pieces[l][j]) implies {
        let (a, b) = (pieces[k][i], pieces[l][j]);
        ||| a.z < b.z
        ||| a.z == b.z && a.y < b.y
        ||| a.z == b.z && a.y == b.y && a.x < b.x
    } by {
        let q = pieces[l][j];
        assert(pieces[l].contains(q) && span(lo, hi)(q));
        assert(rank(seeds[l]) <= rank(q));
        let a = seeds[k];
        assert(code(a.x as int, a.y as int, a.z as int) < code(
            q.x as int,
            q.y as int,
            q.z as int,
        ));
    }
    assert(boxed_in(lo, hi, pieces[k][i]));
}

/// What is lifted out: as many pieces as there is room for, or all; every voxel with the
/// material it had; and no piece that stays is larger than one that goes.
pub proof fn law_the_largest_pieces_are_lifted(
    tree: Contree,
    found: Seq<Seq<UVec3>>,
    order: Seq<usize>,
    room: int,
    freed: Seq<Vec<(UVec3, MaterialId)>>,
)
    requires
        takes_largest(tree, found, order, room, freed),
        room >= 0,
    ensures
        freed.len() == vstd::math::min(room, found.len() as int),
        forall|k: int, i: int|
            0 <= k < freed.len() && 0 <= i < freed[k]@.len() ==> (#[trigger] freed[k]@[i]).1
                == tree.at(freed[k]@[i].0),
        forall|k: int, l: int|
            0 <= k < l < freed.len() ==> (#[trigger] freed[k])@.len() >= (#[trigger] freed[l])@.len(),
        forall|k: int|
            0 <= k < freed.len() ==> found.contains(#[trigger] places(freed[k]@)),
        forall|l: int, k: int|
            #![trigger found[l], freed[k]]
            0 <= l < found.len() && 0 <= k < freed.len() && !lifted(freed, found[l])
                ==> freed[k]@.len() >= found[l].len(),
{
    assert forall|k: int| 0 <= k < freed.len() implies found.contains(
        #[trigger] places(freed[k]@),
    ) by {
        let piece = found[order[k] as int];
        assert(freed[k]@ == with_materials(tree, piece));
        assert(places(freed[k]@) =~= piece);
    }
    assert forall|l: int, k: int|
        #![trigger found[l], freed[k]]
        0 <= l < found.len() && 0 <= k < freed.len() && !lifted(
            freed,
            found[l],
        ) implies freed[k]@.len() >= found[l].len() by {
        assert(holds(order, l));
        let at = choose|at: int| 0 <= at < order.len() && #[trigger] order[at] == l;
        assert(freed[k]@ == with_materials(tree, found[order[k] as int]));
        if at < freed.len() {
            assert(freed[at]@ == with_materials(tree, found[l]));
            assert(places(freed[at]@) =~= found[l]);
            assert(lifted(freed, found[l]));
        }
    }
    assert forall|k: int, l: int| 0 <= k < l < freed.len() implies (#[trigger] freed[k])@.len() >= (
    #[trigger] freed[l])@.len() by {
        assert(freed[k]@ == with_materials(tree, found[order[k] as int]));
        assert(freed[l]@ == with_materials(tree, found[order[l] as int]));
        assert(order[k] < found.len() && order[l] < found.len());
    }
    assert forall|k: int, i: int| 0 <= k < freed.len() && 0 <= i < freed[k]@.len() implies (
    #[trigger] freed[k]@[i]).1 == tree.at(freed[k]@[i].0) by {
        assert(freed[k]@ == with_materials(tree, found[order[k] as int]));
    }
}

/// Whether a piece is one of those lifted out.
pub open spec fn lifted(freed: Seq<Vec<(UVec3, MaterialId)>>, piece: Seq<UVec3>) -> bool {
    exists|k: int| 0 <= k < freed.len() && #[trigger] places(freed[k]@) == piece
}

/// The pieces of a body come largest first, and each is whole: it leaves no solid voxel
/// behind that shares a face with it.
pub proof fn law_components_come_largest_first(
    tree: Contree,
    pieces: Seq<Seq<UVec3>>,
    k: int,
    l: int,
)
    requires
        is_components(tree, pieces),
        0 <= k < l < pieces.len(),
    ensures
        pieces[k].len() >= pieces[l].len(),
{
    reveal(is_components);
    let budget = tree.solids().len() as int;
    let solid = solid_in_tree(tree);
    let rank = walk_rank(tree.solids());
    let (found, seeds, order) = choose|
        found: Seq<Seq<UVec3>>,
        seeds: Seq<UVec3>,
        order: Seq<usize>,
    |
        #![trigger finds(tree, false, budget, solid, rank, found, seeds), by_size(found, order)]
        finds(tree, false, budget, solid, rank, found, seeds) && by_size(found, order) && pieces
            == reordered(found, order);
    let (a, b) = (order[k] as int, order[l] as int);
    assert(pieces[k] == found[a] && pieces[l] == found[b]);
}

/// A corner of a list is reached by its voxels along every axis.
proof fn lemma_corners_met(all: Seq<UVec3>)
    requires
        all.len() >= 1,
    ensures
        exists|i: int| 0 <= i < all.len() && (#[trigger] all[i]).x == low_corner(all).x,
        exists|i: int| 0 <= i < all.len() && (#[trigger] all[i]).y == low_corner(all).y,
        exists|i: int| 0 <= i < all.len() && (#[trigger] all[i]).z == low_corner(all).z,
        exists|i: int| 0 <= i < all.len() && (#[trigger] all[i]).x == high_corner(all).x,
        exists|i: int| 0 <= i < all.len() && (#[trigger] all[i]).y == high_corner(all).y,
        exists|i: int| 0 <= i < all.len() && (#[trigger] all[i]).z == high_corner(all).z,
    decreases all.len(),
{
    if all.len() == 1 {
        assert(all[0].x == low_corner(all).x);
    } else {
        let rest = all.drop_last();
        lemma_corners_met(rest);
        let (lo, hi) = (low_corner(rest), high_corner(rest));
        let a = choose|i: int| 0 <= i < rest.len() && (#[trigger] rest[i]).x == lo.x;
        let b = choose|i: int| 0 <= i < rest.len() && (#[trigger] rest[i]).y == lo.y;
        let c = choose|i: int| 0 <= i < rest.len() && (#[trigger] rest[i]).z == lo.z;
        let d = choose|i: int| 0 <= i < rest.len() && (#[trigger] rest[i]).x == hi.x;
        let e = choose|i: int| 0 <= i < rest.len() && (#[trigger] rest[i]).y == hi.y;
        let f = choose|i: int| 0 <= i < rest.len() && (#[trigger] rest[i]).z == hi.z;
        assert(all[a] == rest[a] && all[b] == rest[b] && all[c] == rest[c]);
        assert(all[d] == rest[d] && all[e] == rest[e] && all[f] == rest[f]);
        assert(all[all.len() - 1] == all.last());
    }
}

/// A piece's volume begins where the piece does along every axis, holds all of it, and
/// no smaller volume would.
pub proof fn law_a_piece_is_held_snugly(
    voxels: Seq<(UVec3, MaterialId)>,
    side: int,
    corner: UVec3,
)
    requires
        voxels.len() >= 1,
        corner == low_corner(places(voxels)),
        fits_size(side, longest(corner, high_corner(places(voxels)))),
    ensures
        exists|i: int| 0 <= i < voxels.len() && (#[trigger] voxels[i]).0.x == corner.x,
        exists|i: int| 0 <= i < voxels.len() && (#[trigger] voxels[i]).0.y == corner.y,
        exists|i: int| 0 <= i < voxels.len() && (#[trigger] voxels[i]).0.z == corner.z,
        forall|i: int|
            0 <= i < voxels.len() ==> {
                let p = (#[trigger] voxels[i]).0;
                &&& 0 <= p.x - corner.x < side
                &&& 0 <= p.y - corner.y < side
                &&& 0 <= p.z - corner.z < side
            },
        side > 4 ==> exists|i: int|
            0 <= i < voxels.len() && {
                let p = (#[trigger] voxels[i]).0;
                ||| 4 * (p.x - corner.x + 1) > side
                ||| 4 * (p.y - corner.y + 1) > side
                ||| 4 * (p.z - corner.z + 1) > side
            },
{
    let all = places(voxels);
    let far = high_corner(all);
    lemma_corners_met(all);
    let a = choose|i: int| 0 <= i < all.len() && (#[trigger] all[i]).x == corner.x;
    let b = choose|i: int| 0 <= i < all.len() && (#[trigger] all[i]).y == corner.y;
    let c = choose|i: int| 0 <= i < all.len() && (#[trigger] all[i]).z == corner.z;
    assert(voxels[a].0 == all[a] && voxels[b].0 == all[b] && voxels[c].0 == all[c]);
    let d = choose|i: int| 0 <= i < all.len() && (#[trigger] all[i]).x == far.x;
    let e = choose|i: int| 0 <= i < all.len() && (#[trigger] all[i]).y == far.y;
    let f = choose|i: int| 0 <= i < all.len() && (#[trigger] all[i]).z == far.z;
    assert(voxels[d].0 == all[d] && voxels[e].0 == all[e] && voxels[f].0 == all[f]);
    assert forall|i: int| 0 <= i < voxels.len() implies {
        let p = (#[trigger] voxels[i]).0;
        &&& 0 <= p.x - corner.x < side
        &&& 0 <= p.y - corner.y < side
        &&& 0 <= p.z - corner.z < side
    } by {
        lemma_corners(all, i);
        assert(all[i] == voxels[i].0);
    }
}

/// A piece's volume has at each place what was listed at that place from the corner: the
/// material of the last entry for it, and nothing where there is none.
pub proof fn law_a_piece_keeps_its_shape(
    voxels: Seq<(UVec3, MaterialId)>,
    tree: Contree,
    corner: UVec3,
    p: UVec3,
)
    requires
        p.x < tree.side() && p.y < tree.side() && p.z < tree.side(),
        p.x + corner.x <= u32::MAX && p.y + corner.y <= u32::MAX && p.z + corner.z <= u32::MAX,
        tree.at(p) == match listed(voxels, back(p, corner)) {
            Some(m) => MaterialId(m),
            None => MaterialId(0),
        },
    ensures
        forall|i: int|
            0 <= i < voxels.len() && voxels[i].0.x == p.x + corner.x && voxels[i].0.y == p.y
                + corner.y && voxels[i].0.z == p.z + corner.z && (forall|j: int|
                i < j < voxels.len() ==> (#[trigger] voxels[j]).0 != voxels[i].0) ==> tree.at(p)
                == (#[trigger] voxels[i]).1,
        (forall|i: int|
            0 <= i < voxels.len() ==> {
                ||| (#[trigger] voxels[i]).0.x != p.x + corner.x
                ||| voxels[i].0.y != p.y + corner.y
                ||| voxels[i].0.z != p.z + corner.z
            }) ==> tree.at(p).0 == 0,
{
    let q = back(p, corner);
    crate::edit::law_the_last_entry_for_a_place_wins(voxels);
    if forall|i: int|
        0 <= i < voxels.len() ==> {
            ||| (#[trigger] voxels[i]).0.x != p.x + corner.x
            ||| voxels[i].0.y != p.y + corner.y
            ||| voxels[i].0.z != p.z + corner.z
        } {
        assert forall|i: int| 0 <= i < voxels.len() implies (#[trigger] voxels[i]).0 != q by {}
        assert(listed(voxels, q) is None);
    }
    assert forall|i: int|
        0 <= i < voxels.len() && voxels[i].0.x == p.x + corner.x && voxels[i].0.y == p.y
            + corner.y && voxels[i].0.z == p.z + corner.z && (forall|j: int|
            i < j < voxels.len() ==> (#[trigger] voxels[j]).0
                != voxels[i].0) implies tree.at(p) == (#[trigger] voxels[i]).1 by {
        assert(voxels[i].0 == q);
        assert(listed(voxels, voxels[i].0) == Some(voxels[i].1.0));
    }
}

/// What detaching looks for is pieces of up to 20,000 voxels: it finds every one that
/// reaches into the box and hangs clear of the ground, and none that is larger.
pub proof fn law_detaching_finds_pieces_of_twenty_thousand(
    tree: Contree,
    lo: IVec3,
    hi: IVec3,
    pieces: Seq<Seq<UVec3>>,
    seeds: Seq<UVec3>,
    p: UVec3,
    whole: Seq<UVec3>,
)
    requires
        finds(tree, true, BUDGET as int, span(lo, hi), scan_rank(), pieces, seeds),
        boxed_in(lo, hi, p),
        p.x < tree.side() && p.y < tree.side() && p.z < tree.side(),
        tree.at(p).0 != 0,
        is_piece(solid_in_tree(tree), p, whole),
    ensures
        pieces.contains(whole) <==> whole.len() <= 20_000 && forall|i: int|
            0 <= i < whole.len() ==> (#[trigger] whole[i]).y > 0,
{
    if whole.len() <= 20_000 && (forall|i: int|
        0 <= i < whole.len() ==> (#[trigger] whole[i]).y > 0) {
        law_a_free_piece_is_found(tree, BUDGET as int, lo, hi, pieces, seeds, p, whole);
    }
    if pieces.contains(whole) {
        let k = choose|k: int| 0 <= k < pieces.len() && pieces[k] == whole;
        law_a_found_piece_hangs_free(tree, BUDGET as int, lo, hi, pieces, seeds, k);
    }
}

} // verus!
