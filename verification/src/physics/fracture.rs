//! Breaking things: where the cracks go, and what they take out of a volume.
//!
//! A voxel engine already has code that turns disconnected voxels into rigid
//! bodies, so fracture is not a matter of planning pieces and copying volumes. It
//! is a matter of deleting the right voxels and letting detachment do what it
//! already does.

use crate::address::{IVec3, UVec3};
use crate::body::BodyId;
use crate::contree::Contree;
use crate::distance_field::{cell_stored, lemma_stored};
use crate::edit::{edited, has_room};
use crate::grid::cell_count;
use crate::material::MaterialId;
use crate::physics::classify::answers;
use crate::physics::contact::{around, in_reach, lemma_around, lemma_cube_cells};
use vstd::prelude::*;

verus! {

/// A seed for one impact's cracks: the voxel that gave way and how hard, as the
/// bits of the impulse.
///
/// Deterministic, so a replayed tick cracks the same way, and different for two
/// impacts in one tick, so a body hit twice does not break twice alike.
pub fn seed_of(voxel: UVec3, impulse: u32) -> (seed: u64)
    ensures
        seed == impact_seed(voxel, impulse),
{
    (voxel.x as u64) << 40u64 ^ (voxel.y as u64) << 20u64 ^ voxel.z as u64 ^ (impulse as u64)
        << 3u64
}

/// The voxel's coordinates and the impulse's bits, shifted apart and mixed.
pub open spec fn impact_seed(voxel: UVec3, impulse: u32) -> u64 {
    (voxel.x as u64) << 40u64 ^ (voxel.y as u64) << 20u64 ^ voxel.z as u64 ^ (impulse as u64)
        << 3u64
}

/// Two impacts as hard as each other on different voxels of a volume of no more
/// than 2^20 along each axis have different seeds.
pub proof fn law_different_voxels_crack_differently(a: UVec3, b: UVec3, impulse: u32)
    requires
        a.within(0x10_0000),
        b.within(0x10_0000),
        impact_seed(a, impulse) == impact_seed(b, impulse),
    ensures
        a == b,
{
    let (ax, ay, az) = (a.x, a.y, a.z);
    let (bx, by, bz) = (b.x, b.y, b.z);
    assert(ax == bx && ay == by && az == bz) by (bit_vector)
        requires
            ax < 0x10_0000u32 && ay < 0x10_0000u32 && az < 0x10_0000u32,
            bx < 0x10_0000u32 && by < 0x10_0000u32 && bz < 0x10_0000u32,
            ((ax as u64) << 40u64 ^ (ay as u64) << 20u64 ^ az as u64 ^ (impulse as u64) << 3u64)
                == ((bx as u64) << 40u64 ^ (by as u64) << 20u64 ^ bz as u64 ^ (impulse as u64)
                << 3u64),
    ;
}

/// Whether an offset lies in the ball of a radius.
pub open spec fn in_ball(offset: IVec3, reach: int) -> bool {
    offset.x * offset.x + offset.y * offset.y + offset.z * offset.z <= reach * reach
}

/// The origin.
pub open spec fn no_offset() -> IVec3 {
    IVec3 { x: 0, y: 0, z: 0 }
}

/// The cracked voxels among the first `n` offsets of the ball around a voxel.
pub open spec fn cracked(
    at: IVec3,
    reach: int,
    on_plane: spec_fn(IVec3) -> bool,
    n: int,
) -> Seq<IVec3>
    decreases n,
{
    if n <= 0 {
        Seq::empty()
    } else {
        let before = cracked(at, reach, on_plane, n - 1);
        let offset = around(no_offset(), reach, n - 1);
        if in_ball(offset, reach) && on_plane(offset) {
            before.push(
                IVec3 {
                    x: (at.x + offset.x) as i32,
                    y: (at.y + offset.y) as i32,
                    z: (at.z + offset.z) as i32,
                },
            )
        } else {
            before
        }
    }
}

/// Voxels to clear around `at` so that what was solid there comes apart: the ball
/// of radius `reach`, where `on_plane` tells that an offset from its middle lies
/// within half a voxel of a crack. By z, then y, then x.
pub fn cracks<F: Fn(IVec3) -> bool>(at: IVec3, reach: u32, on_plane: F) -> (out: Vec<IVec3>)
    requires
        in_reach(at, reach as int),
        forall|q: IVec3| call_requires(on_plane, (q,)),
    ensures
        forall|says: spec_fn(IVec3) -> bool| #[trigger]
            answers(on_plane, says) ==> out@ == cracked(
                at,
                reach as int,
                says,
                cell_count(2 * reach + 1),
            ),
{
    let mut out: Vec<IVec3> = Vec::new();
    let n: u128 = 2 * (reach as u128) + 1;
    proof {
        lemma_cube_cells(n as int);
    }
    let count: u128 = n * n * n;
    for i in 0..count
        invariant
            n == 2 * reach + 1,
            in_reach(at, reach as int),
            forall|q: IVec3| call_requires(on_plane, (q,)),
            count == cell_count(n as int),
            forall|says: spec_fn(IVec3) -> bool| #[trigger]
                answers(on_plane, says) ==> out@ == cracked(at, reach as int, says, i as int),
    {
        proof {
            reveal(cell_stored);
            lemma_stored(n as int, i as int);
        }
        let dx: u32 = (i % n) as u32;
        let dy: u32 = ((i / n) % n) as u32;
        let dz: u32 = ((i / n) / n) as u32;
        let r: i64 = reach as i64;
        let offset = IVec3::new(
            (dx as i64 - r) as i32,
            (dy as i64 - r) as i32,
            (dz as i64 - r) as i32,
        );
        proof {
            assert(offset == around(no_offset(), reach as int, i as int));
            lemma_square(offset.x as int);
            lemma_square(offset.y as int);
            lemma_square(offset.z as int);
            lemma_square(reach as int);
        }
        let (x, y, z) = (offset.x as i128, offset.y as i128, offset.z as i128);
        let limit: i128 = (reach as i128) * (reach as i128);
        if x * x + y * y + z * z <= limit {
            if on_plane(offset) {
                out.push(IVec3::new(at.x + offset.x, at.y + offset.y, at.z + offset.z));
            }
        }
    }
    out
}

proof fn lemma_square(v: int)
    requires
        i32::MIN <= v <= i32::MAX,
    ensures
        0 <= v * v <= i64::MAX,
{
    assert(0 <= v * v <= 0x8000_0000 * 0x8000_0000) by (nonlinear_arith)
        requires
            -0x8000_0000 <= v <= 0x8000_0000,
    ;
}

/// Cracks stay inside the reach they claim.
pub proof fn law_cracks_stay_within_reach(
    at: IVec3,
    reach: int,
    on_plane: spec_fn(IVec3) -> bool,
    n: int,
    k: int,
)
    requires
        0 <= reach,
        in_reach(at, reach),
        0 <= n <= cell_count(2 * reach + 1),
        0 <= k < cracked(at, reach, on_plane, n).len(),
    ensures
        ({
            let p = cracked(at, reach, on_plane, n)[k];
            &&& at.x - reach <= p.x <= at.x + reach
            &&& at.y - reach <= p.y <= at.y + reach
            &&& at.z - reach <= p.z <= at.z + reach
        }),
    decreases n,
{
    let before = cracked(at, reach, on_plane, n - 1);
    if k < before.len() {
        law_cracks_stay_within_reach(at, reach, on_plane, n - 1, k);
    } else {
        lemma_stored(2 * reach + 1, n - 1);
    }
}

/// Those of some places that are voxels of a volume.
pub open spec fn inside(cracks: Seq<IVec3>, side: int) -> Seq<UVec3>
    decreases cracks.len(),
{
    if cracks.len() == 0 {
        Seq::empty()
    } else {
        let before = inside(cracks.drop_last(), side);
        let p = cracks.last();
        if 0 <= p.x < side && 0 <= p.y < side && 0 <= p.z < side {
            before.push(UVec3 { x: p.x as u32, y: p.y as u32, z: p.z as u32 })
        } else {
            before
        }
    }
}

/// Cuts cracks into a volume, and tells whether any of them lay inside it.
pub fn crack_volume(tree: &mut Contree, cracks: &[IVec3]) -> (changed: bool)
    requires
        old(tree).sound(),
        has_room(*old(tree), inside(cracks@, old(tree).side())),
    ensures
        edited(*old(tree), *final(tree)),
        changed <==> inside(cracks@, old(tree).side()).len() > 0,
        changed <==> exists|i: int|
            0 <= i < cracks@.len() && {
                let p = #[trigger] cracks@[i];
                &&& 0 <= p.x < old(tree).side()
                &&& 0 <= p.y < old(tree).side()
                &&& 0 <= p.z < old(tree).side()
            },
        forall|p: UVec3|
            p.within(old(tree).side()) ==> (#[trigger] final(tree).at(p)) == if exists|i: int|
                0 <= i < cracks@.len() && (#[trigger] cracks@[i]).x == p.x && cracks@[i].y == p.y
                    && cracks@[i].z == p.z {
                MaterialId(0)
            } else {
                old(tree).at(p)
            },
        !changed ==> *final(tree) == *old(tree),
        forall|p: UVec3|
            p.within(old(tree).side()) ==> #[trigger] final(tree).at(p) == if inside(
                cracks@,
                old(tree).side(),
            ).contains(p) {
                MaterialId(0)
            } else {
                old(tree).at(p)
            },
{
    let ghost t = *tree;
    proof {
        crate::dense::lemma_extent_levels(tree.height());
        if tree.height() < 14 {
            crate::dense::lemma_extent_strict(tree.height(), 14);
        }
        assert(cracks@.take(0) =~= Seq::empty());
    }
    let extent: i32 = tree.extent() as i32;
    let mut cut: Vec<UVec3> = Vec::new();
    for i in 0..cracks.len()
        invariant
            extent == t.side(),
            cut@ == inside(cracks@.take(i as int), t.side()),
    {
        let p = cracks[i];
        proof {
            assert(cracks@.take(i + 1).drop_last() =~= cracks@.take(i as int));
            assert(cracks@.take(i + 1).last() == cracks@[i as int]);
        }
        if 0 <= p.x && p.x < extent && 0 <= p.y && p.y < extent && 0 <= p.z && p.z < extent {
            cut.push(UVec3::new(p.x as u32, p.y as u32, p.z as u32));
        }
    }
    assert(cracks@.take(cracks@.len() as int) =~= cracks@);
    tree.clear_voxels(&cut);
    proof {
        law_cracks_inside_are_the_voxels_among_them(cracks@, t.side());
        if cut@.len() > 0 {
            assert(cut@.contains(cut@[0]));
            let i = choose|i: int|
                0 <= i < cracks@.len() && (#[trigger] cracks@[i]).x == cut@[0].x && cracks@[i].y
                    == cut@[0].y && cracks@[i].z == cut@[0].z;
            assert(0 <= cracks@[i].x < t.side());
        }
        if exists|i: int|
            0 <= i < cracks@.len() && {
                let p = #[trigger] cracks@[i];
                &&& 0 <= p.x < t.side()
                &&& 0 <= p.y < t.side()
                &&& 0 <= p.z < t.side()
            } {
            let i = choose|i: int|
                0 <= i < cracks@.len() && {
                    let p = #[trigger] cracks@[i];
                    &&& 0 <= p.x < t.side()
                    &&& 0 <= p.y < t.side()
                    &&& 0 <= p.z < t.side()
                };
            let p = cracks@[i];
            let q = UVec3 { x: p.x as u32, y: p.y as u32, z: p.z as u32 };
            assert(p.x == q.x && p.y == q.y && p.z == q.z);
            assert(cut@.contains(q));
        }
        assert forall|p: UVec3| p.within(t.side()) implies (#[trigger] tree.at(p)) == if exists|
            i: int,
        |
            0 <= i < cracks@.len() && (#[trigger] cracks@[i]).x == p.x && cracks@[i].y == p.y
                && cracks@[i].z == p.z {
            MaterialId(0)
        } else {
            t.at(p)
        } by {
            assert(cut@.contains(p) <==> inside(cracks@, t.side()).contains(p));
        }
    }
    cut.len() > 0
}

/// Those of the first `n` events that broke the world, or that broke bodies.
pub open spec fn events_of(broken: Seq<Option<BodyId>>, world: bool, n: int) -> Seq<usize>
    decreases n,
{
    if n <= 0 {
        Seq::empty()
    } else if (broken[n - 1] is None) == world {
        events_of(broken, world, n - 1).push((n - 1) as usize)
    } else {
        events_of(broken, world, n - 1)
    }
}

/// The order a tick's fractures are cut in, each named by whose voxel broke: the
/// world's first, then the bodies'. A body's place in the scene moves when another
/// body splits; the world has no such problem.
pub fn world_first(broken: &[Option<BodyId>]) -> (order: Vec<usize>)
    ensures
        order@ == events_of(broken@, true, broken@.len() as int) + events_of(
            broken@,
            false,
            broken@.len() as int,
        ),
{
    let mut order: Vec<usize> = Vec::new();
    for i in 0..broken.len()
        invariant
            order@ == events_of(broken@, true, i as int),
    {
        if broken[i].is_none() {
            order.push(i);
        }
    }
    let ghost first = order@;
    proof {
        assert(first + events_of(broken@, false, 0) =~= first);
    }
    for i in 0..broken.len()
        invariant
            order@ == first + events_of(broken@, false, i as int),
    {
        if broken[i].is_some() {
            order.push(i);
            assert(order@ =~= first + events_of(broken@, false, i as int).push(i));
        }
    }
    order
}

/// The cracks inside a volume are its voxels among them, and no others.
pub proof fn law_cracks_inside_are_the_voxels_among_them(cracks: Seq<IVec3>, side: int)
    requires
        side <= u32::MAX,
    ensures
        forall|p: UVec3| #[trigger]
            inside(cracks, side).contains(p) <==> {
                &&& p.x < side && p.y < side && p.z < side
                &&& exists|i: int|
                    0 <= i < cracks.len() && (#[trigger] cracks[i]).x == p.x && cracks[i].y == p.y
                        && cracks[i].z == p.z
            },
    decreases cracks.len(),
{
    if cracks.len() > 0 {
        let rest = cracks.drop_last();
        let (now, before) = (inside(cracks, side), inside(rest, side));
        law_cracks_inside_are_the_voxels_among_them(rest, side);
        assert(cracks[cracks.len() - 1] == cracks.last());
        assert forall|p: UVec3| #[trigger] now.contains(p) <==> {
            &&& p.x < side && p.y < side && p.z < side
            &&& exists|i: int|
                0 <= i < cracks.len() && (#[trigger] cracks[i]).x == p.x && cracks[i].y == p.y
                    && cracks[i].z == p.z
        } by {
            if now.contains(p) {
                let k = choose|k: int| 0 <= k < now.len() && now[k] == p;
                if k < before.len() {
                    assert(before[k] == p);
                    assert(before.contains(p));
                    let i = choose|i: int|
                        0 <= i < rest.len() && (#[trigger] rest[i]).x == p.x && rest[i].y == p.y
                            && rest[i].z == p.z;
                    assert(cracks[i] == rest[i]);
                } else {
                    assert(cracks[cracks.len() - 1].x == p.x);
                }
            }
            if p.x < side && p.y < side && p.z < side && exists|i: int|
                0 <= i < cracks.len() && (#[trigger] cracks[i]).x == p.x && cracks[i].y == p.y
                    && cracks[i].z == p.z {
                let i = choose|i: int|
                    0 <= i < cracks.len() && (#[trigger] cracks[i]).x == p.x && cracks[i].y == p.y
                        && cracks[i].z == p.z;
                if i < rest.len() {
                    assert(rest[i] == cracks[i]);
                    assert(before.contains(p));
                    let k = choose|k: int| 0 <= k < before.len() && before[k] == p;
                    assert(now[k] == p);
                } else {
                    assert(now[before.len() as int] == p);
                }
            }
        }
    }
}

/// Cracks run where the ball around the impact meets a plane: an offset of the ball is
/// cracked exactly where a plane passes it by.
pub proof fn law_cracks_are_where_planes_meet_the_ball(
    at: IVec3,
    reach: int,
    on_plane: spec_fn(IVec3) -> bool,
    p: IVec3,
)
    requires
        0 <= reach,
        in_reach(at, reach),
    ensures
        cracked(at, reach, on_plane, cell_count(2 * reach + 1)).contains(p) <==> {
            let (dx, dy, dz) = (p.x - at.x, p.y - at.y, p.z - at.z);
            &&& dx * dx + dy * dy + dz * dz <= reach * reach
            &&& on_plane(IVec3 { x: dx as i32, y: dy as i32, z: dz as i32 })
        },
{
    let e = 2 * reach + 1;
    let n = cell_count(e);
    let all = cracked(at, reach, on_plane, n);
    let (dx, dy, dz) = (p.x - at.x, p.y - at.y, p.z - at.z);
    if all.contains(p) {
        let k = choose|k: int| 0 <= k < all.len() && all[k] == p;
        let i = lemma_cracked_from(at, reach, on_plane, n, k);
        lemma_stored(e, i);
        let offset = around(no_offset(), reach, i);
        assert(offset == IVec3 { x: dx as i32, y: dy as i32, z: dz as i32 });
        assert(offset.x == dx && offset.y == dy && offset.z == dz);
    }
    if dx * dx + dy * dy + dz * dz <= reach * reach && on_plane(
        IVec3 { x: dx as i32, y: dy as i32, z: dz as i32 },
    ) {
        lemma_short_side(dx, dy, dz, reach);
        lemma_short_side(dy, dx, dz, reach);
        lemma_short_side(dz, dx, dy, reach);
        let c = UVec3 { x: (dx + reach) as u32, y: (dy + reach) as u32, z: (dz + reach) as u32 };
        let i = crate::grid::cell_index(e, c.x as int, c.y as int, c.z as int);
        crate::distance_field::lemma_stored_at(e, c);
        let offset = IVec3 { x: dx as i32, y: dy as i32, z: dz as i32 };
        assert(around(no_offset(), reach, i) == offset);
        lemma_from_cracked(at, reach, on_plane, n, i);
    }
}

proof fn lemma_short_side(a: int, b: int, c: int, reach: int)
    requires
        0 <= reach,
        a * a + b * b + c * c <= reach * reach,
    ensures
        -reach <= a <= reach,
{
    assert(b * b >= 0 && c * c >= 0) by (nonlinear_arith);
    assert(a * a <= reach * reach ==> -reach <= a <= reach) by (nonlinear_arith)
        requires
            0 <= reach,
    ;
    assert(a * a + c * c + b * b == a * a + b * b + c * c);
}

proof fn lemma_cracked_from(
    at: IVec3,
    reach: int,
    on_plane: spec_fn(IVec3) -> bool,
    n: int,
    k: int,
) -> (i: int)
    requires
        0 <= k < cracked(at, reach, on_plane, n).len(),
    ensures
        0 <= i < n,
        ({
            let offset = around(no_offset(), reach, i);
            &&& in_ball(offset, reach) && on_plane(offset)
            &&& cracked(at, reach, on_plane, n)[k] == IVec3 {
                x: (at.x + offset.x) as i32,
                y: (at.y + offset.y) as i32,
                z: (at.z + offset.z) as i32,
            }
        }),
    decreases n,
{
    let before = cracked(at, reach, on_plane, n - 1);
    if k < before.len() {
        lemma_cracked_from(at, reach, on_plane, n - 1, k)
    } else {
        n - 1
    }
}

proof fn lemma_from_cracked(
    at: IVec3,
    reach: int,
    on_plane: spec_fn(IVec3) -> bool,
    n: int,
    i: int,
)
    requires
        0 <= i < n,
        in_ball(around(no_offset(), reach, i), reach),
        on_plane(around(no_offset(), reach, i)),
    ensures
        ({
            let offset = around(no_offset(), reach, i);
            cracked(at, reach, on_plane, n).contains(
                IVec3 {
                    x: (at.x + offset.x) as i32,
                    y: (at.y + offset.y) as i32,
                    z: (at.z + offset.z) as i32,
                },
            )
        }),
    decreases n,
{
    let now = cracked(at, reach, on_plane, n);
    let before = cracked(at, reach, on_plane, n - 1);
    let offset = around(no_offset(), reach, i);
    let p = IVec3 {
        x: (at.x + offset.x) as i32,
        y: (at.y + offset.y) as i32,
        z: (at.z + offset.z) as i32,
    };
    if i < n - 1 {
        lemma_from_cracked(at, reach, on_plane, n - 1, i);
        let k = choose|k: int| 0 <= k < before.len() && before[k] == p;
        assert(now[k] == before[k]);
    } else {
        assert(now[before.len() as int] == p);
    }
}

/// A tick's fractures are cut one by one, each once: those of the world first, and
/// within the world, and within the bodies, in the order in which they happened.
pub proof fn law_the_world_breaks_before_the_bodies(broken: Seq<Option<BodyId>>)
    requires
        broken.len() <= usize::MAX,
    ensures
        ({
            let n = broken.len() as int;
            let order = events_of(broken, true, n) + events_of(broken, false, n);
            &&& order.len() == n
            &&& forall|i: usize| i < n ==> #[trigger] order.contains(i)
            &&& forall|k: int| 0 <= k < order.len() ==> #[trigger] order[k] < n
            &&& forall|k: int, l: int|
                0 <= k < l < order.len() ==> {
                    let (a, b) = (#[trigger] order[k] as int, #[trigger] order[l] as int);
                    ||| broken[a] is None && broken[b] is Some
                    ||| (broken[a] is None) == (broken[b] is None) && a < b
                }
        }),
{
    let n = broken.len() as int;
    let (world, bodies) = (events_of(broken, true, n), events_of(broken, false, n));
    let order = world + bodies;
    lemma_events(broken, true, n);
    lemma_events(broken, false, n);
    lemma_events_count(broken, n);
    assert forall|i: usize| i < n implies #[trigger] order.contains(i) by {
        if broken[i as int] is None {
            assert(world.contains(i));
            let k = choose|k: int| 0 <= k < world.len() && world[k] == i;
            assert(order[k] == i);
        } else {
            assert(bodies.contains(i));
            let k = choose|k: int| 0 <= k < bodies.len() && bodies[k] == i;
            assert(order[world.len() + k] == i);
        }
    }
}

proof fn lemma_events(broken: Seq<Option<BodyId>>, world: bool, n: int)
    requires
        0 <= n <= broken.len() <= usize::MAX,
    ensures
        forall|k: int|
            0 <= k < events_of(broken, world, n).len() ==> {
                let i = #[trigger] events_of(broken, world, n)[k];
                i < n && (broken[i as int] is None) == world
            },
        forall|k: int, l: int|
            0 <= k < l < events_of(broken, world, n).len() ==> (#[trigger] events_of(
                broken,
                world,
                n,
            )[k]) < (#[trigger] events_of(broken, world, n)[l]),
        forall|i: int|
            0 <= i < n && (#[trigger] broken[i] is None) == world ==> events_of(
                broken,
                world,
                n,
            ).contains(i as usize),
    decreases n,
{
    if n > 0 {
        lemma_events(broken, world, n - 1);
        let (now, before) = (events_of(broken, world, n), events_of(broken, world, n - 1));
        assert forall|i: int|
            0 <= i < n && (#[trigger] broken[i] is None) == world implies now.contains(
            i as usize,
        ) by {
            if i < n - 1 {
                assert(before.contains(i as usize));
                let k = choose|k: int| 0 <= k < before.len() && before[k] == i as usize;
                assert(now[k] == i as usize);
            } else {
                assert(now[before.len() as int] == i as usize);
            }
        }
    }
}

proof fn lemma_events_count(broken: Seq<Option<BodyId>>, n: int)
    requires
        0 <= n <= broken.len(),
    ensures
        events_of(broken, true, n).len() + events_of(broken, false, n).len() == n,
    decreases n,
{
    if n > 0 {
        lemma_events_count(broken, n - 1);
    }
}

/// Two impacts on one voxel that differ in how hard they are have different seeds.
pub proof fn law_different_impulses_crack_differently(voxel: UVec3, a: u32, b: u32)
    requires
        impact_seed(voxel, a) == impact_seed(voxel, b),
    ensures
        a == b,
{
    let (x, y, z) = (voxel.x, voxel.y, voxel.z);
    assert(a == b) by (bit_vector)
        requires
            ((x as u64) << 40u64 ^ (y as u64) << 20u64 ^ z as u64 ^ (a as u64) << 3u64) == ((
            x as u64) << 40u64 ^ (y as u64) << 20u64 ^ z as u64 ^ (b as u64) << 3u64),
    ;
}

/// A seed tells the voxel, where nothing struck it and the volume is no more than 2^20
/// along each axis: its coordinates stand beside each other, 20 bits apart.
pub proof fn law_a_seed_holds_the_voxels_coordinates(voxel: UVec3)
    requires
        voxel.x < 0x10_0000 && voxel.y < 0x10_0000 && voxel.z < 0x10_0000,
    ensures
        impact_seed(voxel, 0) == voxel.x * 0x100_0000_0000 + voxel.y * 0x10_0000 + voxel.z,
{
    let (x, y, z) = (voxel.x, voxel.y, voxel.z);
    assert((x as u64) << 40u64 ^ (y as u64) << 20u64 ^ z as u64 ^ (0u32 as u64) << 3u64 == x
        * 0x100_0000_0000 + y * 0x10_0000 + z) by (bit_vector)
        requires
            x < 0x10_0000u32,
            y < 0x10_0000u32,
            z < 0x10_0000u32,
    ;
}

/// How hard a blow is changes the seed of every voxel alike: by its bits, eightfold.
pub proof fn law_a_blow_changes_every_seed_alike(a: UVec3, impulse: u32)
    ensures
        impact_seed(a, impulse) ^ impact_seed(a, 0) == impulse * 8,
{
    let (x, y, z) = (a.x, a.y, a.z);
    assert(((x as u64) << 40u64 ^ (y as u64) << 20u64 ^ z as u64 ^ (impulse as u64) << 3u64) ^ ((
    x as u64) << 40u64 ^ (y as u64) << 20u64 ^ z as u64 ^ (0u32 as u64) << 3u64) == impulse
        * 8) by (bit_vector);
}

proof fn lemma_cracks_in_order(
    at: IVec3,
    reach: int,
    on_plane: spec_fn(IVec3) -> bool,
    n: int,
    k: int,
    l: int,
)
    requires
        0 <= reach,
        in_reach(at, reach),
        in_reach(no_offset(), reach),
        n <= cell_count(2 * reach + 1),
        0 <= k < l < cracked(at, reach, on_plane, n).len(),
    ensures
        ({
            let all = cracked(at, reach, on_plane, n);
            let (a, b) = (all[k], all[l]);
            ||| a.z < b.z
            ||| a.z == b.z && a.y < b.y
            ||| a.z == b.z && a.y == b.y && a.x < b.x
        }),
    decreases n,
{
    let e = 2 * reach + 1;
    let before = cracked(at, reach, on_plane, n - 1);
    if l < before.len() {
        lemma_cracks_in_order(at, reach, on_plane, n - 1, k, l);
    } else {
        let i = lemma_cracked_from(at, reach, on_plane, n - 1, k);
        let j = n - 1;
        lemma_around(no_offset(), reach, i);
        lemma_around(no_offset(), reach, j);
        let (p, q) = (around(no_offset(), reach, i), around(no_offset(), reach, j));
        crate::grid::law_cells_are_stored_by_layer_row_and_place(
            e,
            (p.x + reach, p.y + reach, p.z + reach),
            (q.x + reach, q.y + reach, q.z + reach),
        );
    }
}

/// Cracks come by z, then y, then x, each voxel once.
pub proof fn law_cracks_come_in_scan_order(
    at: IVec3,
    reach: int,
    on_plane: spec_fn(IVec3) -> bool,
    k: int,
    l: int,
)
    requires
        0 <= reach,
        in_reach(at, reach),
        0 <= k < l < cracked(at, reach, on_plane, cell_count(2 * reach + 1)).len(),
    ensures
        ({
            let all = cracked(at, reach, on_plane, cell_count(2 * reach + 1));
            let (a, b) = (all[k], all[l]);
            ||| a.z < b.z
            ||| a.z == b.z && a.y < b.y
            ||| a.z == b.z && a.y == b.y && a.x < b.x
        }),
{
    lemma_cracks_in_order(at, reach, on_plane, cell_count(2 * reach + 1), k, l);
}

} // verus!
