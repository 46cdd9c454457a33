//! How heavy voxels are, where they balance and how they resist turning, from
//! occupancy and material density.

use crate::address::UVec3;
use crate::material::{Material, MaterialId, MaterialTable};
use vstd::prelude::*;

verus! {

/// The mass of some voxels, and twice their first moments: a voxel's centre lies
/// half a voxel past its corner, so `2 * p + 1` keeps everything whole.
#[derive(Clone, Copy, Debug, PartialEq, Eq, Structural)]
pub struct Moments {
    pub mass: u128,
    pub x: u128,
    pub y: u128,
    pub z: u128,
}

/// What a voxel weighs.
pub open spec fn density_of(materials: Seq<Material>, m: MaterialId) -> int {
    materials[m.0 as int].density as int
}

/// What voxels weigh together.
pub open spec fn total_mass(voxels: Seq<(UVec3, MaterialId)>, materials: Seq<Material>) -> int
    decreases voxels.len(),
{
    if voxels.len() == 0 {
        0
    } else {
        total_mass(voxels.drop_last(), materials) + density_of(materials, voxels.last().1)
    }
}

/// Where a voxel's centre lies along an axis, twice over.
pub open spec fn twice_centre(p: UVec3, axis: int) -> int {
    if axis == 0 {
        2 * p.x + 1
    } else if axis == 1 {
        2 * p.y + 1
    } else {
        2 * p.z + 1
    }
}

/// The voxels' first moment along an axis, twice over.
pub open spec fn twice_moment(
    voxels: Seq<(UVec3, MaterialId)>,
    materials: Seq<Material>,
    axis: int,
) -> int
    decreases voxels.len(),
{
    if voxels.len() == 0 {
        0
    } else {
        let (p, m) = voxels.last();
        twice_moment(voxels.drop_last(), materials, axis) + twice_centre(p, axis) * density_of(
            materials,
            m,
        )
    }
}

/// The mass of `voxels` and where they balance. `None` when they weigh nothing.
///
/// Exact: the sums are of whole numbers, so the centre of mass is their quotient
/// and no estimate, for any union of voxels.
pub fn moments(voxels: &[(UVec3, MaterialId)], materials: &MaterialTable) -> (found: Option<
    Moments,
>)
    requires
        forall|k: int| 0 <= k < voxels@.len() ==> (#[trigger] voxels@[k]).1.0 < materials@.len(),
    ensures
        match found {
            Some(m) => {
                &&& m.mass == total_mass(voxels@, materials@)
                &&& m.mass > 0
                &&& m.x == twice_moment(voxels@, materials@, 0)
                &&& m.y == twice_moment(voxels@, materials@, 1)
                &&& m.z == twice_moment(voxels@, materials@, 2)
            },
            None => total_mass(voxels@, materials@) == 0,
        },
        found is None <==> forall|k: int|
            0 <= k < voxels@.len() ==> materials@[(#[trigger] voxels@[k]).1.0 as int].density == 0,
        voxels@.len() == 1 && materials@[voxels@[0].1.0 as int].density > 0 ==> found == Some(
            Moments {
                mass: materials@[voxels@[0].1.0 as int].density as u128,
                x: ((2 * voxels@[0].0.x + 1) * materials@[voxels@[0].1.0 as int].density) as u128,
                y: ((2 * voxels@[0].0.y + 1) * materials@[voxels@[0].1.0 as int].density) as u128,
                z: ((2 * voxels@[0].0.z + 1) * materials@[voxels@[0].1.0 as int].density) as u128,
            },
        ),
{
    let mut m = Moments { mass: 0, x: 0, y: 0, z: 0 };
    proof {
        assert(voxels@.take(0) =~= Seq::empty());
    }
    for i in 0..voxels.len()
        invariant
            forall|k: int| 0 <= k < voxels@.len() ==> (#[trigger] voxels@[k]).1.0 < materials@.len(),
            voxels@.len() <= u64::MAX,
            m.mass == total_mass(voxels@.take(i as int), materials@),
            m.x == twice_moment(voxels@.take(i as int), materials@, 0),
            m.y == twice_moment(voxels@.take(i as int), materials@, 1),
            m.z == twice_moment(voxels@.take(i as int), materials@, 2),
            m.mass <= i * 0x1_0000,
            m.x <= i * 0x2_0000_0000_0000,
            m.y <= i * 0x2_0000_0000_0000,
            m.z <= i * 0x2_0000_0000_0000,
    {
        let (p, id) = voxels[i];
        proof {
            assert(voxels@[i as int].1.0 < materials@.len());
            assert(voxels@.take(i + 1).drop_last() =~= voxels@.take(i as int));
            assert(voxels@.take(i + 1).last() == voxels@[i as int]);
        }
        let rho: u128 = materials.get(id).density as u128;
        let x: u128 = 2 * (p.x as u128) + 1;
        let y: u128 = 2 * (p.y as u128) + 1;
        let z: u128 = 2 * (p.z as u128) + 1;
        proof {
            lemma_weighted(x as int, rho as int);
            lemma_weighted(y as int, rho as int);
            lemma_weighted(z as int, rho as int);
        }
        m.mass = m.mass + rho;
        m.x = m.x + x * rho;
        m.y = m.y + y * rho;
        m.z = m.z + z * rho;
    }
    assert(voxels@.take(voxels@.len() as int) =~= voxels@);
    proof {
        lemma_weightless(voxels@, materials@);
        if voxels@.len() == 1 {
            law_a_voxel_balances_at_its_centre(voxels@[0].0, voxels@[0].1, materials@);
            assert(voxels@ =~= seq![(voxels@[0].0, voxels@[0].1)]);
        }
    }
    if m.mass == 0 {
        None
    } else {
        Some(m)
    }
}

/// Four times the second moments of some voxels about the corner of their volume,
/// for each pair of axes: `2 * p + 1` is twice a voxel's centre.
///
/// Each voxel is a unit cube, whose own inertia about its centre is a sixth of its
/// mass on each axis. With these sums and the first moments, the parallel-axis
/// theorem gives the inertia about the centre of mass exactly.
#[derive(Clone, Copy, Debug, PartialEq, Eq, Structural)]
pub struct Spread {
    pub xx: u128,
    pub yy: u128,
    pub zz: u128,
    pub xy: u128,
    pub xz: u128,
    pub yz: u128,
}

/// The voxels' second moment for a pair of axes, four times over.
pub open spec fn four_moment(
    voxels: Seq<(UVec3, MaterialId)>,
    materials: Seq<Material>,
    a: int,
    b: int,
) -> int
    decreases voxels.len(),
{
    if voxels.len() == 0 {
        0
    } else {
        let (p, m) = voxels.last();
        four_moment(voxels.drop_last(), materials, a, b) + twice_centre(p, a) * twice_centre(p, b)
            * density_of(materials, m)
    }
}

/// How far `voxels` spread around their volume's corner, by weight.
pub fn spread(voxels: &[(UVec3, MaterialId)], materials: &MaterialTable) -> (s: Spread)
    requires
        forall|k: int| 0 <= k < voxels@.len() ==> (#[trigger] voxels@[k]).1.0 < materials@.len(),
        voxels@.len() <= 0x1000_0000_0000,
    ensures
        s.xx == four_moment(voxels@, materials@, 0, 0),
        s.yy == four_moment(voxels@, materials@, 1, 1),
        s.zz == four_moment(voxels@, materials@, 2, 2),
        s.xy == four_moment(voxels@, materials@, 0, 1),
        s.xz == four_moment(voxels@, materials@, 0, 2),
        s.yz == four_moment(voxels@, materials@, 1, 2),
{
    let mut s = Spread { xx: 0, yy: 0, zz: 0, xy: 0, xz: 0, yz: 0 };
    proof {
        assert(voxels@.take(0) =~= Seq::empty());
    }
    for i in 0..voxels.len()
        invariant
            forall|k: int| 0 <= k < voxels@.len() ==> (#[trigger] voxels@[k]).1.0 < materials@.len(),
            voxels@.len() <= 0x1000_0000_0000,
            s.xx == four_moment(voxels@.take(i as int), materials@, 0, 0),
            s.yy == four_moment(voxels@.take(i as int), materials@, 1, 1),
            s.zz == four_moment(voxels@.take(i as int), materials@, 2, 2),
            s.xy == four_moment(voxels@.take(i as int), materials@, 0, 1),
            s.xz == four_moment(voxels@.take(i as int), materials@, 0, 2),
            s.yz == four_moment(voxels@.take(i as int), materials@, 1, 2),
            s.xx <= i * 0x4_0000_0000_0000_0000_0000,
            s.yy <= i * 0x4_0000_0000_0000_0000_0000,
            s.zz <= i * 0x4_0000_0000_0000_0000_0000,
            s.xy <= i * 0x4_0000_0000_0000_0000_0000,
            s.xz <= i * 0x4_0000_0000_0000_0000_0000,
            s.yz <= i * 0x4_0000_0000_0000_0000_0000,
    {
        let (p, id) = voxels[i];
        proof {
            assert(voxels@[i as int].1.0 < materials@.len());
            assert(voxels@.take(i + 1).drop_last() =~= voxels@.take(i as int));
            assert(voxels@.take(i + 1).last() == voxels@[i as int]);
        }
        let rho: u128 = materials.get(id).density as u128;
        let x: u128 = 2 * (p.x as u128) + 1;
        let y: u128 = 2 * (p.y as u128) + 1;
        let z: u128 = 2 * (p.z as u128) + 1;
        proof {
            lemma_carried(x as int, x as int, rho as int);
            lemma_carried(y as int, y as int, rho as int);
            lemma_carried(z as int, z as int, rho as int);
            lemma_carried(x as int, y as int, rho as int);
            lemma_carried(x as int, z as int, rho as int);
            lemma_carried(y as int, z as int, rho as int);
        }
        s.xx = s.xx + x * x * rho;
        s.yy = s.yy + y * y * rho;
        s.zz = s.zz + z * z * rho;
        s.xy = s.xy + x * y * rho;
        s.xz = s.xz + x * z * rho;
        s.yz = s.yz + y * z * rho;
    }
    assert(voxels@.take(voxels@.len() as int) =~= voxels@);
    s
}

proof fn lemma_carried(u: int, v: int, rho: int)
    requires
        0 <= u < 0x2_0000_0000,
        0 <= v < 0x2_0000_0000,
        0 <= rho < 0x1_0000,
    ensures
        0 <= u * v <= 0x4_0000_0000_0000_0000,
        0 <= u * v * rho <= 0x4_0000_0000_0000_0000_0000,
{
    assert(0 <= u * v <= 0x2_0000_0000 * 0x2_0000_0000) by (nonlinear_arith)
        requires
            0 <= u < 0x2_0000_0000,
            0 <= v < 0x2_0000_0000,
    ;
    let w = u * v;
    assert(0 <= w * rho <= 0x4_0000_0000_0000_0000 * 0x1_0000) by (nonlinear_arith)
        requires
            0 <= w <= 0x4_0000_0000_0000_0000,
            0 <= rho < 0x1_0000,
    ;
}

proof fn lemma_weighted(v: int, rho: int)
    requires
        0 <= v < 0x2_0000_0000,
        0 <= rho < 0x1_0000,
    ensures
        0 <= v * rho <= 0x2_0000_0000_0000,
{
    assert(0 <= v * rho <= 0x2_0000_0000 * 0x1_0000) by (nonlinear_arith)
        requires
            0 <= v < 0x2_0000_0000,
            0 <= rho < 0x1_0000,
    ;
}

/// Voxels split in two weigh together what they weighed as one, balance where they
/// did, and resist turning as they did.
pub proof fn law_parts_weigh_what_the_whole_did(
    some: Seq<(UVec3, MaterialId)>,
    rest: Seq<(UVec3, MaterialId)>,
    materials: Seq<Material>,
    axis: int,
    other: int,
)
    ensures
        total_mass(some + rest, materials) == total_mass(some, materials) + total_mass(
            rest,
            materials,
        ),
        twice_moment(some + rest, materials, axis) == twice_moment(some, materials, axis)
            + twice_moment(rest, materials, axis),
        four_moment(some + rest, materials, axis, other) == four_moment(
            some,
            materials,
            axis,
            other,
        ) + four_moment(rest, materials, axis, other),
    decreases rest.len(),
{
    if rest.len() == 0 {
        assert(some + rest =~= some);
    } else {
        law_parts_weigh_what_the_whole_did(some, rest.drop_last(), materials, axis, other);
        assert((some + rest).drop_last() =~= some + rest.drop_last());
        assert((some + rest).last() == rest.last());
    }
}

/// Voxels weigh nothing together exactly where each weighs nothing.
proof fn lemma_weightless(voxels: Seq<(UVec3, MaterialId)>, materials: Seq<Material>)
    ensures
        total_mass(voxels, materials) >= 0,
        total_mass(voxels, materials) == 0 <==> forall|k: int|
            0 <= k < voxels.len() ==> materials[(#[trigger] voxels[k]).1.0 as int].density == 0,
    decreases voxels.len(),
{
    if voxels.len() > 0 {
        let rest = voxels.drop_last();
        lemma_weightless(rest, materials);
        assert(voxels[voxels.len() - 1] == voxels.last());
        if total_mass(voxels, materials) == 0 {
            assert forall|k: int| 0 <= k < voxels.len() implies materials[(
            #[trigger] voxels[k]).1.0 as int].density == 0 by {
                if k < rest.len() {
                    assert(rest[k] == voxels[k]);
                }
            }
        } else if forall|k: int|
            0 <= k < voxels.len() ==> materials[(#[trigger] voxels[k]).1.0 as int].density == 0 {
            assert forall|k: int| 0 <= k < rest.len() implies materials[(
            #[trigger] rest[k]).1.0 as int].density == 0 by {
                assert(rest[k] == voxels[k]);
            }
        }
    }
}

/// One voxel weighs what its material does, and balances at its own centre, half a
/// voxel past its corner along each axis.
pub proof fn law_a_voxel_balances_at_its_centre(
    p: UVec3,
    m: MaterialId,
    materials: Seq<Material>,
)
    ensures
        ({
            let rho = materials[m.0 as int].density as int;
            let one = seq![(p, m)];
            &&& total_mass(one, materials) == rho
            &&& twice_moment(one, materials, 0) == (2 * p.x + 1) * rho
            &&& twice_moment(one, materials, 1) == (2 * p.y + 1) * rho
            &&& twice_moment(one, materials, 2) == (2 * p.z + 1) * rho
            &&& four_moment(one, materials, 0, 0) == (2 * p.x + 1) * (2 * p.x + 1) * rho
            &&& four_moment(one, materials, 1, 1) == (2 * p.y + 1) * (2 * p.y + 1) * rho
            &&& four_moment(one, materials, 2, 2) == (2 * p.z + 1) * (2 * p.z + 1) * rho
            &&& four_moment(one, materials, 0, 1) == (2 * p.x + 1) * (2 * p.y + 1) * rho
            &&& four_moment(one, materials, 0, 2) == (2 * p.x + 1) * (2 * p.z + 1) * rho
            &&& four_moment(one, materials, 1, 2) == (2 * p.y + 1) * (2 * p.z + 1) * rho
        }),
{
    let one = seq![(p, m)];
    assert(one.drop_last() =~= Seq::empty());
    reveal_with_fuel(total_mass, 2);
    reveal_with_fuel(twice_moment, 2);
    reveal_with_fuel(four_moment, 2);
}

/// One voxel more weighs its material's density more, and pulls the balance towards
/// its centre by as much.
pub proof fn law_one_more_voxel_adds_its_own(
    voxels: Seq<(UVec3, MaterialId)>,
    p: UVec3,
    m: MaterialId,
    materials: Seq<Material>,
)
    ensures
        ({
            let rho = materials[m.0 as int].density as int;
            let more = voxels.push((p, m));
            &&& total_mass(more, materials) == total_mass(voxels, materials) + rho
            &&& twice_moment(more, materials, 0) == twice_moment(voxels, materials, 0) + (2 * p.x
                + 1) * rho
            &&& twice_moment(more, materials, 1) == twice_moment(voxels, materials, 1) + (2 * p.y
                + 1) * rho
            &&& twice_moment(more, materials, 2) == twice_moment(voxels, materials, 2) + (2 * p.z
                + 1) * rho
        }),
{
    assert(voxels.push((p, m)).drop_last() =~= voxels);
}

/// Nothing weighs nothing.
pub proof fn law_nothing_weighs_nothing(materials: Seq<Material>, axis: int, other: int)
    ensures
        total_mass(Seq::empty(), materials) == 0,
        twice_moment(Seq::empty(), materials, axis) == 0,
        four_moment(Seq::empty(), materials, axis, other) == 0,
{
}

/// The same voxels, each moved by so much.
pub open spec fn all_moved(voxels: Seq<(UVec3, MaterialId)>, dx: int, dy: int, dz: int) -> Seq<
    (UVec3, MaterialId),
> {
    Seq::new(
        voxels.len(),
        |k: int|
            (
                UVec3 {
                    x: (voxels[k].0.x + dx) as u32,
                    y: (voxels[k].0.y + dy) as u32,
                    z: (voxels[k].0.z + dz) as u32,
                },
                voxels[k].1,
            ),
    )
}

/// Whether moving voxels keeps every coordinate a `u32`.
pub open spec fn can_move(voxels: Seq<(UVec3, MaterialId)>, dx: int, dy: int, dz: int) -> bool {
    forall|k: int|
        0 <= k < voxels.len() ==> {
            &&& 0 <= (#[trigger] voxels[k]).0.x + dx <= u32::MAX
            &&& 0 <= voxels[k].0.y + dy <= u32::MAX
            &&& 0 <= voxels[k].0.z + dz <= u32::MAX
        }
}

/// Moving every voxel moves where they balance by as much: the mass stays, the first
/// moments follow the mass, and the second ones the parallel-axis rule.
pub proof fn law_moving_voxels_moves_their_balance(
    voxels: Seq<(UVec3, MaterialId)>,
    materials: Seq<Material>,
    d: (int, int, int),
)
    requires
        can_move(voxels, d.0, d.1, d.2),
    ensures
        ({
            let after = all_moved(voxels, d.0, d.1, d.2);
            let mass = total_mass(voxels, materials);
            let (x, y, z) = (
                twice_moment(voxels, materials, 0),
                twice_moment(voxels, materials, 1),
                twice_moment(voxels, materials, 2),
            );
            &&& total_mass(after, materials) == mass
            &&& twice_moment(after, materials, 0) == x + 2 * d.0 * mass
            &&& twice_moment(after, materials, 1) == y + 2 * d.1 * mass
            &&& twice_moment(after, materials, 2) == z + 2 * d.2 * mass
            &&& four_moment(after, materials, 0, 0) == four_moment(voxels, materials, 0, 0) + 4
                * d.0 * x + 4 * d.0 * d.0 * mass
            &&& four_moment(after, materials, 1, 1) == four_moment(voxels, materials, 1, 1) + 4
                * d.1 * y + 4 * d.1 * d.1 * mass
            &&& four_moment(after, materials, 2, 2) == four_moment(voxels, materials, 2, 2) + 4
                * d.2 * z + 4 * d.2 * d.2 * mass
            &&& four_moment(after, materials, 0, 1) == four_moment(voxels, materials, 0, 1) + 2
                * d.1 * x + 2 * d.0 * y + 4 * d.0 * d.1 * mass
            &&& four_moment(after, materials, 0, 2) == four_moment(voxels, materials, 0, 2) + 2
                * d.2 * x + 2 * d.0 * z + 4 * d.0 * d.2 * mass
            &&& four_moment(after, materials, 1, 2) == four_moment(voxels, materials, 1, 2) + 2
                * d.2 * y + 2 * d.1 * z + 4 * d.1 * d.2 * mass
        }),
    decreases voxels.len(),
{
    if voxels.len() == 0 {
        assert(all_moved(voxels, d.0, d.1, d.2) =~= Seq::empty());
    } else {
        let rest = voxels.drop_last();
        let (p, m) = voxels.last();
        let rho = density_of(materials, m);
        assert(voxels[voxels.len() - 1] == voxels.last());
        assert forall|k: int| 0 <= k < rest.len() implies {
            &&& 0 <= (#[trigger] rest[k]).0.x + d.0 <= u32::MAX
            &&& 0 <= rest[k].0.y + d.1 <= u32::MAX
            &&& 0 <= rest[k].0.z + d.2 <= u32::MAX
        } by {
            assert(rest[k] == voxels[k]);
        }
        law_moving_voxels_moves_their_balance(rest, materials, d);
        let after = all_moved(voxels, d.0, d.1, d.2);
        assert(after.drop_last() =~= all_moved(rest, d.0, d.1, d.2));
        let (u, v, w) = (2 * p.x + 1, 2 * p.y + 1, 2 * p.z + 1);
        lemma_moved_weight(u, d.0, rho, total_mass(rest, materials));
        lemma_moved_weight(v, d.1, rho, total_mass(rest, materials));
        lemma_moved_weight(w, d.2, rho, total_mass(rest, materials));
        let mass = total_mass(rest, materials);
        let (x, y, z) = (
            twice_moment(rest, materials, 0),
            twice_moment(rest, materials, 1),
            twice_moment(rest, materials, 2),
        );
        lemma_moved_spread(u, u, d.0, d.0, rho, mass, x, x);
        lemma_moved_spread(v, v, d.1, d.1, rho, mass, y, y);
        lemma_moved_spread(w, w, d.2, d.2, rho, mass, z, z);
        lemma_moved_spread(u, v, d.0, d.1, rho, mass, x, y);
        lemma_moved_spread(u, w, d.0, d.2, rho, mass, x, z);
        lemma_moved_spread(v, w, d.1, d.2, rho, mass, y, z);
    }
}

proof fn lemma_moved_weight(u: int, d: int, rho: int, mass: int)
    ensures
        (u + 2 * d) * rho + 2 * d * mass == u * rho + 2 * d * (mass + rho),
{
    assert((u + 2 * d) * rho + 2 * d * mass == u * rho + 2 * d * (mass + rho))
        by (nonlinear_arith);
}

proof fn lemma_moved_spread(
    u: int,
    v: int,
    d: int,
    e: int,
    rho: int,
    mass: int,
    x: int,
    y: int,
)
    ensures
        (u + 2 * d) * (v + 2 * e) * rho + 2 * e * x + 2 * d * y + 4 * d * e * mass == u * v * rho
            + 2 * e * (x + u * rho) + 2 * d * (y + v * rho) + 4 * d * e * (mass + rho),
        u == v && d == e && x == y ==> 2 * e * x + 2 * d * y == 4 * d * x && 2 * e * (x + u * rho)
            + 2 * d * (y + v * rho) == 4 * d * (x + u * rho),
{
    assert((u + 2 * d) * (v + 2 * e) == u * v + 2 * e * u + 2 * d * v + 4 * d * e)
        by (nonlinear_arith);
    let a = u * v;
    let b = d * e;
    assert((a + 2 * e * u + 2 * d * v + 4 * d * e) * rho == a * rho + 2 * e * (u * rho) + 2 * d * (v
        * rho) + 4 * d * e * rho) by (nonlinear_arith);
    assert(2 * e * (x + u * rho) == 2 * e * x + 2 * e * (u * rho)) by (nonlinear_arith);
    assert(2 * d * (y + v * rho) == 2 * d * y + 2 * d * (v * rho)) by (nonlinear_arith);
    assert(4 * d * e * (mass + rho) == 4 * d * e * mass + 4 * d * e * rho) by (nonlinear_arith);
    if u == v && d == e && x == y {
        assert(2 * d * x + 2 * d * x == 4 * d * x) by (nonlinear_arith);
        let q = x + u * rho;
        assert(2 * d * q + 2 * d * q == 4 * d * q) by (nonlinear_arith);
    }
}

/// Voxels balance inside any box that holds them: each first moment lies between the
/// mass at the box's one side and the mass at its other.
pub proof fn law_voxels_balance_inside_their_box(
    voxels: Seq<(UVec3, MaterialId)>,
    materials: Seq<Material>,
    lo: UVec3,
    hi: UVec3,
)
    requires
        forall|k: int|
            0 <= k < voxels.len() ==> {
                &&& lo.x <= (#[trigger] voxels[k]).0.x < hi.x
                &&& lo.y <= voxels[k].0.y < hi.y
                &&& lo.z <= voxels[k].0.z < hi.z
            },
    ensures
        ({
            let mass = total_mass(voxels, materials);
            &&& 0 <= mass
            &&& (2 * lo.x + 1) * mass <= twice_moment(voxels, materials, 0) <= (2 * hi.x - 1) * mass
            &&& (2 * lo.y + 1) * mass <= twice_moment(voxels, materials, 1) <= (2 * hi.y - 1) * mass
            &&& (2 * lo.z + 1) * mass <= twice_moment(voxels, materials, 2) <= (2 * hi.z - 1) * mass
        }),
    decreases voxels.len(),
{
    if voxels.len() > 0 {
        let rest = voxels.drop_last();
        assert(voxels[voxels.len() - 1] == voxels.last());
        assert forall|k: int| 0 <= k < rest.len() implies {
            &&& lo.x <= (#[trigger] rest[k]).0.x < hi.x
            &&& lo.y <= rest[k].0.y < hi.y
            &&& lo.z <= rest[k].0.z < hi.z
        } by {
            assert(rest[k] == voxels[k]);
        }
        law_voxels_balance_inside_their_box(rest, materials, lo, hi);
        let (p, m) = voxels.last();
        let (rho, mass) = (density_of(materials, m), total_mass(rest, materials));
        lemma_between(2 * lo.x + 1, 2 * p.x + 1, 2 * hi.x - 1, rho, mass);
        lemma_between(2 * lo.y + 1, 2 * p.y + 1, 2 * hi.y - 1, rho, mass);
        lemma_between(2 * lo.z + 1, 2 * p.z + 1, 2 * hi.z - 1, rho, mass);
    } else {
        assert((2 * lo.x + 1) * 0 == 0 && (2 * hi.x - 1) * 0 == 0);
    }
}

proof fn lemma_between(lo: int, v: int, hi: int, rho: int, mass: int)
    requires
        lo <= v <= hi,
        0 <= rho,
    ensures
        lo * rho <= v * rho <= hi * rho,
        lo * (mass + rho) == lo * mass + lo * rho,
        hi * (mass + rho) == hi * mass + hi * rho,
{
    assert(lo * rho <= v * rho <= hi * rho) by (nonlinear_arith)
        requires
            lo <= v <= hi,
            0 <= rho,
    ;
    assert(lo * (mass + rho) == lo * mass + lo * rho) by (nonlinear_arith);
    assert(hi * (mass + rho) == hi * mass + hi * rho) by (nonlinear_arith);
}

} // verus!
