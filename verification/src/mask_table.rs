//! Conservative reachability masks. For a ray entering a brick at a given cell
//! and travelling in a given sign octant, the mask holds every cell it could
//! still reach. ANDing it with a node's occupancy mask turns "does this brick
//! contain anything this ray can hit" into two instructions.

use crate::bits::bit;
use crate::node::{BRICK_EDGE, CHILDREN};
use crate::store::{lemma_mask_bits, mask_of};
use vstd::prelude::*;

verus! {

pub const OCTANTS: u32 = 8;

/// One mask for each cell and octant.
pub const TABLE_LEN: usize = 512;

/// Whether travelling along one axis from `from` can come to `to`.
pub open spec fn ahead(negative: bool, from: int, to: int) -> bool {
    if negative {
        to <= from
    } else {
        to >= from
    }
}

/// Whether a ray in cell `cell` travelling in `octant` can still reach cell `to`.
pub open spec fn reachable(cell: int, octant: int, to: int) -> bool {
    &&& ahead(octant % 2 == 1, cell % 4, to % 4)
    &&& ahead((octant / 2) % 2 == 1, (cell / 4) % 4, (to / 4) % 4)
    &&& ahead((octant / 4) % 2 == 1, cell / 16, to / 16)
}

/// The mask of the cells that can be reached.
pub open spec fn reach_mask(cell: int, octant: int) -> u64 {
    mask_of(Seq::new(64, |to: int| reachable(cell, octant, to)), 64)
}

/// What the mask's bits say.
pub proof fn lemma_reach_mask(cell: int, octant: int, to: int)
    requires
        0 <= to < 64,
    ensures
        bit(reach_mask(cell, octant), to) == reachable(cell, octant, to),
{
    lemma_mask_bits(Seq::new(64, |to: int| reachable(cell, octant, to)), 64);
}

/// Cells reachable from `cell` when travelling in `octant`.
pub fn direction_mask(cell: u32, octant: u32) -> (mask: u64)
    requires
        cell < CHILDREN,
        octant < OCTANTS,
    ensures
        mask == reach_mask(cell as int, octant as int),
        forall|to: int|
            0 <= to < 64 ==> #[trigger] bit(mask, to) == reachable(cell as int, octant as int, to),
{
    let ghost present = Seq::new(64, |to: int| reachable(cell as int, octant as int, to));
    let cx: u32 = cell % BRICK_EDGE;
    let cy: u32 = (cell / BRICK_EDGE) % BRICK_EDGE;
    let cz: u32 = cell / (BRICK_EDGE * BRICK_EDGE);
    let neg_x = octant % 2 == 1;
    let neg_y = (octant / 2) % 2 == 1;
    let neg_z = (octant / 4) % 2 == 1;
    let mut mask: u64 = 0;
    for t in 0..CHILDREN
        invariant
            cell < CHILDREN,
            octant < OCTANTS,
            cx == cell % BRICK_EDGE,
            cy == (cell / BRICK_EDGE) % BRICK_EDGE,
            cz == cell / 16,
            neg_x == (octant % 2 == 1),
            neg_y == ((octant / 2) % 2 == 1),
            neg_z == ((octant / 4) % 2 == 1),
            present == Seq::new(64, |to: int| reachable(cell as int, octant as int, to)),
            mask == mask_of(present, t as int),
    {
        let tx: u32 = t % BRICK_EDGE;
        let ty: u32 = (t / BRICK_EDGE) % BRICK_EDGE;
        let tz: u32 = t / (BRICK_EDGE * BRICK_EDGE);
        let ok_x = if neg_x { tx <= cx } else { tx >= cx };
        let ok_y = if neg_y { ty <= cy } else { ty >= cy };
        let ok_z = if neg_z { tz <= cz } else { tz >= cz };
        assert(present[t as int] == (ok_x && ok_y && ok_z));
        if ok_x && ok_y && ok_z {
            mask = mask | (1u64 << t);
        }
    }
    proof {
        lemma_mask_bits(present, 64);
    }
    mask
}

/// Builds the full table, indexed by `cell * OCTANTS + octant`.
pub fn build_direction_masks() -> (table: [u64; TABLE_LEN])
    ensures
        forall|cell: int, octant: int|
            0 <= cell < 64 && 0 <= octant < 8 ==> table@[cell * 8 + octant] == #[trigger] reach_mask(
                cell,
                octant,
            ),
{
    let mut table: [u64; TABLE_LEN] = [0u64; TABLE_LEN];
    for n in 0..512u32
        invariant
            table@.len() == 512,
            forall|k: int| 0 <= k < n ==> #[trigger] table@[k] == reach_mask(k / 8, k % 8),
    {
        let mask = direction_mask(n / OCTANTS, n % OCTANTS);
        table[n as usize] = mask;
    }
    proof {
        assert forall|cell: int, octant: int| 0 <= cell < 64 && 0 <= octant < 8 implies table@[cell
            * 8 + octant] == #[trigger] reach_mask(cell, octant) by {
            let k = cell * 8 + octant;
            assert(table@[k] == reach_mask(k / 8, k % 8));
        }
    }
    table
}

/// Sign octant of a direction, from which of its components are negative. A zero
/// component counts as positive, which keeps the resulting mask conservative
/// rather than dropping a plane.
pub fn octant_index(neg_x: bool, neg_y: bool, neg_z: bool) -> (octant: u32)
    ensures
        octant < OCTANTS,
        (octant % 2 == 1) == neg_x,
        ((octant / 2) % 2 == 1) == neg_y,
        ((octant / 4) % 2 == 1) == neg_z,
{
    let x: u32 = if neg_x { 1 } else { 0 };
    let y: u32 = if neg_y { 2 } else { 0 };
    let z: u32 = if neg_z { 4 } else { 0 };
    x + y + z
}

/// A cell can always reach itself, whatever the octant.
pub proof fn law_a_cell_reaches_itself(cell: int, octant: int)
    requires
        0 <= cell < 64,
        0 <= octant < 8,
    ensures
        bit(reach_mask(cell, octant), cell),
{
    lemma_reach_mask(cell, octant, cell);
}

/// The masks are conservative: a ray that moves only forward along each axis
/// stays inside the mask of the cell it started from, step after step.
pub proof fn law_masks_are_conservative(cell: int, octant: int, via: int, to: int)
    requires
        0 <= cell < 64,
        0 <= via < 64,
        0 <= to < 64,
        bit(reach_mask(cell, octant), via),
        bit(reach_mask(via, octant), to),
    ensures
        bit(reach_mask(cell, octant), to),
{
    lemma_reach_mask(cell, octant, via);
    lemma_reach_mask(via, octant, to);
    lemma_reach_mask(cell, octant, to);
}

/// A mask holds the cells that lie ahead along every axis, and no others: up an axis
/// the ray climbs, and down one it descends. Cells are told by their places in the
/// brick, and the octant by the axes the ray descends.
#[verifier::rlimit(60)]
pub proof fn law_a_mask_holds_what_lies_ahead(
    from: (int, int, int),
    to: (int, int, int),
    down: (bool, bool, bool),
)
    requires
        0 <= from.0 < 4 && 0 <= from.1 < 4 && 0 <= from.2 < 4,
        0 <= to.0 < 4 && 0 <= to.1 < 4 && 0 <= to.2 < 4,
    ensures
        ({
            let cell = from.0 + 4 * from.1 + 16 * from.2;
            let other = to.0 + 4 * to.1 + 16 * to.2;
            let octant = (if down.0 { 1int } else { 0 }) + (if down.1 { 2int } else { 0 }) + (
            if down.2 { 4int } else { 0 });
            bit(reach_mask(cell, octant), other) <==> {
                &&& if down.0 { to.0 <= from.0 } else { to.0 >= from.0 }
                &&& if down.1 { to.1 <= from.1 } else { to.1 >= from.1 }
                &&& if down.2 { to.2 <= from.2 } else { to.2 >= from.2 }
            }
        }),
{
    let cell = from.0 + 4 * from.1 + 16 * from.2;
    let other = to.0 + 4 * to.1 + 16 * to.2;
    let octant = (if down.0 { 1int } else { 0 }) + (if down.1 { 2int } else { 0 }) + (if down.2 {
        4int
    } else {
        0
    });
    lemma_reach_mask(cell, octant, other);
    lemma_places(from.0, from.1, from.2);
    lemma_places(to.0, to.1, to.2);
    assert((octant % 2 == 1) == down.0);
    assert(((octant / 2) % 2 == 1) == down.1);
    assert(((octant / 4) % 2 == 1) == down.2);
}

/// A cell's place, told back from its number.
proof fn lemma_places(x: int, y: int, z: int)
    requires
        0 <= x < 4,
        0 <= y < 4,
        0 <= z < 4,
    ensures
        (x + 4 * y + 16 * z) % 4 == x,
        ((x + 4 * y + 16 * z) / 4) % 4 == y,
        (x + 4 * y + 16 * z) / 16 == z,
        0 <= x + 4 * y + 16 * z < 64,
{
}

/// A ray and its reverse: a cell reaches another exactly where the other, travelling
/// the opposite way, reaches it.
pub proof fn law_reaching_can_be_reversed(cell: int, octant: int, to: int)
    requires
        0 <= cell < 64,
        0 <= octant < 8,
        0 <= to < 64,
    ensures
        bit(reach_mask(cell, octant), to) == bit(reach_mask(to, 7 - octant), cell),
{
    lemma_reach_mask(cell, octant, to);
    lemma_reach_mask(to, 7 - octant, cell);
}

} // verus!
