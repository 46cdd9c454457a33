//! A cube of cells laid out flat: x varies fastest, then y, then z.

use vstd::prelude::*;

verus! {

/// Where a cell of a cube `edge` cells along each axis is stored.
pub open spec fn cell_index(edge: int, x: int, y: int, z: int) -> int {
    x + y * edge + z * edge * edge
}

/// How many cells the cube has.
pub open spec fn cell_count(edge: int) -> int {
    edge * edge * edge
}

/// A cell of the cube is stored inside it.
pub proof fn lemma_cell_bound(edge: int, x: int, y: int, z: int)
    requires
        0 <= x < edge,
        0 <= y < edge,
        0 <= z < edge,
    ensures
        0 <= cell_index(edge, x, y, z) < cell_count(edge),
        0 <= y * edge <= edge * edge,
        0 <= z * edge <= edge * edge,
        0 <= z * edge * edge <= cell_count(edge) - edge * edge,
        x + y * edge < edge * edge,
{
    assert(0 <= y * edge <= (edge - 1) * edge) by (nonlinear_arith)
        requires
            0 <= y < edge,
    ;
    assert(0 <= z * edge <= (edge - 1) * edge) by (nonlinear_arith)
        requires
            0 <= z < edge,
    ;
    assert((edge - 1) * edge == edge * edge - edge) by (nonlinear_arith);
    assert(0 <= z * edge * edge <= edge * edge * edge - edge * edge) by (nonlinear_arith)
        requires
            0 <= z * edge <= edge * edge - edge,
            edge >= 1,
    ;
}

/// Two cells are stored apart.
pub proof fn lemma_cell_injective(
    edge: int,
    x: int,
    y: int,
    z: int,
    x2: int,
    y2: int,
    z2: int,
)
    requires
        0 <= x < edge,
        0 <= y < edge,
        0 <= z < edge,
        0 <= x2 < edge,
        0 <= y2 < edge,
        0 <= z2 < edge,
        cell_index(edge, x, y, z) == cell_index(edge, x2, y2, z2),
    ensures
        x == x2,
        y == y2,
        z == z2,
{
    lemma_cell_parts(edge, x, y, z);
    lemma_cell_parts(edge, x2, y2, z2);
}

/// The cell stored at a place.
pub proof fn lemma_cell_parts(edge: int, x: int, y: int, z: int)
    requires
        0 <= x < edge,
        0 <= y < edge,
        0 <= z < edge,
    ensures
        cell_index(edge, x, y, z) % edge == x,
        (cell_index(edge, x, y, z) / edge) % edge == y,
        (cell_index(edge, x, y, z) / edge) / edge == z,
{
    let rest = y + z * edge;
    assert(cell_index(edge, x, y, z) == rest * edge + x) by (nonlinear_arith)
        requires
            rest == y + z * edge,
            cell_index(edge, x, y, z) == x + y * edge + z * edge * edge,
    ;
    vstd::arithmetic::div_mod::lemma_fundamental_div_mod_converse(
        cell_index(edge, x, y, z),
        edge,
        rest,
        x,
    );
    vstd::arithmetic::div_mod::lemma_fundamental_div_mod_converse(rest, edge, z, y);
}

/// Every place is a cell's.
pub proof fn lemma_cell_of(edge: int, index: int)
    requires
        0 <= index < cell_count(edge),
        edge >= 1,
    ensures
        0 <= index % edge < edge,
        0 <= (index / edge) % edge < edge,
        0 <= (index / edge) / edge < edge,
        cell_index(edge, index % edge, (index / edge) % edge, (index / edge) / edge) == index,
{
    let x = index % edge;
    let q = index / edge;
    let y = q % edge;
    let z = q / edge;
    vstd::arithmetic::div_mod::lemma_fundamental_div_mod(index, edge);
    vstd::arithmetic::div_mod::lemma_fundamental_div_mod(q, edge);
    vstd::arithmetic::div_mod::lemma_mod_bound(index, edge);
    vstd::arithmetic::div_mod::lemma_mod_bound(q, edge);
    vstd::arithmetic::div_mod::lemma_div_pos_is_pos(index, edge);
    vstd::arithmetic::div_mod::lemma_div_pos_is_pos(q, edge);
    assert(cell_index(edge, x, y, z) == index) by (nonlinear_arith)
        requires
            index == edge * q + x,
            q == edge * z + y,
            cell_index(edge, x, y, z) == x + y * edge + z * edge * edge,
    ;
    assert(z < edge) by (nonlinear_arith)
        requires
            edge >= 1,
            x >= 0,
            y >= 0,
            x + y * edge + z * edge * edge < edge * edge * edge,
    ;
}

/// A cell's place, computed.
pub fn index_of(edge: u32, x: u32, y: u32, z: u32) -> (i: usize)
    requires
        x < edge,
        y < edge,
        z < edge,
        cell_count(edge as int) <= usize::MAX,
    ensures
        i == cell_index(edge as int, x as int, y as int, z as int),
        i < cell_count(edge as int),
{
    proof {
        lemma_cell_bound(edge as int, x as int, y as int, z as int);
        assert(edge * edge <= edge * edge * edge) by (nonlinear_arith)
            requires
                edge >= 1,
        ;
    }
    let e = edge as usize;
    x as usize + y as usize * e + z as usize * e * e
}

/// Cells lie one after the other along x, row after row along y, and layer after layer
/// along z.
pub proof fn law_rows_and_layers_follow_each_other(edge: int, x: int, y: int, z: int)
    ensures
        cell_index(edge, 0, 0, 0) == 0,
        cell_index(edge, x + 1, y, z) == cell_index(edge, x, y, z) + 1,
        cell_index(edge, x, y + 1, z) == cell_index(edge, x, y, z) + edge,
        cell_index(edge, x, y, z + 1) == cell_index(edge, x, y, z) + edge * edge,
        cell_count(edge) == edge * edge * edge,
{
    assert((y + 1) * edge == y * edge + edge) by (nonlinear_arith);
    assert((z + 1) * edge * edge == z * edge * edge + edge * edge) by (nonlinear_arith);
}

/// A cell is stored before another exactly where it comes first by z, then y, then x.
pub proof fn law_cells_are_stored_by_layer_row_and_place(
    edge: int,
    a: (int, int, int),
    b: (int, int, int),
)
    requires
        0 <= a.0 < edge && 0 <= a.1 < edge && 0 <= a.2 < edge,
        0 <= b.0 < edge && 0 <= b.1 < edge && 0 <= b.2 < edge,
    ensures
        cell_index(edge, a.0, a.1, a.2) < cell_index(edge, b.0, b.1, b.2) <==> {
            ||| a.2 < b.2
            ||| a.2 == b.2 && a.1 < b.1
            ||| a.2 == b.2 && a.1 == b.1 && a.0 < b.0
        },
{
    lemma_stored_first(edge, a, b);
    lemma_stored_first(edge, b, a);
}

proof fn lemma_stored_first(edge: int, a: (int, int, int), b: (int, int, int))
    requires
        0 <= a.0 < edge && 0 <= a.1 < edge && 0 <= a.2 < edge,
        0 <= b.0 < edge && 0 <= b.1 < edge && 0 <= b.2 < edge,
    ensures
        a.2 < b.2 || (a.2 == b.2 && (a.1 < b.1 || (a.1 == b.1 && a.0 < b.0))) ==> cell_index(
            edge,
            a.0,
            a.1,
            a.2,
        ) < cell_index(edge, b.0, b.1, b.2),
{
    lemma_cell_bound(edge, a.0, a.1, a.2);
    lemma_cell_bound(edge, b.0, b.1, b.2);
    let layer = edge * edge;
    assert(a.2 * edge * edge == a.2 * layer) by (nonlinear_arith)
        requires
            layer == edge * edge,
    ;
    assert(b.2 * edge * edge == b.2 * layer) by (nonlinear_arith)
        requires
            layer == edge * edge,
    ;
    if a.2 < b.2 {
        assert(a.2 * layer + layer <= b.2 * layer) by (nonlinear_arith)
            requires
                a.2 < b.2,
                layer >= 0,
        ;
    } else if a.2 == b.2 && a.1 < b.1 {
        assert(a.1 * edge + edge <= b.1 * edge) by (nonlinear_arith)
            requires
                a.1 < b.1,
                edge >= 0,
        ;
    }
}

} // verus!
