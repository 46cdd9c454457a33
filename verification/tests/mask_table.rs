use bevox::mask_table::{build_direction_masks, direction_mask, octant_index, OCTANTS, TABLE_LEN};
use bevox::node::{child_index, CHILDREN};

#[test]
fn a_cell_can_always_reach_itself() {
    let table = build_direction_masks();
    for cell in 0..CHILDREN {
        for octant in 0..OCTANTS {
            let mask = table[(cell * OCTANTS + octant) as usize];
            assert!(mask & (1u64 << cell) != 0, "cell {cell} octant {octant}");
        }
    }
}

#[test]
fn the_all_positive_octant_from_the_origin_cell_reaches_everything() {
    assert_eq!(direction_mask(child_index(0, 0, 0), 0b000), u64::MAX);
}

#[test]
fn the_all_negative_octant_from_the_origin_cell_reaches_only_itself() {
    let mask = direction_mask(child_index(0, 0, 0), 0b111);
    assert_eq!(mask.count_ones(), 1);
    assert_eq!(mask, 1u64 << child_index(0, 0, 0));
}

#[test]
fn the_all_negative_octant_from_the_far_cell_reaches_everything() {
    assert_eq!(direction_mask(child_index(3, 3, 3), 0b111), u64::MAX);
}

#[test]
fn a_mixed_octant_restricts_only_the_axes_it_names() {
    // Start in the middle, x negative, y and z positive.
    let cell = child_index(2, 2, 2);
    let mask = direction_mask(cell, 0b001);
    // Reachable x in 0..=2, y in 2..=3, z in 2..=3 => 3 * 2 * 2 = 12 cells.
    assert_eq!(mask.count_ones(), 12);
    assert!(mask & (1u64 << child_index(0, 3, 3)) != 0);
    assert!(mask & (1u64 << child_index(3, 3, 3)) == 0);
}

/// The octant of a direction: which of its components are negative.
fn octant_of(dir: [f32; 3]) -> u32 {
    octant_index(dir[0] < 0.0, dir[1] < 0.0, dir[2] < 0.0)
}

#[test]
fn octant_index_reads_the_sign_bits() {
    assert_eq!(octant_of([1.0, 1.0, 1.0]), 0b000);
    assert_eq!(octant_of([-1.0, 1.0, 1.0]), 0b001);
    assert_eq!(octant_of([1.0, -1.0, 1.0]), 0b010);
    assert_eq!(octant_of([-1.0, -1.0, -1.0]), 0b111);
    // Zero counts as positive, which keeps the mask conservative.
    assert_eq!(octant_of([0.0, 0.0, 0.0]), 0b000);
}

#[test]
fn the_cached_table_matches_a_fresh_build() {
    let built = build_direction_masks();
    for cell in 0..CHILDREN {
        for octant in 0..OCTANTS {
            assert_eq!(
                direction_mask(cell, octant),
                built[(cell * OCTANTS + octant) as usize]
            );
        }
    }
}
