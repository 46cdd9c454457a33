use bevox::address::{IVec3, UVec3};
use bevox::contree::Contree;
use bevox::material::{Material, MaterialId, MaterialTable, DEFAULT_STRENGTH};
use bevox::node::Node;
use bevox::physics::cells::cell_at;
use bevox::physics::classify::solid_at;
use bevox::physics::detach::{components, detach, loose_pieces, piece_volume};
use bevox::physics::mass::moments;
use bevox::physics::BUDGET;
use bevox::testing::XorShift64;
use std::collections::{HashMap, HashSet};

const NEIGHBOURS: [(i32, i32, i32); 6] =
    [(0, 1, 0), (1, 0, 0), (-1, 0, 0), (0, 0, 1), (0, 0, -1), (0, -1, 0)];

/// Material 1 weighs 1000, and material 2 three times that.
fn materials() -> MaterialTable {
    let mut table = MaterialTable::new();
    for density in [1000, 3000] {
        table
            .push(Material {
                color: [200, 200, 200, 255],
                density,
                friction: 60,
                restitution: 0,
                strength: DEFAULT_STRENGTH,
            })
            .unwrap();
    }
    table
}

/// The voxel a step away.
fn beside(p: IVec3, step: (i32, i32, i32)) -> IVec3 {
    IVec3::new(p.x + step.0, p.y + step.1, p.z + step.2)
}

fn signed(p: UVec3) -> IVec3 {
    IVec3::new(p.x as i32, p.y as i32, p.z as i32)
}

fn unsigned(p: IVec3) -> UVec3 {
    UVec3::new(p.x as u32, p.y as u32, p.z as u32)
}

/// A floor with a column on it. Cutting the column's base leaves the rest of
/// the column reaching nothing: that is the piece that falls.
fn floor_and_column() -> Contree {
    let mut voxels = Vec::new();
    for z in 0..16 {
        for x in 0..16 {
            voxels.push((UVec3::new(x, 0, z), MaterialId(1)));
        }
    }
    for y in 1..10 {
        voxels.push((UVec3::new(8, y, 8), MaterialId(2)));
    }
    Contree::from_voxels(16, &voxels)
}

#[test]
fn cutting_a_column_frees_what_is_above_the_cut() {
    let mut tree = floor_and_column();
    tree.clear_voxels(&[UVec3::new(8, 1, 8), UVec3::new(8, 2, 8)]);
    let pieces = loose_pieces(&tree, IVec3::new(7, 0, 7), IVec3::new(9, 3, 9), BUDGET);
    assert_eq!(pieces.len(), 1, "{pieces:?}");
    assert_eq!(pieces[0].len(), 7, "the freed column is 7 voxels: {:?}", pieces[0]);
    assert!(pieces[0].iter().all(|p| p.y >= 3), "the floor came along: {:?}", pieces[0]);
}

/// A notch frees what is above it and nothing below; a hole in the floor
/// frees nothing at all.
#[test]
fn a_notch_frees_only_what_it_cuts_off() {
    let mut tree = floor_and_column();
    tree.clear_voxels(&[UVec3::new(8, 5, 8)]);
    let pieces = loose_pieces(&tree, IVec3::new(7, 4, 7), IVec3::new(9, 6, 9), BUDGET);
    assert_eq!(pieces.len(), 1);
    assert!(pieces[0].iter().all(|p| p.y > 5), "grounded voxels came along: {:?}", pieces[0]);

    let mut tree = floor_and_column();
    tree.clear_voxels(&[UVec3::new(2, 0, 2)]);
    assert!(loose_pieces(&tree, IVec3::new(1, 0, 1), IVec3::new(3, 1, 3), BUDGET).is_empty());
}

/// Two pieces cut free at once are two pieces.
#[test]
fn two_cuts_free_two_pieces() {
    let mut voxels = Vec::new();
    for z in 0..16 {
        for x in 0..16 {
            voxels.push((UVec3::new(x, 0, z), MaterialId(1)));
        }
    }
    for (x, z) in [(4, 4), (12, 12)] {
        for y in 1..5 {
            voxels.push((UVec3::new(x, y, z), MaterialId(2)));
        }
    }
    let mut tree = Contree::from_voxels(16, &voxels);
    tree.clear_voxels(&[UVec3::new(4, 1, 4), UVec3::new(12, 1, 12)]);
    let pieces = loose_pieces(&tree, IVec3::new(3, 0, 3), IVec3::new(13, 2, 13), BUDGET);
    assert_eq!(pieces.len(), 2, "{pieces:?}");
    for piece in &pieces {
        assert_eq!(piece.len(), 3);
    }
}

/// Past the budget the search gives up and calls the piece grounded, which is
/// the safe direction: nothing is detached that should not be.
#[test]
fn a_piece_past_the_budget_is_left_alone() {
    let mut voxels = Vec::new();
    // A slab floating with no floor: every voxel is loose, and there are
    // more of them than a small budget allows.
    for z in 0..16 {
        for y in 4..8 {
            for x in 0..16 {
                voxels.push((UVec3::new(x, y, z), MaterialId(1)));
            }
        }
    }
    let tree = Contree::from_voxels(16, &voxels);
    assert!(loose_pieces(&tree, IVec3::new(0, 4, 0), IVec3::new(2, 6, 2), 100).is_empty());
    assert_eq!(
        loose_pieces(&tree, IVec3::new(0, 4, 0), IVec3::new(2, 6, 2), BUDGET).len(),
        1,
        "with room to finish, the slab is one loose piece"
    );
}

/// Diagonals do not hold a piece up: only faces join voxels.
#[test]
fn a_diagonal_touch_does_not_count_as_joined() {
    let mut voxels = Vec::new();
    for x in 0..4 {
        voxels.push((UVec3::new(x, 0, 0), MaterialId(1)));
    }
    voxels.push((UVec3::new(4, 1, 1), MaterialId(2)));
    let tree = Contree::from_voxels(16, &voxels);
    let pieces = loose_pieces(&tree, IVec3::new(3, 0, 0), IVec3::new(4, 1, 1), BUDGET);
    assert_eq!(pieces, vec![vec![UVec3::new(4, 1, 1)]]);
}

/// The freed column leaves the world and arrives as a body, with its voxels
/// in the same places and its mass computed.
#[test]
fn a_freed_piece_becomes_a_body_where_it_stood() {
    let mut tree = floor_and_column();
    tree.clear_voxels(&[UVec3::new(8, 1, 8), UVec3::new(8, 2, 8)]);
    let bodies = detach(&mut tree, IVec3::new(7, 0, 7), IVec3::new(9, 3, 9), 16);

    assert_eq!(bodies.len(), 1);
    let mass = moments(&bodies[0], &materials()).expect("the body has no mass").mass;
    assert!(mass > 0, "the body has no mass");
    assert_eq!(mass, 7 * 3000);
    let (volume, corner) = piece_volume(&bodies[0]).expect("the piece has voxels");
    assert_eq!(moments(&volume.voxels(), &materials()).unwrap().mass, mass);
    for y in 3..10 {
        assert!(tree.get(UVec3::new(8, y, 8)).is_empty(), "voxel {y} is still in the world");
    }
    assert!(!tree.get(UVec3::new(8, 0, 8)).is_empty(), "the floor went with it");

    let mut world: Vec<[u32; 3]> = volume
        .voxels()
        .iter()
        .map(|(p, m)| {
            assert_eq!(*m, MaterialId(2), "the piece changed material");
            [p.x + corner.x, p.y + corner.y, p.z + corner.z]
        })
        .collect();
    world.sort_unstable();
    let want: Vec<[u32; 3]> = (3..10).map(|y| [8, y, 8]).collect();
    assert_eq!(world, want, "the piece moved when it became a body");
}

/// With no room for another body, the piece stays in the world: geometry
/// that cannot be drawn must not disappear.
#[test]
fn a_piece_stays_in_the_world_when_there_is_no_room() {
    let mut tree = floor_and_column();
    tree.clear_voxels(&[UVec3::new(8, 1, 8), UVec3::new(8, 2, 8)]);
    let bodies = detach(&mut tree, IVec3::new(7, 0, 7), IVec3::new(9, 3, 9), 0);
    assert!(bodies.is_empty());
    assert!(!tree.get(UVec3::new(8, 5, 8)).is_empty(), "the column vanished with nowhere to go");
}

/// The biggest pieces go first when there is not room for all of them.
#[test]
fn the_biggest_pieces_go_first() {
    let mut voxels = Vec::new();
    for z in 0..16 {
        for x in 0..16 {
            voxels.push((UVec3::new(x, 0, z), MaterialId(1)));
        }
    }
    for y in 1..3 {
        voxels.push((UVec3::new(4, y, 4), MaterialId(2)));
    }
    for y in 1..8 {
        voxels.push((UVec3::new(12, y, 12), MaterialId(2)));
    }
    let mut tree = Contree::from_voxels(16, &voxels);
    tree.clear_voxels(&[UVec3::new(4, 1, 4), UVec3::new(12, 1, 12)]);
    let bodies = detach(&mut tree, IVec3::new(3, 0, 3), IVec3::new(13, 2, 13), 1);
    assert_eq!(bodies.len(), 1);
    assert_eq!(bodies[0].len(), 6, "the shorter column was taken instead");
    assert!(!tree.get(UVec3::new(4, 2, 4)).is_empty(), "the shorter column vanished");
}

/// The search against the plainest possible reference, over random scenes
/// and budgets small enough to cut walks short.
///
/// The reference labels every component around the box completely, with no
/// budget and no early exit, then keeps the ones that never touch the floor
/// and fit the budget. Any walk that stops early and leaves a later walk
/// fenced in by its claims, and so reporting a scrap of a bigger piece as
/// loose, disagrees with it.
#[test]
fn the_search_agrees_with_labelling_every_piece_in_full() {
    let mut rng = XorShift64::new(0x00de_7ac4);
    for case in 0..600 {
        // Half the cases are loose voxels, where every cell of the walk is
        // one voxel; half are whole 4-blocks, which the tree keeps as
        // uniform nodes, so the walk steps over boxes of 64 voxels and
        // crosses between sizes. Only the second kind exercises that.
        let blocky = case % 2 == 1;
        let mut voxels = Vec::new();
        if blocky {
            for z in (0..16).step_by(4) {
                for y in (0..16).step_by(4) {
                    for x in (0..16).step_by(4) {
                        if rng.next_below(100) < 45 {
                            continue;
                        }
                        for dz in 0..4 {
                            for dy in 0..4 {
                                for dx in 0..4 {
                                    voxels.push((UVec3::new(x + dx, y + dy, z + dz), MaterialId(1)));
                                }
                            }
                        }
                    }
                }
            }
            // Loose voxels among the blocks, so cells of both sizes meet
            // and a neighbour may touch a face anywhere, not only at the
            // corner the scan starts from.
            for z in 0..16 {
                for y in 0..16 {
                    for x in 0..16 {
                        if rng.next_below(100) < 12 {
                            voxels.push((UVec3::new(x, y, z), MaterialId(1)));
                        }
                    }
                }
            }
            voxels.sort_unstable_by_key(|(p, _)| (p.z, p.y, p.x));
            voxels.dedup_by_key(|(p, _)| *p);
        } else {
            for z in 0..16 {
                for y in 0..16 {
                    for x in 0..16 {
                        if rng.next_below(100) < 38 {
                            voxels.push((UVec3::new(x, y, z), MaterialId(1)));
                        }
                    }
                }
            }
        }
        let tree = Contree::from_voxels(16, &voxels);
        if blocky {
            let sizes = voxels.iter().filter_map(|(p, _)| cell_at(&tree, signed(*p)));
            assert!(
                sizes.map(|c| c.size).max().unwrap_or(1) > 1,
                "case {case} holds no uniform node, so the walk never steps over a box"
            );
        }
        let lo = IVec3::new(
            rng.next_below(12) as i32,
            rng.next_below(12) as i32,
            rng.next_below(12) as i32,
        );
        let hi = IVec3::new(lo.x + 3, lo.y + 3, lo.z + 3);
        let budget = [3, 8, 25, 60, 200, BUDGET][case % 6];

        // Pieces are each sorted already; order the list of them by content.
        let key = |piece: &Vec<UVec3>| piece.iter().map(|p| [p.x, p.y, p.z]).collect::<Vec<_>>();
        let mut got: Vec<_> = loose_pieces(&tree, lo, hi, budget).iter().map(key).collect();
        got.sort();
        let mut want: Vec<_> = reference(&tree, lo, hi, budget).iter().map(key).collect();
        want.sort();
        assert_eq!(got, want, "case {case}, budget {budget}, box {lo:?}..={hi:?}");
        // And against the walk it replaced, voxel for voxel.
        let mut voxelwise: Vec<_> =
            loose_pieces_by_voxel(&tree, lo, hi, budget).iter().map(key).collect();
        voxelwise.sort();
        assert_eq!(got, voxelwise, "the cell walk and the voxel walk disagree, case {case}");
    }
}

/// The voxel walk the cell walk replaced, kept to measure against: the same
/// early exit and the same budget, one voxel a step.
fn loose_pieces_by_voxel(tree: &Contree, lo: IVec3, hi: IVec3, budget: usize) -> Vec<Vec<UVec3>> {
    fn walk_voxels(
        tree: &Contree,
        seed: IVec3,
        budget: usize,
        id: usize,
        seen: &mut HashMap<IVec3, usize>,
    ) -> Option<Vec<UVec3>> {
        let mut stack = vec![seed];
        let mut piece = Vec::new();
        seen.insert(seed, id);
        while let Some(p) = stack.pop() {
            if p.y == 0 {
                return None;
            }
            piece.push(unsigned(p));
            if piece.len() > budget {
                return None;
            }
            for step in NEIGHBOURS {
                let n = beside(p, step);
                if !solid_at(tree, n) {
                    continue;
                }
                match seen.get(&n) {
                    None => {
                        seen.insert(n, id);
                        stack.push(n);
                    }
                    Some(&other) if other != id => return None,
                    Some(_) => {}
                }
            }
        }
        piece.sort_unstable_by_key(|p| (p.z, p.y, p.x));
        Some(piece)
    }

    let mut seen: HashMap<IVec3, usize> = HashMap::new();
    let mut pieces = Vec::new();
    let mut walks = 0;
    for z in lo.z..=hi.z {
        for y in lo.y..=hi.y {
            for x in lo.x..=hi.x {
                let seed = IVec3::new(x, y, z);
                if !solid_at(tree, seed) || seen.contains_key(&seed) {
                    continue;
                }
                walks += 1;
                if let Some(piece) = walk_voxels(tree, seed, budget, walks, &mut seen) {
                    pieces.push(piece);
                }
            }
        }
    }
    pieces
}

fn reference(tree: &Contree, lo: IVec3, hi: IVec3, budget: usize) -> Vec<Vec<UVec3>> {
    let mut labelled: HashSet<IVec3> = HashSet::new();
    let mut out = Vec::new();
    for z in lo.z..=hi.z {
        for y in lo.y..=hi.y {
            for x in lo.x..=hi.x {
                let seed = IVec3::new(x, y, z);
                if !solid_at(tree, seed) || labelled.contains(&seed) {
                    continue;
                }
                let mut stack = vec![seed];
                let mut piece = vec![];
                labelled.insert(seed);
                while let Some(p) = stack.pop() {
                    piece.push(p);
                    for step in NEIGHBOURS {
                        let n = beside(p, step);
                        if solid_at(tree, n) && labelled.insert(n) {
                            stack.push(n);
                        }
                    }
                }
                if piece.iter().all(|p| p.y != 0) && piece.len() <= budget {
                    let mut piece: Vec<UVec3> = piece.iter().map(|p| unsigned(*p)).collect();
                    piece.sort_unstable_by_key(|p| (p.z, p.y, p.x));
                    out.push(piece);
                }
            }
        }
    }
    out
}

#[test]
fn components_are_labelled_largest_first() {
    let mut voxels = Vec::new();
    for x in 0..5 {
        voxels.push((UVec3::new(x, 0, 0), MaterialId(1)));
    }
    for x in 8..10 {
        voxels.push((UVec3::new(x, 0, 0), MaterialId(1)));
    }
    let tree = Contree::from_voxels(16, &voxels);
    let pieces = components(&tree);
    assert_eq!(pieces.iter().map(Vec::len).collect::<Vec<_>>(), vec![5, 2]);
    assert!(components(&Contree::empty(2)).is_empty());
}

/// Diagonals do not join a body's pieces either.
#[test]
fn components_do_not_join_diagonals() {
    let tree = Contree::from_voxels(
        4,
        &[(UVec3::new(0, 0, 0), MaterialId(1)), (UVec3::new(1, 1, 1), MaterialId(1))],
    );
    assert_eq!(components(&tree).len(), 2);
}

/// Where nothing is solid nothing is loose, and what stands is not loose either.
#[test]
fn no_piece_is_found_where_nothing_is_loose() {
    let all = (IVec3::splat(0), IVec3::splat(16));
    assert!(loose_pieces(&Contree::empty(2), all.0, all.1, BUDGET).is_empty());
    assert!(loose_pieces(&floor_and_column(), all.0, all.1, BUDGET).is_empty());
}

/// A brick that is stored voxel by voxel comes loose like any other.
#[test]
fn a_brick_stored_in_full_comes_loose_whole() {
    let mut tree = Contree::empty(2);
    let arena = tree.arena_mut();
    let bytes = arena.alloc_voxels(64);
    for i in 0..64 {
        arena.set_voxel(bytes + i, 2);
    }
    let base = arena.alloc_nodes(1);
    arena.set_node(base, Node::subdivided(u64::MAX, bytes));
    tree.set_root_for_test(Node::subdivided(1 << 4, base));
    assert_eq!(tree.check_canonical(), Ok(()));
    let pieces = loose_pieces(&tree, IVec3::splat(0), IVec3::splat(16), BUDGET);
    assert_eq!(pieces.len(), 1);
    assert_eq!(pieces[0].len(), 64);
    assert!(pieces[0].iter().all(|p| p.x < 4 && 4 <= p.y && p.y < 8 && p.z < 4));
}
