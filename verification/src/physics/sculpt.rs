//! The brush on a body: an erase that cuts it in two leaves two bodies.

use crate::address::{lemma_no_more_than, UVec3};
use crate::contree::Contree;
use crate::edit::{edited, has_room, listed, places};
use crate::material::MaterialId;
use crate::physics::connect::{before, is_piece, lemma_joined_solid, solid_in_tree};
use crate::physics::detach::{
    components, in_some_piece, is_components, law_components_cover_the_tree,
    law_components_share_no_voxel, lists, whole_piece, with_materials,
};
use crate::sparse::lemma_solids;
use vstd::prelude::*;

verus! {

/// What an erase left of a body.
#[derive(Debug)]
pub enum Cut {
    /// Nothing: the body is removed.
    Gone,
    /// One body, whatever its shape.
    Whole,
    /// More than one. The largest piece stays in the volume, keeping the body's
    /// identity, and each other piece has a volume of its own, where it stood.
    Apart(Vec<Contree>),
}

/// Whether pieces stay together: there is only one, or more bodies than the scene
/// can hold would come of them.
pub open spec fn stays_whole(pieces: int, bodies: int, max_bodies: int) -> bool {
    pieces == 1 || bodies - 1 + pieces > max_bodies
}

/// Whether a tree holds one piece of another and nothing else.
pub open spec fn holds_piece(whole: Contree, part: Contree, piece: Seq<UVec3>) -> bool {
    &&& part.sound()
    &&& part.tidied()
    &&& whole.orderly() ==> part.orderly()
    &&& whole.canonical() ==> part.canonical()
    &&& whole.accounted() ==> part.accounted()
    &&& part.side() == whole.side()
    &&& forall|p: UVec3|
        p.within(whole.side()) ==> #[trigger] part.at(p) == if piece.contains(p) {
            whole.at(p)
        } else {
            MaterialId(0)
        }
}

/// Whether voxels are all solid in a tree.
pub open spec fn all_solid(tree: Contree, cut: Seq<UVec3>) -> bool {
    forall|i: int| 0 <= i < cut.len() ==> solid_in_tree(tree)(#[trigger] cut[i])
}

/// Splits what an erase cut apart into volumes, unless that would take the scene
/// past `max_bodies`, in which case the pieces stay together: a body past the cap is
/// not drawn, and a rigid body can hold disconnected voxels. `bodies` counts the
/// scene's bodies, this one among them.
#[verifier::rlimit(40)]
pub fn split(volume: &mut Contree, bodies: usize, max_bodies: usize) -> (cut: Cut)
    requires
        old(volume).sound(),
        old(volume).tidied(),
        bodies >= 1,
        old(volume).side() <= 1024 || old(volume).solids().len() * 14 <= u32::MAX,
        forall|cut: Seq<UVec3>| #[trigger]
            all_solid(*old(volume), cut) ==> has_room(*old(volume), cut),
    ensures
        edited(*old(volume), *final(volume)),
        exists|pieces: Seq<Seq<UVec3>>| #[trigger]
            is_components(*old(volume), pieces) && match cut {
                Cut::Gone => pieces.len() == 0 && *final(volume) == *old(volume),
                Cut::Whole => pieces.len() >= 1 && stays_whole(
                    pieces.len() as int,
                    bodies as int,
                    max_bodies as int,
                ) && *final(volume) == *old(volume),
                Cut::Apart(parts) => {
                    &&& pieces.len() >= 2
                    &&& !stays_whole(pieces.len() as int, bodies as int, max_bodies as int)
                    &&& holds_piece(*old(volume), *final(volume), pieces[0])
                    &&& parts@.len() == pieces.len() - 1
                    &&& forall|k: int|
                        0 <= k < parts@.len() ==> holds_piece(
                            *old(volume),
                            #[trigger] parts@[k],
                            pieces[k + 1],
                        )
                },
            },
        cut is Gone <==> forall|p: UVec3| !#[trigger] solid_in_tree(*old(volume))(p),
        cut matches Cut::Apart(parts) ==> {
            &&& parts@.len() >= 1
            &&& bodies + parts@.len() <= max_bodies
            &&& forall|k: int, p: UVec3|
                0 <= k < parts@.len() && p.within(old(volume).side()) && (#[trigger] parts@[k].at(
                    p,
                )).0 != 0 ==> parts@[k].at(p) == old(volume).at(p) && final(volume).at(p).0 == 0
        },
{
    let ghost t = *volume;
    let ghost solid = solid_in_tree(t);
    let pieces = components(volume);
    let ghost found = lists(pieces@);
    proof {
        crate::plan::lemma_volume(t.height());
        assert forall|k: int| 0 <= k < found.len() implies whole_piece(t, #[trigger] found[k]) by {}
    }
    if pieces.len() == 0 {
        proof {
            assert forall|p: UVec3| !#[trigger] solid(p) by {
                if solid(p) {
                    assert(in_some_piece(found, p));
                }
            }
        }
        return Cut::Gone;
    }
    proof {
        assert(whole_piece(t, found[0]));
        let a = choose|a: UVec3| solid(a) && #[trigger] is_piece(solid, a, found[0]);
        assert(solid(a));
    }
    let would_have: u128 = (bodies as u128 - 1) + pieces.len() as u128;
    if pieces.len() == 1 || would_have > max_bodies as u128 {
        return Cut::Whole;
    }
    let extent: u32 = volume.extent();
    let mut parts: Vec<Contree> = Vec::new();
    let mut others: Vec<UVec3> = Vec::new();
    for k in 1..pieces.len()
        invariant
            t == *volume,
            t.sound(),
            solid == solid_in_tree(t),
            found == lists(pieces@),
            extent == t.side(),
            t.side() <= 1024 || t.solids().len() * 14 <= u32::MAX,
            forall|k: int| 0 <= k < found.len() ==> whole_piece(t, #[trigger] found[k]),
            parts@.len() == k - 1,
            forall|j: int|
                0 <= j < parts@.len() ==> holds_piece(t, #[trigger] parts@[j], found[j + 1]),
            all_solid(t, others@),
            forall|p: UVec3| #[trigger]
                others@.contains(p) <==> in_some_piece(found.subrange(1, k as int), p),
    {
        let mut voxels: Vec<(UVec3, MaterialId)> = Vec::new();
        let ghost piece = found[k as int];
        let ghost had = others@;
        let size: usize = pieces[k].len();
        proof {
            assert(whole_piece(t, found[k as int]));
            assert(pieces@[k as int]@ == piece);
            assert(had + piece.take(0) =~= had);
        }
        let ghost a = choose|a: UVec3| solid(a) && #[trigger] is_piece(solid, a, piece);
        for i in 0..size
            invariant
                t == *volume,
                t.sound(),
                solid == solid_in_tree(t),
                k < pieces@.len(),
                size == piece.len(),
                pieces@[k as int]@ == piece,
                is_piece(solid, a, piece),
                voxels@ == with_materials(t, piece).take(i as int),
                others@ == had + piece.take(i as int),
                all_solid(t, others@),
        {
            let p = pieces[k][i];
            proof {
                assert(piece[i as int] == p);
                assert(piece.contains(p));
                lemma_joined_solid(solid, a, p);
                assert(with_materials(t, piece).take(i + 1) =~= with_materials(t, piece).take(
                    i as int,
                ).push((p, t.at(p))));
                assert(had + piece.take(i + 1) =~= (had + piece.take(i as int)).push(p));
            }
            let material = volume.get(p);
            voxels.push((p, material));
            others.push(p);
        }
        proof {
            assert(with_materials(t, piece).take(piece.len() as int) =~= with_materials(t, piece));
            assert(piece.take(piece.len() as int) =~= piece);
            lemma_piece_size(t, a, piece);
            assert forall|j: int| 0 <= j < voxels@.len() implies {
                let p = (#[trigger] voxels@[j]).0;
                0 <= p.x < 0 + t.side() && 0 <= p.y < 0 + t.side() && 0 <= p.z < 0 + t.side()
            } by {
                assert(piece.contains(piece[j]));
                lemma_joined_solid(solid, a, piece[j]);
            }
            crate::dense::lemma_extent_levels(t.height());
            assert(crate::dense::is_extent(t.side()));
        }
        let part = Contree::from_voxels(extent, &voxels);
        proof {
            assert forall|p: UVec3| p.within(t.side()) implies #[trigger] part.at(p) == if piece.contains(
                p,
            ) {
                t.at(p)
            } else {
                MaterialId(0)
            } by {
                lemma_listed_piece(t, piece, p);
            }
            assert(holds_piece(t, part, piece));
            lemma_more_pieces(found, k as int, had, others@, piece);
        }
        parts.push(part);
    }
    volume.clear_voxels(&others);
    proof {
        lemma_first_left(t, *volume, found, others@);
        assert(is_components(t, found));
        assert forall|k: int, p: UVec3|
            0 <= k < parts@.len() && p.within(t.side()) && (#[trigger] parts@[k].at(p)).0
                != 0 implies parts@[k].at(p) == t.at(p) && volume.at(p).0 == 0 by {
            assert(holds_piece(t, parts@[k], found[k + 1]));
            law_components_share_no_voxel(t, found, 0, k + 1, p);
        }
    }
    Cut::Apart(parts)
}

/// A piece has no more voxels than the tree.
proof fn lemma_piece_size(tree: Contree, a: UVec3, piece: Seq<UVec3>)
    requires
        tree.readable(),
        is_piece(solid_in_tree(tree), a, piece),
    ensures
        piece.len() <= tree.solids().len(),
{
    let all = places(tree.solids());
    lemma_solids(tree);
    assert(piece.no_duplicates()) by {
        assert forall|i: int, j: int| 0 <= i < piece.len() && 0 <= j < piece.len() && i
            != j implies piece[i] != piece[j] by {
            if i < j {
                assert(before(piece[i], piece[j]));
            } else {
                assert(before(piece[j], piece[i]));
            }
        }
    }
    assert forall|i: int| 0 <= i < piece.len() implies all.contains(#[trigger] piece[i]) by {
        assert(piece.contains(piece[i]));
        lemma_joined_solid(solid_in_tree(tree), a, piece[i]);
        let k = choose|k: int|
            0 <= k < tree.solids().len() && (#[trigger] tree.solids()[k]).0 == piece[i];
        assert(all[k] == piece[i]);
    }
    lemma_no_more_than(piece, all);
}

/// What a piece with its materials says of a voxel.
proof fn lemma_listed_piece(tree: Contree, piece: Seq<UVec3>, p: UVec3)
    ensures
        listed(with_materials(tree, piece), p) == if piece.contains(p) {
            Some(tree.at(p).0)
        } else {
            None
        },
    decreases piece.len(),
{
    if piece.len() > 0 {
        let rest = piece.drop_last();
        lemma_listed_piece(tree, rest, p);
        assert(with_materials(tree, piece).drop_last() =~= with_materials(tree, rest));
        if piece.contains(p) && piece.last() != p {
            let k = choose|k: int| 0 <= k < piece.len() && piece[k] == p;
            assert(rest[k] == p);
        }
        if rest.contains(p) {
            let k = choose|k: int| 0 <= k < rest.len() && rest[k] == p;
            assert(piece[k] == p);
        }
        if piece.last() == p {
            assert(piece[piece.len() - 1] == p);
        }
    }
}

/// One more piece among those cleared.
proof fn lemma_more_pieces(
    found: Seq<Seq<UVec3>>,
    k: int,
    had: Seq<UVec3>,
    others: Seq<UVec3>,
    piece: Seq<UVec3>,
)
    requires
        1 <= k < found.len(),
        piece == found[k],
        others == had + piece,
        forall|p: UVec3| #[trigger] had.contains(p) <==> in_some_piece(found.subrange(1, k), p),
    ensures
        forall|p: UVec3| #[trigger]
            others.contains(p) <==> in_some_piece(found.subrange(1, k + 1), p),
{
    let (some, more) = (found.subrange(1, k), found.subrange(1, k + 1));
    assert forall|p: UVec3| #[trigger] others.contains(p) <==> in_some_piece(more, p) by {
        if others.contains(p) {
            let i = choose|i: int| 0 <= i < others.len() && others[i] == p;
            if i < had.len() {
                assert(had[i] == p);
                assert(had.contains(p));
                let l = choose|l: int| 0 <= l < some.len() && (#[trigger] some[l]).contains(p);
                assert(more[l] == some[l]);
            } else {
                assert(piece[i - had.len()] == p);
                assert(more[k - 1] == piece);
            }
        }
        if in_some_piece(more, p) {
            let l = choose|l: int| 0 <= l < more.len() && (#[trigger] more[l]).contains(p);
            if l < some.len() {
                assert(some[l] == more[l]);
                assert(had.contains(p));
                let i = choose|i: int| 0 <= i < had.len() && had[i] == p;
                assert(others[i] == p);
            } else {
                let i = choose|i: int| 0 <= i < piece.len() && piece[i] == p;
                assert(others[had.len() + i] == p);
            }
        }
    }
}

/// With every other piece cleared, the first is left.
proof fn lemma_first_left(
    tree: Contree,
    left: Contree,
    found: Seq<Seq<UVec3>>,
    others: Seq<UVec3>,
)
    requires
        found.len() >= 1,
        is_components(tree, found),
        edited(tree, left),
        tree.tidied(),
        forall|p: UVec3| #[trigger]
            others.contains(p) <==> in_some_piece(found.subrange(1, found.len() as int), p),
        forall|p: UVec3|
            p.within(tree.side()) ==> #[trigger] left.at(p) == if others.contains(p) {
                MaterialId(0)
            } else {
                tree.at(p)
            },
        forall|p: UVec3| #[trigger] solid_in_tree(tree)(p) ==> in_some_piece(found, p),
    ensures
        holds_piece(tree, left, found[0]),
{
    let rest = found.subrange(1, found.len() as int);
    assert forall|p: UVec3| p.within(tree.side()) implies #[trigger] left.at(p) == if found[0].contains(
        p,
    ) {
        tree.at(p)
    } else {
        MaterialId(0)
    } by {
        if found[0].contains(p) && others.contains(p) {
            let l = choose|l: int| 0 <= l < rest.len() && (#[trigger] rest[l]).contains(p);
            law_components_share_no_voxel(tree, found, 0, l + 1, p);
        }
        if !found[0].contains(p) && !others.contains(p) && solid_in_tree(tree)(p) {
            assert(in_some_piece(found, p));
            let l = choose|l: int| 0 <= l < found.len() && (#[trigger] found[l]).contains(p);
            assert(rest[l - 1] == found[l]);
        }
    }
}

/// A split loses nothing and doubles nothing: each voxel of the whole is in exactly
/// one of the parts that hold its pieces, with its material, and the parts hold
/// nothing else.
pub proof fn law_a_split_keeps_every_voxel(
    whole: Contree,
    parts: Seq<Contree>,
    pieces: Seq<Seq<UVec3>>,
    p: UVec3,
)
    requires
        whole.readable(),
        is_components(whole, pieces),
        parts.len() == pieces.len(),
        forall|k: int| 0 <= k < parts.len() ==> holds_piece(whole, #[trigger] parts[k], pieces[k]),
        p.within(whole.side()),
    ensures
        solid_in_tree(whole)(p) ==> exists|k: int|
            0 <= k < parts.len() && (#[trigger] parts[k]).at(p) == whole.at(p),
        forall|k: int, l: int|
            0 <= k < l < parts.len() && (#[trigger] parts[k]).at(p) != MaterialId(0)
                ==> (#[trigger] parts[l]).at(p) == MaterialId(0),
        forall|k: int|
            0 <= k < parts.len() && (#[trigger] parts[k]).at(p) != MaterialId(0) ==> parts[k].at(p)
                == whole.at(p),
{
    if solid_in_tree(whole)(p) {
        law_components_cover_the_tree(whole, pieces, p);
        let k = choose|k: int| 0 <= k < pieces.len() && (#[trigger] pieces[k]).contains(p);
        assert(parts[k].at(p) == whole.at(p));
    }
    assert forall|k: int, l: int|
        0 <= k < l < parts.len() && (#[trigger] parts[k]).at(p) != MaterialId(
            0,
        ) implies (#[trigger] parts[l]).at(p) == MaterialId(0) by {
        law_components_share_no_voxel(whole, pieces, k, l, p);
    }
}

/// Pieces part only where the scene has room for all of them: the one that stays is a
/// body already, and each other becomes one.
pub proof fn law_pieces_part_where_there_is_room(pieces: int, bodies: int, max_bodies: int)
    requires
        pieces >= 2,
        bodies >= 1,
    ensures
        stays_whole(pieces, bodies, max_bodies) <==> bodies + (pieces - 1) > max_bodies,
        stays_whole(1, bodies, max_bodies),
{
}

/// The largest piece keeps the body, and the pieces that leave come in falling size.
pub proof fn law_the_largest_piece_keeps_the_body(
    whole: Contree,
    pieces: Seq<Seq<UVec3>>,
    k: int,
)
    requires
        is_components(whole, pieces),
        0 <= k < pieces.len(),
    ensures
        pieces[0].len() >= pieces[k].len(),
{
    if k > 0 {
        crate::physics::detach::law_components_come_largest_first(whole, pieces, 0, k);
    }
}

} // verus!
