//! Addressing vocabulary. A tree holds exactly one chunk, at the origin; the
//! chunk types exist so that streaming can add chunks later without changing
//! how a voxel address is spelled.

use vstd::prelude::*;

verus! {

/// An unsigned voxel or cell coordinate.
#[derive(Clone, Copy, PartialEq, Eq, Structural, Debug, Hash, Default)]
pub struct UVec3 {
    pub x: u32,
    pub y: u32,
    pub z: u32,
}

/// A signed voxel coordinate, which may lie outside the volume.
#[derive(Clone, Copy, PartialEq, Eq, Structural, Debug, Hash, Default)]
pub struct IVec3 {
    pub x: i32,
    pub y: i32,
    pub z: i32,
}

impl UVec3 {
    pub fn new(x: u32, y: u32, z: u32) -> (p: UVec3)
        ensures
            p == (UVec3 { x, y, z }),
    {
        UVec3 { x, y, z }
    }

    /// The same value on every axis.
    pub fn splat(v: u32) -> (p: UVec3)
        ensures
            p == (UVec3 { x: v, y: v, z: v }),
    {
        UVec3 { x: v, y: v, z: v }
    }

    /// Whether every component is below `extent`.
    pub open spec fn within(self, extent: int) -> bool {
        self.x < extent && self.y < extent && self.z < extent
    }

    /// The smaller of each component.
    pub fn min(self, other: UVec3) -> (p: UVec3)
        ensures
            p.x == vstd::math::min(self.x as int, other.x as int),
            p.y == vstd::math::min(self.y as int, other.y as int),
            p.z == vstd::math::min(self.z as int, other.z as int),
    {
        UVec3 {
            x: if self.x < other.x { self.x } else { other.x },
            y: if self.y < other.y { self.y } else { other.y },
            z: if self.z < other.z { self.z } else { other.z },
        }
    }

    /// The larger of each component.
    pub fn max(self, other: UVec3) -> (p: UVec3)
        ensures
            p.x == vstd::math::max(self.x as int, other.x as int),
            p.y == vstd::math::max(self.y as int, other.y as int),
            p.z == vstd::math::max(self.z as int, other.z as int),
    {
        UVec3 {
            x: if self.x > other.x { self.x } else { other.x },
            y: if self.y > other.y { self.y } else { other.y },
            z: if self.z > other.z { self.z } else { other.z },
        }
    }
}

impl IVec3 {
    pub fn new(x: i32, y: i32, z: i32) -> (p: IVec3)
        ensures
            p == (IVec3 { x, y, z }),
    {
        IVec3 { x, y, z }
    }

    /// The same value on every axis.
    pub fn splat(v: i32) -> (p: IVec3)
        ensures
            p == (IVec3 { x: v, y: v, z: v }),
    {
        IVec3 { x: v, y: v, z: v }
    }
}

/// Which chunk of the world.
#[derive(Clone, Copy, PartialEq, Eq, Structural, Debug, Hash, Default)]
pub struct ChunkCoord(pub IVec3);

impl ChunkCoord {
    /// The one chunk there is.
    pub fn origin() -> (chunk: ChunkCoord)
        ensures
            chunk == ChunkCoord(IVec3 { x: 0, y: 0, z: 0 }),
    {
        ChunkCoord(IVec3 { x: 0, y: 0, z: 0 })
    }
}

/// A voxel of a chunk.
#[derive(Clone, Copy, PartialEq, Eq, Structural, Debug)]
pub struct VoxelPos {
    pub chunk: ChunkCoord,
    pub local: UVec3,
}

impl VoxelPos {
    /// A voxel of the chunk at the origin.
    pub fn at_origin(local: UVec3) -> (pos: VoxelPos)
        ensures
            pos.chunk == ChunkCoord(IVec3 { x: 0, y: 0, z: 0 }),
            pos.local == local,
    {
        VoxelPos { chunk: ChunkCoord::origin(), local }
    }
}

/// Distinct voxels out of a list are no more than the list.
pub proof fn lemma_no_more_than(few: Seq<UVec3>, many: Seq<UVec3>)
    requires
        few.no_duplicates(),
        forall|i: int| 0 <= i < few.len() ==> many.contains(#[trigger] few[i]),
    ensures
        few.len() <= many.len(),
{
    few.unique_seq_to_set();
    assert(few.to_set().subset_of(many.to_set())) by {
        assert forall|q: UVec3| few.to_set().contains(q) implies many.to_set().contains(q) by {
            let i = choose|i: int| 0 <= i < few.len() && few[i] == q;
            assert(many.contains(few[i]));
        }
    }
    vstd::set_lib::lemma_len_subset(few.to_set(), many.to_set());
    vstd::seq_lib::seq_to_set_is_finite(many);
    many.lemma_cardinality_of_set();
}

} // verus!
