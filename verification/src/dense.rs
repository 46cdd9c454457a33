//! A flat cubic volume. Reference representation for tests and model import.

use crate::address::UVec3;
use crate::grid::{cell_count, cell_index, index_of, lemma_cell_bound, lemma_cell_injective};
use crate::material::MaterialId;
use crate::tree::{extent_of, lemma_extent};
use vstd::prelude::*;

verus! {

/// A cube of voxels, each stored.
#[derive(Debug, PartialEq, Eq)]
pub struct DenseVolume {
    extent: u32,
    data: Vec<u8>,
}

/// Why a volume could not be created.
///
/// This is a real error rather than an assertion because model import feeds
/// extents straight from files, and MagicaVoxel models are arbitrary sizes.
#[derive(Clone, Copy, PartialEq, Eq, Debug)]
pub enum VolumeError {
    /// Extents must be 4, 16, 64, 256 ... so that they map onto whole tree levels.
    InvalidExtent { extent: u32 },
}

/// Whether an extent maps onto whole tree levels: a power of four, at least 4. The
/// five that volumes mostly have are spelled out.
pub open spec fn is_extent(extent: int) -> bool {
    ||| extent == 4
    ||| extent == 16
    ||| extent == 64
    ||| extent == 256
    ||| extent == 1024
    ||| exists|level: int| 0 <= level && extent == #[trigger] extent_of(level)
}

/// Every extent is that of a level, the five spelled out too.
pub proof fn lemma_extent_of_level(extent: int) -> (level: int)
    requires
        is_extent(extent),
    ensures
        0 <= level,
        extent == extent_of(level),
{
    reveal_with_fuel(extent_of, 6);
    if extent == 4 {
        0
    } else if extent == 16 {
        1
    } else if extent == 64 {
        2
    } else if extent == 256 {
        3
    } else if extent == 1024 {
        4
    } else {
        choose|level: int| 0 <= level && extent == #[trigger] extent_of(level)
    }
}

/// Extents grow with the level.
pub proof fn lemma_extent_strict(a: int, b: int)
    requires
        -1 <= a < b,
    ensures
        extent_of(a) < extent_of(b),
    decreases b - a,
{
    lemma_extent(a);
    lemma_extent(a + 1);
    if a + 1 < b {
        lemma_extent_strict(a + 1, b);
    }
}

/// No two levels share an extent.
pub proof fn lemma_extent_unique(a: int, b: int)
    requires
        -1 <= a,
        -1 <= b,
        extent_of(a) == extent_of(b),
    ensures
        a == b,
{
    if a < b {
        lemma_extent_strict(a, b);
    } else if b < a {
        lemma_extent_strict(b, a);
    }
}

/// The extents that fit 32 bits belong to levels 0 to 14.
pub proof fn lemma_extent_levels(level: int)
    requires
        0 <= level,
    ensures
        extent_of(14) == 0x4000_0000,
        extent_of(level) <= u32::MAX <==> level <= 14,
{
    reveal_with_fuel(extent_of, 17);
    if level < 14 {
        lemma_extent_strict(level, 14);
    }
    if level > 15 {
        lemma_extent_strict(15, level);
    }
}

/// The tree level that covers `extent` voxels, where there is one.
pub fn level_of_extent(extent: u32) -> (level: Option<u32>)
    ensures
        level matches Some(level) ==> level <= 14 && extent == extent_of(level as int),
        level is None <==> !is_extent(extent as int),
{
    let mut level: u32 = 0;
    let mut covered: u32 = 4;
    proof {
        reveal_with_fuel(extent_of, 2);
    }
    while level < 14 && covered < extent
        invariant
            level <= 14,
            covered == extent_of(level as int),
            level > 0 ==> extent_of(level - 1) < extent,
        decreases 14 - level,
    {
        proof {
            lemma_extent_levels(level + 1);
        }
        level = level + 1;
        covered = covered * 4;
    }
    if covered == extent {
        return Some(level);
    }
    proof {
        if is_extent(extent as int) {
            let other = lemma_extent_of_level(extent as int);
            lemma_extent_levels(other);
            if other < level {
                if other < level - 1 {
                    lemma_extent_strict(other, level - 1);
                }
            } else if other > level {
                lemma_extent_strict(level as int, other);
            }
        }
    }
    None
}

impl DenseVolume {
    /// A volume that exists has a legal extent, and a byte for every voxel.
    #[verifier::type_invariant]
    spec fn inv(self) -> bool {
        &&& is_extent(self.extent as int)
        &&& self.data@.len() == cell_count(self.extent as int) <= usize::MAX
    }

    /// Voxels along each axis.
    pub closed spec fn side(&self) -> u32 {
        self.extent
    }

    /// The voxel at a position.
    pub closed spec fn at(&self, p: UVec3) -> MaterialId {
        MaterialId(self.data@[cell_index(self.extent as int, p.x as int, p.y as int, p.z as int)])
    }

    /// Creates an empty volume.
    ///
    /// `extent` must be a power of four, at least 4, so that it maps onto whole
    /// tree levels. Anything else is rejected here, at the boundary, which is
    /// what lets building a tree from a volume be infallible: a `DenseVolume`
    /// that exists is proof its extent is legal.
    pub fn new(extent: u32) -> (volume: Result<DenseVolume, VolumeError>)
        requires
            is_extent(extent as int) ==> cell_count(extent as int) <= isize::MAX,
        ensures
            volume is Ok <==> is_extent(extent as int),
            volume matches Ok(v) ==> v.side() == extent && forall|p: UVec3|
                p.within(extent as int) ==> v.at(p) == MaterialId(0),
            volume matches Err(e) ==> e == (VolumeError::InvalidExtent { extent }),
    {
        let level = level_of_extent(extent);
        if level.is_none() {
            return Err(VolumeError::InvalidExtent { extent });
        }
        proof {
            assert(extent * extent <= extent * extent * extent) by (nonlinear_arith)
                requires
                    extent >= 0,
            ;
            assert(0 <= extent * extent) by (nonlinear_arith);
        }
        let e = extent as usize;
        let data: Vec<u8> = vec![0; e * e * e];
        let volume = DenseVolume { extent, data };
        proof {
            assert forall|p: UVec3| p.within(extent as int) implies volume.at(p) == MaterialId(0) by {
                lemma_cell_bound(extent as int, p.x as int, p.y as int, p.z as int);
            }
        }
        Ok(volume)
    }

    pub fn extent(&self) -> (extent: u32)
        ensures
            extent == self.side(),
            is_extent(extent as int),
    {
        proof {
            use_type_invariant(self);
        }
        self.extent
    }

    pub fn get(&self, p: UVec3) -> (material: MaterialId)
        requires
            p.within(self.side() as int),
        ensures
            material == self.at(p),
    {
        proof {
            use_type_invariant(self);
        }
        MaterialId(self.data[index_of(self.extent, p.x, p.y, p.z)])
    }

    pub fn set(&mut self, p: UVec3, material: MaterialId)
        requires
            p.within(old(self).side() as int),
        ensures
            final(self).side() == old(self).side(),
            forall|q: UVec3|
                q.within(old(self).side() as int) ==> #[trigger] final(self).at(q) == if q == p {
                    material
                } else {
                    old(self).at(q)
                },
    {
        proof {
            use_type_invariant(&*self);
        }
        let i = index_of(self.extent, p.x, p.y, p.z);
        self.data[i] = material.0;
        proof {
            let e = self.extent as int;
            assert forall|q: UVec3| q.within(e) implies #[trigger] self.at(q) == if q == p {
                material
            } else {
                old(self).at(q)
            } by {
                lemma_cell_bound(e, q.x as int, q.y as int, q.z as int);
                if q != p {
                    if cell_index(e, q.x as int, q.y as int, q.z as int) == i {
                        lemma_cell_injective(
                            e,
                            q.x as int,
                            q.y as int,
                            q.z as int,
                            p.x as int,
                            p.y as int,
                            p.z as int,
                        );
                    }
                }
            }
        }
    }
}

impl Clone for DenseVolume {
    fn clone(&self) -> (copy: DenseVolume)
        ensures
            copy.side() == self.side(),
            forall|p: UVec3| #[trigger] copy.at(p) == self.at(p),
    {
        proof {
            use_type_invariant(self);
        }
        let data = self.data.clone();
        assert(data@ =~= self.data@);
        DenseVolume { extent: self.extent, data }
    }
}

} // verus!
